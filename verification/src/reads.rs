//! Quorum reads that wait for replies.

use crate::commit;
use std::collections::HashMap;
use vstd::prelude::*;

verus! {

/// A quorum read in progress: the request that it answers to, how many replies
/// it needs, and those it has, in order of arrival.
#[verifier::ext_equal]
pub struct ReadView<V> {
    pub req_id: u64,
    pub quorum: usize,
    pub responses: Seq<(Option<V>, u64)>,
}

impl<V> ReadView<V> {
    /// The replies suffice.
    pub open spec fn complete(self) -> bool {
        self.responses.len() >= self.quorum
    }

    /// The read once a reply has arrived: replies beyond the quorum are ignored.
    pub open spec fn with_reply(self, val: Option<V>, version: u64) -> Self {
        if self.complete() {
            self
        } else {
            ReadView { responses: self.responses.push((val, version)), ..self }
        }
    }
}

/// `result` is what a read ends with: the best of its replies if they
/// suffice, else nothing.
pub open spec fn is_read_result<V: Clone>(read: ReadView<V>, result: Option<V>) -> bool {
    if read.complete() {
        commit::is_best_read(read.responses, result)
    } else {
        result is None
    }
}

/// The quorum reads in progress.
#[verifier::ext_equal]
pub struct ReadsView<V> {
    /// The reads, each under its own handle.
    pub readers: Map<u64, ReadView<V>>,
    /// For each request number, the read that gets its replies.
    pub routes: Map<u64, u64>,
}

impl<V> ReadsView<V> {
    /// Replies are routed to reads in progress under that request number, and
    /// every handle is below `bound`.
    pub open spec fn valid(self, bound: u64) -> bool {
        &&& forall|req_id: u64| #[trigger]
            self.routes.contains_key(req_id) ==> self.readers.contains_key(self.routes[req_id])
                && self.readers[self.routes[req_id]].req_id == req_id
        &&& forall|reader: u64| #[trigger] self.readers.contains_key(reader) ==> reader < bound
    }

    /// A read has begun, and gets the replies to its request from now on.
    pub open spec fn with_reader(self, reader: u64, req_id: u64, quorum: usize) -> Self {
        ReadsView {
            readers: self.readers.insert(
                reader,
                ReadView { req_id, quorum, responses: Seq::empty() },
            ),
            routes: self.routes.insert(req_id, reader),
        }
    }

    /// A reply has reached a read.
    pub open spec fn with_reply_to(self, reader: u64, val: Option<V>, version: u64) -> Self {
        ReadsView {
            readers: self.readers.insert(reader, self.readers[reader].with_reply(val, version)),
            ..self
        }
    }

    /// A reply to a request has arrived; one that no read waits for is ignored.
    pub open spec fn with_reply(self, req_id: u64, val: Option<V>, version: u64) -> Self {
        if self.routes.contains_key(req_id) {
            self.with_reply_to(self.routes[req_id], val, version)
        } else {
            self
        }
    }

    /// The read that the next reply to a request completes, if any.
    pub open spec fn completed_by(self, req_id: u64) -> Option<u64> {
        if self.routes.contains_key(req_id) && self.readers[self.routes[req_id]].responses.len() + 1
            == self.readers[self.routes[req_id]].quorum {
            Some(self.routes[req_id])
        } else {
            None
        }
    }

    /// A read is over.
    pub open spec fn without_reader(self, reader: u64) -> Self {
        ReadsView {
            readers: self.readers.remove(reader),
            routes: self.routes.remove(self.readers[reader].req_id),
        }
    }
}

struct ReadCollector<V> {
    req_id: u64,
    quorum: usize,
    responses: Vec<(Option<V>, u64)>,
}

impl<V> ReadCollector<V> {
    spec fn model(self) -> ReadView<V> {
        ReadView { req_id: self.req_id, quorum: self.quorum, responses: self.responses@ }
    }
}

/// The quorum reads in progress.
pub struct PendingReads<V> {
    readers: HashMap<u64, ReadCollector<V>>,
    routes: HashMap<u64, u64>,
}

impl<V> View for PendingReads<V> {
    type V = ReadsView<V>;

    closed spec fn view(&self) -> ReadsView<V> {
        ReadsView {
            readers: self.readers@.map_values(|read: ReadCollector<V>| read.model()),
            routes: self.routes@,
        }
    }
}

impl<V: Clone> PendingReads<V> {
    /// No reads in progress.
    pub fn new() -> (pending: Self)
        ensures
            pending@.readers == Map::<u64, ReadView<V>>::empty(),
            pending@.routes == Map::<u64, u64>::empty(),
    {
        let pending = PendingReads { readers: HashMap::new(), routes: HashMap::new() };
        assert(pending@.readers =~= Map::<u64, ReadView<V>>::empty());
        pending
    }

    /// Whether a read is in progress.
    pub fn contains(&self, reader: u64) -> (open: bool)
        ensures
            open == self@.readers.contains_key(reader),
    {
        self.readers.contains_key(&reader)
    }

    /// Whether a read has the replies it needs.
    pub fn is_complete(&self, reader: u64) -> (complete: bool)
        ensures
            complete == (self@.readers.contains_key(reader) && self@.readers[reader].complete()),
    {
        match self.readers.get(&reader) {
            Some(read) => {
                assert(self@.readers[reader] == read.model());
                read.responses.len() >= read.quorum
            },
            None => false,
        }
    }

    /// The read that gets the replies to a request.
    pub fn route(&self, req_id: u64) -> (reader: Option<u64>)
        ensures
            reader == (if self@.routes.contains_key(req_id) {
                Some(self@.routes[req_id])
            } else {
                None
            }),
    {
        match self.routes.get(&req_id) {
            Some(reader) => Some(*reader),
            None => None,
        }
    }

    /// Begin a read that needs `quorum` replies.
    pub fn open(&mut self, reader: u64, req_id: u64, quorum: usize)
        ensures
            final(self)@ == old(self)@.with_reader(reader, req_id, quorum),
    {
        let ghost before = self@;
        self.readers.insert(reader, ReadCollector { req_id, quorum, responses: Vec::new() });
        self.routes.insert(req_id, reader);
        assert(self@ =~= before.with_reader(reader, req_id, quorum));
    }

    /// A reply has reached a read. Returns whether it completes the read.
    pub fn deliver(&mut self, reader: u64, val: Option<V>, version: u64) -> (completes: bool)
        requires
            old(self)@.readers.contains_key(reader),
        ensures
            final(self)@ == old(self)@.with_reply_to(reader, val, version),
            completes == (!old(self)@.readers[reader].complete()
                && final(self)@.readers[reader].complete()),
    {
        let ghost before = self@;
        match self.readers.remove(&reader) {
            None => false,
            Some(mut read) => {
                let waiting = read.responses.len() < read.quorum;
                if waiting {
                    read.responses.push((val, version));
                }
                let completes = waiting && read.responses.len() >= read.quorum;
                self.readers.insert(reader, read);
                assert(self@ =~= before.with_reply_to(reader, val, version));
                completes
            },
        }
    }

    /// End a read, complete or not, and give its result.
    pub fn finish(&mut self, reader: u64) -> (result: Option<V>)
        requires
            old(self)@.readers.contains_key(reader),
        ensures
            final(self)@ == old(self)@.without_reader(reader),
            is_read_result(old(self)@.readers[reader], result),
    {
        let ghost before = self@;
        match self.readers.remove(&reader) {
            None => None,
            Some(read) => {
                assert(before.readers[reader] == read.model());
                self.routes.remove(&read.req_id);
                assert(self@ =~= before.without_reader(reader));
                if read.responses.len() >= read.quorum {
                    commit::select_best_read(read.responses.as_slice())
                } else {
                    None
                }
            },
        }
    }
}

/// A reply is recorded as it was given: a read that has fewer replies than it
/// needs has the value and the version at the end of its replies afterwards, and
/// one that has enough stays as it is.
pub proof fn law_reply_is_recorded_as_given<V>(read: ReadView<V>, val: Option<V>, version: u64)
    ensures
        read.complete() <==> read.responses.len() >= read.quorum,
        read.responses.len() < read.quorum ==> read.with_reply(val, version).responses
            == read.responses.push((val, version)),
        read.responses.len() >= read.quorum ==> read.with_reply(val, version).responses
            == read.responses,
        read.with_reply(val, version).quorum == read.quorum,
        read.with_reply(val, version).req_id == read.req_id,
{
}

/// A reply goes to the read that its request number stands for, and to no other;
/// a reply to no such read goes nowhere. The last reply that a read needs, and
/// only that, completes it.
pub proof fn law_reply_goes_to_its_read<V>(
    reads: ReadsView<V>,
    req_id: u64,
    val: Option<V>,
    version: u64,
    other: u64,
)
    ensures
        !reads.routes.contains_key(req_id) ==> reads.with_reply(req_id, val, version) == reads
            && reads.completed_by(req_id) is None,
        reads.routes.contains_key(req_id) ==> {
            let reader = reads.routes[req_id];
            let before = reads.readers[reader];
            let after = reads.with_reply(req_id, val, version);
            &&& after.routes == reads.routes
            &&& after.readers.contains_key(reader)
            &&& after.readers[reader].req_id == before.req_id
            &&& after.readers[reader].quorum == before.quorum
            &&& before.responses.len() < before.quorum ==> after.readers[reader].responses
                == before.responses.push((val, version))
            &&& before.responses.len() >= before.quorum ==> after.readers[reader].responses
                == before.responses
            &&& other != reader ==> (after.readers.contains_key(other)
                <==> reads.readers.contains_key(other)) && after.readers[other]
                == reads.readers[other]
            &&& reads.with_reply_to(reader, val, version) == after
            &&& reads.completed_by(req_id) == Some(reader) <==> before.responses.len()
                < before.quorum && after.readers[reader].responses.len() >= before.quorum
            &&& reads.completed_by(req_id) is None || reads.completed_by(req_id) == Some(reader)
        },
{
}

/// A reply that is handed to a read directly is recorded there in the same way.
pub proof fn law_own_reply_is_recorded<V>(
    reads: ReadsView<V>,
    reader: u64,
    val: Option<V>,
    version: u64,
    other: u64,
)
    ensures
        ({
            let before = reads.readers[reader];
            let after = reads.with_reply_to(reader, val, version);
            &&& after.routes == reads.routes
            &&& after.readers.contains_key(reader)
            &&& after.readers[reader].req_id == before.req_id
            &&& after.readers[reader].quorum == before.quorum
            &&& before.responses.len() < before.quorum ==> after.readers[reader].responses
                == before.responses.push((val, version))
            &&& before.responses.len() >= before.quorum ==> after.readers[reader].responses
                == before.responses
            &&& other != reader ==> (after.readers.contains_key(other)
                <==> reads.readers.contains_key(other)) && after.readers[other]
                == reads.readers[other]
        }),
{
}

/// A read begins without replies and gets those to its request number; when it
/// ends it gets none. Other reads are not touched by either.
pub proof fn law_reads_begin_and_end<V>(
    reads: ReadsView<V>,
    reader: u64,
    req_id: u64,
    quorum: usize,
    other: u64,
    other_req: u64,
)
    ensures
        ({
            let begun = reads.with_reader(reader, req_id, quorum);
            &&& begun.readers.contains_key(reader)
            &&& begun.readers[reader].req_id == req_id
            &&& begun.readers[reader].quorum == quorum
            &&& begun.readers[reader].responses.len() == 0
            &&& begun.routes.contains_pair(req_id, reader)
            &&& other != reader ==> (begun.readers.contains_key(other)
                <==> reads.readers.contains_key(other)) && begun.readers[other]
                == reads.readers[other]
            &&& other_req != req_id ==> (begun.routes.contains_key(other_req)
                <==> reads.routes.contains_key(other_req)) && begun.routes[other_req]
                == reads.routes[other_req]
        }),
        ({
            let ended = reads.without_reader(reader);
            let was = reads.readers[reader].req_id;
            &&& !ended.readers.contains_key(reader)
            &&& !ended.routes.contains_key(was)
            &&& other != reader ==> (ended.readers.contains_key(other)
                <==> reads.readers.contains_key(other)) && ended.readers[other]
                == reads.readers[other]
            &&& other_req != was ==> (ended.routes.contains_key(other_req)
                <==> reads.routes.contains_key(other_req)) && ended.routes[other_req]
                == reads.routes[other_req]
        }),
{
}

/// A read once some replies have arrived in order.
pub open spec fn after_replies<V>(read: ReadView<V>, replies: Seq<(Option<V>, u64)>) -> ReadView<V>
    decreases replies.len(),
{
    if replies.len() == 0 {
        read
    } else {
        after_replies(read, replies.drop_last()).with_reply(replies.last().0, replies.last().1)
    }
}

/// The result of a read is decided by the first replies that make its quorum. If
/// fewer arrive there is none; else it is a clone of a value among them such
/// that none of them that holds a value was given with a higher version, and
/// there is none only where none of them holds a value.
pub proof fn law_first_quorum_of_replies_decides<V: Clone>(
    read: ReadView<V>,
    replies: Seq<(Option<V>, u64)>,
    result: Option<V>,
)
    requires
        read.responses.len() == 0,
        is_read_result(after_replies(read, replies), result),
    ensures
        replies.len() < read.quorum ==> result is None,
        replies.len() >= read.quorum && result is None ==> forall|i: int|
            0 <= i < read.quorum ==> (#[trigger] replies[i]).0 is None,
        replies.len() >= read.quorum && result is Some ==> exists|i: int|
            0 <= i < read.quorum && (#[trigger] replies[i]).0 is Some && cloned(
                replies[i].0->0,
                result->0,
            ) && forall|j: int|
                0 <= j < read.quorum && (#[trigger] replies[j]).0 is Some ==> replies[j].1
                    <= replies[i].1,
{
    lemma_first_replies(read, replies);
    let after = after_replies(read, replies);
    if replies.len() >= read.quorum {
        assert(forall|i: int| 0 <= i < read.quorum ==> after.responses[i] == replies[i]);
        commit::law_best_read_is_newest(after.responses, result);
        if result is None {
            assert forall|i: int| 0 <= i < read.quorum implies (#[trigger] replies[i]).0 is None by {
                assert(after.responses[i].0 is None);
            }
        } else {
            let i = choose|i: int|
                0 <= i < after.responses.len() && (#[trigger] after.responses[i]).0 is Some
                    && cloned(after.responses[i].0->0, result->0) && (forall|j: int|
                    0 <= j < after.responses.len() && (#[trigger] after.responses[j]).0 is Some
                        ==> after.responses[j].1 <= after.responses[i].1);
            assert(replies[i].0 is Some);
            assert forall|j: int|
                0 <= j < read.quorum && (#[trigger] replies[j]).0 is Some implies replies[j].1
                <= replies[i].1 by {
                assert(after.responses[j].0 is Some);
            }
        }
    }
}

proof fn lemma_first_replies<V>(read: ReadView<V>, replies: Seq<(Option<V>, u64)>)
    requires
        read.responses.len() == 0,
    ensures
        after_replies(read, replies).quorum == read.quorum,
        after_replies(read, replies).responses == replies.take(
            if replies.len() < read.quorum {
                replies.len() as int
            } else {
                read.quorum as int
            },
        ),
    decreases replies.len(),
{
    if replies.len() > 0 {
        lemma_first_replies(read, replies.drop_last());
        assert(after_replies(read, replies).responses =~= replies.take(
            if replies.len() < read.quorum {
                replies.len() as int
            } else {
                read.quorum as int
            },
        ));
    } else {
        assert(read.responses =~= replies.take(0));
    }
}

} // verus!
