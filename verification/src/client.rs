//! A client: its connections to the nodes, and what it makes of their
//! answers.

use crate::membership;
use crate::messages;
use crate::messages::{ClientHello, ClientMessage, ClientResponse, LocalMessage};
use crate::random;
use crate::types::KVPair;
use crate::workload::Operation;
use vstd::prelude::*;
use vstd::string::*;

verus! {

/// How many operations a client has in flight at most.
pub const MAX_IN_FLIGHT: usize = 64;

/// How often a write is attempted at most.
pub const MAX_RETRIES: usize = 10;

/// A client's connections.
#[verifier::ext_equal]
pub struct ConnectionView {
    /// The names of the nodes that requests can be sent to, one connection
    /// each.
    pub writers: Seq<Seq<char>>,
    /// The names of the nodes to go to when the home node is left.
    pub others: Seq<Seq<char>>,
    /// The requests that wait for an answer.
    pub pending: Set<u64>,
    /// Whether the client has left its home node.
    pub failed_over: bool,
    /// The number of the next request.
    pub next_request: u64,
    /// Counts the requests sent, to take the connections in turn.
    pub round_robin: u64,
}

/// The number after `n`, starting over behind the greatest.
pub open spec fn next_number(n: u64) -> u64 {
    if n == u64::MAX {
        0
    } else {
        (n + 1) as u64
    }
}

/// The names in a list.
pub open spec fn names_in(list: Seq<String>) -> Seq<Seq<char>> {
    list.map_values(|name: String| name@)
}

/// The requests in a list of requests with their answers.
pub open spec fn drained_requests<V: Clone>(list: Seq<(u64, ClientResponse<V>)>) -> Seq<u64> {
    list.map_values(|item: (u64, ClientResponse<V>)| item.0)
}

/// Those of `names` that were reached, in their given order.
pub open spec fn reached_of(names: Seq<Seq<char>>, reached: Seq<bool>) -> Seq<Seq<char>>
    decreases names.len(),
{
    if names.len() == 0 {
        Seq::empty()
    } else {
        let n = names.len() - 1;
        let rest = reached_of(names.drop_last(), reached);
        if reached[n] {
            rest.push(names.last())
        } else {
            rest
        }
    }
}

impl ConnectionView {
    /// The connection whose turn it is.
    pub open spec fn turn(self) -> usize {
        (self.round_robin as usize as int % self.writers.len() as int) as usize
    }

    /// A request has been sent on the connection whose turn it was.
    pub open spec fn with_request(self, req_id: u64) -> Self {
        ConnectionView {
            pending: self.pending.insert(req_id),
            round_robin: next_number(self.round_robin),
            ..self
        }
    }

    /// A request waits no longer.
    pub open spec fn without_request(self, req_id: u64) -> Self {
        ConnectionView { pending: self.pending.remove(req_id), ..self }
    }

    /// An attempt to have a request answered has ended: one that could not be
    /// sent, or whose connection broke, waits no longer. One that was answered
    /// ceased to wait when its answer came.
    pub open spec fn after_attempt<V: Clone>(self, req_id: u64, attempt: Attempt<V>) -> Self {
        match attempt {
            Attempt::NotSent => self.without_request(req_id),
            Attempt::Waited(Waited::Disconnected) => self.without_request(req_id),
            _ => self,
        }
    }

    /// The client has left its home node for those of the others that were
    /// reached; no request waits any more. A client that has left it before
    /// stays as it is.
    pub open spec fn after_failover(self, reached: Seq<bool>) -> Self {
        if self.failed_over {
            self
        } else {
            ConnectionView {
                writers: reached_of(self.others, reached),
                pending: Set::empty(),
                failed_over: true,
                ..self
            }
        }
    }
}

/// `drained` is what a client hands out as it begins to leave its home node.
pub open spec fn is_drained<V: Clone>(
    state: ConnectionView,
    drained: Option<Seq<(u64, ClientResponse<V>)>>,
) -> bool {
    match drained {
        None => state.failed_over,
        Some(list) => {
            &&& !state.failed_over
            &&& drained_requests(list).no_duplicates()
            &&& drained_requests(list).to_set() == state.pending
            &&& forall|i: int|
                0 <= i < list.len() ==> (#[trigger] list[i]).1 == (ClientResponse::<
                    V,
                >::WriteResult { success: false, req_id: 0 })
        },
    }
}

/// `req_id` and `after` are what comes of drawing the number of a request.
pub open spec fn is_number_drawn(before: ConnectionView, req_id: u64, after: ConnectionView) -> bool {
    &&& req_id == before.next_request
    &&& after == ConnectionView { next_request: next_number(req_id), ..before }
}

/// `writer` and `after` are what comes of beginning a request.
pub open spec fn is_request_begun(
    before: ConnectionView,
    req_id: u64,
    writer: Option<usize>,
    after: ConnectionView,
) -> bool {
    if before.writers.len() == 0 {
        writer is None && after == before
    } else {
        writer == Some(before.turn()) && after == before.with_request(req_id)
    }
}

/// `waiting` and `after` are what comes of an answer to a request.
pub open spec fn is_answer_handed(
    before: ConnectionView,
    req_id: u64,
    waiting: Option<u64>,
    after: ConnectionView,
) -> bool {
    &&& waiting == if before.pending.contains(req_id) {
        Some(req_id)
    } else {
        None
    }
    &&& after == before.without_request(req_id)
}

/// The state of a client's connections.
pub struct ConnectionState {
    writers: Vec<String>,
    others: Vec<String>,
    pending: Vec<u64>,
    failed_over: bool,
    next_request: u64,
    round_robin: u64,
}

impl View for ConnectionState {
    type V = ConnectionView;

    closed spec fn view(&self) -> ConnectionView {
        ConnectionView {
            writers: names_in(self.writers@),
            others: names_in(self.others@),
            pending: self.pending@.to_set(),
            failed_over: self.failed_over,
            next_request: self.next_request,
            round_robin: self.round_robin,
        }
    }
}

impl ConnectionState {
    /// No request waits twice.
    pub closed spec fn valid(self) -> bool {
        self.pending@.no_duplicates()
    }

    /// A client connected to its home node alone, with the others to go to.
    pub fn new(home: String, others: Vec<String>) -> (state: ConnectionState)
        ensures
            state.valid(),
            state@ == (ConnectionView {
                writers: seq![home@],
                others: names_in(others@),
                pending: Set::empty(),
                failed_over: false,
                next_request: 0,
                round_robin: 0,
            }),
    {
        let ghost name = home@;
        let mut writers: Vec<String> = Vec::new();
        writers.push(home);
        let state = ConnectionState {
            writers,
            others,
            pending: Vec::new(),
            failed_over: false,
            next_request: 0,
            round_robin: 0,
        };
        assert(state@.writers =~= seq![name]);
        assert(state@.pending =~= Set::empty());
        state
    }

    /// The nodes to go to when the home node is left.
    pub fn others(&self) -> (others: &Vec<String>)
        ensures
            names_in(others@) == self@.others,
    {
        &self.others
    }

    /// The nodes that requests can be sent to.
    pub fn writers(&self) -> (writers: &Vec<String>)
        ensures
            names_in(writers@) == self@.writers,
    {
        &self.writers
    }

    fn position_of(&self, req_id: u64) -> (position: Option<usize>)
        ensures
            match position {
                Some(p) => p < self.pending@.len() && self.pending@[p as int] == req_id,
                None => !self@.pending.contains(req_id),
            },
    {
        let mut i: usize = 0;
        while i < self.pending.len()
            invariant
                i <= self.pending@.len(),
                forall|j: int| 0 <= j < i ==> self.pending@[j] != req_id,
            decreases self.pending@.len() - i,
        {
            if self.pending[i] == req_id {
                return Some(i);
            }
            i += 1;
        }
        None
    }

    /// Whether a request waits for an answer.
    pub fn is_pending(&self, req_id: u64) -> (waits: bool)
        ensures
            waits == self@.pending.contains(req_id),
    {
        match self.position_of(req_id) {
            Some(p) => {
                assert(self.pending@.contains(self.pending@[p as int]));
                true
            },
            None => false,
        }
    }

    /// Draw the number of the next request.
    pub fn next_req_id(&mut self) -> (req_id: u64)
        requires
            old(self).valid(),
        ensures
            final(self).valid(),
            req_id == old(self)@.next_request,
            final(self)@ == (ConnectionView {
                next_request: next_number(req_id),
                ..old(self)@
            }),
            is_number_drawn(old(self)@, req_id, final(self)@),
    {
        let req_id = self.next_request;
        self.next_request = req_id.wrapping_add(1);
        req_id
    }

    /// Begin a request: the connection to send it on, or `None`, with nothing
    /// changed, where there is no connection.
    pub fn begin_request(&mut self, req_id: u64) -> (writer: Option<usize>)
        requires
            old(self).valid(),
        ensures
            final(self).valid(),
            old(self)@.writers.len() == 0 ==> writer is None && final(self)@ == old(self)@,
            old(self)@.writers.len() > 0 ==> {
                &&& writer == Some(old(self)@.turn())
                &&& writer->0 < old(self)@.writers.len()
                &&& final(self)@ == old(self)@.with_request(req_id)
            },
            is_request_begun(old(self)@, req_id, writer, final(self)@),
    {
        if self.writers.len() == 0 {
            return None;
        }
        let ghost before = self@;
        let writer = (self.round_robin as usize) % self.writers.len();
        self.round_robin = self.round_robin.wrapping_add(1);
        if !self.is_pending(req_id) {
            let ghost waiting = self.pending@;
            self.pending.push(req_id);
            proof {
                assert(self.pending@.to_set() =~= waiting.to_set().insert(req_id)) by {
                    assert forall|x: u64| self.pending@.contains(x) <==> waiting.contains(x) || x
                        == req_id by {
                        membership::lemma_push_contains(waiting, req_id, x);
                    }
                }
            }
        }
        assert(self@ =~= before.with_request(req_id));
        Some(writer)
    }

    /// A request waits no longer: it was answered, could not be sent, or its
    /// connection broke. Returns whether it did wait.
    pub fn end_request(&mut self, req_id: u64) -> (waited: bool)
        requires
            old(self).valid(),
        ensures
            final(self).valid(),
            waited == old(self)@.pending.contains(req_id),
            final(self)@ == old(self)@.without_request(req_id),
    {
        let ghost before = self@;
        match self.position_of(req_id) {
            Some(p) => {
                let ghost waiting = self.pending@;
                assert(waiting.contains(waiting[p as int]));
                self.pending.remove(p);
                proof {
                    assert(self.pending@ =~= waiting.remove(p as int));
                    assert forall|x: u64| self.pending@.contains(x) <==> waiting.contains(x) && x
                        != req_id by {
                        if waiting.contains(x) && x != req_id {
                            let i = choose|i: int| 0 <= i < waiting.len() && waiting[i] == x;
                            if i < p {
                                assert(self.pending@[i] == x);
                            } else {
                                assert(self.pending@[i - 1] == x);
                            }
                        }
                        if self.pending@.contains(x) {
                            let i = choose|i: int|
                                0 <= i < self.pending@.len() && self.pending@[i] == x;
                            let j = if i < p {
                                i
                            } else {
                                i + 1
                            };
                            assert(waiting[j] == x);
                        }
                    }
                    assert(self@ =~= before.without_request(req_id));
                }
                true
            },
            None => {
                assert(self@ =~= before.without_request(req_id));
                false
            },
        }
    }

    /// An attempt to have a Get answered has ended. Returns whether it counts as
    /// successful.
    pub fn end_get<V: Clone>(&mut self, req_id: u64, attempt: &Attempt<V>) -> (success: bool)
        requires
            old(self).valid(),
        ensures
            final(self).valid(),
            success == get_outcome(*attempt),
            final(self)@ == old(self)@.after_attempt(req_id, *attempt),
    {
        self.end_attempt(req_id, attempt);
        get_result(attempt)
    }

    /// An attempt to have a write answered has ended. Returns whether it was
    /// successful, and whether the client has to leave its home node.
    pub fn end_write<V: Clone>(&mut self, req_id: u64, attempt: &Attempt<V>) -> (outcome: (
        bool,
        bool,
    ))
        requires
            old(self).valid(),
        ensures
            final(self).valid(),
            outcome == write_outcome(*attempt),
            final(self)@ == old(self)@.after_attempt(req_id, *attempt),
    {
        self.end_attempt(req_id, attempt);
        write_result(attempt)
    }

    fn end_attempt<V: Clone>(&mut self, req_id: u64, attempt: &Attempt<V>)
        requires
            old(self).valid(),
        ensures
            final(self).valid(),
            final(self)@ == old(self)@.after_attempt(req_id, *attempt),
    {
        match attempt {
            Attempt::NotConnected => {},
            Attempt::NotSent => {
                self.end_request(req_id);
            },
            Attempt::Waited(Waited::Disconnected) => {
                self.end_request(req_id);
            },
            Attempt::Waited(Waited::Answered(_)) => {},
            Attempt::Waited(Waited::Dropped) => {},
        }
    }

    /// A node has answered. Returns the request to hand the answer to, if it
    /// still waits.
    pub fn on_response<V: Clone>(&mut self, response: &ClientResponse<V>) -> (waiting: Option<u64>)
        requires
            old(self).valid(),
        ensures
            final(self).valid(),
            waiting == (if old(self)@.pending.contains(response.request()) {
                Some(response.request())
            } else {
                None
            }),
            final(self)@ == old(self)@.without_request(response.request()),
            is_answer_handed(old(self)@, response.request(), waiting, final(self)@),
    {
        let req_id = response.req_id();
        if self.end_request(req_id) {
            Some(req_id)
        } else {
            None
        }
    }

    /// Begin to leave the home node: hands out the requests that wait, in no
    /// particular order, each with the failure that it is answered with. `None`
    /// if the client has left it before.
    pub fn begin_failover<V: Clone>(&self) -> (drained: Option<Vec<(u64, ClientResponse<V>)>>)
        requires
            self.valid(),
        ensures
            drained is None <==> self@.failed_over,
            drained matches Some(list) ==> {
                &&& drained_requests(list@).no_duplicates()
                &&& drained_requests(list@).to_set() == self@.pending
                &&& forall|i: int|
                    0 <= i < list@.len() ==> (#[trigger] list@[i]).1 == (ClientResponse::<
                        V,
                    >::WriteResult { success: false, req_id: 0 })
            },
            drained is None ==> is_drained::<V>(self@, None),
            drained matches Some(list) ==> is_drained(self@, Some(list@)),
    {
        if self.failed_over {
            return None;
        }
        let mut drained: Vec<(u64, ClientResponse<V>)> = Vec::new();
        let mut i: usize = 0;
        while i < self.pending.len()
            invariant
                i <= self.pending@.len(),
                drained@.len() == i,
                drained_requests(drained@) =~= self.pending@.take(i as int),
                forall|j: int|
                    0 <= j < drained@.len() ==> (#[trigger] drained@[j]).1 == (ClientResponse::<
                        V,
                    >::WriteResult { success: false, req_id: 0 }),
            decreases self.pending@.len() - i,
        {
            let ghost before = drained@;
            drained.push((self.pending[i], drained_response()));
            assert(drained_requests(drained@) =~= drained_requests(before).push(
                self.pending@[i as int],
            ));
            i += 1;
        }
        assert(self.pending@.take(i as int) =~= self.pending@);
        Some(drained)
    }

    /// The home node is left: `reached` says which of the other nodes could be
    /// connected to. Nothing changes if it was left before.
    pub fn complete_failover(&mut self, reached: &Vec<bool>)
        requires
            old(self).valid(),
            reached@.len() == old(self)@.others.len(),
        ensures
            final(self).valid(),
            final(self)@ == old(self)@.after_failover(reached@),
    {
        if self.failed_over {
            return;
        }
        let ghost before = self@;
        let mut writers: Vec<String> = Vec::new();
        let mut i: usize = 0;
        while i < self.others.len()
            invariant
                i <= self.others@.len(),
                reached@.len() == self.others@.len(),
                names_in(writers@) =~= reached_of(
                    names_in(self.others@).take(i as int),
                    reached@,
                ),
            decreases self.others@.len() - i,
        {
            proof {
                let names = names_in(self.others@);
                assert(names.take(i + 1).drop_last() =~= names.take(i as int));
                assert(names.take(i + 1).last() == self.others@[i as int]@);
            }
            if reached[i] {
                writers.push(self.others[i].clone());
            }
            i += 1;
        }
        assert(names_in(self.others@).take(i as int) =~= names_in(self.others@));
        self.writers = writers;
        self.pending = Vec::new();
        self.failed_over = true;
        assert(self@ =~= before.after_failover(reached@));
    }

    /// The connection on which to tell the home node that the client is done:
    /// none where the client has left it or never reached it.
    pub fn done_writer(&self) -> (writer: Option<usize>)
        ensures
            writer == (if !self@.failed_over && self@.writers.len() > 0 {
                Some(0usize)
            } else {
                None
            }),
    {
        if !self.failed_over && self.writers.len() > 0 {
            Some(0)
        } else {
            None
        }
    }
}

/// The answer that a request gets when its connection is given up.
pub fn drained_response<V: Clone>() -> (response: ClientResponse<V>)
    ensures
        response == (ClientResponse::<V>::WriteResult { success: false, req_id: 0 }),
{
    ClientResponse::WriteResult { success: false, req_id: 0 }
}

/// How waiting for an answer has ended.
pub enum Waited<V: Clone> {
    /// An answer came.
    Answered(ClientResponse<V>),
    /// No answer will come.
    Dropped,
    /// The connection broke.
    Disconnected,
}

/// How an attempt to have a request answered has ended.
pub enum Attempt<V: Clone> {
    /// There is no connection to send it on.
    NotConnected,
    /// It could not be sent.
    NotSent,
    /// It was sent and waited for.
    Waited(Waited<V>),
}

/// Whether a Get counts as successful that was sent and waited for.
pub open spec fn get_waited<V: Clone>(waited: Waited<V>) -> bool {
    match waited {
        Waited::Answered(response) => response is GetResult,
        Waited::Dropped => false,
        Waited::Disconnected => true,
    }
}

/// Whether a Get counts as successful.
pub open spec fn get_outcome<V: Clone>(attempt: Attempt<V>) -> bool {
    match attempt {
        Attempt::NotConnected => false,
        Attempt::NotSent => false,
        Attempt::Waited(waited) => get_waited(waited),
    }
}

/// Whether a write was successful that was sent and waited for, and whether the
/// client has to leave its home node.
pub open spec fn write_waited<V: Clone>(waited: Waited<V>) -> (bool, bool) {
    match waited {
        Waited::Answered(ClientResponse::WriteResult { success, .. }) => (success, false),
        Waited::Answered(ClientResponse::GetResult { .. }) => (false, false),
        Waited::Dropped => (false, false),
        Waited::Disconnected => (false, true),
    }
}

/// Whether a write was successful, and whether the client has to leave its
/// home node.
pub open spec fn write_outcome<V: Clone>(attempt: Attempt<V>) -> (bool, bool) {
    match attempt {
        Attempt::NotConnected => (false, true),
        Attempt::NotSent => (false, false),
        Attempt::Waited(waited) => write_waited(waited),
    }
}

/// Whether a Get counts as successful that was sent and waited for.
pub fn get_succeeded<V: Clone>(waited: &Waited<V>) -> (success: bool)
    ensures
        success == get_waited(*waited),
{
    match waited {
        Waited::Answered(ClientResponse::GetResult { .. }) => true,
        Waited::Answered(ClientResponse::WriteResult { .. }) => false,
        Waited::Dropped => false,
        Waited::Disconnected => true,
    }
}

/// Whether a write was successful that was sent and waited for, and whether the
/// client has to leave its home node.
pub fn write_succeeded<V: Clone>(waited: &Waited<V>) -> (outcome: (bool, bool))
    ensures
        outcome == write_waited(*waited),
{
    match waited {
        Waited::Answered(ClientResponse::WriteResult { success, .. }) => (*success, false),
        Waited::Answered(ClientResponse::GetResult { .. }) => (false, false),
        Waited::Dropped => (false, false),
        Waited::Disconnected => (false, true),
    }
}

/// Whether a Get counts as successful.
pub fn get_result<V: Clone>(attempt: &Attempt<V>) -> (success: bool)
    ensures
        success == get_outcome(*attempt),
{
    match attempt {
        Attempt::NotConnected => false,
        Attempt::NotSent => false,
        Attempt::Waited(waited) => get_succeeded(waited),
    }
}

/// Whether a write was successful, and whether the client has to leave its
/// home node.
pub fn write_result<V: Clone>(attempt: &Attempt<V>) -> (outcome: (bool, bool))
    ensures
        outcome == write_outcome(*attempt),
{
    match attempt {
        Attempt::NotConnected => (false, true),
        Attempt::NotSent => (false, false),
        Attempt::Waited(waited) => write_succeeded(waited),
    }
}

/// The request that an operation makes under a number.
pub open spec fn requested(operation: Operation, req_id: u64) -> ClientMessage<u64, u8> {
    match operation {
        Operation::Get { key } => ClientMessage::Get { key, req_id },
        Operation::Put { pair } => ClientMessage::Put { pair, req_id },
        Operation::TriPut { pairs } => ClientMessage::TriPut { pairs, req_id },
    }
}

/// The request that an operation makes.
pub fn request_for(operation: Operation, req_id: u64) -> (request: ClientMessage<u64, u8>)
    ensures
        request == match operation {
            Operation::Get { key } => ClientMessage::<u64, u8>::Get { key, req_id },
            Operation::Put { pair } => ClientMessage::<u64, u8>::Put { pair, req_id },
            Operation::TriPut { pairs } => ClientMessage::<u64, u8>::TriPut { pairs, req_id },
        },
        request == requested(operation, req_id),
{
    match operation {
        Operation::Get { key } => ClientMessage::Get { key, req_id },
        Operation::Put { pair } => ClientMessage::Put { pair, req_id },
        Operation::TriPut { pairs } => ClientMessage::TriPut { pairs, req_id },
    }
}

/// A write succeeds exactly where it was sent and answered with success, and
/// the client has to leave its home node exactly where it has no connection or
/// its connection broke.
pub proof fn law_write_succeeds_only_when_answered<V: Clone>(attempt: Attempt<V>)
    ensures
        write_outcome(attempt).0 <==> exists|req_id: u64|
            attempt == #[trigger] answered_with_success::<V>(req_id),
        write_outcome(attempt).1 <==> attempt == Attempt::<V>::NotConnected || attempt
            == Attempt::<V>::Waited(Waited::Disconnected),
{
    if write_outcome(attempt).0 {
        assert(attempt == answered_with_success::<V>(attempt->Waited_0->Answered_0.request()));
    }
}

/// The write was sent and answered with success.
pub open spec fn answered_with_success<V: Clone>(req_id: u64) -> Attempt<V> {
    Attempt::Waited(Waited::Answered(ClientResponse::WriteResult { success: true, req_id }))
}

/// What follows an attempt to write.
#[derive(Clone, Copy, Debug, PartialEq, Eq, Structural)]
pub enum AfterAttempt {
    /// The write is over, with this result.
    Finished(bool),
    /// Try again after a pause.
    Retry,
    /// The write has failed at its last attempt.
    GivenUp,
}

/// What follows the `attempts`-th attempt to write: `result` is whether it was
/// successful, or `None` where the attempt itself failed.
pub open spec fn attempt_step(result: Option<bool>, attempts: nat) -> AfterAttempt {
    match result {
        Some(true) => AfterAttempt::Finished(true),
        Some(false) => if attempts < MAX_RETRIES {
            AfterAttempt::Retry
        } else {
            AfterAttempt::GivenUp
        },
        None => AfterAttempt::Finished(false),
    }
}

/// What follows the `attempts`-th attempt to write.
pub fn after_attempt(result: Option<bool>, attempts: usize) -> (next: AfterAttempt)
    ensures
        next == attempt_step(result, attempts as nat),
{
    match result {
        Some(true) => AfterAttempt::Finished(true),
        Some(false) => if attempts < MAX_RETRIES {
            AfterAttempt::Retry
        } else {
            AfterAttempt::GivenUp
        },
        None => AfterAttempt::Finished(false),
    }
}

/// How many attempts a write makes, from the `attempts`-th on, whose attempts
/// end as `results` says: it stops at the first that is not followed by a
/// retry. `results[0]` is the end of the `attempts`-th attempt.
pub open spec fn attempts_made(results: Seq<Option<bool>>, attempts: nat) -> nat
    decreases results.len(),
{
    if results.len() == 0 {
        0
    } else if attempt_step(results[0], attempts) == AfterAttempt::Retry {
        1 + attempts_made(results.drop_first(), attempts + 1)
    } else {
        1
    }
}

/// A write makes at most `MAX_RETRIES` attempts, however they end.
pub proof fn law_attempts_are_bounded(results: Seq<Option<bool>>)
    ensures
        attempts_made(results, 1) <= MAX_RETRIES,
{
    lemma_attempts_left(results, 1);
}

proof fn lemma_attempts_left(results: Seq<Option<bool>>, attempts: nat)
    requires
        1 <= attempts <= MAX_RETRIES,
    ensures
        attempts - 1 + attempts_made(results, attempts) <= MAX_RETRIES,
    decreases results.len(),
{
    if results.len() > 0 && attempt_step(results[0], attempts) == AfterAttempt::Retry {
        lemma_attempts_left(results.drop_first(), attempts + 1);
    }
}

/// From the attempt `MAX_RETRIES` on no retry follows; a write is given up
/// exactly where such an attempt is refused, and retried exactly where an
/// earlier one is.
pub proof fn law_last_attempt_is_not_retried(result: Option<bool>, attempts: nat)
    ensures
        attempts >= MAX_RETRIES ==> attempt_step(result, attempts) != AfterAttempt::Retry,
        attempt_step(result, attempts) == AfterAttempt::GivenUp <==> result == Some(false)
            && attempts >= MAX_RETRIES,
        attempt_step(result, attempts) == AfterAttempt::Retry <==> result == Some(false) && attempts
            < MAX_RETRIES,
{
}

/// The pause after the `attempts`-th attempt, in milliseconds: it doubles with
/// each of the first five attempts.
pub open spec fn backoff(attempts: usize, jitter: u64) -> int {
    10 * vstd::arithmetic::power2::pow2(
        if attempts < 5 {
            attempts as nat
        } else {
            5
        },
    ) + jitter
}

/// The pause after the `attempts`-th attempt, in milliseconds.
pub fn backoff_ms(attempts: usize, jitter: u64) -> (pause: u64)
    requires
        jitter <= u64::MAX - 320,
    ensures
        pause == backoff(attempts, jitter),
{
    proof {
        vstd::arithmetic::power2::lemma2_to64();
    }
    let factor: u64 = match attempts {
        0 => 1,
        1 => 2,
        2 => 4,
        3 => 8,
        4 => 16,
        _ => 32,
    };
    10 * factor + jitter
}

/// A pause after the `attempts`-th attempt, with up to 19 milliseconds drawn at
/// random.
pub fn random_backoff_ms(attempts: usize) -> (pause: u64)
    ensures
        backoff(attempts, 0) <= pause < backoff(attempts, 20),
{
    backoff_ms(attempts, random::random_below(20))
}

/// How a client introduces itself to a node.
pub fn client_hello(client_name: &str) -> (hello: ClientHello)
    ensures
        hello.client_name@ == "client-"@ + client_name@,
{
    let mut name = "client-".to_owned();
    name.append(client_name);
    ClientHello { client_name: name }
}

/// Taking the connections in turn uses all of them: with `n` connections, any
/// `n` requests in a row go to `n` different ones, unless the count of requests
/// starts over in between.
pub proof fn law_round_robin_uses_every_connection(state: ConnectionView, i: u64, j: u64)
    requires
        0 < state.writers.len() <= usize::MAX,
        i < j < state.writers.len(),
        state.round_robin + j <= usize::MAX,
        state.round_robin + j <= u64::MAX,
    ensures
        (ConnectionView { round_robin: (state.round_robin + i) as u64, ..state }).turn()
            != (ConnectionView { round_robin: (state.round_robin + j) as u64, ..state }).turn(),
{
    let n = state.writers.len() as int;
    let a = state.round_robin + i;
    let b = state.round_robin + j;
    if a % n == b % n {
        vstd::arithmetic::div_mod::lemma_mod_equivalence(b, a, n);
        assert((b - a) % n == 0);
        vstd::arithmetic::div_mod::lemma_small_mod((b - a) as nat, n as nat);
    }
}

/// A failover leaves one connection for each of the other nodes that was
/// reached, in their order, and no waiting request; a further one changes
/// nothing, and no request or answer undoes it.
pub proof fn law_failover_happens_once(
    state: ConnectionView,
    reached: Seq<bool>,
    again: Seq<bool>,
    req_id: u64,
)
    ensures
        ({
            let after = state.after_failover(reached);
            &&& after.failed_over
            &&& !state.failed_over ==> after.writers == reached_of(state.others, reached)
                && after.pending == Set::<u64>::empty()
            &&& after.after_failover(again) == after
            &&& after.with_request(req_id).failed_over
            &&& after.without_request(req_id).failed_over
        }),
{
}

/// A node is among those that a failover connects to exactly where it is one of
/// the others and was reached.
pub proof fn law_reached_nodes_are_kept(names: Seq<Seq<char>>, reached: Seq<bool>, name: Seq<char>)
    requires
        reached.len() == names.len(),
    ensures
        reached_of(names, reached).contains(name) <==> exists|i: int|
            0 <= i < names.len() && reached[i] && #[trigger] names[i] == name,
    decreases names.len(),
{
    if names.len() > 0 {
        let n = names.len() - 1;
        let rest = names.drop_last();
        lemma_reached_prefix(rest, reached, reached.drop_last());
        law_reached_nodes_are_kept(rest, reached.drop_last(), name);
        membership::lemma_push_contains(reached_of(rest, reached), names[n], name);
        if exists|i: int| 0 <= i < names.len() && reached[i] && #[trigger] names[i] == name {
            let i = choose|i: int| 0 <= i < names.len() && reached[i] && #[trigger] names[i] == name;
            if i < n {
                assert(rest[i] == name && reached.drop_last()[i]);
            }
        }
        if reached_of(rest, reached).contains(name) {
            let i = choose|i: int|
                0 <= i < rest.len() && reached.drop_last()[i] && #[trigger] rest[i] == name;
            assert(names[i] == name && reached[i]);
        }
    }
}

proof fn lemma_reached_prefix(names: Seq<Seq<char>>, a: Seq<bool>, b: Seq<bool>)
    requires
        names.len() <= a.len(),
        names.len() <= b.len(),
        forall|i: int| 0 <= i < names.len() ==> a[i] == b[i],
    ensures
        reached_of(names, a) == reached_of(names, b),
    decreases names.len(),
{
    if names.len() > 0 {
        lemma_reached_prefix(names.drop_last(), a, b);
    }
}

/// Numbers follow one another and start over behind the greatest.
pub proof fn law_numbers_follow(n: u64)
    ensures
        n < u64::MAX ==> next_number(n) == n + 1,
        n == u64::MAX ==> next_number(n) == 0,
{
}

/// Lists are read by the names, and by the requests, that they hold.
pub proof fn law_lists_are_read_in_order<V: Clone>(
    names: Seq<String>,
    drained: Seq<(u64, ClientResponse<V>)>,
    i: int,
)
    ensures
        names_in(names).len() == names.len(),
        0 <= i < names.len() ==> names_in(names)[i] == names[i]@,
        drained_requests(drained).len() == drained.len(),
        0 <= i < drained.len() ==> drained_requests(drained)[i] == drained[i].0,
{
}

/// A request goes out on the connection that the count of requests gives, which
/// counts it, and waits; one that ends waits no longer. Other requests, the
/// connections and the numbering are not touched by either.
pub proof fn law_requests_begin_and_end(state: ConnectionView, req_id: u64, other: u64)
    requires
        0 < state.writers.len() <= usize::MAX,
    ensures
        state.turn() == state.round_robin as usize as int % state.writers.len() as int,
        ({
            let begun = state.with_request(req_id);
            &&& begun.pending.contains(other) <==> state.pending.contains(other) || other == req_id
            &&& state.round_robin < u64::MAX ==> begun.round_robin == state.round_robin + 1
            &&& state.round_robin == u64::MAX ==> begun.round_robin == 0
            &&& begun.writers == state.writers
            &&& begun.others == state.others
            &&& begun.failed_over == state.failed_over
            &&& begun.next_request == state.next_request
        }),
        ({
            let ended = state.without_request(req_id);
            &&& ended.pending.contains(other) <==> state.pending.contains(other) && other != req_id
            &&& ended.writers == state.writers
            &&& ended.others == state.others
            &&& ended.failed_over == state.failed_over
            &&& ended.next_request == state.next_request
            &&& ended.round_robin == state.round_robin
        }),
{
    vstd::arithmetic::div_mod::lemma_mod_bound(
        state.round_robin as usize as int,
        state.writers.len() as int,
    );
}

/// After an attempt a request that could not be sent, or whose connection broke,
/// does not wait; after any other attempt the state is as before.
pub proof fn law_attempts_that_fail_do_not_wait<V: Clone>(
    state: ConnectionView,
    req_id: u64,
    attempt: Attempt<V>,
)
    ensures
        attempt == Attempt::<V>::NotSent || attempt == Attempt::<V>::Waited(Waited::Disconnected)
            ==> !state.after_attempt(req_id, attempt).pending.contains(req_id)
            && state.after_attempt(req_id, attempt) == state.without_request(req_id),
        attempt != Attempt::<V>::NotSent && attempt != Attempt::<V>::Waited(Waited::Disconnected)
            ==> state.after_attempt(req_id, attempt) == state,
{
}

/// The first failover keeps nothing waiting, leaves the numbering alone, and
/// connects to the others that were reached; a client that has failed over stays
/// as it is.
pub proof fn law_failover_in_full(state: ConnectionView, reached: Seq<bool>, req_id: u64)
    ensures
        state.failed_over ==> state.after_failover(reached) == state,
        !state.failed_over ==> {
            let after = state.after_failover(reached);
            &&& after.failed_over
            &&& !after.pending.contains(req_id)
            &&& after.writers == reached_of(state.others, reached)
            &&& after.others == state.others
            &&& after.next_request == state.next_request
            &&& after.round_robin == state.round_robin
        },
{
}

/// Which of some nodes were reached is found node by node: one more node comes
/// last if it was reached, and changes nothing if it was not.
pub proof fn law_reached_node_by_node(
    names: Seq<Seq<char>>,
    reached: Seq<bool>,
    name: Seq<char>,
    answer: bool,
)
    requires
        reached.len() == names.len(),
    ensures
        reached_of(Seq::<Seq<char>>::empty(), Seq::<bool>::empty()).len() == 0,
        answer ==> reached_of(names.push(name), reached.push(answer)) == reached_of(
            names,
            reached,
        ).push(name),
        !answer ==> reached_of(names.push(name), reached.push(answer)) == reached_of(
            names,
            reached,
        ),
{
    assert(names.push(name).drop_last() =~= names);
    lemma_reached_prefix(names, reached.push(answer), reached);
}

/// What counts as success, case by case. A Get succeeds with any value, and also
/// where its connection broke; a write succeeds only where its answer says so. A
/// write without a connection, or whose connection broke, calls for a failover.
pub proof fn law_success_case_by_case<V: Clone>(
    val: Option<V>,
    success: bool,
    req_id: u64,
)
    ensures
        ({
            let got = Attempt::<V>::Waited(
                Waited::Answered(ClientResponse::GetResult { val, req_id }),
            );
            let written = Attempt::<V>::Waited(
                Waited::Answered(ClientResponse::WriteResult { success, req_id }),
            );
            let dropped = Attempt::<V>::Waited(Waited::Dropped);
            let broken = Attempt::<V>::Waited(Waited::Disconnected);
            &&& get_outcome(got) && !get_outcome(written) && !get_outcome(dropped) && get_outcome(
                broken,
            )
            &&& !get_outcome(Attempt::<V>::NotConnected) && !get_outcome(Attempt::<V>::NotSent)
            &&& write_outcome(written) == (success, false)
            &&& write_outcome(got) == (false, false)
            &&& write_outcome(dropped) == (false, false)
            &&& write_outcome(broken) == (false, true)
            &&& write_outcome(Attempt::<V>::NotSent) == (false, false)
            &&& write_outcome(Attempt::<V>::NotConnected) == (false, true)
            &&& get_waited(Waited::<V>::Answered(ClientResponse::GetResult { val, req_id }))
            &&& !get_waited(Waited::<V>::Answered(ClientResponse::WriteResult { success, req_id }))
            &&& get_waited(Waited::<V>::Disconnected) && !get_waited(Waited::<V>::Dropped)
            &&& write_waited(
                Waited::<V>::Answered(ClientResponse::WriteResult { success, req_id }),
            ) == (success, false)
            &&& write_waited(Waited::<V>::Answered(ClientResponse::GetResult { val, req_id })) == (
                false,
                false,
            )
            &&& write_waited(Waited::<V>::Dropped) == (false, false)
            &&& write_waited(Waited::<V>::Disconnected) == (false, true)
        }),
{
}

/// Attempts in numbers: at most 64 operations are in flight; success ends a write, a refusal is followed by another
/// attempt up to the ninth and ends it from the tenth on.
pub proof fn law_attempts_in_numbers(attempts: nat)
    ensures
        MAX_RETRIES == 10,
        MAX_IN_FLIGHT == 64,
        attempt_step(Some(true), attempts) == AfterAttempt::Finished(true),
        attempt_step(None, attempts) == AfterAttempt::Finished(false),
        attempts < 10 ==> attempt_step(Some(false), attempts) == AfterAttempt::Retry,
        attempts >= 10 ==> attempt_step(Some(false), attempts) == AfterAttempt::GivenUp,
{
}

/// Pauses in numbers: 10 milliseconds at no attempts, twice as long with each
/// further attempt up to the fifth, and no longer from there on; what is drawn
/// at random comes on top.
pub proof fn law_pauses_in_numbers(attempts: usize, jitter: u64)
    ensures
        backoff(attempts, jitter) == backoff(attempts, 0) + jitter,
        backoff(0, 0) == 10,
        attempts < 5 ==> backoff((attempts + 1) as usize, 0) == 2 * backoff(attempts, 0),
        attempts >= 5 ==> backoff(attempts, 0) == 320,
{
    vstd::arithmetic::power2::lemma2_to64();
    if attempts < 5 {
        vstd::arithmetic::power2::lemma_pow2_unfold((attempts + 1) as nat);
    }
}

/// A client that leaves its home node answers every request that waits, once,
/// and no other, with failure; one that has left it before answers none.
pub proof fn law_everyone_waiting_is_answered<V: Clone>(
    state: ConnectionView,
    list: Seq<(u64, ClientResponse<V>)>,
    req_id: u64,
    i: int,
    j: int,
)
    requires
        is_drained(state, Some(list)),
    ensures
        !state.failed_over,
        state.pending.contains(req_id) <==> exists|k: int|
            0 <= k < list.len() && (#[trigger] list[k]).0 == req_id,
        0 <= i < j < list.len() ==> list[i].0 != list[j].0,
        0 <= i < list.len() ==> list[i].1 == (ClientResponse::<V>::WriteResult {
            success: false,
            req_id: 0,
        }),
        !is_drained::<V>(state, None),
{
    let requests = drained_requests(list);
    assert(forall|k: int| 0 <= k < list.len() ==> requests[k] == (#[trigger] list[k]).0);
    if state.pending.contains(req_id) {
        assert(requests.to_set().contains(req_id));
        let k = choose|k: int| 0 <= k < requests.len() && requests[k] == req_id;
        assert(list[k].0 == req_id);
    }
    if exists|k: int| 0 <= k < list.len() && (#[trigger] list[k]).0 == req_id {
        let k = choose|k: int| 0 <= k < list.len() && (#[trigger] list[k]).0 == req_id;
        assert(requests[k] == req_id);
        assert(requests.to_set().contains(req_id));
    }
    if 0 <= i < j < list.len() {
        assert(requests[i] != requests[j]);
    }
}

/// Requests are numbered one after the other: of two numbers drawn in succession
/// the second follows the first, and drawing one changes nothing else.
pub proof fn law_requests_are_numbered_in_order(
    first: ConnectionView,
    x: u64,
    second: ConnectionView,
    y: u64,
    third: ConnectionView,
)
    requires
        is_number_drawn(first, x, second),
        is_number_drawn(second, y, third),
    ensures
        x == first.next_request,
        x < u64::MAX ==> y == x + 1,
        x == u64::MAX ==> y == 0,
        third == (ConnectionView { next_request: third.next_request, ..first }),
{
}

/// Connections take turns: of two requests begun in succession, the first goes
/// out on the connection that the count gives, and the second on the next one,
/// behind the last the first; both wait then. Without a connection nothing is
/// begun and nothing changes.
pub proof fn law_connections_take_turns(
    first: ConnectionView,
    x: u64,
    writer: Option<usize>,
    second: ConnectionView,
    y: u64,
    next_writer: Option<usize>,
    third: ConnectionView,
)
    requires
        first.writers.len() <= usize::MAX,
        first.round_robin < usize::MAX,
        is_request_begun(first, x, writer, second),
        is_request_begun(second, y, next_writer, third),
    ensures
        first.writers.len() == 0 ==> writer is None && next_writer is None && third == first,
        first.writers.len() > 0 ==> {
            let n = first.writers.len() as int;
            &&& writer is Some && next_writer is Some
            &&& writer->0 == first.round_robin as int % n
            &&& writer->0 + 1 < n ==> next_writer->0 == writer->0 + 1
            &&& writer->0 + 1 == n ==> next_writer->0 == 0
            &&& third.pending.contains(x) && third.pending.contains(y)
        },
{
    if first.writers.len() > 0 {
        let n = first.writers.len() as int;
        let count = first.round_robin as int;
        vstd::arithmetic::div_mod::lemma_mod_bound(count, n);
        vstd::arithmetic::div_mod::lemma_mod_bound(count + 1, n);
        vstd::arithmetic::div_mod::lemma_add_mod_noop(count, 1, n);
        if n == 1 {
            assert(count % n == 0);
        } else {
            vstd::arithmetic::div_mod::lemma_small_mod(1, n as nat);
            if count % n + 1 < n {
                vstd::arithmetic::div_mod::lemma_small_mod((count % n + 1) as nat, n as nat);
            } else {
                vstd::arithmetic::div_mod::lemma_mod_self_0(n);
            }
        }
    }
}

/// An answer is handed to its request exactly where that waits, and then it
/// waits no longer: a second answer to it is handed to no one. Every other
/// request waits on.
pub proof fn law_each_request_is_answered_once(
    first: ConnectionView,
    req_id: u64,
    waiting: Option<u64>,
    second: ConnectionView,
    again: Option<u64>,
    third: ConnectionView,
    other: u64,
)
    requires
        is_answer_handed(first, req_id, waiting, second),
        is_answer_handed(second, req_id, again, third),
    ensures
        waiting is Some <==> first.pending.contains(req_id),
        waiting is Some ==> waiting->0 == req_id,
        again is None,
        other != req_id ==> (third.pending.contains(other) <==> first.pending.contains(other)),
        third == (ConnectionView { pending: third.pending, ..first }),
{
}

/// What a client asks for is what its node handles: the request that an
/// operation makes arrives as that operation, to be answered under its number.
pub proof fn law_requests_arrive_as_made(
    key: u64,
    pair: KVPair<u64, u8>,
    pairs: [KVPair<u64, u8>; 3],
    req_id: u64,
)
    ensures
        messages::handled(requested(Operation::Get { key }, req_id)) == (
            LocalMessage::<u64, u8>::Get { key },
            Some(req_id),
        ),
        messages::handled(requested(Operation::Put { pair }, req_id)) == (
            LocalMessage::<u64, u8>::Put { pair },
            Some(req_id),
        ),
        messages::handled(requested(Operation::TriPut { pairs }, req_id)) == (
            LocalMessage::<u64, u8>::TriPut { pairs },
            Some(req_id),
        ),
        messages::handled(ClientMessage::<u64, u8>::Done) == (
            LocalMessage::<u64, u8>::Done,
            None::<u64>,
        ),
        requested(Operation::Get { key }, req_id) == (ClientMessage::<u64, u8>::Get {
            key,
            req_id,
        }),
        requested(Operation::Put { pair }, req_id) == (ClientMessage::<u64, u8>::Put {
            pair,
            req_id,
        }),
        requested(Operation::TriPut { pairs }, req_id) == (ClientMessage::<u64, u8>::TriPut {
            pairs,
            req_id,
        }),
{
}

} // verus!
