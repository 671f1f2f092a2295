//! A node: a replica of part of the data, the coordinator of its clients'
//! requests, and an acceptor and a learner of the votes on every transaction.
//!
//! A node changes in steps. Each step is a method that takes what has happened
//! (a request, a message, the time) and hands back what is to be done about it
//! (messages to send, an answer to give, something to wait for).

use crate::commit;
use crate::db;
use crate::db::{Entry, StripedDb};
use crate::membership;
use crate::membership::Membership;
use crate::messages;
use crate::messages::{Envelope, LocalMessage, PeerMessage, PeerView};
use crate::model;
use crate::model::{NodeView, PreparedView, TaskView};
use crate::random;
use crate::reads;
use crate::reads::{PendingReads, ReadView};
use crate::ring;
use crate::types;
use crate::types::{KVPair, NodeId};
use crate::votes;
use crate::votes::{AcceptorLog, RmVotes, StrangerVotes};
use std::collections::HashMap;
use vstd::prelude::*;

verus! {

/// This node's part in a transaction.
struct Task<V: Clone> {
    tx_id: u64,
    coordinator: bool,
    key_replicas: Vec<Vec<usize>>,
    votes: RmVotes,
    strangers: StrangerVotes,
    vote: Option<bool>,
    entries: Vec<Entry<V>>,
    version: u64,
    applied: bool,
}

impl<V: Clone> Task<V> {
    spec fn model(self) -> TaskView<V> {
        TaskView {
            tx_id: self.tx_id,
            coordinator: self.coordinator,
            key_replicas: commit::replica_lists(self.key_replicas@),
            votes: commit::vote_sets(self.votes@),
            strangers: self.strangers@,
            vote: self.vote,
            entries: self.entries@,
            version: self.version,
            applied: self.applied,
        }
    }
}

/// A transaction that this node has prepared.
struct PendingTx<V: Clone> {
    holder: u64,
    entries: Vec<Entry<V>>,
    version: u64,
}

impl<V: Clone> PendingTx<V> {
    spec fn model(self) -> PreparedView<V> {
        PreparedView { holder: self.holder, entries: self.entries@, version: self.version }
    }
}

/// A node that stores values of type `V`.
pub struct Node<V: Clone> {
    members: Membership,
    replication_degree: usize,
    db: StripedDb<V>,
    version_counter: u64,
    reads: PendingReads<V>,
    acceptor_log: AcceptorLog,
    tasks: HashMap<u64, Task<V>>,
    learners: HashMap<u64, u64>,
    prepared: HashMap<u64, PendingTx<V>>,
    next_handle: u64,
}

impl<V: Clone> View for Node<V> {
    type V = NodeView<V>;

    closed spec fn view(&self) -> NodeView<V> {
        NodeView {
            members: self.members@,
            replication_degree: self.replication_degree,
            stripes: self.db.stripe_count(),
            contents: self.db.contents(),
            holders: self.db.holders(),
            clock: self.version_counter,
            reads: self.reads@,
            log: self.acceptor_log@,
            tasks: self.tasks@.map_values(|task: Task<V>| task.model()),
            learners: self.learners@,
            prepared: self.prepared@.map_values(|p: PendingTx<V>| p.model()),
            next_handle: self.next_handle,
        }
    }
}

/// A task has begun: its handle, and the messages to send.
pub struct Started<V: Clone> {
    pub task: u64,
    pub out: Vec<Envelope<V>>,
}

/// A vote has been accepted: the messages that confirm it, and the task that
/// has learned of it, if any.
pub struct Accepted<V: Clone> {
    pub learner: Option<u64>,
    pub out: Vec<Envelope<V>>,
}

/// What is left to do once an outcome has been applied: entries to put at a
/// version, each as soon as its stripe is free.
pub struct Applied<V: Clone> {
    pub late: Vec<Entry<V>>,
    pub version: u64,
}

/// A quorum read has begun: its handle, the messages to send, and whether this
/// node is to reply as well.
pub struct ReadStart<V: Clone> {
    pub reader: u64,
    pub local: bool,
    pub out: Vec<Envelope<V>>,
}

/// What is to be done about a peer's message.
pub enum PeerStep<V: Clone> {
    Nothing,
    /// Answer a peer's read as soon as the key's stripe is free.
    AnswerRead { to: usize, key: u64, req_id: u64 },
    /// A read has the replies it needs.
    ReadComplete { reader: u64 },
    /// A task has begun.
    Participate(Started<V>),
    /// A vote has been accepted.
    Accept(Accepted<V>),
    /// A task has learned of a confirmation.
    Learned { task: u64 },
    /// Send a message.
    Send(Envelope<V>),
    /// All nodes are done.
    Shutdown,
}

/// `step` is what is to be done about a peer's message.
pub open spec fn is_peer_step<V: Clone>(
    node: NodeView<V>,
    from: usize,
    msg: PeerView<V>,
    step: PeerStep<V>,
) -> bool {
    match msg {
        PeerView::QuorumGet { key, req_id } => step == (PeerStep::<V>::AnswerRead {
            to: from,
            key,
            req_id,
        }),
        PeerView::QuorumGetResponse { req_id, .. } => match node.reads.completed_by(req_id) {
            Some(reader) => step == (PeerStep::<V>::ReadComplete { reader }),
            None => step == PeerStep::<V>::Nothing,
        },
        PeerView::Prepare { pairs, tx_id, .. } => {
            &&& step matches PeerStep::Participate(started)
            &&& started.task == node.next_handle
            &&& messages::outbox(started.out@) == node.ballots_on(tx_id, pairs)
        },
        PeerView::Vote { tx_id, rm, vote } => if node.log.contains_key((tx_id, rm)) {
            step == PeerStep::<V>::Nothing
        } else {
            &&& step matches PeerStep::Accept(accepted)
            &&& accepted.learner == node.learner_of(tx_id)
            &&& messages::outbox(accepted.out@) == messages::addressed::<V>(
                node.members.others(),
                PeerView::Accepted { tx_id, rm, vote },
            )
        },
        PeerView::Accepted { tx_id, .. } => match node.learner_of(tx_id) {
            Some(task) => step == (PeerStep::<V>::Learned { task }),
            None => step == PeerStep::<V>::Nothing,
        },
        PeerView::Ping => {
            &&& step matches PeerStep::Send(envelope)
            &&& envelope.to == from
            &&& envelope.msg@ == PeerView::<V>::Pong
        },
        PeerView::Pong => step == PeerStep::<V>::Nothing,
        PeerView::Done => step == if node.last_to_be_done(from) {
            PeerStep::<V>::Shutdown
        } else {
            PeerStep::<V>::Nothing
        },
    }
}

/// What is to be done about a client's request.
pub enum LocalStep<V: Clone> {
    /// Too few replicas are alive: answer with no value.
    ReadRefused,
    /// A quorum read has begun under a request number.
    Read { req_id: u64, started: ReadStart<V> },
    /// Too few replicas are alive: answer with failure.
    WriteRefused,
    /// A write has begun under a transaction number.
    Write { tx_id: u64, started: Started<V> },
    /// The client has finished: tell the peers, and stop if all are done.
    Done { out: Vec<Envelope<V>>, shutdown: bool },
}

/// `step` and `after` are what comes of a client's read of a key.
pub open spec fn is_read_step<V: Clone>(
    node: NodeView<V>,
    key: u64,
    step: LocalStep<V>,
    after: NodeView<V>,
) -> bool {
    if node.alive_replicas(key).len() < node.quorum() {
        step == LocalStep::<V>::ReadRefused && after == node
    } else {
        &&& step matches LocalStep::Read { req_id, started }
        &&& after == node.after_begin_read(key, req_id)
        &&& started.reader == node.next_handle
        &&& started.local == node.alive_replicas(key).contains(node.members.me)
        &&& messages::outbox(started.out@) == messages::addressed::<V>(
            model::without(node.alive_replicas(key), node.members.me),
            PeerView::QuorumGet { key, req_id },
        )
    }
}

/// `step` and `after` are what comes of a client's write of `pairs`.
pub open spec fn is_write_step<V: Clone>(
    node: NodeView<V>,
    pairs: Seq<KVPair<u64, V>>,
    step: LocalStep<V>,
    after: NodeView<V>,
) -> bool {
    if node.feasible(pairs) {
        &&& step matches LocalStep::Write { tx_id, started }
        &&& after == node.after_begin_write(tx_id, pairs)
        &&& started.task == node.next_handle
        &&& node.write_sent(tx_id, pairs, started.out@)
    } else {
        step == LocalStep::<V>::WriteRefused && after == node.with_next_version()
    }
}

/// `step` and `after` are what comes of a client's request.
pub open spec fn is_local_step<V: Clone>(
    node: NodeView<V>,
    msg: LocalMessage<u64, V>,
    step: LocalStep<V>,
    after: NodeView<V>,
) -> bool {
    match msg {
        LocalMessage::Get { key } => is_read_step(node, key, step, after),
        LocalMessage::Put { pair } => is_write_step(node, seq![pair], step, after),
        LocalMessage::TriPut { pairs } => exists|copies: Seq<KVPair<u64, V>>|
            types::pairs_cloned(pairs@, copies) && #[trigger] is_write_step(
                node,
                copies,
                step,
                after,
            ),
        LocalMessage::Done => {
            &&& step matches LocalStep::Done { out, shutdown }
            &&& messages::outbox(out@) == messages::addressed::<V>(
                node.members.others(),
                PeerView::Done,
            )
            &&& shutdown == node.last_to_be_done(node.members.me)
            &&& after == NodeView { members: node.members.with_done(node.members.me), ..node }
        },
    }
}

/// A heartbeat round: the pings to send, the peers found dead, and whether all
/// nodes are done now.
pub struct HeartbeatStep<V: Clone> {
    pub out: Vec<Envelope<V>>,
    pub dead: Vec<usize>,
    pub shutdown: bool,
}

/// `step` and `after` are what comes of a heartbeat round at time `now`.
pub open spec fn is_heartbeat_step<V: Clone>(
    node: NodeView<V>,
    now: u64,
    step: HeartbeatStep<V>,
    after: NodeView<V>,
) -> bool {
    &&& messages::outbox(step.out@) == messages::addressed::<V>(
        node.members.alive_others(),
        PeerView::Ping,
    )
    &&& step.dead@ == node.members.expired(now)
    &&& after == NodeView { members: node.members.with_all_dead(step.dead@), ..node }
    &&& step.shutdown == node.members.shut_down_by(step.dead@)
}

/// `applied` and `after` are what comes of an outcome.
pub open spec fn is_outcome_step<V: Clone>(
    node: NodeView<V>,
    task: u64,
    committed: bool,
    applied: Applied<V>,
    after: NodeView<V>,
) -> bool {
    &&& applied.late@ == node.tasks[task].late_entries(committed)
    &&& applied.version == node.tasks[task].version
    &&& after == node.after_outcome(task, committed)
}

/// `back` and `after` are what comes of an attempt to put a late entry.
pub open spec fn is_put_step<V: Clone>(
    node: NodeView<V>,
    entry: Entry<V>,
    version: u64,
    back: Option<Entry<V>>,
    after: NodeView<V>,
) -> bool {
    if node.locked(entry.0.key) {
        back == Some(entry) && after == node
    } else {
        back is None && after == node.after_late_put(entry, version)
    }
}

/// `reply` is what a node replies to a read, or `None` while it has to wait.
pub open spec fn is_reply<V: Clone>(
    node: NodeView<V>,
    key: u64,
    reply: Option<(Option<V>, u64)>,
) -> bool {
    match reply {
        None => node.locked(key),
        Some(r) => !node.locked(key) && model::is_replica_reply(node.contents, key, r),
    }
}

/// Whether `ranks` holds `rank`.
fn holds(ranks: &Vec<usize>, rank: usize) -> (found: bool)
    ensures
        found == ranks@.contains(rank),
{
    let mut i: usize = 0;
    while i < ranks.len()
        invariant
            i <= ranks@.len(),
            forall|j: int| 0 <= j < i ==> ranks@[j] != rank,
        decreases ranks@.len() - i,
    {
        if ranks[i] == rank {
            assert(ranks@[i as int] == rank);
            return true;
        }
        i += 1;
    }
    false
}

/// Whether `rank` owns one of the keys.
fn owns_some(rank: usize, key_replicas: &Vec<Vec<usize>>) -> (owns: bool)
    ensures
        owns == model::owns_some(rank, commit::replica_lists(key_replicas@)),
{
    let mut k: usize = 0;
    while k < key_replicas.len()
        invariant
            k <= key_replicas@.len(),
            forall|j: int|
                0 <= j < k ==> !(#[trigger] commit::replica_lists(key_replicas@)[j]).contains(rank),
        decreases key_replicas@.len() - k,
    {
        if holds(&key_replicas[k], rank) {
            assert(commit::replica_lists(key_replicas@)[k as int].contains(rank));
            return true;
        }
        k += 1;
    }
    false
}

/// Those of `ranks` that own one of the keys, in their given order.
fn owners_among(ranks: &Vec<usize>, key_replicas: &Vec<Vec<usize>>) -> (owners: Vec<usize>)
    ensures
        owners@ == model::owners_among(ranks@, commit::replica_lists(key_replicas@)),
{
    let mut owners: Vec<usize> = Vec::new();
    let mut i: usize = 0;
    while i < ranks.len()
        invariant
            i <= ranks@.len(),
            owners@ == model::owners_among(
                ranks@.take(i as int),
                commit::replica_lists(key_replicas@),
            ),
        decreases ranks@.len() - i,
    {
        proof {
            assert(ranks@.take(i + 1).drop_last() =~= ranks@.take(i as int));
            assert(ranks@.take(i + 1).last() == ranks@[i as int]);
        }
        if owns_some(ranks[i], key_replicas) {
            owners.push(ranks[i]);
        }
        i += 1;
    }
    assert(ranks@.take(i as int) =~= ranks@);
    owners
}

/// A Done, or else a Ping, for each of `targets`.
fn signal_each<V: Clone>(targets: &Vec<usize>, done: bool) -> (out: Vec<Envelope<V>>)
    ensures
        messages::outbox(out@) == messages::addressed::<V>(
            targets@,
            if done {
                PeerView::Done
            } else {
                PeerView::Ping
            },
        ),
{
    let ghost msg = if done {
        PeerView::<V>::Done
    } else {
        PeerView::<V>::Ping
    };
    let mut out: Vec<Envelope<V>> = Vec::new();
    let mut i: usize = 0;
    while i < targets.len()
        invariant
            i <= targets@.len(),
            out@.len() == i,
            msg == if done {
                PeerView::<V>::Done
            } else {
                PeerView::<V>::Ping
            },
            messages::outbox(out@) =~= messages::addressed(targets@, msg).take(i as int),
        decreases targets@.len() - i,
    {
        let signal: PeerMessage<u64, V> = if done {
            PeerMessage::Done
        } else {
            PeerMessage::Ping
        };
        out.push(Envelope { to: targets[i], msg: signal });
        i += 1;
    }
    assert(messages::addressed(targets@, msg).take(i as int) =~= messages::addressed(
        targets@,
        msg,
    ));
    out
}

impl<V: Clone> Node<V> {
    /// A node of a cluster in which every node is alive, with nothing stored.
    /// There is none if a node is in the cluster twice or this node is not in
    /// it.
    pub fn new(
        cluster: Vec<NodeId>,
        my_node_id: &NodeId,
        replication_degree: usize,
        stripes: usize,
        now: u64,
    ) -> (node: Option<Node<V>>)
        requires
            stripes > 0,
        ensures
            node is Some <==> membership::node_names(cluster@).no_duplicates()
                && membership::node_names(cluster@).contains(my_node_id@),
            node matches Some(n) ==> {
                &&& n@.valid()
                &&& n@.members.nodes == membership::node_names(cluster@)
                &&& n@.my_name() == my_node_id@
                &&& forall|r: usize| #[trigger]
                    n@.members.alive.contains(r) <==> r < n@.members.nodes.len()
                &&& n@.members.done == Set::<usize>::empty()
                &&& forall|r: usize| #[trigger]
                    n@.members.pongs.contains_key(r) <==> r < n@.members.nodes.len() && r
                        != n@.members.me
                &&& forall|r: usize| #[trigger]
                    n@.members.pongs.contains_key(r) ==> n@.members.pongs[r] == now
                &&& n@.replication_degree == replication_degree
                &&& n@.stripes == stripes
                &&& n@.contents == Map::<u64, (V, u64)>::empty()
                &&& forall|s: int| 0 <= s < stripes ==> (#[trigger] n@.holders[s]) is None
                &&& n@.clock == 0
                &&& n@.reads.readers == Map::<u64, ReadView<V>>::empty()
                &&& n@.reads.routes == Map::<u64, u64>::empty()
                &&& n@.log == Map::<(u64, (Seq<char>, usize)), bool>::empty()
                &&& n@.tasks == Map::<u64, TaskView<V>>::empty()
                &&& n@.learners == Map::<u64, u64>::empty()
                &&& n@.prepared == Map::<u64, PreparedView<V>>::empty()
                &&& n@.next_handle == 0
            },
    {
        broadcast use StripedDb::lemma_one_holder_per_stripe;

        match Membership::new(cluster, my_node_id, now) {
            None => None,
            Some(members) => {
                let node = Node {
                    members,
                    replication_degree,
                    db: StripedDb::new(stripes),
                    version_counter: 0,
                    reads: PendingReads::new(),
                    acceptor_log: AcceptorLog::new(),
                    tasks: HashMap::new(),
                    learners: HashMap::new(),
                    prepared: HashMap::new(),
                    next_handle: 0,
                };
                assert(node@.tasks =~= Map::<u64, TaskView<V>>::empty());
                assert(node@.prepared =~= Map::<u64, PreparedView<V>>::empty());
                Some(node)
            },
        }
    }

    /// What the node knows of its cluster.
    pub fn members(&self) -> (members: &Membership)
        ensures
            members@ == self@.members,
    {
        &self.members
    }

    /// Whether there is a handle left for another task or read.
    pub fn has_handles(&self) -> (has: bool)
        ensures
            has == (self@.next_handle < u64::MAX),
    {
        self.next_handle < u64::MAX
    }

    /// Whether there is a version left for another write.
    pub fn has_versions(&self) -> (has: bool)
        ensures
            has == (self@.clock < u64::MAX),
    {
        self.version_counter < u64::MAX
    }

    /// Acceptor quorum: majority of ALL nodes in the cluster.
    pub fn acceptor_quorum(&self) -> (quorum: usize)
        ensures
            quorum == self@.acceptor_quorum(),
    {
        commit::acceptor_quorum(self.members.len())
    }

    /// Quorum size for this replication degree (strict majority).
    pub fn quorum_size(&self) -> (quorum: usize)
        ensures
            quorum == self@.quorum(),
    {
        commit::replica_quorum(self.replication_degree)
    }

    /// The ranks of a key's replicas.
    pub fn get_key_replicas(&self, key: &u64) -> (replicas: Vec<usize>)
        requires
            self@.valid(),
        ensures
            replicas@ == self@.replicas(*key),
    {
        ring::key_replica_indices(key, self.members.len(), self.replication_degree)
    }

    /// The ranks of a key's replicas that are alive.
    pub fn get_alive_replicas(&self, key: &u64) -> (replicas: Vec<usize>)
        requires
            self@.valid(),
        ensures
            replicas@ == self@.alive_replicas(*key),
    {
        let replicas = self.get_key_replicas(key);
        self.members.alive_among(&replicas)
    }

    /// Assign a new version for a write operation (Lamport clock).
    pub fn next_version(&mut self) -> (version: u64)
        requires
            old(self)@.valid(),
            old(self)@.clock < u64::MAX,
        ensures
            final(self)@ == old(self)@.with_next_version(),
            final(self)@.valid(),
            version == final(self)@.clock,
    {
        let ghost before = self@;
        self.version_counter = self.version_counter + 1;
        assert(self@ =~= before.with_next_version());
        proof {
            before.lemma_clock_keeps_valid(self.version_counter);
        }
        self.version_counter
    }

    /// Update the local Lamport clock on receiving a remote version.
    pub fn observe_version(&mut self, remote_version: u64)
        requires
            old(self)@.valid(),
        ensures
            final(self)@ == old(self)@.with_observed(remote_version),
            final(self)@.valid(),
    {
        let ghost before = self@;
        if remote_version > self.version_counter {
            self.version_counter = remote_version;
        }
        assert(self@ =~= before.with_observed(remote_version));
        proof {
            before.lemma_clock_keeps_valid(self.version_counter);
        }
    }

    /// For each pair, the ranks of its key's replicas.
    fn key_windows(&self, pairs: &Vec<KVPair<u64, V>>) -> (windows: Vec<Vec<usize>>)
        requires
            self@.valid(),
        ensures
            commit::replica_lists(windows@) == self@.key_windows(pairs@),
    {
        let mut windows: Vec<Vec<usize>> = Vec::new();
        let mut i: usize = 0;
        while i < pairs.len()
            invariant
                self@.valid(),
                i <= pairs@.len(),
                windows@.len() == i,
                forall|j: int|
                    0 <= j < i ==> (#[trigger] windows@[j])@ == self@.replicas(pairs@[j].key),
            decreases pairs@.len() - i,
        {
            windows.push(self.get_key_replicas(&pairs[i].key));
            i += 1;
        }
        assert(commit::replica_lists(windows@) =~= self@.key_windows(pairs@));
        windows
    }

    /// Whether every pair's key has enough replicas alive for a quorum.
    fn is_feasible(&self, pairs: &Vec<KVPair<u64, V>>) -> (feasible: bool)
        requires
            self@.valid(),
        ensures
            feasible == self@.feasible(pairs@),
    {
        let quorum = self.quorum_size();
        let mut i: usize = 0;
        while i < pairs.len()
            invariant
                self@.valid(),
                quorum == self@.quorum(),
                i <= pairs@.len(),
                forall|j: int|
                    0 <= j < i ==> self@.alive_replicas((#[trigger] pairs@[j]).key).len() >= quorum,
            decreases pairs@.len() - i,
        {
            let living = self.get_alive_replicas(&pairs[i].key);
            if living.len() < quorum {
                assert(self@.alive_replicas(pairs@[i as int].key).len() < quorum);
                return false;
            }
            i += 1;
        }
        true
    }

    /// What this node is to store of `pairs`, in the order of the stripes.
    fn entries_for(&self, pairs: Vec<KVPair<u64, V>>) -> (entries: Vec<Entry<V>>)
        requires
            self@.valid(),
        ensures
            entries@ == self@.entries_for(pairs@),
    {
        let ghost all = pairs@;
        let me = self.members.me();
        let mut entries: Vec<Entry<V>> = Vec::new();
        for pair in it: pairs
            invariant
                self@.valid(),
                me == self@.members.me,
                it.seq() == all,
                entries@ == self@.local_entries(all.take(it.index() as int)),
        {
            proof {
                let i = it.index() as int;
                assert(all.take(i + 1).drop_last() =~= all.take(i));
                assert(all.take(i + 1).last() == all[i]);
            }
            let replicas = self.get_key_replicas(&pair.key);
            if holds(&replicas, me) {
                let stripe = self.db.stripe_index(&pair.key);
                entries.push((pair, stripe));
            }
        }
        assert(all.take(all.len() as int) =~= all);
        db::sort_entries(entries)
    }

    /// This node's vote, and its own confirmation of it, for all others.
    fn ballots(&self, tx_id: u64, vote: bool) -> (out: Vec<Envelope<V>>)
        requires
            self@.members.valid(),
        ensures
            messages::outbox(out@) == messages::ballots::<V>(
                self@.members.others(),
                tx_id,
                self@.my_name(),
                vote,
            ),
    {
        let targets = self.members.others();
        let me = self.members.me();
        let ghost sent = messages::ballots::<V>(targets@, tx_id, self@.my_name(), vote);
        let mut out: Vec<Envelope<V>> = Vec::new();
        let mut i: usize = 0;
        while i < targets.len()
            invariant
                self@.members.valid(),
                me == self@.members.me,
                i <= targets@.len(),
                sent == messages::ballots::<V>(targets@, tx_id, self@.my_name(), vote),
                out@.len() == 2 * i,
                messages::outbox(out@) =~= sent.take(2 * i as int),
            decreases targets@.len() - i,
        {
            let ghost so_far = out@;
            let to = targets[i];
            let rm_id = self.members.node(me).clone();
            out.push(Envelope { to, msg: PeerMessage::Vote { tx_id, rm_id, vote } });
            let rm_id = self.members.node(me).clone();
            out.push(Envelope { to, msg: PeerMessage::Accepted { tx_id, rm_id, vote } });
            proof {
                assert(messages::outbox(out@) =~= messages::outbox(so_far).push(
                    sent[2 * i as int],
                ).push(sent[2 * i as int + 1]));
                assert(sent.take(2 * (i + 1) as int) =~= sent.take(2 * i as int).push(
                    sent[2 * i as int],
                ).push(sent[2 * i as int + 1]));
            }
            i += 1;
        }
        assert(sent.take(2 * targets@.len() as int) =~= sent);
        out
    }

    /// Drop what is prepared of a transaction, and its locks with it.
    fn drop_prepared(&mut self, tx_id: u64)
        requires
            0 < old(self)@.stripes,
            old(self)@.prepared.contains_key(tx_id) ==> db::entries_placed(
                old(self)@.prepared[tx_id].entries,
                old(self)@.stripes,
            ),
        ensures
            final(self)@ == (NodeView {
                holders: model::after_drop(old(self)@.holders, old(self)@.prepared, tx_id),
                prepared: old(self)@.prepared.remove(tx_id),
                ..old(self)@
            }),
    {
        let ghost before = self@;
        match self.prepared.remove(&tx_id) {
            Some(p) => {
                assert(before.prepared[tx_id] == p.model());
                self.db.unlock(&p.entries);
            },
            None => {},
        }
        assert(self@ =~= NodeView {
            holders: model::after_drop(before.holders, before.prepared, tx_id),
            prepared: before.prepared.remove(tx_id),
            ..before
        });
    }

    /// Begin a task on a transaction of which this node is an RM: lock what it
    /// is to store, all or nothing, and vote accordingly.
    fn cast_ballot(
        &mut self,
        tx_id: u64,
        key_replicas: Vec<Vec<usize>>,
        entries: Vec<Entry<V>>,
        version: u64,
        coordinator: bool,
        known: RmVotes,
        strangers: StrangerVotes,
    ) -> (out: Vec<Envelope<V>>)
        requires
            old(self)@.valid(),
            old(self)@.next_handle < u64::MAX,
            db::entries_placed(entries@, old(self)@.stripes),
            votes::finitely_confirmed(commit::vote_sets(known@)),
            model::distinct_replicas(commit::replica_lists(key_replicas@)),
        ensures
            final(self)@ == old(self)@.with_ballot(
                tx_id,
                commit::replica_lists(key_replicas@),
                entries@,
                version,
                coordinator,
                commit::vote_sets(known@),
                strangers@,
            ),
            final(self)@.valid(),
            messages::outbox(out@) == messages::ballots::<V>(
                old(self)@.members.others(),
                tx_id,
                old(self)@.my_name(),
                old(self)@.own_vote(entries@),
            ),
    {
        let ghost before = self@;
        let task = self.next_handle;
        let me = self.members.me();
        let mut collected = known;
        proof {
            before.lemma_ballot_keeps_valid(
                tx_id,
                commit::replica_lists(key_replicas@),
                entries@,
                version,
                coordinator,
                commit::vote_sets(known@),
                strangers@,
            );
            assert forall|s: int| 0 <= s < self.db.stripe_count() implies (
            #[trigger] self.db.holders()[s]) != Some(task) by {
                assert(before.lock_sound(s));
            }
            if before.prepared.contains_key(tx_id) {
                assert(before.prepared_sound(tx_id));
            }
        }
        let vote = self.db.try_lock(&entries, task);
        let ghost all = entries@;
        let late = if vote {
            self.drop_prepared(tx_id);
            let ghost dropped = self@;
            self.prepared.insert(tx_id, PendingTx { holder: task, entries, version });
            assert(self@.prepared =~= dropped.prepared.insert(
                tx_id,
                PreparedView { holder: task, entries: all, version },
            ));
            Vec::new()
        } else {
            entries
        };
        let my_node_id = self.members.node(me).clone();
        self.acceptor_log.insert(tx_id, my_node_id, vote);
        let out = self.ballots(tx_id, vote);
        votes::confirm(&mut collected, me, me, vote);
        let begun = Task {
            tx_id,
            coordinator,
            key_replicas,
            votes: collected,
            strangers,
            vote: Some(vote),
            entries: late,
            version,
            applied: false,
        };
        let ghost begun_model = begun.model();
        self.tasks.insert(task, begun);
        self.learners.insert(tx_id, task);
        self.next_handle = task + 1;
        proof {
            assert(self@.tasks =~= before.tasks.insert(task, begun_model));
            assert(self@ =~= before.with_ballot(
                tx_id,
                commit::replica_lists(key_replicas@),
                all,
                version,
                coordinator,
                commit::vote_sets(known@),
                strangers@,
            ));
        }
        out
    }

    /// Paxos-Commit write (put and triput alike): coordinate a write of
    /// `pairs`. It is refused, and `None`, if some key has too few replicas
    /// alive.
    pub fn begin_write(&mut self, tx_id: u64, pairs: Vec<KVPair<u64, V>>) -> (started: Option<
        Started<V>,
    >)
        requires
            old(self)@.valid(),
            old(self)@.clock < u64::MAX,
            old(self)@.next_handle < u64::MAX,
        ensures
            final(self)@ == old(self)@.after_begin_write(tx_id, pairs@),
            final(self)@.valid(),
            started is Some <==> old(self)@.feasible(pairs@),
            started matches Some(s) ==> {
                &&& s.task == old(self)@.next_handle
                &&& old(self)@.write_sent(tx_id, pairs@, s.out@)
            },
    {
        let ghost before = self@;
        let ghost all = pairs@;
        proof {
            before.lemma_begin_write_keeps_valid(tx_id, all);
            before.lemma_windows_are_distinct(all);
        }
        let version = self.next_version();
        proof {
            before.lemma_same_placement(self@, all);
        }
        if !self.is_feasible(&pairs) {
            return None;
        }
        let key_replicas = self.key_windows(&pairs);
        let others = self.members.others();
        let rms = owners_among(&others, &key_replicas);

        // Prepare goes to the remote RMs first, so that their learners exist
        // before the votes arrive.
        let mut out: Vec<Envelope<V>> = Vec::new();
        let mut i: usize = 0;
        while i < rms.len()
            invariant
                i <= rms@.len(),
                all == pairs@,
                model::prepares_sent(rms@.take(i as int), all, tx_id, version, out@),
            decreases rms@.len() - i,
        {
            let copies = types::clone_pairs(&pairs);
            let ghost sent = out@;
            out.push(
                Envelope { to: rms[i], msg: PeerMessage::Prepare { pairs: copies, tx_id, version } },
            );
            assert(forall|j: int| 0 <= j < i ==> out@[j] == sent[j]);
            i += 1;
        }
        let ghost prepares = out@;
        assert(rms@.take(i as int) =~= rms@);
        assert(before.remote_rms(all) == rms@);

        let entries = self.entries_for(pairs);
        let task = self.next_handle;
        assert(entries@ == before.entries_for(all));
        if entries.len() > 0 {
            proof {
                before.lemma_local_entries_placed(all);
            }
            let known: RmVotes = HashMap::new();
            assert(commit::vote_sets(known@) =~= Map::empty());
            let mut ballots = self.cast_ballot(
                tx_id,
                key_replicas,
                entries,
                version,
                true,
                known,
                StrangerVotes::new(),
            );
            let ghost cast = ballots@;
            out.append(&mut ballots);
            assert(out@.skip(rms@.len() as int) =~= cast);
        } else {
            let known: RmVotes = HashMap::new();
            assert(commit::vote_sets(known@) =~= Map::empty());
            assert(entries@ =~= Seq::empty());
            let begun = Task {
                tx_id,
                coordinator: true,
                key_replicas,
                votes: known,
                strangers: StrangerVotes::new(),
                vote: None,
                entries,
                version,
                applied: false,
            };
            let ghost begun_model = begun.model();
            self.tasks.insert(task, begun);
            self.learners.insert(tx_id, task);
            self.next_handle = task + 1;
            proof {
                assert(self@.tasks =~= before.tasks.insert(task, begun_model));
                assert(self@ =~= before.after_begin_write(tx_id, all));
                assert(messages::outbox(out@.skip(rms@.len() as int)) =~= Seq::empty());
            }
        }
        proof {
            assert(out@.take(rms@.len() as int) =~= prepares);
        }
        Some(Started { task, out })
    }

    /// RM role: prepare `pairs` for the coordinator of a transaction, and vote.
    pub fn handle_peer_prepare(
        &mut self,
        pairs: Vec<KVPair<u64, V>>,
        tx_id: u64,
        version: u64,
    ) -> (started: Started<V>)
        requires
            old(self)@.valid(),
            old(self)@.next_handle < u64::MAX,
        ensures
            final(self)@ == old(self)@.after_peer_prepare(tx_id, pairs@, version),
            final(self)@.valid(),
            started.task == old(self)@.next_handle,
            messages::outbox(started.out@) == old(self)@.ballots_on(tx_id, pairs@),
    {
        let ghost before = self@;
        let ghost all = pairs@;
        proof {
            before.lemma_peer_prepare_keeps_valid(tx_id, all, version);
            before.lemma_windows_are_distinct(all);
            before.lemma_local_entries_placed(all);
        }
        self.observe_version(version);
        proof {
            before.lemma_same_placement(self@, all);
        }
        let key_replicas = self.key_windows(&pairs);
        let known = votes::recover(
            &self.acceptor_log,
            tx_id,
            self.members.cluster(),
            self.members.me(),
        );
        let strangers = votes::recover_strangers(
            &self.acceptor_log,
            tx_id,
            self.members.cluster(),
            self.members.me(),
        );
        let entries = self.entries_for(pairs);
        let task = self.next_handle;
        let out = self.cast_ballot(
            tx_id,
            key_replicas,
            entries,
            version,
            false,
            known,
            strangers,
        );
        Started { task, out }
    }

    /// Count an acceptor's confirmation of an RM's vote. Returns the task that
    /// has learned of it, if any.
    fn learn(&mut self, tx_id: u64, rm_id: &NodeId, acceptor: usize, vote: bool) -> (learner:
        Option<u64>)
        requires
            old(self)@.valid(),
        ensures
            final(self)@ == old(self)@.after_accepted(tx_id, rm_id@, acceptor, vote),
            final(self)@.valid(),
            learner == old(self)@.learner_of(tx_id),
    {
        let ghost before = self@;
        proof {
            before.lemma_accepted_keeps_valid(tx_id, rm_id@, acceptor, vote);
        }
        let learner = match self.learners.get(&tx_id) {
            Some(task) => *task,
            None => return None,
        };
        match self.tasks.remove(&learner) {
            None => {
                assert(before.tasks.contains_key(learner));
            },
            Some(task) => {
                assert(before.tasks[learner] == task.model());
                let mut task = task;
                match self.members.rank_of(rm_id) {
                    Some(rank) => {
                        proof {
                            lemma_rank_in(before.members.nodes, rank, rm_id@);
                        }
                        votes::confirm(&mut task.votes, rank, acceptor, vote);
                    },
                    None => {
                        task.strangers.confirm(rm_id, acceptor, vote);
                    },
                }
                let ghost learned = task.model();
                self.tasks.insert(learner, task);
                proof {
                    assert(self@.tasks =~= before.tasks.insert(learner, learned));
                    assert(self@ =~= before.after_accepted(tx_id, rm_id@, acceptor, vote));
                }
            },
        }
        Some(learner)
    }

    /// Acceptor role: an RM's vote has arrived. The first vote of an RM on a
    /// transaction is accepted and confirmed to all other nodes; `None` if one
    /// was accepted before.
    pub fn on_vote(&mut self, tx_id: u64, rm_id: NodeId, vote: bool) -> (accepted: Option<
        Accepted<V>,
    >)
        requires
            old(self)@.valid(),
        ensures
            final(self)@ == old(self)@.after_vote(tx_id, rm_id@, vote),
            final(self)@.valid(),
            accepted is Some <==> !old(self)@.log.contains_key((tx_id, rm_id@)),
            accepted matches Some(a) ==> {
                &&& messages::outbox(a.out@) == messages::addressed::<V>(
                    old(self)@.members.others(),
                    PeerView::Accepted { tx_id, rm: rm_id@, vote },
                )
                &&& a.learner == old(self)@.learner_of(tx_id)
            },
    {
        let ghost before = self@;
        proof {
            before.lemma_vote_keeps_valid(tx_id, rm_id@, vote);
        }
        if self.acceptor_log.get(tx_id, &rm_id).is_some() {
            return None;
        }
        let me = self.members.me();
        self.acceptor_log.insert(tx_id, rm_id.clone(), vote);
        let ghost accepted = NodeView { log: before.log.insert((tx_id, rm_id@), vote), ..before };
        assert(self@ =~= accepted);
        let targets = self.members.others();
        let ghost sent = messages::addressed::<V>(
            targets@,
            PeerView::Accepted { tx_id, rm: rm_id@, vote },
        );
        let mut out: Vec<Envelope<V>> = Vec::new();
        let mut i: usize = 0;
        while i < targets.len()
            invariant
                i <= targets@.len(),
                out@.len() == i,
                sent == messages::addressed::<V>(
                    targets@,
                    PeerView::Accepted { tx_id, rm: rm_id@, vote },
                ),
                messages::outbox(out@) =~= sent.take(i as int),
            decreases targets@.len() - i,
        {
            let msg = PeerMessage::Accepted { tx_id, rm_id: rm_id.clone(), vote };
            out.push(Envelope { to: targets[i], msg });
            i += 1;
        }
        assert(sent.take(i as int) =~= sent);
        proof {
            before.lemma_log_keeps_valid(accepted.log);
        }
        let learner = self.learn(tx_id, &rm_id, me, vote);
        Some(Accepted { learner, out })
    }

    /// Learner role: an acceptor has confirmed an RM's vote. Returns the task
    /// that has learned of it, if any.
    pub fn on_accepted(&mut self, from: usize, tx_id: u64, rm_id: NodeId, vote: bool) -> (learner:
        Option<u64>)
        requires
            old(self)@.valid(),
        ensures
            final(self)@ == old(self)@.after_accepted(tx_id, rm_id@, from, vote),
            final(self)@.valid(),
            learner == old(self)@.learner_of(tx_id),
    {
        self.learn(tx_id, &rm_id, from, vote)
    }
}

impl<V: Clone> Node<V> {
    /// Whether a task is in progress and its outcome not applied yet.
    pub fn is_undecided(&self, task: u64) -> (undecided: bool)
        ensures
            undecided == (self@.tasks.contains_key(task) && !self@.tasks[task].applied),
    {
        match self.tasks.get(&task) {
            Some(t) => {
                assert(self@.tasks[task] == t.model());
                !t.applied
            },
            None => false,
        }
    }

    /// Whether a task is in progress and its outcome applied already.
    pub fn is_applied(&self, task: u64) -> (applied: bool)
        ensures
            applied == (self@.tasks.contains_key(task) && self@.tasks[task].applied),
    {
        match self.tasks.get(&task) {
            Some(t) => {
                assert(self@.tasks[task] == t.model());
                t.applied
            },
            None => false,
        }
    }

    /// The outcome of a task's transaction, once it is determined by the votes,
    /// or its time is up.
    pub fn decide(&self, task: u64, time_is_up: bool) -> (decision: Option<bool>)
        requires
            self@.tasks.contains_key(task),
        ensures
            decision == self@.decision(task, time_is_up),
    {
        match self.tasks.get(&task) {
            None => None,
            Some(t) => {
                assert(self@.tasks[task] == t.model());
                if time_is_up && !t.coordinator {
                    return Some(false);
                }
                let outcome = commit::evaluate_commit_rule(
                    t.key_replicas.as_slice(),
                    &t.votes,
                    self.quorum_size(),
                    self.acceptor_quorum(),
                    self.members.alive(),
                );
                match outcome {
                    Some(committed) => Some(committed),
                    None => if time_is_up {
                        Some(false)
                    } else {
                        None
                    },
                }
            },
        }
    }

    /// Apply the outcome of a task's transaction: store what was prepared if it
    /// has committed, and free its locks. Hands back what is left to store of a
    /// commit that this node voted against.
    pub fn apply_outcome(&mut self, task: u64, committed: bool) -> (applied: Applied<V>)
        requires
            old(self)@.valid(),
            old(self)@.tasks.contains_key(task),
        ensures
            final(self)@ == old(self)@.after_outcome(task, committed),
            final(self)@.valid(),
            applied.late@ == old(self)@.tasks[task].late_entries(committed),
            applied.version == old(self)@.tasks[task].version,
            is_outcome_step(old(self)@, task, committed, applied, final(self)@),
    {
        let ghost before = self@;
        let ghost tx = before.tasks[task].tx_id;
        proof {
            before.lemma_outcome_keeps_valid(task, committed);
            if before.prepared.contains_key(tx) {
                assert(before.prepared_sound(tx));
            }
        }
        let t = match self.tasks.remove(&task) {
            Some(t) => t,
            None => return Applied { late: Vec::new(), version: 0 },
        };
        assert(before.tasks[task] == t.model());
        assert(self@.tasks =~= before.tasks.remove(task));
        let mut late: Vec<Entry<V>> = Vec::new();
        if committed {
            match t.vote {
                Some(true) => {
                    // Apply the writes under the locks, then free them.
                    match self.prepared.remove(&t.tx_id) {
                        Some(p) => {
                            assert(before.prepared[tx] == p.model());
                            self.db.unlock(&p.entries);
                            self.db.write_all(p.entries, p.version);
                        },
                        None => {},
                    }
                    assert(self@.prepared =~= before.prepared.remove(tx));
                },
                Some(false) => {
                    self.drop_prepared(t.tx_id);
                    late = t.entries;
                },
                None => {},
            }
        } else {
            self.drop_prepared(t.tx_id);
        }
        let version = t.version;
        let done = Task { entries: Vec::new(), applied: true, ..t };
        let ghost done_model = done.model();
        assert(done_model =~= TaskView {
            entries: Seq::empty(),
            applied: true,
            ..before.tasks[task]
        });
        let ghost others = self@.tasks;
        self.tasks.insert(task, done);
        proof {
            assert(others =~= before.tasks.remove(task));
            assert(self@.tasks =~= others.insert(task, done_model));
            assert(self@ =~= before.after_outcome(task, committed));
            assert(late@ =~= before.tasks[task].late_entries(committed));
        }
        Applied { late, version }
    }

    /// Put a late entry unless a later version is stored. While its stripe is
    /// locked nothing happens, and the entry comes back.
    pub fn try_put(&mut self, entry: Entry<V>, version: u64) -> (back: Option<Entry<V>>)
        requires
            old(self)@.valid(),
            entry.1 == old(self)@.stripe_of(entry.0.key),
        ensures
            back == (if old(self)@.locked(entry.0.key) {
                Some(entry)
            } else {
                None
            }),
            final(self)@ == (if old(self)@.locked(entry.0.key) {
                old(self)@
            } else {
                old(self)@.after_late_put(entry, version)
            }),
            final(self)@.valid(),
            is_put_step(old(self)@, entry, version, back, final(self)@),
    {
        let ghost before = self@;
        if self.db.holder(entry.1).is_some() {
            return Some(entry);
        }
        self.db.put(entry.0.key, entry.0.val, version);
        assert(self@ =~= before.after_late_put(entry, version));
        proof {
            before.lemma_rest_keeps_valid(
                before.members,
                before.reads,
                self@.contents,
                before.next_handle,
            );
        }
        None
    }

    /// End a task whose outcome has been applied: its transaction is forgotten.
    pub fn close_task(&mut self, task: u64)
        requires
            old(self)@.valid(),
            old(self)@.tasks.contains_key(task),
            old(self)@.tasks[task].applied,
        ensures
            final(self)@ == old(self)@.after_close(task),
            final(self)@.valid(),
    {
        let ghost before = self@;
        proof {
            before.lemma_close_keeps_valid(task);
        }
        match self.tasks.remove(&task) {
            Some(t) => {
                assert(before.tasks[task] == t.model());
                self.learners.remove(&t.tx_id);
                self.acceptor_log.forget(t.tx_id);
            },
            None => {},
        }
        assert(self@.tasks =~= before.tasks.remove(task));
        assert(self@ =~= before.after_close(task));
    }

    /// What this node replies to a read of a key; `None` while its stripe is
    /// locked.
    pub fn read_local(&self, key: u64) -> (reply: Option<(Option<V>, u64)>)
        requires
            self@.valid(),
        ensures
            reply is None <==> self@.locked(key),
            reply matches Some(r) ==> model::is_replica_reply(self@.contents, key, r),
            is_reply(self@, key, reply),
    {
        let stripe = self.db.stripe_index(&key);
        if self.db.holder(stripe).is_some() {
            return None;
        }
        match self.db.get(&key) {
            Some((value, version)) => Some((Some(value), version)),
            None => Some((None, 0)),
        }
    }

    /// The answer to a peer's quorum read; `None` while the stripe is locked.
    pub fn answer_read(&self, from: usize, key: u64, req_id: u64) -> (answer: Option<Envelope<V>>)
        requires
            self@.valid(),
        ensures
            answer is None <==> self@.locked(key),
            answer matches Some(e) ==> {
                &&& e.to == from
                &&& e.msg matches PeerMessage::QuorumGetResponse { val, version, req_id: r }
                &&& r == req_id
                &&& model::is_replica_reply(self@.contents, key, (val, version))
                &&& is_reply(self@, key, Some((val, version)))
            },
    {
        match self.read_local(key) {
            Some((val, version)) => Some(
                Envelope {
                    to: from,
                    msg: PeerMessage::QuorumGetResponse { val, version, req_id },
                },
            ),
            None => None,
        }
    }

    /// Quorum read: ask the alive replicas of a key for its value. It is
    /// refused, and `None`, if too few are alive.
    pub fn begin_read(&mut self, key: u64, req_id: u64) -> (started: Option<ReadStart<V>>)
        requires
            old(self)@.valid(),
            old(self)@.next_handle < u64::MAX,
        ensures
            final(self)@ == old(self)@.after_begin_read(key, req_id),
            final(self)@.valid(),
            started is Some <==> old(self)@.alive_replicas(key).len() >= old(self)@.quorum(),
            started matches Some(s) ==> {
                &&& s.reader == old(self)@.next_handle
                &&& s.local == old(self)@.alive_replicas(key).contains(old(self)@.members.me)
                &&& messages::outbox(s.out@) == messages::addressed::<V>(
                    model::without(old(self)@.alive_replicas(key), old(self)@.members.me),
                    PeerView::QuorumGet { key, req_id },
                )
            },
    {
        let ghost before = self@;
        let replicas = self.get_alive_replicas(&key);
        let quorum = self.quorum_size();
        if replicas.len() < quorum {
            return None;
        }
        let me = self.members.me();
        let reader = self.next_handle;
        self.reads.open(reader, req_id, quorum);
        self.next_handle = reader + 1;
        proof {
            assert(self@ =~= before.after_begin_read(key, req_id));
            before.lemma_rest_keeps_valid(
                before.members,
                self@.reads,
                before.contents,
                self@.next_handle,
            );
        }
        let ghost msg = PeerView::<V>::QuorumGet { key, req_id };
        let mut out: Vec<Envelope<V>> = Vec::new();
        let mut i: usize = 0;
        while i < replicas.len()
            invariant
                i <= replicas@.len(),
                msg == (PeerView::<V>::QuorumGet { key, req_id }),
                messages::outbox(out@) == messages::addressed(
                    model::without(replicas@.take(i as int), me),
                    msg,
                ),
            decreases replicas@.len() - i,
        {
            let ghost so_far = out@;
            proof {
                assert(replicas@.take(i + 1).drop_last() =~= replicas@.take(i as int));
                assert(replicas@.take(i + 1).last() == replicas@[i as int]);
            }
            if replicas[i] != me {
                out.push(Envelope { to: replicas[i], msg: PeerMessage::QuorumGet { key, req_id } });
                assert(messages::outbox(out@) =~= messages::outbox(so_far).push(
                    (replicas@[i as int], msg),
                ));
                assert(messages::addressed(
                    model::without(replicas@.take(i + 1), me),
                    msg,
                ) =~= messages::addressed(model::without(replicas@.take(i as int), me), msg).push(
                    (replicas@[i as int], msg),
                ));
            }
            i += 1;
        }
        assert(replicas@.take(i as int) =~= replicas@);
        let local = holds(&replicas, me);
        Some(ReadStart { reader, local, out })
    }

    /// This node's own reply to a quorum read of its own. Returns whether it
    /// completes the read.
    pub fn deliver_local(&mut self, reader: u64, val: Option<V>, version: u64) -> (completes: bool)
        requires
            old(self)@.valid(),
            old(self)@.reads.readers.contains_key(reader),
        ensures
            final(self)@ == (NodeView {
                reads: old(self)@.reads.with_reply_to(reader, val, version),
                ..old(self)@
            }),
            final(self)@.valid(),
            completes == (!old(self)@.reads.readers[reader].complete()
                && final(self)@.reads.readers[reader].complete()),
    {
        let ghost before = self@;
        let completes = self.reads.deliver(reader, val, version);
        proof {
            assert(self@ =~= NodeView {
                reads: before.reads.with_reply_to(reader, val, version),
                ..before
            });
            before.lemma_rest_keeps_valid(
                before.members,
                self@.reads,
                before.contents,
                before.next_handle,
            );
        }
        completes
    }

    /// A replica has replied to a quorum read. Returns the read that this
    /// completes, if any.
    pub fn on_read_response(&mut self, val: Option<V>, version: u64, req_id: u64) -> (completed:
        Option<u64>)
        requires
            old(self)@.valid(),
        ensures
            final(self)@ == (NodeView {
                reads: old(self)@.reads.with_reply(req_id, val, version),
                ..old(self)@
            }),
            final(self)@.valid(),
            completed == old(self)@.reads.completed_by(req_id),
    {
        match self.reads.route(req_id) {
            Some(reader) => {
                if self.deliver_local(reader, val, version) {
                    Some(reader)
                } else {
                    None
                }
            },
            None => None,
        }
    }

    /// Whether a read is in progress.
    pub fn is_reading(&self, reader: u64) -> (reading: bool)
        ensures
            reading == self@.reads.readers.contains_key(reader),
    {
        self.reads.contains(reader)
    }

    /// Whether a read has the replies it needs.
    pub fn is_read_complete(&self, reader: u64) -> (complete: bool)
        ensures
            complete == (self@.reads.readers.contains_key(reader)
                && self@.reads.readers[reader].complete()),
    {
        self.reads.is_complete(reader)
    }

    /// End a quorum read, complete or not, and give its result: the
    /// highest-versioned value of a quorum of replies, or nothing.
    pub fn finish_read(&mut self, reader: u64) -> (result: Option<V>)
        requires
            old(self)@.valid(),
            old(self)@.reads.readers.contains_key(reader),
        ensures
            final(self)@ == (NodeView {
                reads: old(self)@.reads.without_reader(reader),
                ..old(self)@
            }),
            final(self)@.valid(),
            reads::is_read_result(old(self)@.reads.readers[reader], result),
    {
        let ghost before = self@;
        let result = self.reads.finish(reader);
        proof {
            assert(self@ =~= NodeView { reads: before.reads.without_reader(reader), ..before });
            before.lemma_rest_keeps_valid(
                before.members,
                self@.reads,
                before.contents,
                before.next_handle,
            );
        }
        result
    }
}

impl<V: Clone> Node<V> {
    /// A message has arrived from the peer at rank `from`.
    pub fn on_peer_message(&mut self, from: usize, msg: PeerMessage<u64, V>, now: u64) -> (step:
        PeerStep<V>)
        requires
            old(self)@.valid(),
            msg@ is Prepare ==> old(self)@.next_handle < u64::MAX,
            from < old(self)@.members.len(),
        ensures
            final(self)@ == old(self)@.after_peer_message(from, msg@, now),
            final(self)@.valid(),
            is_peer_step(old(self)@, from, msg@, step),
    {
        let ghost before = self@;
        match msg {
            PeerMessage::QuorumGet { key, req_id } => PeerStep::AnswerRead {
                to: from,
                key,
                req_id,
            },
            PeerMessage::QuorumGetResponse { val, version, req_id } => {
                match self.on_read_response(val, version, req_id) {
                    Some(reader) => PeerStep::ReadComplete { reader },
                    None => PeerStep::Nothing,
                }
            },
            PeerMessage::Prepare { pairs, tx_id, version } => PeerStep::Participate(
                self.handle_peer_prepare(pairs, tx_id, version),
            ),
            PeerMessage::Vote { tx_id, rm_id, vote } => {
                match self.on_vote(tx_id, rm_id, vote) {
                    Some(accepted) => PeerStep::Accept(accepted),
                    None => PeerStep::Nothing,
                }
            },
            PeerMessage::Accepted { tx_id, rm_id, vote } => {
                match self.on_accepted(from, tx_id, rm_id, vote) {
                    Some(task) => PeerStep::Learned { task },
                    None => PeerStep::Nothing,
                }
            },
            PeerMessage::Ping => PeerStep::Send(Envelope { to: from, msg: PeerMessage::Pong }),
            PeerMessage::Pong => {
                self.members.record_pong(from, now);
                proof {
                    assert(self@ =~= before.after_peer_message(from, PeerView::Pong, now));
                    before.lemma_rest_keeps_valid(
                        self@.members,
                        before.reads,
                        before.contents,
                        before.next_handle,
                    );
                }
                PeerStep::Nothing
            },
            PeerMessage::Done => {
                if self.mark_node_done(from) {
                    PeerStep::Shutdown
                } else {
                    PeerStep::Nothing
                }
            },
        }
    }

    /// Mark a node as done (finished tests). Returns whether all are done now,
    /// and were not before.
    pub fn mark_node_done(&mut self, rank: usize) -> (shutdown: bool)
        requires
            old(self)@.valid(),
            rank < old(self)@.members.len(),
        ensures
            final(self)@ == (NodeView {
                members: old(self)@.members.with_done(rank),
                ..old(self)@
            }),
            final(self)@.valid(),
            shutdown == old(self)@.last_to_be_done(rank),
    {
        let ghost before = self@;
        let shutdown = self.members.mark_node_done(rank);
        proof {
            assert(self@ =~= NodeView { members: before.members.with_done(rank), ..before });
            before.lemma_rest_keeps_valid(
                self@.members,
                before.reads,
                before.contents,
                before.next_handle,
            );
        }
        shutdown
    }

    /// Mark a node as dead (crashed): it is no longer alive and counts as done.
    /// Returns whether all are done now, and were not before.
    pub fn mark_node_dead(&mut self, rank: usize) -> (shutdown: bool)
        requires
            old(self)@.valid(),
            rank < old(self)@.members.len(),
        ensures
            final(self)@ == (NodeView {
                members: old(self)@.members.with_dead(rank),
                ..old(self)@
            }),
            final(self)@.valid(),
            shutdown == old(self)@.last_to_be_done(rank),
    {
        let ghost before = self@;
        let shutdown = self.members.mark_node_dead(rank);
        proof {
            assert(self@ =~= NodeView { members: before.members.with_dead(rank), ..before });
            before.lemma_rest_keeps_valid(
                self@.members,
                before.reads,
                before.contents,
                before.next_handle,
            );
        }
        shutdown
    }

    /// A client's quorum read of a key, under a request number drawn at random.
    pub fn handle_local_get(&mut self, key: u64) -> (step: LocalStep<V>)
        requires
            old(self)@.valid(),
            old(self)@.next_handle < u64::MAX,
        ensures
            is_read_step(old(self)@, key, step, final(self)@),
            final(self)@.valid(),
    {
        let req_id = random::random_u64();
        match self.begin_read(key, req_id) {
            Some(started) => LocalStep::Read { req_id, started },
            None => LocalStep::ReadRefused,
        }
    }

    /// A client's write of `pairs`, under a transaction number drawn at random.
    pub fn handle_local_write(&mut self, pairs: Vec<KVPair<u64, V>>) -> (step: LocalStep<V>)
        requires
            old(self)@.valid(),
            old(self)@.clock < u64::MAX,
            old(self)@.next_handle < u64::MAX,
        ensures
            is_write_step(old(self)@, pairs@, step, final(self)@),
            final(self)@.valid(),
    {
        let tx_id = random::random_u64();
        match self.begin_write(tx_id, pairs) {
            Some(started) => LocalStep::Write { tx_id, started },
            None => LocalStep::WriteRefused,
        }
    }

    /// A client's request has arrived.
    pub fn on_local_message(&mut self, msg: LocalMessage<u64, V>) -> (step: LocalStep<V>)
        requires
            old(self)@.valid(),
            msg is Put || msg is TriPut ==> old(self)@.clock < u64::MAX,
            !(msg is Done) ==> old(self)@.next_handle < u64::MAX,
        ensures
            is_local_step(old(self)@, msg, step, final(self)@),
            final(self)@.valid(),
    {
        match msg {
            LocalMessage::Get { key } => self.handle_local_get(key),
            LocalMessage::Put { pair } => {
                let mut pairs: Vec<KVPair<u64, V>> = Vec::new();
                pairs.push(pair);
                assert(pairs@ =~= seq![pair]);
                self.handle_local_write(pairs)
            },
            LocalMessage::TriPut { pairs } => {
                let mut copies: Vec<KVPair<u64, V>> = Vec::new();
                copies.push(KVPair { key: pairs[0].key, val: pairs[0].val.clone() });
                copies.push(KVPair { key: pairs[1].key, val: pairs[1].val.clone() });
                copies.push(KVPair { key: pairs[2].key, val: pairs[2].val.clone() });
                assert(types::pairs_cloned(pairs@, copies@));
                self.handle_local_write(copies)
            },
            LocalMessage::Done => {
                let targets = self.members.others();
                let out = signal_each(&targets, true);
                let me = self.members.me();
                let shutdown = self.mark_node_done(me);
                LocalStep::Done { out, shutdown }
            },
        }
    }

    /// A heartbeat round at time `now`: ping every peer that is alive, and mark
    /// as dead every peer that has been silent for too long.
    pub fn heartbeat(&mut self, now: u64) -> (step: HeartbeatStep<V>)
        requires
            old(self)@.valid(),
        ensures
            messages::outbox(step.out@) == messages::addressed::<V>(
                old(self)@.members.alive_others(),
                PeerView::Ping,
            ),
            step.dead@ == old(self)@.members.expired(now),
            final(self)@ == (NodeView {
                members: old(self)@.members.with_all_dead(step.dead@),
                ..old(self)@
            }),
            final(self)@.valid(),
            step.shutdown == ({
                &&& exists|i: int|
                    0 <= i < step.dead@.len() && !old(self)@.members.done.contains(
                        #[trigger] step.dead@[i],
                    )
                &&& old(self)@.members.with_all_dead(step.dead@).done.len()
                    >= old(self)@.members.len()
            }),
            is_heartbeat_step(old(self)@, now, step, final(self)@),
    {
        let ghost before = self@;
        let round = self.members.heartbeat(now);
        let out = signal_each(&round.pings, false);
        proof {
            assert(self@ =~= NodeView {
                members: before.members.with_all_dead(round.dead@),
                ..before
            });
            before.lemma_rest_keeps_valid(
                self@.members,
                before.reads,
                before.contents,
                before.next_handle,
            );
        }
        HeartbeatStep { out, dead: round.dead, shutdown: round.shutdown }
    }
}

/// The rank of a node is where it stands, since none is there twice.
proof fn lemma_rank_in(nodes: Seq<(Seq<char>, usize)>, rank: usize, name: (Seq<char>, usize))
    requires
        nodes.no_duplicates(),
        rank < nodes.len() <= usize::MAX,
        nodes[rank as int] == name,
    ensures
        model::rank_in(nodes, name) == Some(rank),
{
    assert(nodes.contains(name));
    assert(nodes[nodes.index_of(name)] == name);
}

} // verus!
