//! What a node is, and what each of its steps makes of it.

use crate::commit;
use crate::db;
use crate::db::Entry;
use crate::membership;
use crate::membership::MembershipView;
use crate::messages;
use crate::messages::{Envelope, PeerMessage, PeerView};
use crate::reads::ReadsView;
use crate::ring;
use crate::types;
use crate::types::KVPair;
use crate::votes;
use vstd::prelude::*;

verus! {

/// A node's part in a transaction, from its beginning to its end.
#[verifier::ext_equal]
pub struct TaskView<V: Clone> {
    pub tx_id: u64,
    /// Whether this node coordinates it, or was asked to prepare it.
    pub coordinator: bool,
    /// For each key of the transaction, the ranks of its replicas.
    pub key_replicas: Seq<Seq<usize>>,
    /// The confirmed votes collected so far, by the rank of the RM.
    pub votes: Map<usize, (Set<usize>, Set<usize>)>,
    /// The same of RMs outside the cluster, by name. They own no key, so the
    /// outcome does not depend on them.
    pub strangers: Map<(Seq<char>, usize), (Set<usize>, Set<usize>)>,
    /// This node's own vote, if it is an RM of the transaction.
    pub vote: Option<bool>,
    /// What to store if the transaction commits against this node's vote.
    pub entries: Seq<Entry<V>>,
    /// The version that its writes carry.
    pub version: u64,
    /// Whether its outcome has been applied.
    pub applied: bool,
}

/// A transaction that this node has prepared: what it will store if it
/// commits, and the task whose locks keep that possible.
#[verifier::ext_equal]
pub struct PreparedView<V: Clone> {
    pub holder: u64,
    pub entries: Seq<Entry<V>>,
    pub version: u64,
}

/// A node.
#[verifier::ext_equal]
pub struct NodeView<V: Clone> {
    pub members: MembershipView,
    pub replication_degree: usize,
    /// The number of stripes.
    pub stripes: usize,
    /// The stored values with their versions, by key.
    pub contents: Map<u64, (V, u64)>,
    /// For each stripe, the task that has locked it.
    pub holders: Seq<Option<u64>>,
    /// The Lamport clock that numbers the writes.
    pub clock: u64,
    /// The quorum reads in progress.
    pub reads: ReadsView<V>,
    /// The votes this node has accepted, by transaction and RM.
    pub log: Map<(u64, (Seq<char>, usize)), bool>,
    /// The tasks in progress, each under its own handle.
    pub tasks: Map<u64, TaskView<V>>,
    /// For each transaction, the task that learns the votes on it.
    pub learners: Map<u64, u64>,
    /// The transactions that this node has prepared.
    pub prepared: Map<u64, PreparedView<V>>,
    /// The handle of the next task or read.
    pub next_handle: u64,
}

/// The rank of a named node, if it is in the list.
pub open spec fn rank_in(nodes: Seq<(Seq<char>, usize)>, name: (Seq<char>, usize)) -> Option<usize> {
    if nodes.contains(name) {
        Some(nodes.index_of(name) as usize)
    } else {
        None
    }
}

/// Those of `ranks` that own one of the keys, in their given order.
pub open spec fn owners_among(ranks: Seq<usize>, key_replicas: Seq<Seq<usize>>) -> Seq<usize>
    decreases ranks.len(),
{
    if ranks.len() == 0 {
        Seq::empty()
    } else {
        let rest = owners_among(ranks.drop_last(), key_replicas);
        if owns_some(ranks.last(), key_replicas) {
            rest.push(ranks.last())
        } else {
            rest
        }
    }
}

/// `rank` owns one of the keys.
pub open spec fn owns_some(rank: usize, key_replicas: Seq<Seq<usize>>) -> bool {
    exists|k: int| 0 <= k < key_replicas.len() && (#[trigger] key_replicas[k]).contains(rank)
}

/// No node is listed twice among a key's replicas.
pub open spec fn distinct_replicas(key_replicas: Seq<Seq<usize>>) -> bool {
    forall|k: int| 0 <= k < key_replicas.len() ==> (#[trigger] key_replicas[k]).no_duplicates()
}

/// The pairs sent to each of `targets` for it to prepare: clones of `pairs`.
pub open spec fn prepares_sent<V: Clone>(
    targets: Seq<usize>,
    pairs: Seq<KVPair<u64, V>>,
    tx_id: u64,
    version: u64,
    sent: Seq<Envelope<V>>,
) -> bool {
    &&& sent.len() == targets.len()
    &&& forall|i: int| 0 <= i < sent.len() ==> (#[trigger] sent[i]).to == targets[i]
    &&& forall|i: int|
        0 <= i < sent.len() ==> {
            &&& (#[trigger] sent[i]).msg matches PeerMessage::Prepare {
                pairs: sent_pairs,
                tx_id: sent_tx,
                version: sent_version,
            }
            &&& sent_tx == tx_id
            &&& sent_version == version
            &&& types::pairs_cloned(pairs, sent_pairs@)
        }
}

/// Those of `ranks` that are not `me`, in their given order.
pub open spec fn without(ranks: Seq<usize>, me: usize) -> Seq<usize>
    decreases ranks.len(),
{
    if ranks.len() == 0 {
        Seq::empty()
    } else if ranks.last() == me {
        without(ranks.drop_last(), me)
    } else {
        without(ranks.drop_last(), me).push(ranks.last())
    }
}

/// `reply` is what a replica that stores `contents` replies to a read of `key`:
/// a clone of the value with its version, or no value and version 0.
pub open spec fn is_replica_reply<V: Clone>(
    contents: Map<u64, (V, u64)>,
    key: u64,
    reply: (Option<V>, u64),
) -> bool {
    if contents.contains_key(key) {
        &&& reply.0 is Some
        &&& cloned(contents[key].0, reply.0->0)
        &&& reply.1 == contents[key].1
    } else {
        reply == (None::<V>, 0u64)
    }
}

/// The holders once what was prepared of a transaction has been dropped, and
/// its locks with it.
pub open spec fn after_drop<V: Clone>(
    holders: Seq<Option<u64>>,
    prepared: Map<u64, PreparedView<V>>,
    tx_id: u64,
) -> Seq<Option<u64>> {
    if prepared.contains_key(tx_id) {
        db::after_unlock(holders, prepared[tx_id].entries)
    } else {
        holders
    }
}

impl<V: Clone> TaskView<V> {
    /// The task once `acceptor` has confirmed the vote of an RM, which is
    /// recorded under its rank among `nodes`, or under its name if it has none.
    pub open spec fn with_confirmation(
        self,
        nodes: Seq<(Seq<char>, usize)>,
        rm: (Seq<char>, usize),
        acceptor: usize,
        vote: bool,
    ) -> Self {
        match rank_in(nodes, rm) {
            Some(r) => TaskView {
                votes: votes::after_confirmation(self.votes, r, acceptor, vote),
                ..self
            },
            None => TaskView {
                strangers: votes::after_confirmation(self.strangers, rm, acceptor, vote),
                ..self
            },
        }
    }

    /// What is left to store, version by version, once an outcome has been
    /// applied: the entries of a commit that this node voted against.
    pub open spec fn late_entries(self, committed: bool) -> Seq<Entry<V>> {
        if committed && self.vote == Some(false) {
            self.entries
        } else {
            Seq::empty()
        }
    }

    /// The outcome takes what this node has prepared of the transaction: every
    /// abort does, and every commit of which this node is an RM.
    pub open spec fn takes_prepared(self, committed: bool) -> bool {
        !committed || self.vote is Some
    }
}

impl<V: Clone> NodeView<V> {
    /// The size of the cluster.
    pub open spec fn cluster_len(self) -> usize {
        self.members.len() as usize
    }

    /// The identifier of the node.
    pub open spec fn my_name(self) -> (Seq<char>, usize) {
        self.members.nodes[self.members.me as int]
    }

    /// The ranks of a key's replicas.
    pub open spec fn replicas(self, key: u64) -> Seq<usize> {
        ring::replica_window(key, self.cluster_len(), self.replication_degree)
    }

    /// The ranks of a key's replicas that are alive.
    pub open spec fn alive_replicas(self, key: u64) -> Seq<usize> {
        membership::alive_of(self.replicas(key), self.members.alive)
    }

    /// How many replicas a read or a write of a key needs.
    pub open spec fn quorum(self) -> nat {
        commit::majority(self.replication_degree as nat)
    }

    /// How many acceptors make a vote learned.
    pub open spec fn acceptor_quorum(self) -> nat {
        commit::majority(self.members.len())
    }

    /// The stripe of a key.
    pub open spec fn stripe_of(self, key: u64) -> usize {
        ring::slot_of(key, self.stripes)
    }

    /// A stripe is free, or locked by a task in progress that has prepared its
    /// transaction and touches that stripe.
    pub open spec fn lock_sound(self, s: int) -> bool {
        match self.holders[s] {
            None => true,
            Some(task) => {
                &&& self.tasks.contains_key(task)
                &&& self.prepared.contains_key(self.tasks[task].tx_id)
                &&& self.prepared[self.tasks[task].tx_id].holder == task
                &&& db::touches(self.prepared[self.tasks[task].tx_id].entries, s)
            },
        }
    }

    /// A prepared transaction belongs to a task that voted for its commit and
    /// has not applied its outcome yet, its entries carry their stripes, and
    /// each of those stripes is locked by that task.
    pub open spec fn prepared_sound(self, tx_id: u64) -> bool {
        let p = self.prepared[tx_id];
        &&& self.tasks.contains_key(p.holder)
        &&& self.tasks[p.holder].tx_id == tx_id
        &&& self.tasks[p.holder].vote == Some(true)
        &&& !self.tasks[p.holder].applied
        &&& db::entries_placed(p.entries, self.stripes)
        &&& forall|i: int|
            0 <= i < p.entries.len() ==> self.holders[(#[trigger] p.entries[i]).1 as int] == Some(
                p.holder,
            )
    }

    /// What holds of a node between its steps.
    pub open spec fn valid(self) -> bool {
        &&& self.members.valid()
        &&& 0 < self.stripes
        &&& self.holders.len() == self.stripes
        &&& self.reads.valid(self.next_handle)
        &&& forall|s: int| 0 <= s < self.stripes ==> #[trigger] self.lock_sound(s)
        &&& forall|tx_id: u64| #[trigger]
            self.prepared.contains_key(tx_id) ==> self.prepared_sound(tx_id)
        &&& forall|tx_id: u64| #[trigger]
            self.learners.contains_key(tx_id) ==> self.tasks.contains_key(self.learners[tx_id])
                && self.tasks[self.learners[tx_id]].tx_id == tx_id
        &&& forall|task: u64| #[trigger]
            self.tasks.contains_key(task) ==> {
                &&& task < self.next_handle
                &&& db::entries_placed(self.tasks[task].entries, self.stripes)
                &&& votes::finitely_confirmed(self.tasks[task].votes)
                &&& distinct_replicas(self.tasks[task].key_replicas)
            }
    }

    /// For each pair, the ranks of its key's replicas.
    pub open spec fn key_windows(self, pairs: Seq<KVPair<u64, V>>) -> Seq<Seq<usize>> {
        Seq::new(pairs.len(), |i: int| self.replicas(pairs[i].key))
    }

    /// Every pair's key has enough replicas alive for a quorum.
    pub open spec fn feasible(self, pairs: Seq<KVPair<u64, V>>) -> bool {
        forall|i: int|
            0 <= i < pairs.len() ==> self.alive_replicas((#[trigger] pairs[i]).key).len()
                >= self.quorum()
    }

    /// The pairs that this node is a replica for, with their stripes.
    pub open spec fn local_entries(self, pairs: Seq<KVPair<u64, V>>) -> Seq<Entry<V>>
        decreases pairs.len(),
    {
        if pairs.len() == 0 {
            Seq::empty()
        } else {
            let rest = self.local_entries(pairs.drop_last());
            let last = pairs.last();
            if self.replicas(last.key).contains(self.members.me) {
                rest.push((last, self.stripe_of(last.key)))
            } else {
                rest
            }
        }
    }

    /// What this node is to store of `pairs`, in the order of the stripes.
    pub open spec fn entries_for(self, pairs: Seq<KVPair<u64, V>>) -> Seq<Entry<V>> {
        db::sorted_by_stripe(self.local_entries(pairs))
    }

    /// The other nodes that own a key of `pairs`.
    pub open spec fn remote_rms(self, pairs: Seq<KVPair<u64, V>>) -> Seq<usize> {
        owners_among(self.members.others(), self.key_windows(pairs))
    }

    /// The vote of this node on a transaction of which it is to store
    /// `entries`: Prepared if it can lock the stripe of every entry.
    pub open spec fn own_vote(self, entries: Seq<Entry<V>>) -> bool {
        db::stripes_free(self.holders, entries)
    }

    /// The node has begun a task on a transaction of which it is to store
    /// `entries`, and of which `votes` and `strangers` were known:
    /// it has locked its stripes if it can, voted, accepted its own vote and
    /// counted its own confirmation. What it had prepared of that transaction
    /// before gives way to what it prepares now.
    pub open spec fn with_ballot(
        self,
        tx_id: u64,
        key_replicas: Seq<Seq<usize>>,
        entries: Seq<Entry<V>>,
        version: u64,
        coordinator: bool,
        votes: Map<usize, (Set<usize>, Set<usize>)>,
        strangers: Map<(Seq<char>, usize), (Set<usize>, Set<usize>)>,
    ) -> Self {
        let task = self.next_handle;
        let vote = self.own_vote(entries);
        NodeView {
            holders: if vote {
                after_drop(db::after_lock(self.holders, entries, task), self.prepared, tx_id)
            } else {
                self.holders
            },
            prepared: if vote {
                self.prepared.insert(tx_id, PreparedView { holder: task, entries, version })
            } else {
                self.prepared
            },
            log: self.log.insert((tx_id, self.my_name()), vote),
            tasks: self.tasks.insert(
                task,
                TaskView {
                    tx_id,
                    coordinator,
                    key_replicas,
                    votes: votes::after_confirmation(
                        votes,
                        self.members.me,
                        self.members.me,
                        vote,
                    ),
                    strangers,
                    vote: Some(vote),
                    entries: if vote {
                        Seq::empty()
                    } else {
                        entries
                    },
                    version,
                    applied: false,
                },
            ),
            learners: self.learners.insert(tx_id, task),
            next_handle: (task + 1) as u64,
            ..self
        }
    }

    /// The next version has been issued.
    pub open spec fn with_next_version(self) -> Self {
        NodeView { clock: (self.clock + 1) as u64, ..self }
    }

    /// A remote version has been observed.
    pub open spec fn with_observed(self, remote_version: u64) -> Self {
        NodeView {
            clock: if remote_version > self.clock {
                remote_version
            } else {
                self.clock
            },
            ..self
        }
    }

    /// This node has begun to coordinate a write of `pairs`, which is refused
    /// where it is not feasible. If the node is no replica of any pair it
    /// casts no vote.
    pub open spec fn after_begin_write(self, tx_id: u64, pairs: Seq<KVPair<u64, V>>) -> Self {
        let next = self.with_next_version();
        if !self.feasible(pairs) {
            next
        } else if self.entries_for(pairs).len() > 0 {
            next.with_ballot(
                tx_id,
                self.key_windows(pairs),
                self.entries_for(pairs),
                next.clock,
                true,
                Map::empty(),
                Map::empty(),
            )
        } else {
            NodeView {
                tasks: self.tasks.insert(
                    self.next_handle,
                    TaskView {
                        tx_id,
                        coordinator: true,
                        key_replicas: self.key_windows(pairs),
                        votes: Map::empty(),
                        strangers: Map::empty(),
                        vote: None,
                        entries: Seq::empty(),
                        version: next.clock,
                        applied: false,
                    },
                ),
                learners: self.learners.insert(tx_id, self.next_handle),
                next_handle: (self.next_handle + 1) as u64,
                ..next
            }
        }
    }

    /// What is sent when a feasible write begins: first to each other RM the
    /// pairs to prepare, then, if this node is an RM itself, its ballots.
    pub open spec fn write_sent(
        self,
        tx_id: u64,
        pairs: Seq<KVPair<u64, V>>,
        sent: Seq<Envelope<V>>,
    ) -> bool {
        let rms = self.remote_rms(pairs);
        let version = (self.clock + 1) as u64;
        let n = rms.len() as int;
        &&& n <= sent.len()
        &&& prepares_sent(rms, pairs, tx_id, version, sent.take(n))
        &&& messages::outbox(sent.skip(n)) == if self.entries_for(pairs).len() > 0 {
            self.ballots_on(tx_id, pairs)
        } else {
            Seq::empty()
        }
    }

    /// This node's ballots on a write of `pairs`.
    pub open spec fn ballots_on(self, tx_id: u64, pairs: Seq<KVPair<u64, V>>) -> Seq<
        (usize, PeerView<V>),
    > {
        messages::ballots(
            self.members.others(),
            tx_id,
            self.my_name(),
            self.own_vote(self.entries_for(pairs)),
        )
    }

    /// This node has been asked to prepare `pairs`: it has observed the
    /// version, recovered the votes it had accepted already, and voted.
    pub open spec fn after_peer_prepare(
        self,
        tx_id: u64,
        pairs: Seq<KVPair<u64, V>>,
        version: u64,
    ) -> Self {
        self.with_observed(version).with_ballot(
            tx_id,
            self.key_windows(pairs),
            self.entries_for(pairs),
            version,
            false,
            votes::recovered_votes(
                self.log,
                tx_id,
                self.members.nodes,
                self.members.me,
                self.members.len(),
            ),
            votes::recovered_strangers(self.log, tx_id, self.members.nodes, self.members.me),
        )
    }

    /// The task that learns the votes on a transaction.
    pub open spec fn learner_of(self, tx_id: u64) -> Option<u64> {
        if self.learners.contains_key(tx_id) {
            Some(self.learners[tx_id])
        } else {
            None
        }
    }

    /// `acceptor` has confirmed an RM's vote on a transaction; without a task
    /// that learns the votes on it, nothing comes of that.
    pub open spec fn after_accepted(
        self,
        tx_id: u64,
        rm: (Seq<char>, usize),
        acceptor: usize,
        vote: bool,
    ) -> Self {
        if self.learners.contains_key(tx_id) {
            let task = self.learners[tx_id];
            NodeView {
                tasks: self.tasks.insert(
                    task,
                    self.tasks[task].with_confirmation(
                        self.members.nodes,
                        rm,
                        acceptor,
                        vote,
                    ),
                ),
                ..self
            }
        } else {
            self
        }
    }

    /// An RM's vote has reached this node as an acceptor. The first vote of an
    /// RM on a transaction is accepted, and any other is ignored.
    pub open spec fn after_vote(self, tx_id: u64, rm: (Seq<char>, usize), vote: bool) -> Self {
        if self.log.contains_key((tx_id, rm)) {
            self
        } else {
            let accepted = NodeView { log: self.log.insert((tx_id, rm), vote), ..self };
            accepted.after_accepted(tx_id, rm, self.members.me, vote)
        }
    }

    /// The outcome of a task's transaction as far as the collected votes
    /// determine it.
    pub open spec fn outcome(self, task: u64) -> Option<bool> {
        commit::commit_rule(
            self.tasks[task].key_replicas,
            self.tasks[task].votes,
            self.quorum(),
            self.acceptor_quorum(),
            self.members.alive,
        )
    }

    /// The decision on a task's transaction. When its time is up, the
    /// coordinator goes by the votes once more and takes an open outcome for
    /// an abort; any other participant aborts.
    pub open spec fn decision(self, task: u64, time_is_up: bool) -> Option<bool> {
        if !time_is_up {
            self.outcome(task)
        } else if self.tasks[task].coordinator {
            Some(self.outcome(task) == Some(true))
        } else {
            Some(false)
        }
    }

    /// A task has applied the outcome of its transaction: what was prepared is
    /// stored if this node voted for the commit, and its locks are free.
    pub open spec fn after_outcome(self, task: u64, committed: bool) -> Self {
        let t = self.tasks[task];
        let takes = t.takes_prepared(committed);
        NodeView {
            contents: if committed && t.vote == Some(true) && self.prepared.contains_key(
                t.tx_id,
            ) {
                db::after_writes(
                    self.contents,
                    self.prepared[t.tx_id].entries,
                    self.prepared[t.tx_id].version,
                )
            } else {
                self.contents
            },
            holders: if takes {
                after_drop(self.holders, self.prepared, t.tx_id)
            } else {
                self.holders
            },
            prepared: if takes {
                self.prepared.remove(t.tx_id)
            } else {
                self.prepared
            },
            tasks: self.tasks.insert(
                task,
                TaskView { entries: Seq::empty(), applied: true, ..t },
            ),
            ..self
        }
    }

    /// The stripe of a key is locked.
    pub open spec fn locked(self, key: u64) -> bool {
        self.holders[self.stripe_of(key) as int] is Some
    }

    /// A late entry has been put: it is stored unless a later version is.
    pub open spec fn after_late_put(self, entry: Entry<V>, version: u64) -> Self {
        NodeView {
            contents: db::after_put(self.contents, entry.0.key, entry.0.val, version),
            ..self
        }
    }

    /// A task is over: nothing of its transaction is kept.
    pub open spec fn after_close(self, task: u64) -> Self {
        let tx_id = self.tasks[task].tx_id;
        NodeView {
            tasks: self.tasks.remove(task),
            learners: self.learners.remove(tx_id),
            log: votes::without_tx(self.log, tx_id),
            ..self
        }
    }

    /// A quorum read of a key has begun, unless too few replicas are alive.
    pub open spec fn after_begin_read(self, key: u64, req_id: u64) -> Self {
        if self.alive_replicas(key).len() < self.quorum() {
            self
        } else {
            NodeView {
                reads: self.reads.with_reader(self.next_handle, req_id, self.quorum() as usize),
                next_handle: (self.next_handle + 1) as u64,
                ..self
            }
        }
    }

    /// A peer's message has arrived.
    pub open spec fn after_peer_message(self, from: usize, msg: PeerView<V>, now: u64) -> Self {
        match msg {
            PeerView::QuorumGet { .. } => self,
            PeerView::QuorumGetResponse { val, version, req_id } => NodeView {
                reads: self.reads.with_reply(req_id, val, version),
                ..self
            },
            PeerView::Prepare { pairs, tx_id, version } => self.after_peer_prepare(
                tx_id,
                pairs,
                version,
            ),
            PeerView::Vote { tx_id, rm, vote } => self.after_vote(tx_id, rm, vote),
            PeerView::Accepted { tx_id, rm, vote } => self.after_accepted(tx_id, rm, from, vote),
            PeerView::Ping => self,
            PeerView::Pong => NodeView {
                members: MembershipView {
                    pongs: self.members.pongs.insert(from, now),
                    ..self.members
                },
                ..self
            },
            PeerView::Done => NodeView { members: self.members.with_done(from), ..self },
        }
    }

    /// Marking a node as done makes all nodes of the cluster done, and it was
    /// not before.
    pub open spec fn last_to_be_done(self, rank: usize) -> bool {
        &&& !self.members.done.contains(rank)
        &&& self.members.with_done(rank).done.len() >= self.members.len()
    }

    /// Whatever the clock shows, the rest of the node stays valid.
    pub proof fn lemma_clock_keeps_valid(self, clock: u64)
        requires
            self.valid(),
        ensures
            (NodeView { clock, ..self }).valid(),
    {
        let after = NodeView { clock, ..self };
        assert forall|s: int| 0 <= s < after.stripes implies #[trigger] after.lock_sound(s) by {
            assert(self.lock_sound(s));
        }
        assert forall|tx_id: u64| #[trigger] after.prepared.contains_key(tx_id) implies
            after.prepared_sound(tx_id) by {
            assert(self.prepared_sound(tx_id));
        }
    }

    /// The local entries carry their stripes.
    pub proof fn lemma_local_entries_placed(self, pairs: Seq<KVPair<u64, V>>)
        ensures
            db::entries_placed(self.local_entries(pairs), self.stripes),
            db::entries_placed(self.entries_for(pairs), self.stripes),
        decreases pairs.len(),
    {
        if pairs.len() > 0 {
            self.lemma_local_entries_placed(pairs.drop_last());
        }
        db::law_sort_keeps_writes(self.contents, self.local_entries(pairs), 0, self.stripes);
    }

    /// The replicas of a key are distinct.
    pub proof fn lemma_windows_are_distinct(self, pairs: Seq<KVPair<u64, V>>)
        requires
            self.members.valid(),
        ensures
            distinct_replicas(self.key_windows(pairs)),
    {
        assert forall|k: int| 0 <= k < pairs.len() implies (#[trigger] self.key_windows(
            pairs,
        )[k]).no_duplicates() by {
            ring::law_replicas_of_a_key(
                pairs[k].key,
                self.cluster_len(),
                self.replication_degree,
            );
        }
    }

    /// Who owns which keys, and where, rests on the cluster, the replication
    /// degree and the number of stripes alone.
    pub proof fn lemma_same_placement(self, other: Self, pairs: Seq<KVPair<u64, V>>)
        requires
            self.members == other.members,
            self.replication_degree == other.replication_degree,
            self.stripes == other.stripes,
        ensures
            self.key_windows(pairs) == other.key_windows(pairs),
            self.feasible(pairs) == other.feasible(pairs),
            self.local_entries(pairs) == other.local_entries(pairs),
            self.entries_for(pairs) == other.entries_for(pairs),
            self.remote_rms(pairs) == other.remote_rms(pairs),
        decreases pairs.len(),
    {
        assert(self.key_windows(pairs) =~= other.key_windows(pairs));
        if pairs.len() > 0 {
            self.lemma_same_placement(other, pairs.drop_last());
        }
    }

    /// Beginning a task with a vote keeps a node valid.
    pub proof fn lemma_ballot_keeps_valid(
        self,
        tx_id: u64,
        key_replicas: Seq<Seq<usize>>,
        entries: Seq<Entry<V>>,
        version: u64,
        coordinator: bool,
        votes: Map<usize, (Set<usize>, Set<usize>)>,
        strangers: Map<(Seq<char>, usize), (Set<usize>, Set<usize>)>,
    )
        requires
            self.valid(),
            self.next_handle < u64::MAX,
            db::entries_placed(entries, self.stripes),
            votes::finitely_confirmed(votes),
            distinct_replicas(key_replicas),
        ensures
            self.with_ballot(
                tx_id,
                key_replicas,
                entries,
                version,
                coordinator,
                votes,
                strangers,
            ).valid(),
    {
        let after = self.with_ballot(
            tx_id,
            key_replicas,
            entries,
            version,
            coordinator,
            votes,
            strangers,
        );
        let task = self.next_handle;
        let vote = self.own_vote(entries);
        assert(!self.tasks.contains_key(task));
        if vote {
            assert forall|s: int|
                0 <= s < self.stripes && #[trigger] db::touches(entries, s) implies self.holders[s]
                is None by {
                let i = choose|i: int| 0 <= i < entries.len() && (#[trigger] entries[i]).1 == s;
                assert(self.holders[entries[i].1 as int] is None);
            }
            if self.prepared.contains_key(tx_id) {
                assert(self.prepared_sound(tx_id));
                let dropped = self.prepared[tx_id].entries;
                assert forall|s: int|
                    0 <= s < self.stripes && #[trigger] db::touches(dropped, s) implies
                    self.holders[s] == Some(self.prepared[tx_id].holder) by {
                    let i = choose|i: int|
                        0 <= i < dropped.len() && (#[trigger] dropped[i]).1 == s;
                    assert(self.holders[dropped[i].1 as int] == Some(self.prepared[tx_id].holder));
                }
            }
        }
        assert forall|s: int| 0 <= s < after.stripes implies #[trigger] after.lock_sound(s) by {
            assert(self.lock_sound(s));
        }
        assert forall|tx: u64| #[trigger] after.prepared.contains_key(tx) implies
            after.prepared_sound(tx) by {
            if vote && tx == tx_id {
                assert forall|i: int| 0 <= i < entries.len() implies after.holders[(
                #[trigger] entries[i]).1 as int] == Some(task) by {
                    let s = entries[i].1 as int;
                    assert(s == ring::slot_of(entries[i].0.key, self.stripes));
                    assert(db::touches(entries, s));
                }
            } else {
                assert(self.prepared_sound(tx));
                let p = self.prepared[tx];
                assert forall|i: int| 0 <= i < p.entries.len() implies after.holders[(
                #[trigger] p.entries[i]).1 as int] == Some(p.holder) by {
                    let s = p.entries[i].1 as int;
                    assert(s == ring::slot_of(p.entries[i].0.key, self.stripes));
                    assert(self.holders[s] == Some(p.holder));
                }
            }
        }
    }

    /// Beginning a write keeps a node valid.
    pub proof fn lemma_begin_write_keeps_valid(self, tx_id: u64, pairs: Seq<KVPair<u64, V>>)
        requires
            self.valid(),
            self.clock < u64::MAX,
            self.next_handle < u64::MAX,
        ensures
            self.after_begin_write(tx_id, pairs).valid(),
    {
        let next = self.with_next_version();
        let after = self.after_begin_write(tx_id, pairs);
        self.lemma_clock_keeps_valid(next.clock);
        self.lemma_windows_are_distinct(pairs);
        if self.feasible(pairs) {
            if self.entries_for(pairs).len() > 0 {
                self.lemma_local_entries_placed(pairs);
                next.lemma_ballot_keeps_valid(
                    tx_id,
                    self.key_windows(pairs),
                    self.entries_for(pairs),
                    next.clock,
                    true,
                    Map::empty(),
                    Map::empty(),
                );
            } else {
                assert(!self.tasks.contains_key(self.next_handle));
                assert forall|s: int| 0 <= s < after.stripes implies #[trigger] after.lock_sound(
                    s,
                ) by {
                    assert(self.lock_sound(s));
                }
                assert forall|tx: u64| #[trigger] after.prepared.contains_key(tx) implies
                    after.prepared_sound(tx) by {
                    assert(self.prepared_sound(tx));
                }
            }
        }
    }

    /// Preparing for a peer keeps a node valid.
    pub proof fn lemma_peer_prepare_keeps_valid(
        self,
        tx_id: u64,
        pairs: Seq<KVPair<u64, V>>,
        version: u64,
    )
        requires
            self.valid(),
            self.next_handle < u64::MAX,
        ensures
            self.after_peer_prepare(tx_id, pairs, version).valid(),
    {
        let observed = self.with_observed(version);
        self.lemma_clock_keeps_valid(observed.clock);
        self.lemma_windows_are_distinct(pairs);
        self.lemma_local_entries_placed(pairs);
        observed.lemma_ballot_keeps_valid(
            tx_id,
            self.key_windows(pairs),
            self.entries_for(pairs),
            version,
            false,
            votes::recovered_votes(
                self.log,
                tx_id,
                self.members.nodes,
                self.members.me,
                self.members.len(),
            ),
            votes::recovered_strangers(self.log, tx_id, self.members.nodes, self.members.me),
        );
    }

    /// A new confirmation keeps a node valid.
    pub proof fn lemma_accepted_keeps_valid(
        self,
        tx_id: u64,
        rm: (Seq<char>, usize),
        acceptor: usize,
        vote: bool,
    )
        requires
            self.valid(),
        ensures
            self.after_accepted(tx_id, rm, acceptor, vote).valid(),
    {
        let after = self.after_accepted(tx_id, rm, acceptor, vote);
        assert forall|s: int| 0 <= s < after.stripes implies #[trigger] after.lock_sound(s) by {
            assert(self.lock_sound(s));
        }
        assert forall|tx: u64| #[trigger] after.prepared.contains_key(tx) implies
            after.prepared_sound(tx) by {
            assert(self.prepared_sound(tx));
        }
    }

    /// Whatever is in the log, the rest of the node stays valid.
    pub proof fn lemma_log_keeps_valid(self, log: Map<(u64, (Seq<char>, usize)), bool>)
        requires
            self.valid(),
        ensures
            (NodeView { log, ..self }).valid(),
    {
        let after = NodeView { log, ..self };
        assert forall|s: int| 0 <= s < after.stripes implies #[trigger] after.lock_sound(s) by {
            assert(self.lock_sound(s));
        }
        assert forall|tx: u64| #[trigger] after.prepared.contains_key(tx) implies
            after.prepared_sound(tx) by {
            assert(self.prepared_sound(tx));
        }
    }

    /// A new vote keeps a node valid.
    pub proof fn lemma_vote_keeps_valid(self, tx_id: u64, rm: (Seq<char>, usize), vote: bool)
        requires
            self.valid(),
        ensures
            self.after_vote(tx_id, rm, vote).valid(),
    {
        let accepted = NodeView { log: self.log.insert((tx_id, rm), vote), ..self };
        self.lemma_log_keeps_valid(accepted.log);
        accepted.lemma_accepted_keeps_valid(tx_id, rm, self.members.me, vote);
    }

    /// Applying an outcome keeps a node valid.
    pub proof fn lemma_outcome_keeps_valid(self, task: u64, committed: bool)
        requires
            self.valid(),
            self.tasks.contains_key(task),
        ensures
            self.after_outcome(task, committed).valid(),
    {
        let after = self.after_outcome(task, committed);
        let t = self.tasks[task];
        let takes = t.takes_prepared(committed);
        if self.prepared.contains_key(t.tx_id) {
            assert(self.prepared_sound(t.tx_id));
            let dropped = self.prepared[t.tx_id].entries;
            assert forall|s: int|
                0 <= s < self.stripes && #[trigger] db::touches(dropped, s) implies self.holders[s]
                == Some(self.prepared[t.tx_id].holder) by {
                let i = choose|i: int| 0 <= i < dropped.len() && (#[trigger] dropped[i]).1 == s;
                assert(self.holders[dropped[i].1 as int] == Some(self.prepared[t.tx_id].holder));
            }
        }
        assert forall|s: int| 0 <= s < after.stripes implies #[trigger] after.lock_sound(s) by {
            assert(self.lock_sound(s));
        }
        assert forall|tx: u64| #[trigger] after.prepared.contains_key(tx) implies
            after.prepared_sound(tx) by {
            assert(self.prepared_sound(tx));
            let p = self.prepared[tx];
            assert forall|i: int| 0 <= i < p.entries.len() implies after.holders[(
            #[trigger] p.entries[i]).1 as int] == Some(p.holder) by {
                let s = p.entries[i].1 as int;
                assert(s == ring::slot_of(p.entries[i].0.key, self.stripes));
                assert(self.holders[s] == Some(p.holder));
            }
        }
    }

    /// Closing a task whose outcome has been applied keeps a node valid.
    pub proof fn lemma_close_keeps_valid(self, task: u64)
        requires
            self.valid(),
            self.tasks.contains_key(task),
            self.tasks[task].applied,
        ensures
            self.after_close(task).valid(),
    {
        let after = self.after_close(task);
        assert forall|s: int| 0 <= s < after.stripes implies #[trigger] after.lock_sound(s) by {
            assert(self.lock_sound(s));
            if self.holders[s] is Some {
                assert(self.prepared_sound(self.tasks[self.holders[s]->0].tx_id));
            }
        }
        assert forall|tx: u64| #[trigger] after.prepared.contains_key(tx) implies
            after.prepared_sound(tx) by {
            assert(self.prepared_sound(tx));
        }
    }

    /// A change of the members, the reads or what is stored keeps a node valid.
    pub proof fn lemma_rest_keeps_valid(
        self,
        members: MembershipView,
        reads: ReadsView<V>,
        contents: Map<u64, (V, u64)>,
        next_handle: u64,
    )
        requires
            self.valid(),
            members.valid(),
            reads.valid(next_handle),
            self.next_handle <= next_handle,
        ensures
            (NodeView { members, reads, contents, next_handle, ..self }).valid(),
    {
        let after = NodeView { members, reads, contents, next_handle, ..self };
        assert forall|s: int| 0 <= s < after.stripes implies #[trigger] after.lock_sound(s) by {
            assert(self.lock_sound(s));
        }
        assert forall|tx: u64| #[trigger] after.prepared.contains_key(tx) implies
            after.prepared_sound(tx) by {
            assert(self.prepared_sound(tx));
        }
    }
}

} // verus!
