//! What holds of a node, and of the nodes of a cluster, whatever they are
//! asked to do.

use crate::commit;
use crate::db;
use crate::membership;
use crate::model;
use crate::model::NodeView;
use crate::reads;
use crate::reads::ReadView;
use crate::ring;
use crate::types::KVPair;
use crate::votes;
use vstd::prelude::*;

verus! {

/// Two transactions that a node has prepared have no stripe in common, and so
/// no key: whichever commits, it does not write what the other has locked.
pub proof fn law_prepared_transactions_are_disjoint<V: Clone>(
    node: NodeView<V>,
    first: u64,
    second: u64,
    i: int,
    j: int,
)
    requires
        node.valid(),
        node.prepared.contains_key(first),
        node.prepared.contains_key(second),
        first != second,
        0 <= i < node.prepared[first].entries.len(),
        0 <= j < node.prepared[second].entries.len(),
    ensures
        node.prepared[first].entries[i].1 != node.prepared[second].entries[j].1,
        node.prepared[first].entries[i].0.key != node.prepared[second].entries[j].0.key,
{
    assert(node.prepared_sound(first));
    assert(node.prepared_sound(second));
    let a = node.prepared[first].entries[i];
    let b = node.prepared[second].entries[j];
    assert(node.holders[a.1 as int] == Some(node.prepared[first].holder));
    assert(node.holders[b.1 as int] == Some(node.prepared[second].holder));
}

/// Every key of a prepared transaction stays locked until the outcome.
pub proof fn law_prepared_keys_are_locked<V: Clone>(node: NodeView<V>, tx_id: u64, i: int)
    requires
        node.valid(),
        node.prepared.contains_key(tx_id),
        0 <= i < node.prepared[tx_id].entries.len(),
    ensures
        node.locked(node.prepared[tx_id].entries[i].0.key),
{
    assert(node.prepared_sound(tx_id));
    let entry = node.prepared[tx_id].entries[i];
    assert(node.holders[entry.1 as int] == Some(node.prepared[tx_id].holder));
}

/// A node that votes Prepared has locked every key of the transaction that it
/// is a replica for, and keeps what it will store; one that votes Aborted has
/// locked nothing.
pub proof fn law_vote_matches_locks<V: Clone>(
    node: NodeView<V>,
    tx_id: u64,
    pairs: Seq<KVPair<u64, V>>,
    version: u64,
    i: int,
)
    requires
        node.valid(),
        node.next_handle < u64::MAX,
        0 <= i < pairs.len(),
        node.replicas(pairs[i].key).contains(node.members.me),
    ensures
        ({
            let after = node.after_peer_prepare(tx_id, pairs, version);
            let task = after.tasks[node.next_handle];
            &&& after.tasks.contains_key(node.next_handle)
            &&& task.vote == Some(node.own_vote(node.entries_for(pairs)))
            &&& task.vote == Some(true) ==> {
                &&& after.locked(pairs[i].key)
                &&& after.prepared.contains_key(tx_id)
                &&& after.prepared[tx_id].entries.contains((pairs[i], node.stripe_of(pairs[i].key)))
                &&& after.prepared[tx_id].version == version
            }
            &&& task.vote == Some(false) ==> {
                &&& after.holders == node.holders
                &&& after.prepared == node.prepared
                &&& task.entries.contains((pairs[i], node.stripe_of(pairs[i].key)))
            }
        }),
{
    let after = node.after_peer_prepare(tx_id, pairs, version);
    let entry = (pairs[i], node.stripe_of(pairs[i].key));
    node.lemma_peer_prepare_keeps_valid(tx_id, pairs, version);
    lemma_local_entries_hold(node, pairs, i);
    db::lemma_sort_keeps_entries(node.local_entries(pairs));
    assert(node.entries_for(pairs).contains(entry));
    if node.own_vote(node.entries_for(pairs)) {
        let j = choose|j: int|
            0 <= j < node.entries_for(pairs).len() && node.entries_for(pairs)[j] == entry;
        assert(after.prepared[tx_id].entries[j] == entry);
        law_prepared_keys_are_locked(after, tx_id, j);
    }
}

/// A pair that a node is a replica for is among its local entries.
proof fn lemma_local_entries_hold<V: Clone>(
    node: NodeView<V>,
    pairs: Seq<KVPair<u64, V>>,
    i: int,
)
    requires
        0 <= i < pairs.len(),
        node.replicas(pairs[i].key).contains(node.members.me),
    ensures
        node.local_entries(pairs).contains((pairs[i], node.stripe_of(pairs[i].key))),
    decreases pairs.len(),
{
    let rest = pairs.drop_last();
    let entry = (pairs[i], node.stripe_of(pairs[i].key));
    if i < rest.len() {
        assert(rest[i] == pairs[i]);
        lemma_local_entries_hold(node, rest, i);
        let j = choose|j: int|
            0 <= j < node.local_entries(rest).len() && node.local_entries(rest)[j] == entry;
        assert(node.local_entries(pairs)[j] == entry);
    } else {
        assert(node.local_entries(pairs).last() == entry);
    }
}

/// An abort stores nothing.
pub proof fn law_abort_stores_nothing<V: Clone>(node: NodeView<V>, task: u64)
    ensures
        node.after_outcome(task, false).contents == node.contents,
        node.tasks[task].late_entries(false).len() == 0,
{
}

/// A commit at a node that has prepared the transaction stores, under every
/// key of it, the last value that the transaction has for that key, at the
/// transaction's version, and changes no other key.
pub proof fn law_commit_stores_what_was_prepared<V: Clone>(node: NodeView<V>, tx_id: u64, key: u64)
    requires
        node.valid(),
        node.prepared.contains_key(tx_id),
    ensures
        ({
            let p = node.prepared[tx_id];
            let after = node.after_outcome(p.holder, true);
            &&& (forall|i: int|
                0 <= i < p.entries.len() ==> (#[trigger] p.entries[i]).0.key != key) ==> db::lookup(
                after.contents,
                key,
            ) == db::lookup(node.contents, key)
            &&& forall|i: int|
                0 <= i < p.entries.len() && (#[trigger] p.entries[i]).0.key == key && (forall|j: int|
                    i < j < p.entries.len() ==> (#[trigger] p.entries[j]).0.key != key)
                    ==> db::lookup(after.contents, key) == Some((p.entries[i].0.val, p.version))
        }),
{
    assert(node.prepared_sound(tx_id));
    db::law_last_write_wins(
        node.contents,
        node.prepared[tx_id].entries,
        node.prepared[tx_id].version,
    );
}

/// What a node has prepared is what it was asked to write, as far as it is a
/// replica for it, at the version that the write carries.
pub proof fn law_prepared_is_what_was_asked<V: Clone>(
    node: NodeView<V>,
    tx_id: u64,
    pairs: Seq<KVPair<u64, V>>,
    version: u64,
)
    requires
        node.clock < u64::MAX,
        node.own_vote(node.entries_for(pairs)),
    ensures
        ({
            let after = node.after_peer_prepare(tx_id, pairs, version);
            &&& after.prepared.contains_key(tx_id)
            &&& after.prepared[tx_id].holder == node.next_handle
            &&& after.prepared[tx_id].entries == after.entries_for(pairs)
            &&& after.prepared[tx_id].version == version
        }),
        node.feasible(pairs) && node.entries_for(pairs).len() > 0 ==> {
            let after = node.after_begin_write(tx_id, pairs);
            &&& after.prepared.contains_key(tx_id)
            &&& after.prepared[tx_id].holder == node.next_handle
            &&& after.prepared[tx_id].entries == after.entries_for(pairs)
            &&& after.prepared[tx_id].version == node.clock + 1
        },
{
    node.lemma_same_placement(node.after_peer_prepare(tx_id, pairs, version), pairs);
    if node.feasible(pairs) {
        node.lemma_same_placement(node.after_begin_write(tx_id, pairs), pairs);
    }
}

/// A commit of prepared pairs stores, under each key that the node is a
/// replica for, the last value among the pairs with that key: so all replicas
/// of a key that have prepared it store the same.
pub proof fn law_commit_stores_every_pair<V: Clone>(
    node: NodeView<V>,
    tx_id: u64,
    pairs: Seq<KVPair<u64, V>>,
    i: int,
)
    requires
        node.valid(),
        node.prepared.contains_key(tx_id),
        node.prepared[tx_id].entries == node.entries_for(pairs),
        0 <= i < pairs.len(),
        node.replicas(pairs[i].key).contains(node.members.me),
        forall|j: int| i < j < pairs.len() ==> (#[trigger] pairs[j]).key != pairs[i].key,
    ensures
        db::lookup(
            node.after_outcome(node.prepared[tx_id].holder, true).contents,
            pairs[i].key,
        ) == Some((pairs[i].val, node.prepared[tx_id].version)),
{
    let version = node.prepared[tx_id].version;
    assert(node.prepared_sound(tx_id));
    node.lemma_local_entries_placed(pairs);
    db::law_sort_keeps_writes(node.contents, node.local_entries(pairs), version, node.stripes);
    lemma_local_writes(node, pairs, version, i);
}

proof fn lemma_local_writes<V: Clone>(
    node: NodeView<V>,
    pairs: Seq<KVPair<u64, V>>,
    version: u64,
    i: int,
)
    requires
        0 <= i < pairs.len(),
        node.replicas(pairs[i].key).contains(node.members.me),
        forall|j: int| i < j < pairs.len() ==> (#[trigger] pairs[j]).key != pairs[i].key,
    ensures
        db::lookup(
            db::after_writes(node.contents, node.local_entries(pairs), version),
            pairs[i].key,
        ) == Some((pairs[i].val, version)),
    decreases pairs.len(),
{
    let rest = pairs.drop_last();
    let last = pairs.last();
    if node.replicas(last.key).contains(node.members.me) {
        assert(node.local_entries(pairs).drop_last() =~= node.local_entries(rest));
    }
    if i < rest.len() {
        assert(rest[i] == pairs[i]);
        assert forall|j: int| i < j < rest.len() implies (#[trigger] rest[j]).key
            != rest[i].key by {
            assert(pairs[j].key != pairs[i].key);
        }
        assert(pairs[pairs.len() - 1].key != pairs[i].key);
        lemma_local_writes(node, rest, version, i);
    }
}

/// A late entry ends up stored at its version or a later one, and no other key
/// changes.
pub proof fn law_late_put_stores_at_least<V: Clone>(
    node: NodeView<V>,
    entry: db::Entry<V>,
    version: u64,
    other: u64,
)
    ensures
        ({
            let after = node.after_late_put(entry, version);
            &&& after.contents.contains_key(entry.0.key)
            &&& after.contents[entry.0.key].1 >= version
            &&& node.contents.contains_key(entry.0.key) ==> after.contents[entry.0.key].1
                >= node.contents[entry.0.key].1
            &&& other != entry.0.key ==> db::lookup(after.contents, other) == db::lookup(
                node.contents,
                other,
            )
        }),
{
}

/// An outcome frees every lock that the task's transaction held, and no other.
pub proof fn law_outcome_frees_the_locks<V: Clone>(
    node: NodeView<V>,
    tx_id: u64,
    committed: bool,
    s: int,
)
    requires
        node.valid(),
        node.prepared.contains_key(tx_id),
        0 <= s < node.stripes,
    ensures
        ({
            let holder = node.prepared[tx_id].holder;
            node.after_outcome(holder, committed).holders[s] == if node.holders[s] == Some(holder) {
                None
            } else {
                node.holders[s]
            }
        }),
{
    assert(node.prepared_sound(tx_id));
    assert(node.lock_sound(s));
    let entries = node.prepared[tx_id].entries;
    if db::touches(entries, s) {
        let i = choose|i: int| 0 <= i < entries.len() && (#[trigger] entries[i]).1 == s;
        assert(node.holders[entries[i].1 as int] == Some(node.prepared[tx_id].holder));
    }
}

/// An aborted transaction leaves no trace at a node that had not heard of it
/// before: once its task is closed, what is stored, what is locked and what is
/// prepared are as they were.
pub proof fn law_abort_undoes_prepare<V: Clone>(
    node: NodeView<V>,
    tx_id: u64,
    pairs: Seq<KVPair<u64, V>>,
    version: u64,
)
    requires
        node.valid(),
        node.next_handle < u64::MAX,
        !node.prepared.contains_key(tx_id),
        !node.learners.contains_key(tx_id),
        forall|rm: (Seq<char>, usize)| !#[trigger] node.log.contains_key((tx_id, rm)),
    ensures
        ({
            let task = node.next_handle;
            let after = node.after_peer_prepare(tx_id, pairs, version).after_outcome(
                task,
                false,
            ).after_close(task);
            &&& after.contents == node.contents
            &&& after.holders == node.holders
            &&& after.prepared == node.prepared
            &&& after.tasks == node.tasks
            &&& after.learners == node.learners
            &&& after.log == node.log
        }),
{
    let task = node.next_handle;
    let prepared = node.after_peer_prepare(tx_id, pairs, version);
    let after = prepared.after_outcome(task, false).after_close(task);
    let entries = node.entries_for(pairs);
    node.lemma_local_entries_placed(pairs);
    if node.own_vote(entries) {
        db::law_unlock_undoes_lock(node.holders, entries, task);
    }
    assert(after.holders =~= node.holders);
    assert(after.prepared =~= node.prepared);
    assert(!node.tasks.contains_key(task));
    assert(after.tasks =~= node.tasks);
    assert(after.learners =~= node.learners);
    assert forall|k: (u64, (Seq<char>, usize))| #[trigger] node.log.contains_key(k) implies k.0
        != tx_id by {
        assert(node.log.contains_key((k.0, k.1)));
    }
    assert(after.log =~= node.log);
}

/// Once a task is closed, the node keeps nothing of its transaction: neither
/// the task, nor a learner, nor an accepted vote.
pub proof fn law_closed_task_leaves_nothing<V: Clone>(
    node: NodeView<V>,
    task: u64,
    rm: (Seq<char>, usize),
)
    ensures
        !node.after_close(task).tasks.contains_key(task),
        !node.after_close(task).learners.contains_key(node.tasks[task].tx_id),
        !node.after_close(task).log.contains_key((node.tasks[task].tx_id, rm)),
{
}

/// The first vote of an RM that reaches an acceptor stands: a second one, the
/// same or another, changes nothing.
pub proof fn law_first_vote_stands<V: Clone>(
    node: NodeView<V>,
    tx_id: u64,
    rm: (Seq<char>, usize),
    first: bool,
    second: bool,
)
    ensures
        ({
            let accepted = node.after_vote(tx_id, rm, first);
            &&& accepted.after_vote(tx_id, rm, second) == accepted
            &&& !node.log.contains_key((tx_id, rm)) ==> accepted.log.contains_pair(
                (tx_id, rm),
                first,
            )
        }),
{
}

/// A node confirms its own vote as it has logged it.
pub proof fn law_own_vote_is_logged<V: Clone>(
    node: NodeView<V>,
    tx_id: u64,
    pairs: Seq<KVPair<u64, V>>,
    version: u64,
)
    ensures
        node.after_peer_prepare(tx_id, pairs, version).log.contains_pair(
            (tx_id, node.my_name()),
            node.own_vote(node.entries_for(pairs)),
        ),
{
}

/// A confirmation reaches the task that learns the votes on the transaction: the
/// acceptor is added to those that confirmed that vote of that RM, and nothing
/// else changes; without such a task nothing changes at all. That of an RM
/// outside the cluster does not bear on the outcome.
pub proof fn law_confirmation_is_recorded<V: Clone>(
    node: NodeView<V>,
    tx_id: u64,
    rm: (Seq<char>, usize),
    acceptor: usize,
    vote: bool,
    other_rank: usize,
    other_name: (Seq<char>, usize),
)
    ensures
        ({
            let after = node.after_accepted(tx_id, rm, acceptor, vote);
            match node.learner_of(tx_id) {
                None => after == node,
                Some(task) => {
                    let old_task = node.tasks[task];
                    let new_task = after.tasks[task];
                    &&& after == NodeView { tasks: node.tasks.insert(task, new_task), ..node }
                    &&& match model::rank_in(node.members.nodes, rm) {
                        Some(r) => {
                            let (prepared, aborted) = votes::votes_on(old_task.votes, r);
                            &&& votes::votes_on(new_task.votes, r) == if vote {
                                (prepared.insert(acceptor), aborted)
                            } else {
                                (prepared, aborted.insert(acceptor))
                            }
                            &&& other_rank != r ==> votes::votes_on(new_task.votes, other_rank)
                                == votes::votes_on(old_task.votes, other_rank)
                            &&& new_task.strangers == old_task.strangers
                        },
                        None => {
                            let (prepared, aborted) = votes::votes_on(old_task.strangers, rm);
                            &&& votes::votes_on(new_task.strangers, rm) == if vote {
                                (prepared.insert(acceptor), aborted)
                            } else {
                                (prepared, aborted.insert(acceptor))
                            }
                            &&& other_name != rm ==> votes::votes_on(
                                new_task.strangers,
                                other_name,
                            ) == votes::votes_on(old_task.strangers, other_name)
                            &&& new_task.votes == old_task.votes
                            &&& after.outcome(task) == node.outcome(task)
                        },
                    }
                },
            }
        }),
{
}

/// A confirmation that arrives twice counts once.
pub proof fn law_repeated_confirmation_counts_once<V: Clone>(
    node: NodeView<V>,
    tx_id: u64,
    rm: (Seq<char>, usize),
    acceptor: usize,
    vote: bool,
)
    requires
        node.valid(),
    ensures
        ({
            let once = node.after_accepted(tx_id, rm, acceptor, vote);
            once.after_accepted(tx_id, rm, acceptor, vote) == once
        }),
{
    let once = node.after_accepted(tx_id, rm, acceptor, vote);
    let twice = once.after_accepted(tx_id, rm, acceptor, vote);
    if node.learners.contains_key(tx_id) {
        let task = node.learners[tx_id];
        match model::rank_in(node.members.nodes, rm) {
            Some(r) => {
                let a = votes::after_confirmation(node.tasks[task].votes, r, acceptor, vote);
                let b = votes::after_confirmation(a, r, acceptor, vote);
                assert(b[r].0 =~= a[r].0);
                assert(b[r].1 =~= a[r].1);
                assert(b =~= a);
            },
            None => {
                let a = votes::after_confirmation(node.tasks[task].strangers, rm, acceptor, vote);
                let b = votes::after_confirmation(a, rm, acceptor, vote);
                assert(b[rm].0 =~= a[rm].0);
                assert(b[rm].1 =~= a[rm].1);
                assert(b =~= a);
            },
        }
        assert(twice.tasks[task] =~= once.tasks[task]);
        assert(twice.tasks =~= once.tasks);
    }
}

/// The order in which two confirmations arrive does not matter.
pub proof fn law_confirmations_commute<V: Clone>(
    node: NodeView<V>,
    tx_id: u64,
    rm_a: (Seq<char>, usize),
    acceptor_a: usize,
    vote_a: bool,
    rm_b: (Seq<char>, usize),
    acceptor_b: usize,
    vote_b: bool,
)
    requires
        node.valid(),
    ensures
        node.after_accepted(tx_id, rm_a, acceptor_a, vote_a).after_accepted(
            tx_id,
            rm_b,
            acceptor_b,
            vote_b,
        ) == node.after_accepted(tx_id, rm_b, acceptor_b, vote_b).after_accepted(
            tx_id,
            rm_a,
            acceptor_a,
            vote_a,
        ),
{
    let ab = node.after_accepted(tx_id, rm_a, acceptor_a, vote_a).after_accepted(
        tx_id,
        rm_b,
        acceptor_b,
        vote_b,
    );
    let ba = node.after_accepted(tx_id, rm_b, acceptor_b, vote_b).after_accepted(
        tx_id,
        rm_a,
        acceptor_a,
        vote_a,
    );
    if node.learners.contains_key(tx_id) {
        let task = node.learners[tx_id];
        match (model::rank_in(node.members.nodes, rm_a), model::rank_in(node.members.nodes, rm_b)) {
            (Some(a), Some(b)) => {
                assert(ab.tasks[task].votes[a].0 =~= ba.tasks[task].votes[a].0);
                assert(ab.tasks[task].votes[a].1 =~= ba.tasks[task].votes[a].1);
                assert(ab.tasks[task].votes[b].0 =~= ba.tasks[task].votes[b].0);
                assert(ab.tasks[task].votes[b].1 =~= ba.tasks[task].votes[b].1);
                assert(ab.tasks[task].votes =~= ba.tasks[task].votes);
            },
            (None, None) => {
                assert(ab.tasks[task].strangers[rm_a].0 =~= ba.tasks[task].strangers[rm_a].0);
                assert(ab.tasks[task].strangers[rm_a].1 =~= ba.tasks[task].strangers[rm_a].1);
                assert(ab.tasks[task].strangers[rm_b].0 =~= ba.tasks[task].strangers[rm_b].0);
                assert(ab.tasks[task].strangers[rm_b].1 =~= ba.tasks[task].strangers[rm_b].1);
                assert(ab.tasks[task].strangers =~= ba.tasks[task].strangers);
            },
            _ => {},
        }
        assert(ab.tasks[task] =~= ba.tasks[task]);
        assert(ab.tasks =~= ba.tasks);
    }
}

/// Once the votes determine a commit, no further confirmation and no crash
/// changes that.
pub proof fn law_decided_commit_stands<V: Clone>(
    node: NodeView<V>,
    task: u64,
    tx_id: u64,
    rm: (Seq<char>, usize),
    acceptor: usize,
    vote: bool,
    crashed: Seq<usize>,
)
    requires
        node.valid(),
        node.tasks.contains_key(task),
        node.outcome(task) == Some(true),
    ensures
        node.after_accepted(tx_id, rm, acceptor, vote).outcome(task) == Some(true),
        (NodeView { members: node.members.with_all_dead(crashed), ..node }).outcome(task) == Some(
            true,
        ),
{
    let after = node.after_accepted(tx_id, rm, acceptor, vote);
    let t = node.tasks[task];
    node.lemma_accepted_keeps_valid(tx_id, rm, acceptor, vote);
    assert(commit::votes_grow(t.votes, after.tasks[task].votes)) by {
        assert forall|r: usize| #[trigger] t.votes.contains_key(r) implies {
            &&& after.tasks[task].votes.contains_key(r)
            &&& after.tasks[task].votes[r].0.finite()
            &&& after.tasks[task].votes[r].1.finite()
            &&& t.votes[r].0.subset_of(after.tasks[task].votes[r].0)
            &&& t.votes[r].1.subset_of(after.tasks[task].votes[r].1)
        } by {
            assert(after.tasks.contains_key(task));
        }
    }
    commit::law_commit_is_final(
        t.key_replicas,
        t.votes,
        after.tasks[task].votes,
        node.quorum(),
        node.acceptor_quorum(),
        node.members.alive,
        node.members.alive,
    );
    commit::law_commit_is_final(
        t.key_replicas,
        t.votes,
        t.votes,
        node.quorum(),
        node.acceptor_quorum(),
        node.members.alive,
        node.members.with_all_dead(crashed).alive,
    );
}

/// When a task's time is up it is decided, and it commits only where the
/// collected votes say so and this node coordinates it.
pub proof fn law_every_task_ends<V: Clone>(node: NodeView<V>, task: u64)
    ensures
        node.decision(task, true) is Some,
        node.decision(task, true) == Some(true) ==> node.tasks[task].coordinator && node.outcome(
            task,
        ) == Some(true),
        node.decision(task, false) == Some(true) <==> node.outcome(task) == Some(true),
{
}

/// Lamport clock: the version of a write is above every version that the node
/// has issued or observed before, and no step sets the clock back.
pub proof fn law_versions_increase<V: Clone>(node: NodeView<V>, remote_version: u64)
    requires
        node.clock < u64::MAX,
    ensures
        node.with_next_version().clock > node.clock,
        node.with_observed(remote_version).clock >= node.clock,
        node.with_observed(remote_version).clock >= remote_version,
        remote_version < u64::MAX ==> node.with_observed(
            remote_version,
        ).with_next_version().clock > remote_version,
{
}

/// A write that is refused changes nothing but the clock, and a read that is
/// refused changes nothing.
pub proof fn law_refused_request_changes_nothing<V: Clone>(
    node: NodeView<V>,
    tx_id: u64,
    pairs: Seq<KVPair<u64, V>>,
    key: u64,
    req_id: u64,
)
    ensures
        !node.feasible(pairs) ==> node.after_begin_write(tx_id, pairs) == node.with_next_version(),
        node.alive_replicas(key).len() < node.quorum() ==> node.after_begin_read(key, req_id)
            == node,
{
}

/// All nodes of a cluster with one replication degree agree on who owns a key.
pub proof fn law_nodes_agree_on_replicas<V: Clone>(a: NodeView<V>, b: NodeView<V>, key: u64)
    requires
        a.members.nodes == b.members.nodes,
        a.replication_degree == b.replication_degree,
    ensures
        a.replicas(key) == b.replicas(key),
{
}

/// The pairs to prepare go to every other node that owns one of the keys, and
/// to no one else.
pub proof fn law_prepare_reaches_every_replica<V: Clone>(
    node: NodeView<V>,
    pairs: Seq<KVPair<u64, V>>,
    rank: usize,
)
    requires
        node.valid(),
    ensures
        node.remote_rms(pairs).contains(rank) <==> {
            &&& rank != node.members.me
            &&& exists|i: int|
                0 <= i < pairs.len() && node.replicas((#[trigger] pairs[i]).key).contains(rank)
        },
{
    let windows = node.key_windows(pairs);
    lemma_owners_among(node.members.others(), windows, rank);
    membership::lemma_others(node.members.len(), node.members.me);
    if exists|i: int|
        0 <= i < pairs.len() && node.replicas((#[trigger] pairs[i]).key).contains(rank) {
        let i = choose|i: int|
            0 <= i < pairs.len() && node.replicas((#[trigger] pairs[i]).key).contains(rank);
        assert(windows[i].contains(rank));
        ring::law_replicas_of_a_key(pairs[i].key, node.cluster_len(), node.replication_degree);
    }
    if model::owns_some(rank, windows) {
        let k = choose|k: int| 0 <= k < windows.len() && (#[trigger] windows[k]).contains(rank);
        assert(node.replicas(pairs[k].key).contains(rank));
    }
}

proof fn lemma_owners_among(ranks: Seq<usize>, key_replicas: Seq<Seq<usize>>, rank: usize)
    ensures
        model::owners_among(ranks, key_replicas).contains(rank) <==> ranks.contains(rank)
            && model::owns_some(rank, key_replicas),
    decreases ranks.len(),
{
    if ranks.len() > 0 {
        let rest = ranks.drop_last();
        lemma_owners_among(rest, key_replicas, rank);
        assert(ranks =~= rest.push(ranks.last()));
        membership::lemma_push_contains(rest, ranks.last(), rank);
        membership::lemma_push_contains(
            model::owners_among(rest, key_replicas),
            ranks.last(),
            rank,
        );
    }
}

/// A read sees a committed write. Where at least a quorum of a key's replicas
/// store the key at `version` or later, a read that is complete has seen one
/// of them: its result is a clone of the value of a reply whose version is at
/// least `version`.
pub proof fn law_read_sees_committed_write<V: Clone>(
    cluster: Seq<NodeView<V>>,
    reader: NodeView<V>,
    key: u64,
    version: u64,
    writers: Set<usize>,
    replied: Seq<usize>,
    read: ReadView<V>,
    result: Option<V>,
)
    requires
        reader.valid(),
        cluster.len() == reader.members.len(),
        writers.subset_of(reader.replicas(key).to_set()),
        writers.len() >= reader.quorum(),
        forall|r: usize| #[trigger]
            writers.contains(r) ==> cluster[r as int].contents.contains_key(key)
                && cluster[r as int].contents[key].1 >= version,
        read.quorum == reader.quorum(),
        read.complete(),
        replied.len() == read.responses.len(),
        replied.no_duplicates(),
        replied.to_set().subset_of(reader.replicas(key).to_set()),
        forall|i: int|
            0 <= i < replied.len() ==> model::is_replica_reply(
                cluster[(#[trigger] replied[i]) as int].contents,
                key,
                read.responses[i],
            ),
        reads::is_read_result(read, result),
    ensures
        exists|i: int|
            0 <= i < read.responses.len() && (#[trigger] read.responses[i]).1 >= version
                && read.responses[i].0 is Some && result is Some && cloned(
                read.responses[i].0->0,
                result->0,
            ),
{
    let replicas = reader.replicas(key);
    ring::law_replicas_of_a_key(key, reader.cluster_len(), reader.replication_degree);
    replicas.unique_seq_to_set();
    assert forall|i: int|
        0 <= i < replied.len() && writers.contains(#[trigger] replied[i]) implies read.responses[i].0
        is Some && read.responses[i].1 >= version by {
        assert(model::is_replica_reply(
            cluster[replied[i] as int].contents,
            key,
            read.responses[i],
        ));
    }
    commit::law_quorum_read_sees_quorum_write(
        replicas.to_set(),
        writers,
        replied,
        read.responses,
        version,
        read.responses[0].0->0,
    );
    let i = choose|i: int| #[trigger] commit::is_best_reply(read.responses, i);
    assert(read.responses[i].1 >= version);
}

} // verus!
