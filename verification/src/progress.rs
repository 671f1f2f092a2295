//! Why writes make progress: what is delivered is counted, a majority that
//! agrees commits, and what commits is stored.

use crate::agreement;
use crate::commit;
use crate::db::Entry;
use crate::effects;
use crate::laws;
use crate::messages::PeerView;
use crate::model::{NodeView, TaskView};
use crate::reads;
use crate::types::KVPair;
use crate::votes;
use vstd::prelude::*;

verus! {

/// A message that has arrived: from which peer, what it says, and when.
pub type Delivery<V> = (usize, PeerView<V>, u64);

/// A node once some messages have arrived, one after the other.
pub open spec fn after_messages<V: Clone>(
    node: NodeView<V>,
    delivered: Seq<Delivery<V>>,
) -> NodeView<V>
    decreases delivered.len(),
{
    if delivered.len() == 0 {
        node
    } else {
        let last = delivered.last();
        after_messages(node, delivered.drop_last()).after_peer_message(last.0, last.1, last.2)
    }
}

/// A message asks to prepare a transaction.
pub open spec fn asks_to_prepare<V: Clone>(msg: PeerView<V>, tx: u64) -> bool {
    msg matches PeerView::Prepare { tx_id, .. } && tx_id == tx
}

/// A message is a vote of an RM on a transaction.
pub open spec fn is_vote_of<V: Clone>(msg: PeerView<V>, tx: u64, name: (Seq<char>, usize)) -> bool {
    msg matches PeerView::Vote { tx_id, rm, .. } && tx_id == tx && rm == name
}

/// Among the messages is a confirmation by `acceptor` of a Prepared vote.
pub open spec fn confirmation_delivered<V: Clone>(
    delivered: Seq<Delivery<V>>,
    tx: u64,
    name: (Seq<char>, usize),
    acceptor: usize,
) -> bool {
    exists|i: int|
        0 <= i < delivered.len() && (#[trigger] delivered[i]).0 == acceptor && delivered[i].1 == (
        PeerView::<V>::Accepted { tx_id: tx, rm: name, vote: true })
}

/// Message `i` is a Prepared vote of an RM, and no vote of it comes before.
pub open spec fn first_vote_at<V: Clone>(
    delivered: Seq<Delivery<V>>,
    tx: u64,
    name: (Seq<char>, usize),
    i: int,
) -> bool {
    &&& 0 <= i < delivered.len()
    &&& delivered[i].1 == (PeerView::<V>::Vote { tx_id: tx, rm: name, vote: true })
    &&& forall|j: int| 0 <= j < i ==> !is_vote_of((#[trigger] delivered[j]).1, tx, name)
}

/// The first vote of an RM among the messages is Prepared.
pub open spec fn vote_delivered<V: Clone>(
    delivered: Seq<Delivery<V>>,
    tx: u64,
    name: (Seq<char>, usize),
) -> bool {
    exists|i: int| #[trigger] first_vote_at(delivered, tx, name, i)
}

/// Task `task` learns the votes on a transaction.
pub open spec fn learning<V: Clone>(node: NodeView<V>, tx: u64, task: u64) -> bool {
    &&& node.members.nodes.no_duplicates()
    &&& node.members.nodes.len() <= usize::MAX
    &&& node.learners.contains_pair(tx, task)
    &&& node.tasks.contains_key(task)
    &&& task < node.next_handle
    &&& votes::finitely_confirmed(node.tasks[task].votes)
}

/// `after` has the task as `node` has it, but for more confirmations.
pub open spec fn task_kept<V: Clone>(node: NodeView<V>, after: NodeView<V>, task: u64) -> bool {
    let t = after.tasks[task];
    &&& t == TaskView { votes: t.votes, strangers: t.strangers, ..node.tasks[task] }
    &&& after.members.nodes == node.members.nodes
    &&& after.members.me == node.members.me
    &&& after.replication_degree == node.replication_degree
    &&& after.stripes == node.stripes
    &&& forall|r: usize, a: usize|
        votes::votes_on(node.tasks[task].votes, r).0.contains(a) ==> #[trigger] votes::votes_on(
            t.votes,
            r,
        ).0.contains(a)
}

proof fn lemma_one_message<V: Clone>(
    node: NodeView<V>,
    from: usize,
    msg: PeerView<V>,
    now: u64,
    tx: u64,
    task: u64,
    r: usize,
)
    requires
        learning(node, tx, task),
        node.next_handle < u64::MAX,
        !asks_to_prepare(msg, tx),
        r < node.members.nodes.len(),
    ensures
        ({
            let after = node.after_peer_message(from, msg, now);
            let name = node.members.nodes[r as int];
            let counted = votes::votes_on(after.tasks[task].votes, r).0;
            &&& learning(after, tx, task)
            &&& task_kept(node, after, task)
            &&& after.next_handle <= node.next_handle + 1
            &&& msg == (PeerView::<V>::Accepted { tx_id: tx, rm: name, vote: true })
                ==> counted.contains(from)
            &&& msg == (PeerView::<V>::Vote { tx_id: tx, rm: name, vote: true })
                && !node.log.contains_key((tx, name)) ==> counted.contains(node.members.me)
            &&& !is_vote_of(msg, tx, name) && !node.log.contains_key((tx, name))
                ==> !after.log.contains_key((tx, name))
        }),
{
    effects::law_rank_of_a_name(node.members.nodes, node.members.nodes[r as int], r);
}

proof fn lemma_messages<V: Clone>(
    node: NodeView<V>,
    delivered: Seq<Delivery<V>>,
    tx: u64,
    task: u64,
    r: usize,
)
    requires
        learning(node, tx, task),
        node.next_handle + delivered.len() <= u64::MAX,
        forall|i: int|
            0 <= i < delivered.len() ==> !asks_to_prepare((#[trigger] delivered[i]).1, tx),
        r < node.members.nodes.len(),
    ensures
        ({
            let after = after_messages(node, delivered);
            let name = node.members.nodes[r as int];
            let counted = votes::votes_on(after.tasks[task].votes, r).0;
            &&& learning(after, tx, task)
            &&& task_kept(node, after, task)
            &&& after.next_handle <= node.next_handle + delivered.len()
            &&& forall|a: usize|
                confirmation_delivered(delivered, tx, name, a) ==> #[trigger] counted.contains(a)
            &&& !node.log.contains_key((tx, name)) && vote_delivered(delivered, tx, name)
                ==> counted.contains(node.members.me)
            &&& !node.log.contains_key((tx, name)) && (forall|j: int|
                0 <= j < delivered.len() ==> !is_vote_of((#[trigger] delivered[j]).1, tx, name))
                ==> !after.log.contains_key((tx, name))
        }),
    decreases delivered.len(),
{
    if delivered.len() > 0 {
        let rest = delivered.drop_last();
        let last = delivered.last();
        let middle = after_messages(node, rest);
        let after = after_messages(node, delivered);
        let name = node.members.nodes[r as int];
        let end = delivered.len() - 1;
        assert(forall|i: int| 0 <= i < end ==> rest[i] == delivered[i]);
        assert(delivered[end] == last);
        assert(!asks_to_prepare(delivered[end].1, tx));
        lemma_messages(node, rest, tx, task, r);
        lemma_one_message(middle, last.0, last.1, last.2, tx, task, r);
        let earlier = votes::votes_on(middle.tasks[task].votes, r).0;
        let counted = votes::votes_on(after.tasks[task].votes, r).0;
        assert forall|a: usize|
            confirmation_delivered(delivered, tx, name, a) implies #[trigger] counted.contains(
            a,
        ) by {
            let i = choose|i: int|
                0 <= i < delivered.len() && (#[trigger] delivered[i]).0 == a && delivered[i].1 == (
                PeerView::<V>::Accepted { tx_id: tx, rm: name, vote: true });
            if i < end {
                assert(rest[i] == delivered[i]);
                assert(confirmation_delivered(rest, tx, name, a));
                assert(earlier.contains(a));
            }
        }
        if !node.log.contains_key((tx, name)) && vote_delivered(delivered, tx, name) {
            let i = choose|i: int| #[trigger] first_vote_at(delivered, tx, name, i);
            assert forall|j: int| 0 <= j < i implies !is_vote_of(
                (#[trigger] rest[j]).1,
                tx,
                name,
            ) by {
                assert(!is_vote_of(delivered[j].1, tx, name));
            }
            if i < end {
                assert(rest[i] == delivered[i]);
                assert(first_vote_at(rest, tx, name, i));
                assert(earlier.contains(node.members.me));
            }
        }
        if forall|j: int|
            0 <= j < delivered.len() ==> !is_vote_of((#[trigger] delivered[j]).1, tx, name) {
            assert forall|j: int| 0 <= j < rest.len() implies !is_vote_of(
                (#[trigger] rest[j]).1,
                tx,
                name,
            ) by {
                assert(!is_vote_of(delivered[j].1, tx, name));
            }
            assert(!is_vote_of(delivered[end].1, tx, name));
        }
        assert forall|r: usize, a: usize|
            votes::votes_on(node.tasks[task].votes, r).0.contains(a) implies #[trigger]
            votes::votes_on(after.tasks[task].votes, r).0.contains(a) by {
            assert(votes::votes_on(middle.tasks[task].votes, r).0.contains(a));
        }
    }
}

/// A majority that agrees commits. Let a task learn the votes on a transaction,
/// and let messages arrive in any order, among them, for each of some RMs that
/// make a quorum of every key's replicas, a confirmation of its Prepared vote by
/// each other node of a majority, and its vote itself, before any other of it,
/// unless that is counted already. Then the outcome is a commit.
pub proof fn law_agreeing_majority_commits<V: Clone>(
    node: NodeView<V>,
    delivered: Seq<Delivery<V>>,
    tx: u64,
    task: u64,
    acceptors: Set<usize>,
    rms: Set<usize>,
)
    requires
        node.valid(),
        node.learners.contains_pair(tx, task),
        node.next_handle + delivered.len() <= u64::MAX,
        forall|i: int|
            0 <= i < delivered.len() ==> !asks_to_prepare((#[trigger] delivered[i]).1, tx),
        acceptors.finite(),
        acceptors.len() >= node.members.nodes.len() / 2 + 1,
        forall|r: usize| #[trigger] rms.contains(r) ==> r < node.members.nodes.len(),
        forall|k: int|
            0 <= k < node.tasks[task].key_replicas.len() ==> (
            #[trigger] node.tasks[task].key_replicas[k]).to_set().intersect(rms).len()
                >= node.replication_degree / 2 + 1,
        forall|r: usize, a: usize| #[trigger]
            rms.contains(r) && #[trigger] acceptors.contains(a) && a != node.members.me
                ==> confirmation_delivered(delivered, tx, node.members.nodes[r as int], a),
        forall|r: usize| #[trigger]
            rms.contains(r) && acceptors.contains(node.members.me) ==> votes::votes_on(
                node.tasks[task].votes,
                r,
            ).0.contains(node.members.me) || (!node.log.contains_key((tx, node.members.nodes[r as int])) && vote_delivered(
                delivered,
                tx,
                node.members.nodes[r as int],
            )),
    ensures
        after_messages(node, delivered).outcome(task) == Some(true),
{
    let after = after_messages(node, delivered);
    let t = after.tasks[task];
    let aq = after.acceptor_quorum();
    lemma_messages(node, delivered, tx, task, node.members.me);
    assert forall|r: usize| #[trigger] rms.contains(r) implies commit::learned_prepared(
        t.votes,
        r,
        aq,
    ) by {
        lemma_messages(node, delivered, tx, task, r);
        let counted = votes::votes_on(t.votes, r).0;
        assert forall|a: usize| #[trigger] acceptors.contains(a) implies counted.contains(a) by {
            if a != node.members.me {
                assert(confirmation_delivered(delivered, tx, node.members.nodes[r as int], a));
            }
        }
        assert(acceptors.subset_of(counted));
        assert(counted.finite());
        vstd::set_lib::lemma_len_subset(acceptors, counted);
        if !t.votes.contains_key(r) {
            assert(counted.len() == 0);
        }
    }
    assert forall|k: int| 0 <= k < t.key_replicas.len() implies commit::prepared_count(
        #[trigger] t.key_replicas[k],
        t.votes,
        aq,
        after.members.alive,
    ) >= after.quorum() by {
        let replicas = t.key_replicas[k];
        assert(replicas == node.tasks[task].key_replicas[k]);
        agreement::lemma_prepared_rms(replicas, t.votes, aq, after.members.alive);
        let found = agreement::prepared_rms(replicas, t.votes, aq);
        assert(replicas.to_set().intersect(rms).subset_of(found));
        vstd::set_lib::lemma_len_subset(replicas.to_set().intersect(rms), found);
    }
    commit::law_commit_iff_all_keys_prepared(
        t.key_replicas,
        t.votes,
        after.quorum(),
        aq,
        after.members.alive,
    );
}

/// The same of a node that is asked to prepare a write: where a quorum of every
/// key's replicas vote Prepared, the node itself, if it is one of them, because
/// all that it is a replica of lies in free stripes, and a majority confirms
/// their votes, the node finds a commit, whether a vote arrives before it is
/// asked to prepare or after.
pub proof fn law_prepared_write_commits<V: Clone>(
    node: NodeView<V>,
    tx: u64,
    pairs: Seq<KVPair<u64, V>>,
    version: u64,
    delivered: Seq<Delivery<V>>,
    acceptors: Set<usize>,
    rms: Set<usize>,
)
    requires
        node.valid(),
        node.next_handle + 1 + delivered.len() <= u64::MAX,
        forall|i: int|
            0 <= i < delivered.len() ==> !asks_to_prepare((#[trigger] delivered[i]).1, tx),
        acceptors.finite(),
        acceptors.len() >= node.members.nodes.len() / 2 + 1,
        forall|r: usize| #[trigger] rms.contains(r) ==> r < node.members.nodes.len(),
        forall|k: int|
            0 <= k < pairs.len() ==> node.replicas((#[trigger] pairs[k]).key).to_set().intersect(
                rms,
            ).len() >= node.replication_degree / 2 + 1,
        rms.contains(node.members.me) ==> forall|i: int|
            0 <= i < pairs.len() && node.replicas((#[trigger] pairs[i]).key).contains(
                node.members.me,
            ) ==> node.holders[effects::hash_of(pairs[i].key) % node.stripes as int] is None,
        forall|r: usize, a: usize| #[trigger]
            rms.contains(r) && #[trigger] acceptors.contains(a) && a != node.members.me
                ==> confirmation_delivered(delivered, tx, node.members.nodes[r as int], a),
        forall|r: usize| #[trigger]
            rms.contains(r) && r != node.members.me ==> node.log.contains_pair(
                (tx, node.members.nodes[r as int]),
                true,
            ) || (!node.log.contains_key((tx, node.members.nodes[r as int])) && vote_delivered(
                delivered,
                tx,
                node.members.nodes[r as int],
            )),
    ensures
        after_messages(node.after_peer_prepare(tx, pairs, version), delivered).outcome(
            node.next_handle,
        ) == Some(true),
{
    let me = node.members.me;
    let task = node.next_handle;
    let begun = node.after_peer_prepare(tx, pairs, version);
    let t = begun.tasks[task];
    node.lemma_peer_prepare_keeps_valid(tx, pairs, version);
    effects::law_vote_is_whether_all_is_free(node, pairs);
    assert forall|r: usize| #[trigger] rms.contains(r) implies votes::votes_on(
        t.votes,
        r,
    ).0.contains(me) || (!begun.log.contains_key((tx, node.members.nodes[r as int]))
        && vote_delivered(delivered, tx, node.members.nodes[r as int])) by {
        effects::law_prepare_counts_what_is_logged(
            node,
            tx,
            pairs,
            version,
            r,
            node.my_name(),
            me,
        );
    }
    assert forall|k: int| 0 <= k < t.key_replicas.len() implies (
    #[trigger] t.key_replicas[k]).to_set().intersect(rms).len() >= node.replication_degree / 2
        + 1 by {
        assert(t.key_replicas[k] == node.replicas(pairs[k].key));
    }
    law_agreeing_majority_commits(begun, delivered, tx, task, acceptors, rms);
}

/// The same of a node that begins a write.
pub proof fn law_begun_write_commits<V: Clone>(
    node: NodeView<V>,
    tx: u64,
    pairs: Seq<KVPair<u64, V>>,
    delivered: Seq<Delivery<V>>,
    acceptors: Set<usize>,
    rms: Set<usize>,
)
    requires
        node.valid(),
        node.clock < u64::MAX,
        node.next_handle + 1 + delivered.len() <= u64::MAX,
        forall|i: int|
            0 <= i < delivered.len() ==> !asks_to_prepare((#[trigger] delivered[i]).1, tx),
        acceptors.finite(),
        acceptors.len() >= node.members.nodes.len() / 2 + 1,
        forall|r: usize| #[trigger]
            rms.contains(r) ==> r < node.members.nodes.len() && exists|k: int|
                0 <= k < pairs.len() && node.replicas((#[trigger] pairs[k]).key).contains(r),
        forall|k: int|
            0 <= k < pairs.len() ==> node.replicas((#[trigger] pairs[k]).key).to_set().intersect(
                rms.intersect(node.members.alive),
            ).len() >= node.replication_degree / 2 + 1,
        rms.contains(node.members.me) ==> forall|i: int|
            0 <= i < pairs.len() && node.replicas((#[trigger] pairs[i]).key).contains(
                node.members.me,
            ) ==> node.holders[effects::hash_of(pairs[i].key) % node.stripes as int] is None,
        forall|r: usize, a: usize| #[trigger]
            rms.contains(r) && #[trigger] acceptors.contains(a) && a != node.members.me
                ==> confirmation_delivered(delivered, tx, node.members.nodes[r as int], a),
        forall|r: usize| #[trigger]
            rms.contains(r) && r != node.members.me ==> !node.log.contains_key(
                (tx, node.members.nodes[r as int]),
            ) && vote_delivered(delivered, tx, node.members.nodes[r as int]),
    ensures
        after_messages(node.after_begin_write(tx, pairs), delivered).outcome(node.next_handle)
            == Some(true),
{
    let me = node.members.me;
    let task = node.next_handle;
    let begun = node.after_begin_write(tx, pairs);
    let t = begun.tasks[task];
    node.lemma_begin_write_keeps_valid(tx, pairs);
    effects::law_write_begins_with_a_quorum_alive(node, tx, pairs);
    assert forall|k: int| 0 <= k < pairs.len() implies {
        &&& node.replicas((#[trigger] pairs[k]).key).to_set().intersect(node.members.alive).len()
            >= node.replication_degree / 2 + 1
        &&& node.replicas(pairs[k].key).to_set().intersect(rms).len() >= node.replication_degree / 2
            + 1
    } by {
        let all = node.replicas(pairs[k].key).to_set();
        let both = all.intersect(rms.intersect(node.members.alive));
        effects::law_numbers_of_a_node(node, pairs[k].key, 0, 0);
        node.replicas(pairs[k].key).unique_seq_to_set();
        assert(both.subset_of(all.intersect(node.members.alive)));
        assert(both.subset_of(all.intersect(rms)));
        vstd::set_lib::lemma_len_subset(both, all.intersect(node.members.alive));
        vstd::set_lib::lemma_len_subset(both, all.intersect(rms));
    }
    assert(node.feasible(pairs));
    assert(t.key_replicas == node.key_windows(pairs));
    assert forall|r: usize| #[trigger] rms.contains(r) implies votes::votes_on(
        t.votes,
        r,
    ).0.contains(me) || (!begun.log.contains_key((tx, node.members.nodes[r as int]))
        && vote_delivered(delivered, tx, node.members.nodes[r as int])) by {
        if r == me {
            let k = choose|k: int|
                0 <= k < pairs.len() && node.replicas((#[trigger] pairs[k]).key).contains(r);
            effects::law_begin_write_step_by_step(
                node,
                tx,
                pairs,
                0,
                tx,
                task,
                (tx, node.my_name()),
                me,
                me,
                k,
            );
        } else {
            assert(node.members.nodes[r as int] != node.members.nodes[me as int]);
        }
    }
    assert forall|k: int| 0 <= k < t.key_replicas.len() implies (
    #[trigger] t.key_replicas[k]).to_set().intersect(rms).len() >= node.replication_degree / 2
        + 1 by {
        assert(t.key_replicas[k] == node.replicas(pairs[k].key));
    }
    law_agreeing_majority_commits(begun, delivered, tx, task, acceptors, rms);
}

/// Where a write commits at a node that has voted Aborted, every pair whose key
/// the node is a replica of is handed back to be stored late, with its stripe
/// and at the version of the write, whatever messages have arrived meanwhile.
pub proof fn law_late_entries_cover_every_pair<V: Clone>(
    node: NodeView<V>,
    tx: u64,
    pairs: Seq<KVPair<u64, V>>,
    version: u64,
    delivered: Seq<Delivery<V>>,
    i: int,
)
    requires
        node.valid(),
        node.next_handle + 1 + delivered.len() <= u64::MAX,
        forall|i: int|
            0 <= i < delivered.len() ==> !asks_to_prepare((#[trigger] delivered[i]).1, tx),
        0 <= i < pairs.len(),
        node.replicas(pairs[i].key).contains(node.members.me),
    ensures
        ({
            let task = node.next_handle;
            let later = after_messages(node.after_peer_prepare(tx, pairs, version), delivered);
            let t = later.tasks[task];
            let stripe = effects::hash_of(pairs[i].key) % node.stripes as int;
            &&& later.tasks.contains_key(task)
            &&& t.version == version
            &&& t.vote == Some(false) ==> t.late_entries(true).contains(
                (pairs[i], stripe as usize),
            )
            &&& t.vote == Some(false) || t.vote == Some(true)
            &&& t.vote == Some(false) <==> exists|j: int|
                0 <= j < pairs.len() && node.replicas((#[trigger] pairs[j]).key).contains(
                    node.members.me,
                ) && node.holders[effects::hash_of(pairs[j].key) % node.stripes as int] is Some
        }),
{
    let begun = node.after_peer_prepare(tx, pairs, version);
    let task = node.next_handle;
    let entry = (pairs[i], node.stripe_of(pairs[i].key));
    node.lemma_peer_prepare_keeps_valid(tx, pairs, version);
    lemma_messages(begun, delivered, tx, task, node.members.me);
    let later = after_messages(begun, delivered);
    assert(pairs.contains(pairs[i]));
    effects::law_entries_are_the_local_pairs(node, pairs, entry, 0, 0);
    effects::law_vote_is_whether_all_is_free(node, pairs);
    assert(later.tasks[task].entries == begun.tasks[task].entries);
}

/// The same of a write that the node itself has begun.
pub proof fn law_own_late_entries_cover_every_pair<V: Clone>(
    node: NodeView<V>,
    tx: u64,
    pairs: Seq<KVPair<u64, V>>,
    delivered: Seq<Delivery<V>>,
    i: int,
)
    requires
        node.valid(),
        node.clock < u64::MAX,
        node.feasible(pairs),
        node.next_handle + 1 + delivered.len() <= u64::MAX,
        forall|i: int|
            0 <= i < delivered.len() ==> !asks_to_prepare((#[trigger] delivered[i]).1, tx),
        0 <= i < pairs.len(),
        node.replicas(pairs[i].key).contains(node.members.me),
    ensures
        ({
            let task = node.next_handle;
            let later = after_messages(node.after_begin_write(tx, pairs), delivered);
            let t = later.tasks[task];
            let stripe = effects::hash_of(pairs[i].key) % node.stripes as int;
            &&& later.tasks.contains_key(task)
            &&& t.version == node.clock + 1
            &&& t.vote == Some(false) ==> t.late_entries(true).contains(
                (pairs[i], stripe as usize),
            )
            &&& t.vote == Some(false) || t.vote == Some(true)
        }),
{
    let begun = node.after_begin_write(tx, pairs);
    let task = node.next_handle;
    let entry = (pairs[i], node.stripe_of(pairs[i].key));
    node.lemma_begin_write_keeps_valid(tx, pairs);
    assert(pairs.contains(pairs[i]));
    effects::law_entries_are_the_local_pairs(node, pairs, entry, 0, 0);
    effects::law_begin_write_step_by_step(
        node,
        tx,
        pairs,
        0,
        tx,
        task,
        (tx, node.my_name()),
        0,
        0,
        i,
    );
    lemma_messages(begun, delivered, tx, task, node.members.me);
    let later = after_messages(begun, delivered);
    assert(later.tasks[task].entries == begun.tasks[task].entries);
}

/// A node once some late entries have been put, one after the other.
pub open spec fn after_late_puts<V: Clone>(
    node: NodeView<V>,
    late: Seq<Entry<V>>,
    version: u64,
) -> NodeView<V>
    decreases late.len(),
{
    if late.len() == 0 {
        node
    } else {
        after_late_puts(node, late.drop_last(), version).after_late_put(late.last(), version)
    }
}

/// Once all that is handed back of a commit has been put, every key of it that
/// the node is a replica of is stored at the version of the write or a later one.
pub proof fn law_late_entries_end_up_stored<V: Clone>(
    node: NodeView<V>,
    late: Seq<Entry<V>>,
    version: u64,
    entry: Entry<V>,
)
    requires
        late.contains(entry),
    ensures
        ({
            let after = after_late_puts(node, late, version);
            &&& after.contents.contains_key(entry.0.key)
            &&& after.contents[entry.0.key].1 >= version
        }),
    decreases late.len(),
{
    let rest = late.drop_last();
    let middle = after_late_puts(node, rest, version);
    laws::law_late_put_stores_at_least(middle, late.last(), version, entry.0.key);
    if late.last().0.key != entry.0.key {
        let i = choose|i: int| 0 <= i < late.len() && late[i] == entry;
        assert(rest[i] == entry);
        assert(rest.contains(entry));
        law_late_entries_end_up_stored(node, rest, version, entry);
    }
}

/// A committed write is stored wherever it belongs: a node that was asked to
/// prepare it and has voted Aborted stores, once the outcome is applied and what
/// is handed back has been put, every key that it is a replica of at the version
/// of the write or a later one.
pub proof fn law_commit_reaches_those_against<V: Clone>(
    node: NodeView<V>,
    tx: u64,
    pairs: Seq<KVPair<u64, V>>,
    version: u64,
    delivered: Seq<Delivery<V>>,
    i: int,
)
    requires
        node.valid(),
        node.next_handle + 1 + delivered.len() <= u64::MAX,
        forall|i: int|
            0 <= i < delivered.len() ==> !asks_to_prepare((#[trigger] delivered[i]).1, tx),
        0 <= i < pairs.len(),
        node.replicas(pairs[i].key).contains(node.members.me),
        after_messages(node.after_peer_prepare(tx, pairs, version), delivered).tasks[node.next_handle].vote
            == Some(false),
    ensures
        ({
            let task = node.next_handle;
            let decided = after_messages(node.after_peer_prepare(tx, pairs, version), delivered);
            let applied = decided.after_outcome(task, true);
            let t = decided.tasks[task];
            let after = after_late_puts(applied, t.late_entries(true), t.version);
            &&& after.contents.contains_key(pairs[i].key)
            &&& after.contents[pairs[i].key].1 >= version
        }),
{
    let task = node.next_handle;
    let decided = after_messages(node.after_peer_prepare(tx, pairs, version), delivered);
    let t = decided.tasks[task];
    let entry = (
        pairs[i],
        (effects::hash_of(pairs[i].key) % node.stripes as int) as usize,
    );
    law_late_entries_cover_every_pair(node, tx, pairs, version, delivered, i);
    law_late_entries_end_up_stored(
        decided.after_outcome(task, true),
        t.late_entries(true),
        t.version,
        entry,
    );
}

/// The replies to a request among some messages, in order of arrival.
pub open spec fn replies_to<V: Clone>(delivered: Seq<Delivery<V>>, req: u64) -> Seq<
    (Option<V>, u64),
>
    decreases delivered.len(),
{
    if delivered.len() == 0 {
        Seq::empty()
    } else {
        let earlier = replies_to(delivered.drop_last(), req);
        match delivered.last().1 {
            PeerView::QuorumGetResponse { val, version, req_id } => if req_id == req {
                earlier.push((val, version))
            } else {
                earlier
            },
            _ => earlier,
        }
    }
}

proof fn lemma_replies_arrive<V: Clone>(
    node: NodeView<V>,
    delivered: Seq<Delivery<V>>,
    req: u64,
    reader: u64,
)
    requires
        node.valid(),
        node.reads.routes.contains_pair(req, reader),
    ensures
        ({
            let after = after_messages(node, delivered);
            &&& after.reads.routes == node.reads.routes
            &&& after.reads.readers.contains_key(reader)
            &&& after.reads.readers[reader] == reads::after_replies(
                node.reads.readers[reader],
                replies_to(delivered, req),
            )
        }),
    decreases delivered.len(),
{
    if delivered.len() > 0 {
        let rest = delivered.drop_last();
        let replies = replies_to(rest, req);
        lemma_replies_arrive(node, rest, req, reader);
        match delivered.last().1 {
            PeerView::QuorumGetResponse { val, version, req_id } => {
                if req_id == req {
                    assert(replies.push((val, version)).drop_last() =~= replies);
                } else if node.reads.routes.contains_key(req_id) {
                    assert(node.reads.readers[node.reads.routes[req_id]].req_id == req_id);
                    assert(node.reads.readers[node.reads.routes[req]].req_id == req);
                }
            },
            _ => {},
        }
    }
}

/// The newest reply is read. Whatever messages reach a node while a read without
/// replies waits, the result of the read is decided by the first replies to its
/// request that make its quorum: with fewer there is none; else it is a clone of
/// a value among them such that none of them that holds a value was sent with a
/// higher version, and there is none only where none of them holds a value.
pub proof fn law_newest_reply_is_read<V: Clone>(
    node: NodeView<V>,
    delivered: Seq<Delivery<V>>,
    req: u64,
    reader: u64,
    result: Option<V>,
)
    requires
        node.valid(),
        node.reads.routes.contains_pair(req, reader),
        node.reads.readers[reader].responses.len() == 0,
        reads::is_read_result(after_messages(node, delivered).reads.readers[reader], result),
    ensures
        ({
            let quorum = node.reads.readers[reader].quorum;
            let replies = replies_to(delivered, req);
            &&& replies.len() < quorum ==> result is None
            &&& replies.len() >= quorum && result is None ==> forall|i: int|
                0 <= i < quorum ==> (#[trigger] replies[i]).0 is None
            &&& replies.len() >= quorum && result is Some ==> exists|i: int|
                0 <= i < quorum && (#[trigger] replies[i]).0 is Some && cloned(
                    replies[i].0->0,
                    result->0,
                ) && forall|j: int|
                    0 <= j < quorum && (#[trigger] replies[j]).0 is Some ==> replies[j].1
                        <= replies[i].1
        }),
{
    lemma_replies_arrive(node, delivered, req, reader);
    reads::law_first_quorum_of_replies_decides(
        node.reads.readers[reader],
        replies_to(delivered, req),
        result,
    );
}

} // verus!
