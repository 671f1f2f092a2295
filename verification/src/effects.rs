//! What each step of a node does, told of its parts: which locks it takes or
//! frees, which votes it counts, what it stores, and what it leaves alone.

use crate::commit;
use crate::db;
use crate::db::Entry;
use crate::membership;
use crate::messages::PeerView;
use crate::model;
use crate::model::{NodeView, TaskView};
use crate::ring;
use crate::types::KVPair;
use crate::votes;
use std::collections::hash_map::DefaultHasher;
use vstd::prelude::*;

verus! {

/// The hash of a key: std's, of its eight bytes, least significant first.
pub open spec fn hash_of(key: u64) -> int {
    <DefaultHasher as vstd::std_specs::hash::DefaultHasherAdditionalSpecFns>::spec_finish(
        seq![vstd::bytes::spec_u64_to_le_bytes(key)],
    ) as usize as int
}

/// `rank` is a replica of `key` in a cluster of `n` nodes: going round the ring
/// it stands fewer than `degree` ranks ahead of where the key hashes to.
pub open spec fn replicates(rank: usize, key: u64, n: int, degree: int) -> bool {
    let first = hash_of(key) % n;
    &&& rank < n
    &&& rank >= first ==> rank - first < degree
    &&& rank < first ==> rank - first + n < degree
}

/// A name has a rank exactly where it stands in the list of nodes, namely that
/// place.
pub proof fn law_rank_of_a_name(
    nodes: Seq<(Seq<char>, usize)>,
    name: (Seq<char>, usize),
    rank: usize,
)
    requires
        nodes.no_duplicates(),
        nodes.len() <= usize::MAX,
    ensures
        model::rank_in(nodes, name) == Some(rank) <==> rank < nodes.len() && nodes[rank as int]
            == name,
        model::rank_in(nodes, name) is None <==> forall|i: int|
            0 <= i < nodes.len() ==> nodes[i] != name,
{
    if nodes.contains(name) {
        assert(nodes[nodes.index_of(name)] == name);
    }
    if rank < nodes.len() && nodes[rank as int] == name {
        assert(nodes.contains(name));
    }
}

/// The owners among some nodes are found node by node: one more node comes last
/// if it is listed for some key, and changes nothing if it is not.
pub proof fn law_owners_node_by_node(
    ranks: Seq<usize>,
    key_replicas: Seq<Seq<usize>>,
    rank: usize,
)
    ensures
        model::owners_among(Seq::empty(), key_replicas).len() == 0,
        (exists|k: int| 0 <= k < key_replicas.len() && (#[trigger] key_replicas[k]).contains(rank))
            ==> model::owners_among(ranks.push(rank), key_replicas) == model::owners_among(
            ranks,
            key_replicas,
        ).push(rank),
        (forall|k: int| 0 <= k < key_replicas.len() ==> !(#[trigger] key_replicas[k]).contains(rank))
            ==> model::owners_among(ranks.push(rank), key_replicas) == model::owners_among(
            ranks,
            key_replicas,
        ),
{
    assert(ranks.push(rank).drop_last() =~= ranks);
}

/// Leaving out a node is done node by node: one more node comes last unless it
/// is the one to leave out.
pub proof fn law_all_but_one_node_by_node(ranks: Seq<usize>, me: usize, rank: usize)
    ensures
        model::without(Seq::empty(), me).len() == 0,
        rank != me ==> model::without(ranks.push(rank), me) == model::without(ranks, me).push(rank),
        rank == me ==> model::without(ranks.push(rank), me) == model::without(ranks, me),
{
    assert(ranks.push(rank).drop_last() =~= ranks);
}

/// Which nodes are alive, and which have timed out, is found node by node.
pub proof fn law_liveness_node_by_node(
    ranks: Seq<usize>,
    alive: Set<usize>,
    pongs: Map<usize, u64>,
    now: u64,
    rank: usize,
)
    ensures
        membership::alive_of(Seq::empty(), alive).len() == 0,
        alive.contains(rank) ==> membership::alive_of(ranks.push(rank), alive)
            == membership::alive_of(ranks, alive).push(rank),
        !alive.contains(rank) ==> membership::alive_of(ranks.push(rank), alive)
            == membership::alive_of(ranks, alive),
        membership::timed_out_of(Seq::empty(), pongs, now).len() == 0,
        pongs.contains_key(rank) && now - pongs[rank] > 500_000_000 ==> membership::timed_out_of(
            ranks.push(rank),
            pongs,
            now,
        ) == membership::timed_out_of(ranks, pongs, now).push(rank),
        !(pongs.contains_key(rank) && now - pongs[rank] > 500_000_000)
            ==> membership::timed_out_of(ranks.push(rank), pongs, now) == membership::timed_out_of(
            ranks,
            pongs,
            now,
        ),
{
    assert(ranks.push(rank).drop_last() =~= ranks);
}

/// What a replica replies to a read: the stored version with a clone of the
/// stored value, or no value and version 0 where the key is not stored.
pub proof fn law_replica_replies_what_it_stores<V: Clone>(
    contents: Map<u64, (V, u64)>,
    key: u64,
    val: Option<V>,
    version: u64,
)
    requires
        model::is_replica_reply(contents, key, (val, version)),
    ensures
        val is Some <==> contents.contains_key(key),
        val is Some ==> cloned(contents[key].0, val->0) && version == contents[key].1,
        val is None ==> version == 0,
{
}

/// The numbers of a node: quorums are the least majorities, of the replication
/// degree and of the cluster; a key's stripe is its hash modulo the number of
/// stripes, and its replicas stand next to one another from its hash modulo the
/// size of the cluster on.
pub proof fn law_numbers_of_a_node<V: Clone>(node: NodeView<V>, key: u64, rank: usize, i: int)
    requires
        node.members.valid(),
        0 < node.stripes,
    ensures
        node.cluster_len() == node.members.nodes.len(),
        node.my_name() == node.members.nodes[node.members.me as int],
        node.quorum() == node.replication_degree / 2 + 1,
        node.acceptor_quorum() == node.members.nodes.len() / 2 + 1,
        node.stripe_of(key) == hash_of(key) % node.stripes as int,
        node.replicas(key).contains(rank) <==> replicates(
            rank,
            key,
            node.members.nodes.len() as int,
            node.replication_degree as int,
        ),
        node.replicas(key).no_duplicates(),
        0 <= i < node.replicas(key).len() ==> node.replicas(key)[i] == (hash_of(key)
            % node.members.nodes.len() as int + i) % node.members.nodes.len() as int,
        node.replication_degree <= node.members.nodes.len() ==> node.replicas(key).len()
            == node.replication_degree,
        node.replication_degree >= node.members.nodes.len() ==> node.replicas(key).len()
            == node.members.nodes.len(),
        node.locked(key) <==> node.holders[hash_of(key) % node.stripes as int] is Some,
{
    let n = node.cluster_len();
    ring::law_replicas_of_a_key(key, n, node.replication_degree);
    ring::law_replica_ranks(key, n, node.replication_degree, i);
    if rank < n {
        ring::law_owners_stand_close(key, n, node.replication_degree, rank);
    } else if node.replicas(key).contains(rank) {
        let j = choose|j: int| 0 <= j < node.replicas(key).len() && node.replicas(key)[j] == rank;
        assert(node.replicas(key)[j] < n);
    }
}

/// The replicas of a key that are alive: as many as there are ranks that are
/// replicas of it and alive, in the order of the replicas.
pub proof fn law_alive_replicas<V: Clone>(node: NodeView<V>, key: u64, rank: usize)
    requires
        node.members.valid(),
    ensures
        node.alive_replicas(key).contains(rank) <==> node.replicas(key).contains(rank)
            && node.members.alive.contains(rank),
        node.alive_replicas(key).no_duplicates(),
        node.alive_replicas(key).len() == node.replicas(key).to_set().intersect(
            node.members.alive,
        ).len(),
{
    ring::law_replicas_of_a_key(key, node.cluster_len(), node.replication_degree);
    membership::lemma_alive_of(node.replicas(key), node.members.alive);
    membership::law_alive_are_counted(node.replicas(key), node.members.alive);
}

/// A write is begun exactly where, for each of its pairs, at least
/// `degree / 2 + 1` ranks are replicas of the key and alive: then there is a new
/// task that learns the votes on it. Otherwise nothing is begun.
pub proof fn law_write_begins_with_a_quorum_alive<V: Clone>(
    node: NodeView<V>,
    tx_id: u64,
    pairs: Seq<KVPair<u64, V>>,
)
    requires
        node.valid(),
        node.next_handle < u64::MAX,
    ensures
        ({
            let enough = forall|i: int|
                0 <= i < pairs.len() ==> node.replicas((#[trigger] pairs[i]).key).to_set().intersect(
                    node.members.alive,
                ).len() >= node.replication_degree / 2 + 1;
            let after = node.after_begin_write(tx_id, pairs);
            &&& node.feasible(pairs) <==> enough
            &&& enough ==> after.tasks.contains_key(node.next_handle)
                && after.learners.contains_pair(tx_id, node.next_handle) && after.next_handle
                == node.next_handle + 1
            &&& !enough ==> after.tasks == node.tasks && after.learners == node.learners
                && after.next_handle == node.next_handle
        }),
{
    assert forall|i: int| 0 <= i < pairs.len() implies node.alive_replicas(
        (#[trigger] pairs[i]).key,
    ).len() == node.replicas(pairs[i].key).to_set().intersect(node.members.alive).len() by {
        law_alive_replicas(node, pairs[i].key, 0);
    }
    assert(!node.tasks.contains_key(node.next_handle));
}

/// A read is begun exactly where at least `degree / 2 + 1` ranks are replicas of
/// its key and alive.
pub proof fn law_read_begins_with_a_quorum_alive<V: Clone>(
    node: NodeView<V>,
    key: u64,
    req_id: u64,
)
    requires
        node.valid(),
        node.next_handle < u64::MAX,
    ensures
        ({
            let enough = node.replicas(key).to_set().intersect(node.members.alive).len()
                >= node.replication_degree / 2 + 1;
            let after = node.after_begin_read(key, req_id);
            &&& node.alive_replicas(key).len() >= node.quorum() <==> enough
            &&& enough ==> after.reads.readers.contains_key(node.next_handle)
                && after.reads.routes.contains_pair(req_id, node.next_handle)
            &&& !enough ==> after == node
        }),
{
    law_alive_replicas(node, key, 0);
}

/// Minority crashes refuse nothing: with a degree of at most the size of the
/// cluster, a write is begun while of each key's replicas at most
/// `(degree - 1) / 2` have crashed, and so is a read.
pub proof fn law_minority_crashes_refuse_nothing<V: Clone>(
    node: NodeView<V>,
    tx_id: u64,
    pairs: Seq<KVPair<u64, V>>,
    key: u64,
    req_id: u64,
)
    requires
        node.valid(),
        node.next_handle < u64::MAX,
        0 < node.replication_degree <= node.members.nodes.len(),
    ensures
        (forall|i: int|
            0 <= i < pairs.len() ==> node.replicas((#[trigger] pairs[i]).key).to_set().difference(
                node.members.alive,
            ).len() <= (node.replication_degree - 1) / 2) ==> node.after_begin_write(
            tx_id,
            pairs,
        ).learners.contains_pair(tx_id, node.next_handle) && node.after_begin_write(
            tx_id,
            pairs,
        ).tasks.contains_key(node.next_handle),
        node.replicas(key).to_set().difference(node.members.alive).len() <= (
        node.replication_degree - 1) / 2 ==> node.after_begin_read(
            key,
            req_id,
        ).reads.readers.contains_key(node.next_handle),
{
    law_write_begins_with_a_quorum_alive(node, tx_id, pairs);
    law_read_begins_with_a_quorum_alive(node, key, req_id);
    lemma_alive_and_crashed(node, key);
    if forall|i: int|
        0 <= i < pairs.len() ==> node.replicas((#[trigger] pairs[i]).key).to_set().difference(
            node.members.alive,
        ).len() <= (node.replication_degree - 1) / 2 {
        assert forall|i: int| 0 <= i < pairs.len() implies node.replicas(
            (#[trigger] pairs[i]).key,
        ).to_set().intersect(node.members.alive).len() >= node.replication_degree / 2 + 1 by {
            lemma_alive_and_crashed(node, pairs[i].key);
        }
    }
}

/// A replica is alive or has crashed.
proof fn lemma_alive_and_crashed<V: Clone>(node: NodeView<V>, key: u64)
    requires
        node.members.valid(),
        node.replication_degree <= node.members.nodes.len(),
    ensures
        node.replicas(key).to_set().intersect(node.members.alive).len() + node.replicas(
            key,
        ).to_set().difference(node.members.alive).len() == node.replication_degree,
{
    let all = node.replicas(key).to_set();
    let alive = all.intersect(node.members.alive);
    let crashed = all.difference(node.members.alive);
    ring::law_replicas_of_a_key(key, node.cluster_len(), node.replication_degree);
    node.replicas(key).unique_seq_to_set();
    assert(alive.disjoint(crashed));
    vstd::set_lib::lemma_set_disjoint_lens(alive, crashed);
    assert(alive.union(crashed) =~= all);
}

/// What a node is to store of some pairs is found pair by pair: one more pair
/// comes last, with its stripe, if the node is a replica of its key, and changes
/// nothing if it is not.
pub proof fn law_local_entries_pair_by_pair<V: Clone>(
    node: NodeView<V>,
    pairs: Seq<KVPair<u64, V>>,
    pair: KVPair<u64, V>,
)
    requires
        node.valid(),
    ensures
        node.local_entries(Seq::empty()).len() == 0,
        node.replicas(pair.key).contains(node.members.me) ==> node.local_entries(pairs.push(pair))
            == node.local_entries(pairs).push(
            (pair, (hash_of(pair.key) % node.stripes as int) as usize),
        ),
        !node.replicas(pair.key).contains(node.members.me) ==> node.local_entries(pairs.push(pair))
            == node.local_entries(pairs),
        node.entries_for(pairs) == db::sorted_by_stripe(node.local_entries(pairs)),
{
    assert(pairs.push(pair).drop_last() =~= pairs);
}

/// What a node is to store of some pairs: exactly those of keys that it is a
/// replica of, each with its key's stripe, in ascending order of the stripes.
pub proof fn law_entries_are_the_local_pairs<V: Clone>(
    node: NodeView<V>,
    pairs: Seq<KVPair<u64, V>>,
    entry: Entry<V>,
    i: int,
    j: int,
)
    requires
        node.valid(),
    ensures
        node.entries_for(pairs).contains(entry) <==> {
            &&& node.replicas(entry.0.key).contains(node.members.me)
            &&& entry.1 == hash_of(entry.0.key) % node.stripes as int
            &&& pairs.contains(entry.0)
        },
        0 <= i < j < node.entries_for(pairs).len() ==> node.entries_for(pairs)[i].1
            <= node.entries_for(pairs)[j].1,
{
    lemma_local_entries(node, pairs, entry);
    db::lemma_sort_keeps_entries(node.local_entries(pairs));
    db::law_sort_orders_entries(node.local_entries(pairs));
}

proof fn lemma_local_entries<V: Clone>(
    node: NodeView<V>,
    pairs: Seq<KVPair<u64, V>>,
    entry: Entry<V>,
)
    requires
        node.valid(),
    ensures
        node.local_entries(pairs).contains(entry) <==> {
            &&& node.replicas(entry.0.key).contains(node.members.me)
            &&& entry.1 == node.stripe_of(entry.0.key)
            &&& pairs.contains(entry.0)
        },
    decreases pairs.len(),
{
    if pairs.len() > 0 {
        let rest = pairs.drop_last();
        let last = pairs.last();
        lemma_local_entries(node, rest, entry);
        assert(pairs =~= rest.push(last));
        membership::lemma_push_contains(rest, last, entry.0);
        membership::lemma_push_contains(
            node.local_entries(rest),
            (last, node.stripe_of(last.key)),
            entry,
        );
    }
}

/// Some pair whose key the node is a replica of lies in stripe `s`.
pub open spec fn stripe_in_use<V: Clone>(
    node: NodeView<V>,
    pairs: Seq<KVPair<u64, V>>,
    s: int,
) -> bool {
    exists|i: int|
        0 <= i < pairs.len() && node.replicas((#[trigger] pairs[i]).key).contains(node.members.me)
            && hash_of(pairs[i].key) % node.stripes as int == s
}

proof fn lemma_stripe_in_use<V: Clone>(node: NodeView<V>, pairs: Seq<KVPair<u64, V>>, s: int)
    requires
        node.valid(),
    ensures
        stripe_in_use(node, pairs, s) <==> db::touches(node.entries_for(pairs), s),
{
    let entries = node.entries_for(pairs);
    if stripe_in_use(node, pairs, s) {
        let i = choose|i: int|
            0 <= i < pairs.len() && node.replicas((#[trigger] pairs[i]).key).contains(
                node.members.me,
            ) && hash_of(pairs[i].key) % node.stripes as int == s;
        let entry = (pairs[i], node.stripe_of(pairs[i].key));
        assert(pairs.contains(pairs[i]));
        law_entries_are_the_local_pairs(node, pairs, entry, 0, 0);
        let j = choose|j: int| 0 <= j < entries.len() && entries[j] == entry;
        assert(entries[j].1 == s);
    }
    if db::touches(entries, s) {
        let j = choose|j: int| 0 <= j < entries.len() && (#[trigger] entries[j]).1 == s;
        assert(entries.contains(entries[j]));
        law_entries_are_the_local_pairs(node, pairs, entries[j], 0, 0);
        let i = choose|i: int| 0 <= i < pairs.len() && pairs[i] == entries[j].0;
        assert(node.replicas(pairs[i].key).contains(node.members.me));
    }
}

/// A node votes Prepared exactly where no pair whose key it is a replica of lies
/// in a stripe that is locked.
pub proof fn law_vote_is_whether_all_is_free<V: Clone>(
    node: NodeView<V>,
    pairs: Seq<KVPair<u64, V>>,
)
    requires
        node.valid(),
    ensures
        node.own_vote(node.entries_for(pairs)) <==> forall|i: int|
            0 <= i < pairs.len() && node.replicas((#[trigger] pairs[i]).key).contains(
                node.members.me,
            ) ==> node.holders[hash_of(pairs[i].key) % node.stripes as int] is None,
{
    let entries = node.entries_for(pairs);
    if node.own_vote(entries) {
        assert forall|i: int|
            0 <= i < pairs.len() && node.replicas((#[trigger] pairs[i]).key).contains(
                node.members.me,
            ) implies node.holders[hash_of(pairs[i].key) % node.stripes as int] is None by {
            let entry = (pairs[i], node.stripe_of(pairs[i].key));
            assert(pairs.contains(pairs[i]));
            law_entries_are_the_local_pairs(node, pairs, entry, 0, 0);
            let j = choose|j: int| 0 <= j < entries.len() && entries[j] == entry;
            assert(node.holders[entries[j].1 as int] is None);
        }
    } else {
        let j = choose|j: int|
            0 <= j < entries.len() && node.holders[(#[trigger] entries[j]).1 as int] is Some;
        assert(entries.contains(entries[j]));
        law_entries_are_the_local_pairs(node, pairs, entries[j], 0, 0);
        let i = choose|i: int| 0 <= i < pairs.len() && pairs[i] == entries[j].0;
        assert(node.replicas(pairs[i].key).contains(node.members.me));
    }
}

/// How stripe `s` is locked at `after`, where a node at `node` has voted `vote`
/// on a write of `pairs` as task `task`. A Prepared vote locks the stripes of
/// the pairs that it is a replica of, and frees those that only an earlier
/// preparation of the same transaction had locked; an Aborted one locks and
/// frees nothing.
pub open spec fn ballot_locks<V: Clone>(
    node: NodeView<V>,
    after: NodeView<V>,
    tx_id: u64,
    pairs: Seq<KVPair<u64, V>>,
    task: u64,
    vote: bool,
    s: int,
) -> bool {
    let was_prepared = node.prepared.contains_key(tx_id) && exists|i: int|
        0 <= i < node.prepared[tx_id].entries.len() && (
        #[trigger] node.prepared[tx_id].entries[i]).1 == s;
    &&& after.holders.len() == node.holders.len()
    &&& !vote ==> after.holders[s] == node.holders[s]
    &&& vote && stripe_in_use(node, pairs, s) ==> after.holders[s] == Some(task)
    &&& vote && !stripe_in_use(node, pairs, s) && was_prepared ==> after.holders[s]
        == None::<u64>
    &&& vote && !stripe_in_use(node, pairs, s) && !was_prepared ==> after.holders[s]
        == node.holders[s]
}

/// What a node has prepared at `after`, where at `node` it has voted `vote` as
/// task `task` on a write of `pairs` at `version`: with a Prepared vote all that
/// it is a replica of, under the transaction, and in any case what it had
/// prepared of every other.
pub open spec fn ballot_prepares<V: Clone>(
    node: NodeView<V>,
    after: NodeView<V>,
    tx_id: u64,
    pairs: Seq<KVPair<u64, V>>,
    version: u64,
    task: u64,
    vote: bool,
    other_tx: u64,
) -> bool {
    &&& vote ==> {
        let p = after.prepared[tx_id];
        &&& after.prepared.contains_key(tx_id)
        &&& p.holder == task
        &&& p.version == version
        &&& p.entries == node.entries_for(pairs)
    }
    &&& !vote || other_tx != tx_id ==> {
        &&& after.prepared.contains_key(other_tx) <==> node.prepared.contains_key(other_tx)
        &&& after.prepared[other_tx] == node.prepared[other_tx]
    }
}

/// Task `task` at `after` is on a write of `pairs` at `version`, of which the
/// node has cast the vote `vote`, and will store all that it is a replica of if
/// the write commits against an Aborted vote.
pub open spec fn ballot_task<V: Clone>(
    node: NodeView<V>,
    after: NodeView<V>,
    tx_id: u64,
    pairs: Seq<KVPair<u64, V>>,
    version: u64,
    task: u64,
    vote: bool,
    coordinator: bool,
) -> bool {
    let t = after.tasks[task];
    &&& after.tasks.contains_key(task)
    &&& t.tx_id == tx_id
    &&& t.coordinator == coordinator
    &&& t.key_replicas.len() == pairs.len()
    &&& forall|k: int|
        0 <= k < pairs.len() ==> #[trigger] t.key_replicas[k] == node.replicas(pairs[k].key)
    &&& t.vote == Some(vote)
    &&& vote ==> t.entries.len() == 0
    &&& !vote ==> t.entries == node.entries_for(pairs)
    &&& t.version == version
    &&& !t.applied
}

/// `after` differs from `node` in the locks, in what is prepared, in the log of
/// `tx_id`, in the clock, and in having task `task`, which learns the votes on
/// `tx_id`, and in nothing else.
pub open spec fn ballot_keeps_the_rest<V: Clone>(
    node: NodeView<V>,
    after: NodeView<V>,
    tx_id: u64,
    task: u64,
    vote: bool,
    logged: (u64, (Seq<char>, usize)),
    other_tx: u64,
    other_task: u64,
) -> bool {
    &&& after.log.contains_pair((tx_id, node.members.nodes[node.members.me as int]), vote)
    &&& logged != (tx_id, node.members.nodes[node.members.me as int]) ==> (
    after.log.contains_key(logged) <==> node.log.contains_key(logged)) && after.log[logged]
        == node.log[logged]
    &&& after.learners.contains_pair(tx_id, task)
    &&& other_tx != tx_id ==> (after.learners.contains_key(other_tx)
        <==> node.learners.contains_key(other_tx)) && after.learners[other_tx]
        == node.learners[other_tx]
    &&& other_task != task ==> (after.tasks.contains_key(other_task)
        <==> node.tasks.contains_key(other_task)) && after.tasks[other_task]
        == node.tasks[other_task]
    &&& after.next_handle == task + 1
    &&& after.members == node.members
    &&& after.replication_degree == node.replication_degree
    &&& after.stripes == node.stripes
    &&& after.contents == node.contents
    &&& after.reads == node.reads
}

/// What a ballot is made of, told of one of everything that it touches.
proof fn lemma_ballot<V: Clone>(
    node: NodeView<V>,
    clock: u64,
    tx_id: u64,
    pairs: Seq<KVPair<u64, V>>,
    version: u64,
    coordinator: bool,
    known: Map<usize, (Set<usize>, Set<usize>)>,
    strangers: Map<(Seq<char>, usize), (Set<usize>, Set<usize>)>,
    s: int,
    other_tx: u64,
    other_task: u64,
    logged: (u64, (Seq<char>, usize)),
)
    requires
        node.valid(),
        node.next_handle < u64::MAX,
        0 <= s < node.stripes,
    ensures
        ({
            let task = node.next_handle;
            let vote = node.own_vote(node.entries_for(pairs));
            let after = (NodeView { clock, ..node }).with_ballot(
                tx_id,
                node.key_windows(pairs),
                node.entries_for(pairs),
                version,
                coordinator,
                known,
                strangers,
            );
            &&& ballot_locks(node, after, tx_id, pairs, task, vote, s)
            &&& ballot_prepares(node, after, tx_id, pairs, version, task, vote, other_tx)
            &&& ballot_task(node, after, tx_id, pairs, version, task, vote, coordinator)
            &&& ballot_keeps_the_rest(
                node,
                after,
                tx_id,
                task,
                vote,
                logged,
                other_tx,
                other_task,
            )
            &&& after.clock == clock
            &&& after.tasks[task].strangers == strangers
            &&& after.tasks[task].votes == votes::after_confirmation(
                known,
                node.members.me,
                node.members.me,
                vote,
            )
        }),
{
    let entries = node.entries_for(pairs);
    lemma_stripe_in_use(node, pairs, s);
    if node.own_vote(entries) && node.prepared.contains_key(tx_id) {
        assert(node.prepared_sound(tx_id));
        let earlier = node.prepared[tx_id].entries;
        if db::touches(entries, s) && db::touches(earlier, s) {
            let i = choose|i: int| 0 <= i < entries.len() && (#[trigger] entries[i]).1 == s;
            let j = choose|j: int| 0 <= j < earlier.len() && (#[trigger] earlier[j]).1 == s;
            assert(node.holders[entries[i].1 as int] is None);
            assert(node.holders[earlier[j].1 as int] is Some);
        }
    }
}

/// Asked to prepare a write, a node votes Prepared exactly where all that it is
/// a replica of lies in free stripes; it locks those, and keeps what it will
/// store, only with a Prepared vote. Its clock is at the version then, or later.
pub proof fn law_prepare_step_by_step<V: Clone>(
    node: NodeView<V>,
    tx_id: u64,
    pairs: Seq<KVPair<u64, V>>,
    version: u64,
    s: int,
    other_tx: u64,
    other_task: u64,
    logged: (u64, (Seq<char>, usize)),
)
    requires
        node.valid(),
        node.next_handle < u64::MAX,
        0 <= s < node.stripes,
    ensures
        ({
            let task = node.next_handle;
            let vote = forall|i: int|
                0 <= i < pairs.len() && node.replicas((#[trigger] pairs[i]).key).contains(
                    node.members.me,
                ) ==> node.holders[hash_of(pairs[i].key) % node.stripes as int] is None;
            let after = node.after_peer_prepare(tx_id, pairs, version);
            &&& ballot_locks(node, after, tx_id, pairs, task, vote, s)
            &&& ballot_prepares(node, after, tx_id, pairs, version, task, vote, other_tx)
            &&& ballot_task(node, after, tx_id, pairs, version, task, vote, false)
            &&& ballot_keeps_the_rest(
                node,
                after,
                tx_id,
                task,
                vote,
                logged,
                other_tx,
                other_task,
            )
            &&& after.clock == if version > node.clock {
                version
            } else {
                node.clock
            }
        }),
{
    let clock = if version > node.clock {
        version
    } else {
        node.clock
    };
    law_vote_is_whether_all_is_free(node, pairs);
    lemma_ballot(
        node,
        clock,
        tx_id,
        pairs,
        version,
        false,
        votes::recovered_votes(
            node.log,
            tx_id,
            node.members.nodes,
            node.members.me,
            node.members.len(),
        ),
        votes::recovered_strangers(node.log, tx_id, node.members.nodes, node.members.me),
        s,
        other_tx,
        other_task,
        logged,
    );
}

/// What a node that is asked to prepare a write counts from the start: its own
/// confirmation of its own vote, and its own confirmation of every vote on that
/// write that it has accepted before; no one else's.
pub proof fn law_prepare_counts_what_is_logged<V: Clone>(
    node: NodeView<V>,
    tx_id: u64,
    pairs: Seq<KVPair<u64, V>>,
    version: u64,
    rank: usize,
    name: (Seq<char>, usize),
    acceptor: usize,
)
    requires
        node.valid(),
        node.next_handle < u64::MAX,
    ensures
        ({
            let me = node.members.me;
            let vote = node.own_vote(node.entries_for(pairs));
            let task = node.after_peer_prepare(tx_id, pairs, version).tasks[node.next_handle];
            let known = (tx_id, node.members.nodes[rank as int]);
            let logged = rank < node.members.nodes.len() && node.log.contains_key(known);
            &&& task.votes.contains_key(rank) <==> logged || rank == me
            &&& task.votes.contains_key(rank) ==> {
                &&& task.votes[rank].0.contains(acceptor) <==> acceptor == me && ((logged
                    && node.log[known]) || (rank == me && vote))
                &&& task.votes[rank].1.contains(acceptor) <==> acceptor == me && ((logged
                    && !node.log[known]) || (rank == me && !vote))
            }
            &&& task.strangers.contains_key(name) <==> node.log.contains_key((tx_id, name))
                && !node.members.nodes.contains(name)
            &&& task.strangers.contains_key(name) ==> {
                &&& task.strangers[name].0.contains(acceptor) <==> acceptor == me
                    && node.log[(tx_id, name)]
                &&& task.strangers[name].1.contains(acceptor) <==> acceptor == me
                    && !node.log[(tx_id, name)]
            }
        }),
{
}

/// Beginning a write of which the node is to store something, it votes as it
/// does on a peer's, under its next version, and counts its own confirmation of
/// its own vote and nothing else.
pub proof fn law_begin_write_step_by_step<V: Clone>(
    node: NodeView<V>,
    tx_id: u64,
    pairs: Seq<KVPair<u64, V>>,
    s: int,
    other_tx: u64,
    other_task: u64,
    logged: (u64, (Seq<char>, usize)),
    rank: usize,
    acceptor: usize,
    i: int,
)
    requires
        node.valid(),
        node.clock < u64::MAX,
        node.next_handle < u64::MAX,
        0 <= s < node.stripes,
        node.feasible(pairs),
        0 <= i < pairs.len(),
        node.replicas(pairs[i].key).contains(node.members.me),
    ensures
        ({
            let me = node.members.me;
            let task = node.next_handle;
            let version = (node.clock + 1) as u64;
            let vote = forall|i: int|
                0 <= i < pairs.len() && node.replicas((#[trigger] pairs[i]).key).contains(
                    node.members.me,
                ) ==> node.holders[hash_of(pairs[i].key) % node.stripes as int] is None;
            let after = node.after_begin_write(tx_id, pairs);
            let t = after.tasks[task];
            &&& ballot_locks(node, after, tx_id, pairs, task, vote, s)
            &&& ballot_prepares(node, after, tx_id, pairs, version, task, vote, other_tx)
            &&& ballot_task(node, after, tx_id, pairs, version, task, vote, true)
            &&& ballot_keeps_the_rest(
                node,
                after,
                tx_id,
                task,
                vote,
                logged,
                other_tx,
                other_task,
            )
            &&& after.clock == node.clock + 1
            &&& t.strangers.dom().is_empty()
            &&& t.votes.contains_key(rank) <==> rank == me
            &&& t.votes[me].0.contains(acceptor) <==> acceptor == me && vote
            &&& t.votes[me].1.contains(acceptor) <==> acceptor == me && !vote
        }),
{
    let entry = (pairs[i], node.stripe_of(pairs[i].key));
    assert(pairs.contains(pairs[i]));
    law_entries_are_the_local_pairs(node, pairs, entry, 0, 0);
    assert(node.entries_for(pairs).contains(entry));
    law_vote_is_whether_all_is_free(node, pairs);
    lemma_ballot(
        node,
        (node.clock + 1) as u64,
        tx_id,
        pairs,
        (node.clock + 1) as u64,
        true,
        Map::empty(),
        Map::empty(),
        s,
        other_tx,
        other_task,
        logged,
    );
}

/// Beginning a write of which the node is to store nothing, it casts no vote:
/// nothing is locked, prepared or logged. It has a task on it all the same,
/// under its next version, that learns the votes of others. A write that is
/// refused leaves the next version used and changes nothing else.
pub proof fn law_begin_write_for_others<V: Clone>(
    node: NodeView<V>,
    tx_id: u64,
    pairs: Seq<KVPair<u64, V>>,
    other_tx: u64,
    other_task: u64,
)
    requires
        node.valid(),
        node.clock < u64::MAX,
        node.next_handle < u64::MAX,
        forall|i: int|
            0 <= i < pairs.len() ==> !node.replicas((#[trigger] pairs[i]).key).contains(
                node.members.me,
            ),
    ensures
        ({
            let task = node.next_handle;
            let after = node.after_begin_write(tx_id, pairs);
            let t = after.tasks[task];
            &&& after.clock == node.clock + 1
            &&& after.members == node.members
            &&& after.replication_degree == node.replication_degree
            &&& after.stripes == node.stripes
            &&& after.contents == node.contents
            &&& after.holders == node.holders
            &&& after.reads == node.reads
            &&& after.log == node.log
            &&& after.prepared == node.prepared
            &&& other_task != task ==> (after.tasks.contains_key(other_task)
                <==> node.tasks.contains_key(other_task)) && after.tasks[other_task]
                == node.tasks[other_task]
            &&& other_tx != tx_id ==> (after.learners.contains_key(other_tx)
                <==> node.learners.contains_key(other_tx)) && after.learners[other_tx]
                == node.learners[other_tx]
            &&& node.feasible(pairs) ==> {
                &&& after.tasks.contains_key(task)
                &&& after.learners.contains_pair(tx_id, task)
                &&& after.next_handle == task + 1
                &&& t.tx_id == tx_id
                &&& t.coordinator
                &&& t.key_replicas.len() == pairs.len()
                &&& forall|k: int|
                    0 <= k < pairs.len() ==> #[trigger] t.key_replicas[k] == node.replicas(
                        pairs[k].key,
                    )
                &&& t.votes.dom().is_empty()
                &&& t.strangers.dom().is_empty()
                &&& t.vote is None
                &&& t.entries.len() == 0
                &&& t.version == node.clock + 1
                &&& !t.applied
            }
            &&& !node.feasible(pairs) ==> after.tasks == node.tasks && after.learners
                == node.learners && after.next_handle == node.next_handle
        }),
{
    let entries = node.entries_for(pairs);
    if entries.len() > 0 {
        assert(entries.contains(entries[0]));
        law_entries_are_the_local_pairs(node, pairs, entries[0], 0, 0);
        let i = choose|i: int| 0 <= i < pairs.len() && pairs[i] == entries[0].0;
        assert(node.replicas(pairs[i].key).contains(node.members.me));
    }
}

/// A write that is refused uses up a version and changes nothing else.
pub proof fn law_refused_write_uses_a_version<V: Clone>(
    node: NodeView<V>,
    tx_id: u64,
    pairs: Seq<KVPair<u64, V>>,
)
    requires
        node.clock < u64::MAX,
        !node.feasible(pairs),
    ensures
        ({
            let after = node.after_begin_write(tx_id, pairs);
            &&& after.clock == node.clock + 1
            &&& after == NodeView { clock: after.clock, ..node }
            &&& node.with_next_version() == after
        }),
{
}

/// An observed version sets the clock if it is later, and changes nothing else.
pub proof fn law_observed_version_sets_the_clock<V: Clone>(node: NodeView<V>, version: u64)
    ensures
        ({
            let after = node.with_observed(version);
            &&& after == NodeView { clock: after.clock, ..node }
            &&& after.clock >= node.clock
            &&& after.clock >= version
            &&& after.clock == node.clock || after.clock == version
        }),
{
}

/// A node that accepts an RM's first vote on a transaction confirms it to itself
/// at once: where it has a task that learns the votes on that transaction, the
/// node itself is afterwards among those whose confirmation the task counts, for
/// Prepared or for Aborted as the vote says, and the task counts no one else's
/// anew. The vote is logged. A vote of an RM that was logged before changes
/// nothing.
pub proof fn law_acceptor_confirms_to_itself<V: Clone>(
    node: NodeView<V>,
    tx_id: u64,
    rm: (Seq<char>, usize),
    vote: bool,
    rank: usize,
    other: usize,
    acceptor: usize,
)
    requires
        node.valid(),
        rank < node.members.nodes.len(),
        node.members.nodes[rank as int] == rm,
    ensures
        ({
            let me = node.members.me;
            let after = node.after_vote(tx_id, rm, vote);
            let task = node.learners[tx_id];
            let before_on = votes::votes_on(node.tasks[task].votes, rank);
            let after_on = votes::votes_on(after.tasks[task].votes, rank);
            &&& node.log.contains_key((tx_id, rm)) ==> after == node
            &&& !node.log.contains_key((tx_id, rm)) ==> after.log.contains_pair((tx_id, rm), vote)
            &&& !node.log.contains_key((tx_id, rm)) && node.learners.contains_key(tx_id) ==> {
                &&& vote ==> after_on.0.contains(me)
                &&& !vote ==> after_on.1.contains(me)
                &&& acceptor != me ==> (after_on.0.contains(acceptor) <==> before_on.0.contains(
                    acceptor,
                ))
                &&& acceptor != me ==> (after_on.1.contains(acceptor) <==> before_on.1.contains(
                    acceptor,
                ))
                &&& vote ==> after_on.1 == before_on.1
                &&& !vote ==> after_on.0 == before_on.0
                &&& other != rank ==> votes::votes_on(after.tasks[task].votes, other)
                    == votes::votes_on(node.tasks[task].votes, other)
            }
        }),
{
    law_rank_of_a_name(node.members.nodes, rm, rank);
}

/// The same of an RM outside the cluster, whose vote is kept apart.
pub proof fn law_acceptor_confirms_strangers_to_itself<V: Clone>(
    node: NodeView<V>,
    tx_id: u64,
    rm: (Seq<char>, usize),
    vote: bool,
    acceptor: usize,
)
    requires
        !node.members.nodes.contains(rm),
        !node.log.contains_key((tx_id, rm)),
        node.learners.contains_key(tx_id),
    ensures
        ({
            let me = node.members.me;
            let task = node.learners[tx_id];
            let before_on = votes::votes_on(node.tasks[task].strangers, rm);
            let after = node.after_vote(tx_id, rm, vote);
            let after_on = votes::votes_on(after.tasks[task].strangers, rm);
            &&& after_on.0.contains(acceptor) <==> before_on.0.contains(acceptor) || (vote
                && acceptor == me)
            &&& after_on.1.contains(acceptor) <==> before_on.1.contains(acceptor) || (!vote
                && acceptor == me)
            &&& after.tasks[task].votes == node.tasks[task].votes
        }),
{
}

/// A vote touches nothing but the log, where it adds that vote, and the
/// confirmations of the task that learns the votes on the transaction.
pub proof fn law_vote_leaves_the_rest_alone<V: Clone>(
    node: NodeView<V>,
    tx_id: u64,
    rm: (Seq<char>, usize),
    vote: bool,
    logged: (u64, (Seq<char>, usize)),
    other_task: u64,
)
    requires
        node.valid(),
    ensures
        ({
            let after = node.after_vote(tx_id, rm, vote);
            &&& after == NodeView { log: after.log, tasks: after.tasks, ..node }
            &&& logged != (tx_id, rm) ==> (after.log.contains_key(logged)
                <==> node.log.contains_key(logged)) && after.log[logged] == node.log[logged]
            &&& after.tasks.contains_key(other_task) <==> node.tasks.contains_key(other_task)
            &&& node.learner_of(tx_id) != Some(other_task) ==> after.tasks[other_task]
                == node.tasks[other_task]
            &&& after.tasks[other_task] == TaskView {
                votes: after.tasks[other_task].votes,
                strangers: after.tasks[other_task].strangers,
                ..node.tasks[other_task]
            }
        }),
{
}

/// A confirmation by an acceptor is counted by the task that learns the votes on
/// the transaction: the acceptor is among those whose confirmation of that vote
/// of that RM the task counts, and no one else is added.
pub proof fn law_confirmation_is_counted<V: Clone>(
    node: NodeView<V>,
    tx_id: u64,
    rm: (Seq<char>, usize),
    acceptor: usize,
    vote: bool,
    a: usize,
    r: usize,
)
    requires
        node.valid(),
        node.learners.contains_key(tx_id),
    ensures
        ({
            let task = node.learners[tx_id];
            let after = node.after_accepted(tx_id, rm, acceptor, vote);
            let before_on = votes::votes_on(node.tasks[task].votes, r);
            let after_on = votes::votes_on(after.tasks[task].votes, r);
            let named = r < node.members.nodes.len() && node.members.nodes[r as int] == rm;
            &&& after_on.0.contains(a) <==> before_on.0.contains(a) || (named && vote && a
                == acceptor)
            &&& after_on.1.contains(a) <==> before_on.1.contains(a) || (named && !vote && a
                == acceptor)
        }),
        ({
            let task = node.learners[tx_id];
            let after = node.after_accepted(tx_id, rm, acceptor, vote);
            let before_on = votes::votes_on(node.tasks[task].strangers, rm);
            let after_on = votes::votes_on(after.tasks[task].strangers, rm);
            let stranger = !node.members.nodes.contains(rm);
            &&& after_on.0.contains(a) <==> before_on.0.contains(a) || (stranger && vote && a
                == acceptor)
            &&& after_on.1.contains(a) <==> before_on.1.contains(a) || (stranger && !vote && a
                == acceptor)
        }),
{
    law_rank_of_a_name(node.members.nodes, rm, r);
}

/// A confirmation touches nothing but the confirmations of the task that learns
/// the votes on the transaction, and nothing at all where there is none.
pub proof fn law_confirmation_leaves_the_rest_alone<V: Clone>(
    node: NodeView<V>,
    tx_id: u64,
    rm: (Seq<char>, usize),
    acceptor: usize,
    vote: bool,
    other_task: u64,
    other: (Seq<char>, usize),
)
    requires
        node.valid(),
    ensures
        ({
            let after = node.after_accepted(tx_id, rm, acceptor, vote);
            &&& after == NodeView { tasks: after.tasks, ..node }
            &&& !node.learners.contains_key(tx_id) ==> after == node && node.learner_of(tx_id)
                == None::<u64>
            &&& node.learners.contains_key(tx_id) ==> node.learner_of(tx_id) == Some(
                node.learners[tx_id],
            )
            &&& after.tasks.contains_key(other_task) <==> node.tasks.contains_key(other_task)
            &&& node.learner_of(tx_id) != Some(other_task) ==> after.tasks[other_task]
                == node.tasks[other_task]
            &&& after.tasks[other_task] == TaskView {
                votes: after.tasks[other_task].votes,
                strangers: after.tasks[other_task].strangers,
                ..node.tasks[other_task]
            }
            &&& other != rm ==> votes::votes_on(after.tasks[other_task].strangers, other)
                == votes::votes_on(node.tasks[other_task].strangers, other)
        }),
{
}

/// The outcome in numbers: a commit exactly where each key has at least
/// `degree / 2 + 1` replicas whose Prepared vote at least `n / 2 + 1` nodes have
/// confirmed; an abort exactly where some key has fewer of which that is true or
/// may become true; and nothing yet otherwise.
pub proof fn law_outcome_in_numbers<V: Clone>(node: NodeView<V>, task: u64)
    ensures
        ({
            let t = node.tasks[task];
            let rq = (node.replication_degree / 2 + 1) as nat;
            let aq = (node.members.nodes.len() / 2 + 1) as nat;
            &&& node.outcome(task) == Some(true) <==> forall|k: int|
                0 <= k < t.key_replicas.len() ==> commit::prepared_positions(
                    #[trigger] t.key_replicas[k],
                    t.votes,
                    aq,
                ).len() >= rq
            &&& node.outcome(task) == Some(false) <==> exists|k: int|
                0 <= k < t.key_replicas.len() && commit::possible_positions(
                    #[trigger] t.key_replicas[k],
                    t.votes,
                    aq,
                    node.members.alive,
                ).len() < rq
        }),
{
    commit::law_commit_rule_in_numbers(
        node.tasks[task].key_replicas,
        node.tasks[task].votes,
        node.quorum(),
        node.acceptor_quorum(),
        node.members.alive,
    );
}

/// While there is time a decision is the outcome. When time is up, a coordinator
/// commits exactly where the outcome is a commit, and anyone else aborts.
pub proof fn law_decision_case_by_case<V: Clone>(node: NodeView<V>, task: u64)
    ensures
        node.decision(task, false) == node.outcome(task),
        node.tasks[task].coordinator ==> (node.decision(task, true) == Some(true)
            <==> node.outcome(task) == Some(true)) && (node.decision(task, true) == Some(false)
            <==> node.outcome(task) != Some(true)),
        !node.tasks[task].coordinator ==> node.decision(task, true) == Some(false),
{
}

/// What is left to store once an outcome is applied: of a commit that the node
/// has voted against, all that its task kept, in the order in which it kept it;
/// and nothing in any other case.
pub proof fn law_late_entries_are_all_that_was_kept<V: Clone>(
    task: TaskView<V>,
    committed: bool,
    i: int,
)
    ensures
        committed && task.vote == Some(false) ==> {
            &&& task.late_entries(committed).len() == task.entries.len()
            &&& 0 <= i < task.entries.len() ==> task.late_entries(committed)[i] == task.entries[i]
        },
        !(committed && task.vote == Some(false)) ==> task.late_entries(committed).len() == 0,
        task.takes_prepared(committed) <==> !committed || task.vote is Some,
{
}

/// What an outcome does to what is stored. A commit that the node has voted for
/// and still has prepared sets every key of it to the last value that it has
/// for that key, at its version; whatever else the outcome, nothing is stored.
pub proof fn law_outcome_stores_what_was_prepared<V: Clone>(
    node: NodeView<V>,
    task: u64,
    committed: bool,
    key: u64,
    i: int,
)
    ensures
        ({
            let t = node.tasks[task];
            let p = node.prepared[t.tx_id];
            let after = node.after_outcome(task, committed);
            let stores = committed && t.vote == Some(true) && node.prepared.contains_key(t.tx_id);
            &&& !stores ==> after.contents == node.contents
            &&& stores && 0 <= i < p.entries.len() && p.entries[i].0.key == key && (forall|j: int|
                i < j < p.entries.len() ==> (#[trigger] p.entries[j]).0.key != key)
                ==> after.contents.contains_pair(key, (p.entries[i].0.val, p.version))
            &&& stores && (forall|j: int|
                0 <= j < p.entries.len() ==> (#[trigger] p.entries[j]).0.key != key) ==> (
            after.contents.contains_key(key) <==> node.contents.contains_key(key)) && (
            node.contents.contains_key(key) ==> after.contents[key] == node.contents[key])
        }),
{
    let t = node.tasks[task];
    let p = node.prepared[t.tx_id];
    db::law_last_write_wins(node.contents, p.entries, p.version);
    let after = node.after_outcome(task, committed);
    assert(db::lookup(after.contents, key) is Some <==> after.contents.contains_key(key));
    assert(db::lookup(node.contents, key) is Some <==> node.contents.contains_key(key));
    if 0 <= i < p.entries.len() {
        assert(p.entries[i].0.key == p.entries[i].0.key);
    }
}

/// What an outcome does to the locks: an abort, and a commit of which the node
/// is an RM, free the stripes of what was prepared of the transaction, which is
/// prepared no longer. No other lock and no other preparation changes.
pub proof fn law_outcome_frees_what_was_prepared<V: Clone>(
    node: NodeView<V>,
    task: u64,
    committed: bool,
    s: int,
    other_tx: u64,
)
    requires
        0 <= s < node.holders.len(),
    ensures
        ({
            let t = node.tasks[task];
            let p = node.prepared[t.tx_id];
            let after = node.after_outcome(task, committed);
            let frees = (!committed || t.vote is Some) && node.prepared.contains_key(t.tx_id);
            let held = exists|i: int| 0 <= i < p.entries.len() && (#[trigger] p.entries[i]).1 == s;
            &&& after.holders.len() == node.holders.len()
            &&& frees && held ==> after.holders[s] == None::<u64>
            &&& !frees || !held ==> after.holders[s] == node.holders[s]
            &&& !committed || t.vote is Some ==> !after.prepared.contains_key(t.tx_id)
            &&& committed && t.vote is None ==> after.prepared == node.prepared
            &&& other_tx != t.tx_id ==> (after.prepared.contains_key(other_tx)
                <==> node.prepared.contains_key(other_tx)) && after.prepared[other_tx]
                == node.prepared[other_tx]
        }),
{
}

/// An outcome is applied to its task, which keeps nothing to store from then on
/// and is otherwise as before; no other task, and nothing of the node but what
/// is stored, locked and prepared, changes.
pub proof fn law_outcome_leaves_the_rest_alone<V: Clone>(
    node: NodeView<V>,
    task: u64,
    committed: bool,
    other_task: u64,
)
    ensures
        ({
            let after = node.after_outcome(task, committed);
            &&& after == NodeView {
                contents: after.contents,
                holders: after.holders,
                prepared: after.prepared,
                tasks: after.tasks,
                ..node
            }
            &&& after.tasks.contains_key(task)
            &&& after.tasks[task].applied
            &&& after.tasks[task].entries.len() == 0
            &&& after.tasks[task] == TaskView {
                applied: true,
                entries: after.tasks[task].entries,
                ..node.tasks[task]
            }
            &&& other_task != task ==> (after.tasks.contains_key(other_task)
                <==> node.tasks.contains_key(other_task)) && after.tasks[other_task]
                == node.tasks[other_task]
        }),
{
}

/// A late put goes by the version stored: where a later one is stored it changes
/// nothing, else the key has the entry's value at the version. Nothing else of
/// the node changes.
pub proof fn law_late_put_goes_by_version<V: Clone>(
    node: NodeView<V>,
    entry: Entry<V>,
    version: u64,
    other: u64,
)
    ensures
        ({
            let after = node.after_late_put(entry, version);
            let key = entry.0.key;
            let later = node.contents.contains_key(key) && node.contents[key].1 > version;
            &&& after == NodeView { contents: after.contents, ..node }
            &&& later ==> after.contents == node.contents
            &&& !later ==> after.contents.contains_pair(key, (entry.0.val, version))
            &&& other != key ==> (after.contents.contains_key(other)
                <==> node.contents.contains_key(other)) && after.contents[other]
                == node.contents[other]
        }),
{
}

/// Closing a task drops it, the learner of its transaction and the votes
/// accepted on it, and nothing else.
pub proof fn law_close_drops_one_transaction<V: Clone>(
    node: NodeView<V>,
    task: u64,
    other_task: u64,
    other_tx: u64,
    logged: (u64, (Seq<char>, usize)),
)
    ensures
        ({
            let tx_id = node.tasks[task].tx_id;
            let after = node.after_close(task);
            &&& after == NodeView {
                tasks: after.tasks,
                learners: after.learners,
                log: after.log,
                ..node
            }
            &&& after.tasks.contains_key(other_task) <==> node.tasks.contains_key(other_task)
                && other_task != task
            &&& other_task != task ==> after.tasks[other_task] == node.tasks[other_task]
            &&& after.learners.contains_key(other_tx) <==> node.learners.contains_key(other_tx)
                && other_tx != tx_id
            &&& other_tx != tx_id ==> after.learners[other_tx] == node.learners[other_tx]
            &&& after.log.contains_key(logged) <==> node.log.contains_key(logged) && logged.0
                != tx_id
            &&& after.log.contains_key(logged) ==> after.log[logged] == node.log[logged]
        }),
{
}

/// A read begins without replies, waits for `degree / 2 + 1` of them, and takes
/// a handle; nothing of the node but its reads and handles changes.
pub proof fn law_begin_read_step_by_step<V: Clone>(
    node: NodeView<V>,
    key: u64,
    req_id: u64,
    other: u64,
    other_req: u64,
)
    requires
        node.next_handle < u64::MAX,
        node.alive_replicas(key).len() >= node.quorum(),
    ensures
        ({
            let after = node.after_begin_read(key, req_id);
            let read = after.reads.readers[node.next_handle];
            &&& after == NodeView { reads: after.reads, next_handle: after.next_handle, ..node }
            &&& after.next_handle == node.next_handle + 1
            &&& after.reads.readers.contains_key(node.next_handle)
            &&& read.req_id == req_id
            &&& read.quorum == node.replication_degree / 2 + 1
            &&& read.responses.len() == 0
            &&& after.reads.routes.contains_pair(req_id, node.next_handle)
            &&& other != node.next_handle ==> (after.reads.readers.contains_key(other)
                <==> node.reads.readers.contains_key(other)) && after.reads.readers[other]
                == node.reads.readers[other]
            &&& other_req != req_id ==> (after.reads.routes.contains_key(other_req)
                <==> node.reads.routes.contains_key(other_req)) && after.reads.routes[other_req]
                == node.reads.routes[other_req]
        }),
{
}

/// What a message does to a node. Votes, confirmations, preparations and replies
/// do what is said of them; a Pong sets the time of the sender's last Pong, and a
/// Done marks the sender as done. Nothing else of the node changes, and a Ping or
/// a question does nothing to it.
pub proof fn law_messages_one_by_one<V: Clone>(
    node: NodeView<V>,
    from: usize,
    now: u64,
    key: u64,
    req_id: u64,
    val: Option<V>,
    version: u64,
    pairs: Seq<KVPair<u64, V>>,
    tx_id: u64,
    rm: (Seq<char>, usize),
    vote: bool,
    other: usize,
)
    ensures
        node.after_peer_message(from, PeerView::QuorumGet { key, req_id }, now) == node,
        node.after_peer_message(from, PeerView::Ping, now) == node,
        node.after_peer_message(from, PeerView::Vote { tx_id, rm, vote }, now) == node.after_vote(
            tx_id,
            rm,
            vote,
        ),
        node.after_peer_message(from, PeerView::Accepted { tx_id, rm, vote }, now)
            == node.after_accepted(tx_id, rm, from, vote),
        node.after_peer_message(from, PeerView::Prepare { pairs, tx_id, version }, now)
            == node.after_peer_prepare(tx_id, pairs, version),
        ({
            let after = node.after_peer_message(
                from,
                PeerView::QuorumGetResponse { val, version, req_id },
                now,
            );
            let reader = node.reads.routes[req_id];
            let before = node.reads.readers[reader];
            &&& after == NodeView { reads: after.reads, ..node }
            &&& !node.reads.routes.contains_key(req_id) ==> after == node
            &&& node.reads.routes.contains_key(req_id) ==> {
                &&& after.reads.routes == node.reads.routes
                &&& before.responses.len() < before.quorum
                    ==> after.reads.readers[reader].responses == before.responses.push(
                    (val, version),
                )
                &&& before.responses.len() >= before.quorum
                    ==> after.reads.readers[reader].responses == before.responses
                &&& after.reads.readers[reader].quorum == before.quorum
                &&& after.reads.readers[reader].req_id == before.req_id
            }
        }),
        ({
            let after = node.after_peer_message(from, PeerView::Pong, now);
            &&& after == NodeView { members: after.members, ..node }
            &&& after.members.nodes == node.members.nodes
            &&& after.members.me == node.members.me
            &&& after.members.alive == node.members.alive
            &&& after.members.done == node.members.done
            &&& after.members.pongs.contains_pair(from, now)
            &&& other != from ==> (after.members.pongs.contains_key(other)
                <==> node.members.pongs.contains_key(other)) && after.members.pongs[other]
                == node.members.pongs[other]
        }),
        ({
            let after = node.after_peer_message(from, PeerView::Done, now);
            &&& after == NodeView { members: after.members, ..node }
            &&& after.members.nodes == node.members.nodes
            &&& after.members.me == node.members.me
            &&& after.members.alive == node.members.alive
            &&& after.members.pongs == node.members.pongs
            &&& after.members.done.contains(other) <==> node.members.done.contains(other) || other
                == from
        }),
{
}

/// A node makes all done exactly where it is not done yet and every other node
/// of the cluster is.
pub proof fn law_last_one_done<V: Clone>(node: NodeView<V>, rank: usize)
    requires
        node.members.valid(),
        rank < node.members.nodes.len(),
    ensures
        node.last_to_be_done(rank) <==> !node.members.done.contains(rank) && forall|r: usize|
            r < node.members.nodes.len() && r != rank ==> #[trigger] node.members.done.contains(r),
{
    membership::law_shutdown_when_all_are_done(node.members, rank);
    if forall|r: usize|
        r < node.members.nodes.len() && r != rank ==> #[trigger] node.members.done.contains(r) {
        assert forall|r: usize| r < node.members.len() implies #[trigger] node.members.with_done(
            rank,
        ).done.contains(r) by {
            assert(r == rank || node.members.done.contains(r));
        }
    }
    if node.last_to_be_done(rank) {
        assert forall|r: usize| r < node.members.nodes.len() && r != rank implies #[trigger]
            node.members.done.contains(r) by {
            assert(node.members.with_done(rank).done.contains(r));
        }
    }
}

} // verus!
