//! What a node answers, and whom it tells, told of each answer.

use crate::db::Entry;
use crate::effects;
use crate::laws;
use crate::membership;
use crate::messages;
use crate::messages::{Envelope, LocalMessage, PeerMessage, PeerView};
use crate::model;
use crate::model::NodeView;
use crate::node;
use crate::node::{Applied, HeartbeatStep, LocalStep, PeerStep};
use crate::types;
use crate::types::KVPair;
use vstd::prelude::*;

verus! {

/// `out` holds a node's ballots on a transaction: to each other node, in the
/// order of their ranks, its vote and next its own confirmation of it.
pub open spec fn holds_ballots<V: Clone>(
    node: NodeView<V>,
    out: Seq<Envelope<V>>,
    tx_id: u64,
    vote: bool,
) -> bool {
    let name = node.members.nodes[node.members.me as int];
    let others = node.members.others();
    &&& out.len() == 2 * others.len()
    &&& forall|i: int|
        0 <= i < others.len() ==> {
            &&& #[trigger] others[i] == out[2 * i].to
            &&& others[i] == out[2 * i + 1].to
            &&& out[2 * i].msg@ == (PeerView::<V>::Vote { tx_id, rm: name, vote })
            &&& out[2 * i + 1].msg@ == (PeerView::<V>::Accepted { tx_id, rm: name, vote })
        }
}

proof fn lemma_holds_ballots<V: Clone>(
    node: NodeView<V>,
    out: Seq<Envelope<V>>,
    tx_id: u64,
    vote: bool,
)
    requires
        messages::outbox(out) == messages::ballots::<V>(
            node.members.others(),
            tx_id,
            node.my_name(),
            vote,
        ),
    ensures
        holds_ballots(node, out, tx_id, vote),
{
    let others = node.members.others();
    let sent = messages::ballots::<V>(others, tx_id, node.my_name(), vote);
    assert(messages::outbox(out).len() == out.len());
    assert forall|i: int| 0 <= i < others.len() implies {
        &&& #[trigger] others[i] == out[2 * i].to
        &&& others[i] == out[2 * i + 1].to
        &&& out[2 * i].msg@ == (PeerView::<V>::Vote { tx_id, rm: node.my_name(), vote })
        &&& out[2 * i + 1].msg@ == (PeerView::<V>::Accepted { tx_id, rm: node.my_name(), vote })
    } by {
        assert(messages::outbox(out)[2 * i] == sent[2 * i]);
        assert(messages::outbox(out)[2 * i + 1] == sent[2 * i + 1]);
    }
}

/// `out` holds one message, to each of some nodes in turn.
pub open spec fn holds_one_each<V: Clone>(
    out: Seq<Envelope<V>>,
    targets: Seq<usize>,
    msg: PeerView<V>,
) -> bool {
    &&& out.len() == targets.len()
    &&& forall|i: int|
        0 <= i < targets.len() ==> #[trigger] targets[i] == out[i].to && out[i].msg@ == msg
}

proof fn lemma_holds_one_each<V: Clone>(
    out: Seq<Envelope<V>>,
    targets: Seq<usize>,
    msg: PeerView<V>,
)
    requires
        messages::outbox(out) == messages::addressed(targets, msg),
    ensures
        holds_one_each(out, targets, msg),
{
    assert(messages::outbox(out).len() == out.len());
    assert forall|i: int| 0 <= i < targets.len() implies #[trigger] targets[i] == out[i].to
        && out[i].msg@ == msg by {
        assert(messages::outbox(out)[i] == messages::addressed(targets, msg)[i]);
    }
}

/// What is to be done about a question, a reply and the messages between peers
/// on who is there. A question is answered to its sender; a reply completes a
/// read exactly where it is the last that the read needs; a Ping is answered
/// with a Pong; and a Done shuts down exactly where it makes all nodes done.
pub proof fn law_answers_to_peers<V: Clone>(
    node: NodeView<V>,
    from: usize,
    step: PeerStep<V>,
    key: u64,
    req_id: u64,
    val: Option<V>,
    version: u64,
)
    requires
        node.valid(),
        from < node.members.nodes.len(),
    ensures
        node::is_peer_step(node, from, PeerView::QuorumGet { key, req_id }, step) ==> step == (
        PeerStep::<V>::AnswerRead { to: from, key, req_id }),
        node::is_peer_step(node, from, PeerView::QuorumGetResponse { val, version, req_id }, step)
            ==> {
            let reader = node.reads.routes[req_id];
            let read = node.reads.readers[reader];
            let last = node.reads.routes.contains_key(req_id) && read.responses.len() + 1
                == read.quorum;
            &&& last ==> step == (PeerStep::<V>::ReadComplete { reader })
            &&& !last ==> step == PeerStep::<V>::Nothing
        },
        node::is_peer_step(node, from, PeerView::Ping, step) ==> {
            &&& step matches PeerStep::Send(envelope)
            &&& envelope.to == from
            &&& envelope.msg@ == PeerView::<V>::Pong
        },
        node::is_peer_step(node, from, PeerView::Pong, step) ==> step == PeerStep::<V>::Nothing,
        node::is_peer_step(node, from, PeerView::Done, step) ==> {
            let last = !node.members.done.contains(from) && forall|r: usize|
                r < node.members.nodes.len() && r != from ==> #[trigger] node.members.done.contains(
                    r,
                );
            &&& last ==> step == PeerStep::<V>::Shutdown
            &&& !last ==> step == PeerStep::<V>::Nothing
        },
{
    effects::law_last_one_done(node, from);
}

/// What is to be done about a write of others. A preparation begins a task, and
/// the node's ballots go to all others, Prepared exactly where all that it is a
/// replica of lies in free stripes; an RM's first vote is confirmed to all
/// others, and a later one to no one; a confirmation is for the task that learns
/// the votes on its transaction, if there is one.
pub proof fn law_answers_to_votes<V: Clone>(
    node: NodeView<V>,
    from: usize,
    step: PeerStep<V>,
    pairs: Seq<KVPair<u64, V>>,
    tx_id: u64,
    version: u64,
    rm: (Seq<char>, usize),
    vote: bool,
)
    requires
        node.valid(),
    ensures
        node::is_peer_step(node, from, PeerView::Prepare { pairs, tx_id, version }, step) ==> {
            let free = forall|i: int|
                0 <= i < pairs.len() && node.replicas((#[trigger] pairs[i]).key).contains(
                    node.members.me,
                ) ==> node.holders[effects::hash_of(pairs[i].key) % node.stripes as int] is None;
            &&& step matches PeerStep::Participate(started)
            &&& started.task == node.next_handle
            &&& holds_ballots(node, started.out@, tx_id, free)
        },
        node::is_peer_step(node, from, PeerView::Vote { tx_id, rm, vote }, step) ==> {
            let logged = node.log.contains_key((tx_id, rm));
            &&& logged ==> step == PeerStep::<V>::Nothing
            &&& !logged ==> {
                &&& step matches PeerStep::Accept(accepted)
                &&& accepted.learner is Some <==> node.learners.contains_key(tx_id)
                &&& accepted.learner is Some ==> accepted.learner->0 == node.learners[tx_id]
                &&& holds_one_each(
                    accepted.out@,
                    node.members.others(),
                    PeerView::Accepted { tx_id, rm, vote },
                )
            }
        },
        node::is_peer_step(node, from, PeerView::Accepted { tx_id, rm, vote }, step) ==> {
            &&& node.learners.contains_key(tx_id) ==> step == (PeerStep::<V>::Learned {
                task: node.learners[tx_id],
            })
            &&& !node.learners.contains_key(tx_id) ==> step == PeerStep::<V>::Nothing
        },
{
    effects::law_vote_is_whether_all_is_free(node, pairs);
    if node::is_peer_step(node, from, PeerView::Prepare { pairs, tx_id, version }, step) {
        let started = step->Participate_0;
        lemma_holds_ballots(
            node,
            started.out@,
            tx_id,
            node.own_vote(node.entries_for(pairs)),
        );
    }
    if node::is_peer_step(node, from, PeerView::Vote { tx_id, rm, vote }, step)
        && !node.log.contains_key((tx_id, rm)) {
        let accepted = step->Accept_0;
        lemma_holds_one_each(
            accepted.out@,
            node.members.others(),
            PeerView::Accepted { tx_id, rm, vote },
        );
    }
}

/// What comes of a client's read. It is refused exactly where fewer than
/// `degree / 2 + 1` ranks are replicas of the key and alive. Otherwise every
/// replica that is alive is asked, the node itself by way of `local` and each
/// other by a message.
pub proof fn law_client_reads<V: Clone>(
    node: NodeView<V>,
    key: u64,
    step: LocalStep<V>,
    after: NodeView<V>,
    rank: usize,
)
    requires
        node.valid(),
        node.next_handle < u64::MAX,
        node::is_read_step(node, key, step, after),
    ensures
        ({
            let enough = node.replicas(key).to_set().intersect(node.members.alive).len()
                >= node.replication_degree / 2 + 1;
            &&& !enough ==> step == LocalStep::<V>::ReadRefused && after == node
            &&& enough ==> {
                &&& step matches LocalStep::Read { req_id, started }
                &&& started.reader == node.next_handle
                &&& started.local <==> node.replicas(key).contains(node.members.me)
                    && node.members.alive.contains(node.members.me)
                &&& after.reads.readers.contains_key(started.reader)
                &&& after.reads.readers[started.reader].req_id == req_id
                &&& after.reads.readers[started.reader].quorum == node.replication_degree / 2 + 1
                &&& after.reads.readers[started.reader].responses.len() == 0
                &&& after.reads.routes.contains_pair(req_id, started.reader)
                &&& after == NodeView { reads: after.reads, next_handle: after.next_handle, ..node }
                &&& holds_one_each(
                    started.out@,
                    model::without(node.alive_replicas(key), node.members.me),
                    PeerView::QuorumGet { key, req_id },
                )
                &&& model::without(node.alive_replicas(key), node.members.me).contains(rank)
                    <==> rank != node.members.me && node.replicas(key).contains(rank)
                    && node.members.alive.contains(rank)
                &&& model::without(node.alive_replicas(key), node.members.me).no_duplicates()
            }
        }),
{
    effects::law_alive_replicas(node, key, rank);
    effects::law_alive_replicas(node, key, node.members.me);
    lemma_without(node.alive_replicas(key), node.members.me, rank);
    if node.alive_replicas(key).len() >= node.quorum() {
        if let LocalStep::Read { req_id, started } = step {
            lemma_holds_one_each(
                started.out@,
                model::without(node.alive_replicas(key), node.members.me),
                PeerView::QuorumGet { key, req_id },
            );
        }
    }
}

proof fn lemma_without(ranks: Seq<usize>, me: usize, rank: usize)
    ensures
        model::without(ranks, me).contains(rank) <==> ranks.contains(rank) && rank != me,
        ranks.no_duplicates() ==> model::without(ranks, me).no_duplicates(),
    decreases ranks.len(),
{
    if ranks.len() > 0 {
        let rest = ranks.drop_last();
        lemma_without(rest, me, rank);
        assert(ranks =~= rest.push(ranks.last()));
        membership::lemma_push_contains(rest, ranks.last(), rank);
        membership::lemma_push_contains(model::without(rest, me), ranks.last(), rank);
        if ranks.no_duplicates() {
            lemma_without(rest, me, ranks.last());
            assert(!rest.contains(ranks.last())) by {
                if rest.contains(ranks.last()) {
                    let i = choose|i: int| 0 <= i < rest.len() && rest[i] == ranks.last();
                    assert(ranks[i] == ranks[ranks.len() - 1]);
                }
            }
        }
    }
}

/// What comes of a client's write. It is refused exactly where for some pair
/// fewer than `degree / 2 + 1` ranks are replicas of the key and alive. Otherwise
/// first each other node that owns one of the keys is asked to prepare clones of
/// all pairs at the next version; then, if this node owns one of the keys, its
/// ballots follow, Prepared exactly where all that it is a replica of lies in
/// free stripes.
pub proof fn law_client_writes<V: Clone>(
    node: NodeView<V>,
    pairs: Seq<KVPair<u64, V>>,
    step: LocalStep<V>,
    after: NodeView<V>,
    rank: usize,
    i: int,
)
    requires
        node.valid(),
        node.clock < u64::MAX,
        node.next_handle < u64::MAX,
        node::is_write_step(node, pairs, step, after),
    ensures
        ({
            let enough = forall|i: int|
                0 <= i < pairs.len() ==> node.replicas((#[trigger] pairs[i]).key).to_set().intersect(
                    node.members.alive,
                ).len() >= node.replication_degree / 2 + 1;
            let free = forall|i: int|
                0 <= i < pairs.len() && node.replicas((#[trigger] pairs[i]).key).contains(
                    node.members.me,
                ) ==> node.holders[effects::hash_of(pairs[i].key) % node.stripes as int] is None;
            let owns = exists|i: int|
                0 <= i < pairs.len() && node.replicas((#[trigger] pairs[i]).key).contains(
                    node.members.me,
                );
            let rms = node.remote_rms(pairs);
            let n = rms.len() as int;
            &&& !enough ==> {
                &&& step == LocalStep::<V>::WriteRefused
                &&& after.clock == node.clock + 1
                &&& after == NodeView { clock: after.clock, ..node }
            }
            &&& enough ==> {
                &&& step matches LocalStep::Write { tx_id, started }
                &&& started.task == node.next_handle
                &&& after.learners.contains_pair(tx_id, node.next_handle)
                &&& after.tasks.contains_key(node.next_handle)
                &&& after.clock == node.clock + 1
                &&& n <= started.out@.len()
                &&& 0 <= i < n ==> {
                    &&& started.out@[i].to == rms[i]
                    &&& started.out@[i].msg matches PeerMessage::Prepare {
                        pairs: sent,
                        tx_id: tx,
                        version,
                    }
                    &&& tx == tx_id
                    &&& version == node.clock + 1
                    &&& sent@.len() == pairs.len()
                    &&& forall|k: int|
                        0 <= k < pairs.len() ==> (#[trigger] sent@[k]).key == pairs[k].key
                            && cloned(pairs[k].val, sent@[k].val)
                }
                &&& owns ==> holds_ballots(node, started.out@.skip(n), tx_id, free)
                &&& !owns ==> started.out@.len() == n
            }
        }),
{
    effects::law_write_begins_with_a_quorum_alive(node, 0, pairs);
    effects::law_vote_is_whether_all_is_free(node, pairs);
    let entries = node.entries_for(pairs);
    let owns = exists|i: int|
        0 <= i < pairs.len() && node.replicas((#[trigger] pairs[i]).key).contains(node.members.me);
    if owns {
        let i = choose|i: int|
            0 <= i < pairs.len() && node.replicas((#[trigger] pairs[i]).key).contains(
                node.members.me,
            );
        let entry = (pairs[i], node.stripe_of(pairs[i].key));
        assert(pairs.contains(pairs[i]));
        effects::law_entries_are_the_local_pairs(node, pairs, entry, 0, 0);
    } else if entries.len() > 0 {
        assert(entries.contains(entries[0]));
        effects::law_entries_are_the_local_pairs(node, pairs, entries[0], 0, 0);
        let i = choose|i: int| 0 <= i < pairs.len() && pairs[i] == entries[0].0;
        assert(node.replicas(pairs[i].key).contains(node.members.me));
    }
    if node.feasible(pairs) {
        if let LocalStep::Write { tx_id, started } = step {
            let n = node.remote_rms(pairs).len() as int;
            effects::law_write_begins_with_a_quorum_alive(node, tx_id, pairs);
            if 0 <= i < n {
                assert(started.out@.take(n)[i] == started.out@[i]);
            }
            if owns {
                lemma_holds_ballots(node, started.out@.skip(n), tx_id, node.own_vote(entries));
            } else {
                assert(messages::outbox(started.out@.skip(n)).len() == started.out@.skip(n).len());
            }
        }
    }
}

/// Each other node that owns one of a write's keys is asked to prepare it once,
/// and no one else, in ascending order of the ranks.
pub proof fn law_whom_a_write_asks<V: Clone>(
    node: NodeView<V>,
    pairs: Seq<KVPair<u64, V>>,
    rank: usize,
    i: int,
    j: int,
)
    requires
        node.valid(),
    ensures
        node.remote_rms(pairs).contains(rank) <==> {
            &&& rank != node.members.me
            &&& rank < node.members.nodes.len()
            &&& exists|k: int|
                0 <= k < pairs.len() && node.replicas((#[trigger] pairs[k]).key).contains(rank)
        },
        0 <= i < j < node.remote_rms(pairs).len() ==> node.remote_rms(pairs)[i] < node.remote_rms(
            pairs,
        )[j],
{
    let others = node.members.others();
    let windows = node.key_windows(pairs);
    laws::law_prepare_reaches_every_replica(node, pairs, rank);
    if node.remote_rms(pairs).contains(rank) {
        let k = choose|k: int|
            0 <= k < pairs.len() && node.replicas((#[trigger] pairs[k]).key).contains(rank);
        effects::law_numbers_of_a_node(node, pairs[k].key, rank, 0);
    }
    assert forall|i: int, j: int| 0 <= i < j < others.len() implies others[i] < others[j] by {
        membership::law_others_are_all_but_me(node.members, 0, i, j);
    }
    lemma_owners_ascend(others, windows);
}

proof fn lemma_owners_ascend(ranks: Seq<usize>, key_replicas: Seq<Seq<usize>>)
    requires
        forall|i: int, j: int| 0 <= i < j < ranks.len() ==> ranks[i] < ranks[j],
    ensures
        forall|i: int, j: int|
            0 <= i < j < model::owners_among(ranks, key_replicas).len() ==> model::owners_among(
                ranks,
                key_replicas,
            )[i] < model::owners_among(ranks, key_replicas)[j],
        forall|i: int|
            0 <= i < model::owners_among(ranks, key_replicas).len() ==> ranks.contains(
                #[trigger] model::owners_among(ranks, key_replicas)[i],
            ),
    decreases ranks.len(),
{
    if ranks.len() > 0 {
        let rest = ranks.drop_last();
        let last = ranks.last();
        let found = model::owners_among(rest, key_replicas);
        lemma_owners_ascend(rest, key_replicas);
        assert forall|i: int| 0 <= i < found.len() implies ranks.contains(#[trigger] found[i])
            && found[i] < last by {
            let k = choose|k: int| 0 <= k < rest.len() && rest[k] == found[i];
            assert(ranks[k] == found[i]);
            assert(ranks[k] < ranks[ranks.len() - 1]);
        }
        assert(ranks[ranks.len() - 1] == last);
        let all = model::owners_among(ranks, key_replicas);
        assert(all == found || all == found.push(last));
        assert forall|i: int| 0 <= i < all.len() implies ranks.contains(#[trigger] all[i]) by {
            if i < found.len() {
                assert(all[i] == found[i]);
            }
        }
        assert forall|i: int, j: int| 0 <= i < j < all.len() implies all[i] < all[j] by {
            assert(all[i] == found[i]);
            if j < found.len() {
                assert(all[j] == found[j]);
            }
        }
    }
}

/// A client's requests: a Get is a read of its key, a Put a write of its pair, a
/// TriPut a write of clones of its three pairs; and a Done goes to all others,
/// marks the node as done, and shuts down exactly where all others are done and
/// the node was not.
pub proof fn law_client_requests<V: Clone>(
    node: NodeView<V>,
    step: LocalStep<V>,
    after: NodeView<V>,
    key: u64,
    pair: KVPair<u64, V>,
    pairs: [KVPair<u64, V>; 3],
    rank: usize,
)
    requires
        node.valid(),
    ensures
        node::is_local_step(node, LocalMessage::Get { key }, step, after) <==> node::is_read_step(
            node,
            key,
            step,
            after,
        ),
        node::is_local_step(node, LocalMessage::Put { pair }, step, after)
            <==> node::is_write_step(node, Seq::empty().push(pair), step, after),
        node::is_local_step(node, LocalMessage::TriPut { pairs }, step, after) ==> exists|
            copies: Seq<KVPair<u64, V>>,
        |
            #![trigger node::is_write_step(node, copies, step, after)]
            {
                &&& copies.len() == 3
                &&& copies[0].key == pairs@[0].key && cloned(pairs@[0].val, copies[0].val)
                &&& copies[1].key == pairs@[1].key && cloned(pairs@[1].val, copies[1].val)
                &&& copies[2].key == pairs@[2].key && cloned(pairs@[2].val, copies[2].val)
                &&& node::is_write_step(node, copies, step, after)
            },
        node::is_local_step(node, LocalMessage::Done, step, after) ==> {
            let last = !node.members.done.contains(node.members.me) && forall|r: usize|
                r < node.members.nodes.len() && r != node.members.me
                    ==> #[trigger] node.members.done.contains(r);
            &&& step matches LocalStep::Done { out, shutdown }
            &&& shutdown == last
            &&& holds_one_each(out@, node.members.others(), PeerView::Done)
            &&& after == NodeView { members: after.members, ..node }
            &&& after.members.nodes == node.members.nodes
            &&& after.members.me == node.members.me
            &&& after.members.alive == node.members.alive
            &&& after.members.pongs == node.members.pongs
            &&& after.members.done.contains(rank) <==> node.members.done.contains(rank) || rank
                == node.members.me
        },
{
    effects::law_last_one_done(node, node.members.me);
    if node::is_local_step(node, LocalMessage::Done, step, after) {
        if let LocalStep::Done { out, shutdown } = step {
            lemma_holds_one_each(out@, node.members.others(), PeerView::Done);
        }
    }
    assert(seq![pair] =~= Seq::empty().push(pair));
    if node::is_local_step(node, LocalMessage::TriPut { pairs }, step, after) {
        let copies = choose|copies: Seq<KVPair<u64, V>>|
            types::pairs_cloned(pairs@, copies) && #[trigger] node::is_write_step(
                node,
                copies,
                step,
                after,
            );
        assert(pairs@.len() == 3);
        assert(copies[0].key == pairs@[0].key);
        assert(copies[1].key == pairs@[1].key);
        assert(copies[2].key == pairs@[2].key);
        assert(node::is_write_step(node, copies, step, after));
    }
}

/// A heartbeat round pings every peer that was taken for alive, in ascending
/// order of the ranks, and finds dead those of them whose last Pong is more than
/// 500 milliseconds ago. They are not alive and are done from then on, and
/// nothing else of the node changes. It shuts down exactly where one of them was
/// not done before and everyone is done then.
pub proof fn law_heartbeats<V: Clone>(
    node: NodeView<V>,
    now: u64,
    step: HeartbeatStep<V>,
    after: NodeView<V>,
    rank: usize,
)
    requires
        node.valid(),
        node::is_heartbeat_step(node, now, step, after),
    ensures
        ({
            let silent = rank != node.members.me && node.members.alive.contains(rank)
                && node.members.pongs.contains_key(rank) && now - node.members.pongs[rank]
                > 500_000_000;
            &&& holds_one_each(step.out@, node.members.alive_others(), PeerView::Ping)
            &&& node.members.alive_others().contains(rank) <==> rank != node.members.me
                && node.members.alive.contains(rank)
            &&& step.dead@.contains(rank) <==> silent
            &&& after.members.alive.contains(rank) <==> node.members.alive.contains(rank)
                && !silent
            &&& after.members.done.contains(rank) <==> node.members.done.contains(rank) || silent
            &&& after.members.nodes == node.members.nodes
            &&& after.members.me == node.members.me
            &&& after.members.pongs == node.members.pongs
            &&& after == NodeView { members: after.members, ..node }
            &&& step.shutdown <==> {
                &&& exists|i: int|
                    0 <= i < step.dead@.len() && !node.members.done.contains(
                        #[trigger] step.dead@[i],
                    )
                &&& forall|r: usize|
                    r < node.members.nodes.len() ==> #[trigger] after.members.done.contains(r)
            }
        }),
{
    let dead = step.dead@;
    lemma_holds_one_each(step.out@, node.members.alive_others(), PeerView::<V>::Ping);
    membership::law_silence_of_half_a_second_is_death(node.members, now, rank);
    membership::law_others_are_all_but_me(node.members, rank, 0, 0);
    assert forall|i: int| 0 <= i < dead.len() implies (#[trigger] dead[i])
        < node.members.nodes.len() by {
        assert(dead.contains(dead[i]));
        membership::law_silence_of_half_a_second_is_death(node.members, now, dead[i]);
    }
    membership::law_crashes_shut_down_with_the_last(node.members, dead);
    if step.shutdown {
        assert forall|r: usize| r < node.members.nodes.len() implies #[trigger]
            after.members.done.contains(r) by {
            assert(node.members.done.contains(r) || dead.contains(r));
        }
    }
    if forall|r: usize|
        r < node.members.nodes.len() ==> #[trigger] after.members.done.contains(r) {
        assert forall|r: usize| r < node.members.nodes.len() implies #[trigger]
            node.members.done.contains(r) || dead.contains(r) by {
            assert(after.members.done.contains(r));
        }
    }
}

/// An outcome hands back, at the version of its transaction, all that the task
/// kept of a commit that the node has voted against, and nothing otherwise.
pub proof fn law_what_an_outcome_hands_back<V: Clone>(
    node: NodeView<V>,
    task: u64,
    committed: bool,
    applied: Applied<V>,
    after: NodeView<V>,
    entry: Entry<V>,
)
    requires
        node::is_outcome_step(node, task, committed, applied, after),
    ensures
        ({
            let t = node.tasks[task];
            let against = committed && t.vote == Some(false);
            &&& applied.version == t.version
            &&& applied.late@.contains(entry) <==> against && t.entries.contains(entry)
            &&& against ==> applied.late@ == t.entries
            &&& after.tasks[task].applied
        }),
{
    if !(committed && node.tasks[task].vote == Some(false)) {
        effects::law_late_entries_are_all_that_was_kept(node.tasks[task], committed, 0);
    }
}

/// A late entry comes back, and nothing changes, exactly while its key's stripe
/// is locked; otherwise it is stored unless a later version is.
pub proof fn law_late_entries_wait_for_the_lock<V: Clone>(
    node: NodeView<V>,
    entry: Entry<V>,
    version: u64,
    back: Option<Entry<V>>,
    after: NodeView<V>,
)
    requires
        node.valid(),
        node::is_put_step(node, entry, version, back, after),
    ensures
        ({
            let key = entry.0.key;
            let locked = node.holders[effects::hash_of(key) % node.stripes as int] is Some;
            let later = node.contents.contains_key(key) && node.contents[key].1 > version;
            &&& locked ==> back == Some(entry) && after == node
            &&& !locked ==> back is None && after == NodeView { contents: after.contents, ..node }
            &&& !locked && later ==> after.contents == node.contents
            &&& !locked && !later ==> after.contents.contains_pair(key, (entry.0.val, version))
        }),
{
}

/// A read waits exactly while its key's stripe is locked. Then the reply is the
/// stored version with a clone of the stored value, or no value and version 0
/// where the key is not stored.
pub proof fn law_replies_wait_for_the_lock<V: Clone>(
    node: NodeView<V>,
    key: u64,
    reply: Option<(Option<V>, u64)>,
)
    requires
        node.valid(),
        node::is_reply(node, key, reply),
    ensures
        reply is None <==> node.holders[effects::hash_of(key) % node.stripes as int] is Some,
        reply matches Some((val, version)) ==> {
            &&& val is Some <==> node.contents.contains_key(key)
            &&& val is Some ==> cloned(node.contents[key].0, val->0) && version
                == node.contents[key].1
            &&& val is None ==> version == 0
        },
{
}

} // verus!
