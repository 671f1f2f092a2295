//! Why the participants of a transaction agree on its outcome.
//!
//! An RM casts one vote on a transaction. As long as that holds, whatever the
//! acceptors log and the learners count are those votes, and no two
//! participants can learn opposite votes of one RM.

use crate::commit;
use crate::db::Entry;
use crate::membership;
use crate::membership::MembershipView;
use crate::messages;
use crate::messages::PeerView;
use crate::model;
use crate::model::NodeView;
use crate::reads::ReadsView;
use crate::types::KVPair;
use crate::votes;
use vstd::prelude::*;

verus! {

/// Every confirmation that a task has counted is of a node's cast vote, by a
/// node of the cluster.
pub open spec fn task_faithful<V: Clone>(
    node: NodeView<V>,
    task: u64,
    cast: Map<(u64, (Seq<char>, usize)), bool>,
) -> bool {
    let t = node.tasks[task];
    &&& forall|r: usize, a: usize|
        t.votes.contains_key(r) && #[trigger] t.votes[r].0.contains(a) ==> r < node.members.len()
            && a < node.members.len() && cast.contains_pair(
            (t.tx_id, node.members.nodes[r as int]),
            true,
        )
    &&& forall|r: usize, a: usize|
        t.votes.contains_key(r) && #[trigger] t.votes[r].1.contains(a) ==> r < node.members.len()
            && a < node.members.len() && cast.contains_pair(
            (t.tx_id, node.members.nodes[r as int]),
            false,
        )
}

/// Every vote that a node has logged or counted is one that was cast.
pub open spec fn faithful<V: Clone>(
    node: NodeView<V>,
    cast: Map<(u64, (Seq<char>, usize)), bool>,
) -> bool {
    &&& forall|k: (u64, (Seq<char>, usize))| #[trigger]
        node.log.contains_key(k) ==> cast.contains_pair(k, node.log[k])
    &&& forall|task: u64| #[trigger] node.tasks.contains_key(task) ==> task_faithful(node, task, cast)
}

/// A message tells of no vote but one that was cast.
pub open spec fn message_faithful<V: Clone>(
    msg: PeerView<V>,
    cast: Map<(u64, (Seq<char>, usize)), bool>,
) -> bool {
    match msg {
        PeerView::Vote { tx_id, rm, vote } => cast.contains_pair((tx_id, rm), vote),
        PeerView::Accepted { tx_id, rm, vote } => cast.contains_pair((tx_id, rm), vote),
        _ => true,
    }
}

/// One more confirmation of a cast vote keeps a task faithful.
proof fn lemma_accepted_keeps_faithful<V: Clone>(
    node: NodeView<V>,
    tx_id: u64,
    rm: (Seq<char>, usize),
    acceptor: usize,
    vote: bool,
    cast: Map<(u64, (Seq<char>, usize)), bool>,
)
    requires
        node.valid(),
        faithful(node, cast),
        acceptor < node.members.len(),
        cast.contains_pair((tx_id, rm), vote),
    ensures
        faithful(node.after_accepted(tx_id, rm, acceptor, vote), cast),
{
    let after = node.after_accepted(tx_id, rm, acceptor, vote);
    assert forall|task: u64| #[trigger] after.tasks.contains_key(task) implies task_faithful(
        after,
        task,
        cast,
    ) by {
        assert(task_faithful(node, task, cast));
        match model::rank_in(node.members.nodes, rm) {
            Some(r) => {
                assert(node.members.nodes.contains(rm));
                assert(node.members.nodes[node.members.nodes.index_of(rm)] == rm);
            },
            None => {},
        }
    }
}

/// Beginning a task with a vote that is the one cast keeps a node faithful.
proof fn lemma_ballot_keeps_faithful<V: Clone>(
    node: NodeView<V>,
    tx_id: u64,
    key_replicas: Seq<Seq<usize>>,
    entries: Seq<Entry<V>>,
    version: u64,
    coordinator: bool,
    known: Map<usize, (Set<usize>, Set<usize>)>,
    strangers: Map<(Seq<char>, usize), (Set<usize>, Set<usize>)>,
    cast: Map<(u64, (Seq<char>, usize)), bool>,
)
    requires
        node.valid(),
        faithful(node, cast),
        cast.contains_pair((tx_id, node.my_name()), node.own_vote(entries)),
        known == Map::<usize, (Set<usize>, Set<usize>)>::empty() || known
            == votes::recovered_votes(
            node.log,
            tx_id,
            node.members.nodes,
            node.members.me,
            node.members.len(),
        ),
    ensures
        faithful(
            node.with_ballot(
                tx_id,
                key_replicas,
                entries,
                version,
                coordinator,
                known,
                strangers,
            ),
            cast,
        ),
{
    let after = node.with_ballot(
        tx_id,
        key_replicas,
        entries,
        version,
        coordinator,
        known,
        strangers,
    );
    assert forall|task: u64| #[trigger] after.tasks.contains_key(task) implies task_faithful(
        after,
        task,
        cast,
    ) by {
        if task != node.next_handle {
            assert(node.tasks.contains_key(task));
            assert(task_faithful(node, task, cast));
        }
    }
}

/// A node stays faithful, whatever message reaches it: where the message tells
/// of cast votes only, and a vote that the node casts itself is the one that
/// counts as cast, all it logs and counts afterwards are cast votes.
pub proof fn law_peer_messages_keep_faith<V: Clone>(
    node: NodeView<V>,
    from: usize,
    msg: PeerView<V>,
    now: u64,
    cast: Map<(u64, (Seq<char>, usize)), bool>,
)
    requires
        node.valid(),
        faithful(node, cast),
        from < node.members.len(),
        message_faithful(msg, cast),
        msg matches PeerView::Prepare { pairs, tx_id, .. } ==> cast.contains_pair(
            (tx_id, node.my_name()),
            node.own_vote(node.entries_for(pairs)),
        ),
    ensures
        faithful(node.after_peer_message(from, msg, now), cast),
{
    let after = node.after_peer_message(from, msg, now);
    match msg {
        PeerView::Prepare { pairs, tx_id, version } => {
            let observed = node.with_observed(version);
            node.lemma_clock_keeps_valid(observed.clock);
            assert(faithful(observed, cast)) by {
                assert forall|task: u64| #[trigger]
                    observed.tasks.contains_key(task) implies task_faithful(
                    observed,
                    task,
                    cast,
                ) by {
                    assert(task_faithful(node, task, cast));
                }
            }
            lemma_ballot_keeps_faithful(
                observed,
                tx_id,
                node.key_windows(pairs),
                node.entries_for(pairs),
                version,
                false,
                votes::recovered_votes(
                    node.log,
                    tx_id,
                    node.members.nodes,
                    node.members.me,
                    node.members.len(),
                ),
                votes::recovered_strangers(
                    node.log,
                    tx_id,
                    node.members.nodes,
                    node.members.me,
                ),
                cast,
            );
        },
        PeerView::Vote { tx_id, rm, vote } => {
            if !node.log.contains_key((tx_id, rm)) {
                let logged = NodeView { log: node.log.insert((tx_id, rm), vote), ..node };
                node.lemma_log_keeps_valid(logged.log);
                assert forall|task: u64| #[trigger]
                    logged.tasks.contains_key(task) implies task_faithful(logged, task, cast) by {
                    assert(task_faithful(node, task, cast));
                }
                lemma_accepted_keeps_faithful(logged, tx_id, rm, node.members.me, vote, cast);
            }
        },
        PeerView::Accepted { tx_id, rm, vote } => {
            lemma_accepted_keeps_faithful(node, tx_id, rm, from, vote, cast);
        },
        _ => {
            assert forall|task: u64| #[trigger] after.tasks.contains_key(task) implies task_faithful(
                after,
                task,
                cast,
            ) by {
                assert(task_faithful(node, task, cast));
            }
        },
    }
}

/// A node stays faithful when it begins to coordinate a write, where a vote
/// that it casts is the one that counts as cast, and when it applies an outcome
/// or closes a task.
pub proof fn law_own_steps_keep_faith<V: Clone>(
    node: NodeView<V>,
    tx_id: u64,
    pairs: Seq<KVPair<u64, V>>,
    task: u64,
    committed: bool,
    cast: Map<(u64, (Seq<char>, usize)), bool>,
)
    requires
        node.valid(),
        faithful(node, cast),
    ensures
        (node.feasible(pairs) && node.entries_for(pairs).len() > 0 ==> cast.contains_pair(
            (tx_id, node.my_name()),
            node.own_vote(node.entries_for(pairs)),
        )) ==> faithful(node.after_begin_write(tx_id, pairs), cast),
        node.tasks.contains_key(task) ==> faithful(node.after_outcome(task, committed), cast)
            && faithful(node.after_close(task), cast),
{
    let next = node.with_next_version();
    node.lemma_clock_keeps_valid(next.clock);
    assert forall|t: u64| #[trigger] next.tasks.contains_key(t) implies task_faithful(
        next,
        t,
        cast,
    ) by {
        assert(task_faithful(node, t, cast));
    }
    if node.feasible(pairs) {
        if node.entries_for(pairs).len() > 0 && cast.contains_pair(
            (tx_id, node.my_name()),
            node.own_vote(node.entries_for(pairs)),
        ) {
            lemma_ballot_keeps_faithful(
                next,
                tx_id,
                node.key_windows(pairs),
                node.entries_for(pairs),
                next.clock,
                true,
                Map::empty(),
                Map::empty(),
                cast,
            );
        }
        if node.entries_for(pairs).len() == 0 {
            let begun = node.after_begin_write(tx_id, pairs);
            assert forall|t: u64| #[trigger] begun.tasks.contains_key(t) implies task_faithful(
                begun,
                t,
                cast,
            ) by {
                if t != node.next_handle {
                    assert(task_faithful(node, t, cast));
                }
            }
        }
    }
    if node.tasks.contains_key(task) {
        let applied = node.after_outcome(task, committed);
        assert forall|t: u64| #[trigger] applied.tasks.contains_key(t) implies task_faithful(
            applied,
            t,
            cast,
        ) by {
            assert(task_faithful(node, t, cast));
        }
        let closed = node.after_close(task);
        assert forall|t: u64| #[trigger] closed.tasks.contains_key(t) implies task_faithful(
            closed,
            t,
            cast,
        ) by {
            assert(task_faithful(node, t, cast));
        }
    }
}

/// A step that leaves alone the node's log, its tasks and the names of the
/// cluster keeps it faithful: so do the heartbeat, a node found dead or done,
/// the steps of a read, an observed version and a late put.
pub proof fn law_other_steps_keep_faith<V: Clone>(
    node: NodeView<V>,
    members: MembershipView,
    reads: ReadsView<V>,
    contents: Map<u64, (V, u64)>,
    clock: u64,
    next_handle: u64,
    cast: Map<(u64, (Seq<char>, usize)), bool>,
)
    requires
        faithful(node, cast),
        members.nodes == node.members.nodes,
    ensures
        faithful(NodeView { members, reads, contents, clock, next_handle, ..node }, cast),
{
    let after = NodeView { members, reads, contents, clock, next_handle, ..node };
    assert forall|task: u64| #[trigger] after.tasks.contains_key(task) implies task_faithful(
        after,
        task,
        cast,
    ) by {
        assert(task_faithful(node, task, cast));
    }
}

/// The heartbeat, a node found dead or done, the steps of a read, a new or an
/// observed version and a late put keep a node faithful.
pub proof fn law_every_other_step_keeps_faith<V: Clone>(
    node: NodeView<V>,
    rank: usize,
    dead: Seq<usize>,
    key: u64,
    reader: u64,
    req_id: u64,
    val: Option<V>,
    version: u64,
    entry: Entry<V>,
    cast: Map<(u64, (Seq<char>, usize)), bool>,
)
    requires
        faithful(node, cast),
    ensures
        faithful(NodeView { members: node.members.with_all_dead(dead), ..node }, cast),
        faithful(NodeView { members: node.members.with_dead(rank), ..node }, cast),
        faithful(NodeView { members: node.members.with_done(rank), ..node }, cast),
        faithful(node.after_begin_read(key, req_id), cast),
        faithful(
            NodeView { reads: node.reads.with_reply_to(reader, val, version), ..node },
            cast,
        ),
        faithful(NodeView { reads: node.reads.with_reply(req_id, val, version), ..node }, cast),
        faithful(NodeView { reads: node.reads.without_reader(reader), ..node }, cast),
        faithful(node.with_next_version(), cast),
        faithful(node.with_observed(version), cast),
        faithful(node.after_late_put(entry, version), cast),
{
    let NodeView { members, reads, contents, clock, next_handle, .. } = node;
    let changed = seq![
        NodeView { members: members.with_all_dead(dead), ..node },
        NodeView { members: members.with_dead(rank), ..node },
        NodeView { members: members.with_done(rank), ..node },
        node.after_begin_read(key, req_id),
        NodeView { reads: reads.with_reply_to(reader, val, version), ..node },
        NodeView { reads: reads.with_reply(req_id, val, version), ..node },
        NodeView { reads: reads.without_reader(reader), ..node },
        node.with_next_version(),
        node.with_observed(version),
        node.after_late_put(entry, version),
    ];
    assert forall|i: int| 0 <= i < changed.len() implies faithful(#[trigger] changed[i], cast) by {
        let after = changed[i];
        law_other_steps_keep_faith(
            node,
            after.members,
            after.reads,
            after.contents,
            after.clock,
            after.next_handle,
            cast,
        );
    }
    assert(faithful(changed[0], cast));
    assert(faithful(changed[1], cast));
    assert(faithful(changed[2], cast));
    assert(faithful(changed[3], cast));
    assert(faithful(changed[4], cast));
    assert(faithful(changed[5], cast));
    assert(faithful(changed[6], cast));
    assert(faithful(changed[7], cast));
    assert(faithful(changed[8], cast));
    assert(faithful(changed[9], cast));
}

/// A node that has neither logged nor counted a vote is faithful to any.
pub proof fn law_new_node_is_faithful<V: Clone>(
    node: NodeView<V>,
    cast: Map<(u64, (Seq<char>, usize)), bool>,
)
    requires
        node.log == Map::<(u64, (Seq<char>, usize)), bool>::empty(),
        node.tasks == Map::<u64, model::TaskView<V>>::empty(),
    ensures
        faithful(node, cast),
{
}

/// What a node sends about votes is faithful: its ballots tell of the vote
/// that it casts, and as an acceptor it confirms the vote that it was told of.
pub proof fn law_sent_messages_are_faithful<V: Clone>(
    node: NodeView<V>,
    tx_id: u64,
    pairs: Seq<KVPair<u64, V>>,
    rm: (Seq<char>, usize),
    vote: bool,
    i: int,
    cast: Map<(u64, (Seq<char>, usize)), bool>,
)
    requires
        cast.contains_pair((tx_id, node.my_name()), node.own_vote(node.entries_for(pairs))),
        cast.contains_pair((tx_id, rm), vote),
    ensures
        0 <= i < node.ballots_on(tx_id, pairs).len() ==> message_faithful(
            node.ballots_on(tx_id, pairs)[i].1,
            cast,
        ),
        0 <= i < node.members.others().len() ==> message_faithful(
            messages::addressed::<V>(
                node.members.others(),
                PeerView::Accepted { tx_id, rm, vote },
            )[i].1,
            cast,
        ),
{
}

/// The ranks of a cluster of `n` nodes.
pub open spec fn ranks(n: nat) -> Set<usize> {
    Set::new(|r: usize| r < n)
}

proof fn lemma_ranks(n: nat)
    requires
        n <= usize::MAX,
    ensures
        ranks(n).finite(),
        ranks(n).len() == n,
    decreases n,
{
    if n > 0 {
        lemma_ranks((n - 1) as nat);
        assert(ranks(n) =~= ranks((n - 1) as nat).insert((n - 1) as usize));
    } else {
        assert(ranks(n) =~= Set::empty());
    }
}

/// Every participant determines the outcome of a transaction by itself, and
/// they agree: where two of them are faithful to the same votes, and one finds
/// a commit and the other an abort, the other has given up on a crashed RM
/// whose Prepared vote the first has learned. So among participants that take
/// every RM for alive, no two find opposite outcomes.
pub proof fn law_participants_agree<V: Clone>(
    first: NodeView<V>,
    first_task: u64,
    second: NodeView<V>,
    second_task: u64,
    cast: Map<(u64, (Seq<char>, usize)), bool>,
)
    requires
        first.valid(),
        second.valid(),
        first.members.nodes == second.members.nodes,
        first.replication_degree == second.replication_degree,
        first.tasks.contains_key(first_task),
        second.tasks.contains_key(second_task),
        first.tasks[first_task].tx_id == second.tasks[second_task].tx_id,
        first.tasks[first_task].key_replicas == second.tasks[second_task].key_replicas,
        faithful(first, cast),
        faithful(second, cast),
        first.outcome(first_task) == Some(true),
        second.outcome(second_task) == Some(false),
    ensures
        exists|rm: usize|
            #![trigger second.members.alive.contains(rm)]
            !second.members.alive.contains(rm) && commit::learned_prepared(
                first.tasks[first_task].votes,
                rm,
                first.acceptor_quorum(),
            ) && model::owns_some(rm, first.tasks[first_task].key_replicas),
{
    let n = first.members.len();
    let t1 = first.tasks[first_task];
    let t2 = second.tasks[second_task];
    let log = Map::new(
        |k: (usize, usize)|
            k.0 < n && cast.contains_key((t1.tx_id, first.members.nodes[k.0 as int])),
        |k: (usize, usize)| cast[(t1.tx_id, first.members.nodes[k.0 as int])],
    );
    assert(task_faithful(first, first_task, cast));
    assert(task_faithful(second, second_task, cast));
    assert(commit::votes_from_log(t1.votes, ranks(n), log));
    assert(commit::votes_from_log(t2.votes, ranks(n), log));
    lemma_ranks(n);
    commit::law_learners_agree(
        t1.key_replicas,
        ranks(n),
        log,
        first.quorum(),
        t1.votes,
        t2.votes,
        first.members.alive,
        second.members.alive,
    );
    let rm = choose|rm: usize| #[trigger]
        commit::given_up(t2.votes, rm, commit::majority(n), second.members.alive)
            && commit::learned_prepared(t1.votes, rm, commit::majority(n)) && exists|k: int|
            0 <= k < t1.key_replicas.len() && (#[trigger] t1.key_replicas[k]).contains(rm);
    assert(!second.members.alive.contains(rm));
}

/// Those of `replicas` whose Prepared vote a task has learned.
pub open spec fn prepared_rms(
    replicas: Seq<usize>,
    collected: Map<usize, (Set<usize>, Set<usize>)>,
    aq: nat,
) -> Set<usize> {
    Set::new(|r: usize| replicas.contains(r) && commit::learned_prepared(collected, r, aq))
}

/// They are as many as the commit rule counts, where no replica is listed twice.
pub proof fn lemma_prepared_rms(
    replicas: Seq<usize>,
    collected: Map<usize, (Set<usize>, Set<usize>)>,
    aq: nat,
    alive: Set<usize>,
)
    requires
        replicas.no_duplicates(),
    ensures
        prepared_rms(replicas, collected, aq).finite(),
        prepared_rms(replicas, collected, aq).len() == commit::prepared_count(
            replicas,
            collected,
            aq,
            alive,
        ),
    decreases replicas.len(),
{
    let all = prepared_rms(replicas, collected, aq);
    if replicas.len() == 0 {
        assert(all =~= Set::empty());
    } else {
        let rest = replicas.drop_last();
        let last = replicas.last();
        let before = prepared_rms(rest, collected, aq);
        lemma_prepared_rms(rest, collected, aq, alive);
        assert(replicas =~= rest.push(last));
        assert forall|r: usize| #[trigger] replicas.contains(r) <==> rest.contains(r) || r
            == last by {
            membership::lemma_push_contains(rest, last, r);
        }
        assert(!rest.contains(last)) by {
            if rest.contains(last) {
                let i = choose|i: int| 0 <= i < rest.len() && rest[i] == last;
                assert(replicas[i] == replicas[replicas.len() - 1]);
            }
        }
        if commit::learned_prepared(collected, last, aq) {
            assert(all =~= before.insert(last));
        } else {
            assert(all =~= before);
        }
    }
}

/// A commit rests on votes that were cast: where a faithful participant finds a
/// commit, of each key's replicas at least a quorum have voted Prepared.
pub proof fn law_commit_has_a_prepared_quorum<V: Clone>(
    node: NodeView<V>,
    task: u64,
    k: int,
    cast: Map<(u64, (Seq<char>, usize)), bool>,
)
    requires
        node.valid(),
        faithful(node, cast),
        node.tasks.contains_key(task),
        node.outcome(task) == Some(true),
        0 <= k < node.tasks[task].key_replicas.len(),
    ensures
        ({
            let t = node.tasks[task];
            let rms = prepared_rms(t.key_replicas[k], t.votes, node.acceptor_quorum());
            &&& rms.finite()
            &&& rms.len() >= node.quorum()
            &&& rms.subset_of(t.key_replicas[k].to_set())
            &&& forall|r: usize| #[trigger]
                rms.contains(r) ==> r < node.members.len() && cast.contains_pair(
                    (t.tx_id, node.members.nodes[r as int]),
                    true,
                )
        }),
{
    let t = node.tasks[task];
    let aq = node.acceptor_quorum();
    let rms = prepared_rms(t.key_replicas[k], t.votes, aq);
    commit::law_commit_iff_all_keys_prepared(
        t.key_replicas,
        t.votes,
        node.quorum(),
        aq,
        node.members.alive,
    );
    lemma_prepared_rms(t.key_replicas[k], t.votes, aq, node.members.alive);
    assert(task_faithful(node, task, cast));
    assert forall|r: usize| #[trigger] rms.contains(r) implies r < node.members.len()
        && cast.contains_pair((t.tx_id, node.members.nodes[r as int]), true) by {
        let confirmed = t.votes[r].0;
        assert(confirmed.len() >= 1);
        assert(confirmed.contains(confirmed.choose()));
    }
}

} // verus!
