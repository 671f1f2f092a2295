//! The commit rule of Paxos-Commit and the choice among quorum-read replies.

use std::collections::{HashMap, HashSet};
use std::hash::Hash;
use vstd::prelude::*;

verus! {

/// Acceptor quorum: majority of ALL nodes in the cluster.
/// With N acceptors, tolerates floor((N-1)/2) crashes.
pub fn acceptor_quorum(cluster_size: usize) -> (quorum: usize)
    ensures
        quorum == majority(cluster_size as nat),
{
    cluster_size / 2 + 1
}

/// Replica quorum: majority of a key's replicas.
/// With R replicas, need R/2+1 Prepared votes for a key's write to succeed.
pub fn replica_quorum(replication_degree: usize) -> (quorum: usize)
    ensures
        quorum == majority(replication_degree as nat),
{
    replication_degree / 2 + 1
}

/// The size of a strict majority of `n` voters.
pub open spec fn majority(n: nat) -> nat {
    n / 2 + 1
}

/// Status of an individual RM's vote as seen by a learner.
#[derive(Clone, Copy, Debug, PartialEq, Eq, Structural)]
pub enum VoteStatus {
    /// acceptor_quorum acceptors confirmed Prepared
    LearnedPrepared,
    /// acceptor_quorum acceptors confirmed Aborted
    LearnedAborted,
    /// RM is dead and insufficient acceptors to ever learn the vote
    Unlearnable,
    /// Not yet enough acceptors to learn, but still possible
    Pending,
}

/// What a table of collected Accepted messages says: for each RM, the set of
/// acceptors that confirmed Prepared and the set that confirmed Aborted.
pub open spec fn vote_sets<N>(rm_votes: Map<N, (HashSet<N>, HashSet<N>)>) -> Map<
    N,
    (Set<N>, Set<N>),
> {
    rm_votes.map_values(|sets: (HashSet<N>, HashSet<N>)| (sets.0@, sets.1@))
}

/// The replica lists of a transaction's keys, as sequences.
pub open spec fn replica_lists<N>(key_replicas: Seq<Vec<N>>) -> Seq<Seq<N>> {
    key_replicas.map_values(|replicas: Vec<N>| replicas@)
}

/// At least `aq` acceptors confirmed that `rm` voted Prepared.
pub open spec fn learned_prepared<N>(
    votes: Map<N, (Set<N>, Set<N>)>,
    rm: N,
    aq: nat,
) -> bool {
    votes.contains_key(rm) && votes[rm].0.len() >= aq
}

/// At least `aq` acceptors confirmed that `rm` voted Aborted.
pub open spec fn learned_aborted<N>(
    votes: Map<N, (Set<N>, Set<N>)>,
    rm: N,
    aq: nat,
) -> bool {
    votes.contains_key(rm) && votes[rm].1.len() >= aq
}

/// The status of `rm`'s vote. A learned Prepared vote takes precedence over a
/// learned Aborted one, and a learned vote over the RM's liveness.
pub open spec fn status_of<N>(
    votes: Map<N, (Set<N>, Set<N>)>,
    rm: N,
    aq: nat,
    alive: Set<N>,
) -> VoteStatus {
    if learned_prepared(votes, rm, aq) {
        VoteStatus::LearnedPrepared
    } else if learned_aborted(votes, rm, aq) {
        VoteStatus::LearnedAborted
    } else if !alive.contains(rm) {
        VoteStatus::Unlearnable
    } else {
        VoteStatus::Pending
    }
}

/// How many of `replicas` have a learned Prepared vote.
pub open spec fn prepared_count<N>(
    replicas: Seq<N>,
    votes: Map<N, (Set<N>, Set<N>)>,
    aq: nat,
    alive: Set<N>,
) -> nat
    decreases replicas.len(),
{
    if replicas.len() == 0 {
        0
    } else {
        let rest = prepared_count(replicas.drop_last(), votes, aq, alive);
        if status_of(votes, replicas.last(), aq, alive) is LearnedPrepared {
            rest + 1
        } else {
            rest
        }
    }
}

/// How many of `replicas` have a learned Prepared vote or may still get one.
pub open spec fn possible_count<N>(
    replicas: Seq<N>,
    votes: Map<N, (Set<N>, Set<N>)>,
    aq: nat,
    alive: Set<N>,
) -> nat
    decreases replicas.len(),
{
    if replicas.len() == 0 {
        0
    } else {
        let rest = possible_count(replicas.drop_last(), votes, aq, alive);
        match status_of(votes, replicas.last(), aq, alive) {
            VoteStatus::LearnedPrepared | VoteStatus::Pending => rest + 1,
            VoteStatus::LearnedAborted | VoteStatus::Unlearnable => rest,
        }
    }
}

/// Every key has at least `rq` replicas with a learned Prepared vote.
pub open spec fn all_keys_prepared<N>(
    key_replicas: Seq<Seq<N>>,
    votes: Map<N, (Set<N>, Set<N>)>,
    rq: nat,
    aq: nat,
    alive: Set<N>,
) -> bool {
    forall|k: int|
        0 <= k < key_replicas.len() ==> prepared_count(#[trigger] key_replicas[k], votes, aq, alive)
            >= rq
}

/// Some key can no longer reach `rq` learned Prepared votes.
pub open spec fn some_key_lost<N>(
    key_replicas: Seq<Seq<N>>,
    votes: Map<N, (Set<N>, Set<N>)>,
    rq: nat,
    aq: nat,
    alive: Set<N>,
) -> bool {
    exists|k: int|
        0 <= k < key_replicas.len() && possible_count(#[trigger] key_replicas[k], votes, aq, alive)
            < rq
}

/// The outcome of a transaction as far as the collected votes determine it.
pub open spec fn commit_rule<N>(
    key_replicas: Seq<Seq<N>>,
    votes: Map<N, (Set<N>, Set<N>)>,
    rq: nat,
    aq: nat,
    alive: Set<N>,
) -> Option<bool> {
    if some_key_lost(key_replicas, votes, rq, aq, alive) {
        Some(false)
    } else if all_keys_prepared(key_replicas, votes, rq, aq, alive) {
        Some(true)
    } else {
        None
    }
}

/// Classify an RM's vote based on collected Accepted messages.
pub fn classify_rm_vote<N: Eq + Hash>(
    rm_votes: &HashMap<N, (HashSet<N>, HashSet<N>)>,
    rm: &N,
    aq: usize,
    alive_nodes: &HashSet<N>,
) -> (status: VoteStatus)
    requires
        vstd::std_specs::hash::obeys_key_model::<N>(),
    ensures
        status == status_of(vote_sets(rm_votes@), *rm, aq as nat, alive_nodes@),
{
    match rm_votes.get(rm) {
        Some((prepared, aborted)) => {
            if prepared.len() >= aq {
                VoteStatus::LearnedPrepared
            } else if aborted.len() >= aq {
                VoteStatus::LearnedAborted
            } else if !alive_nodes.contains(rm) {
                VoteStatus::Unlearnable
            } else {
                VoteStatus::Pending
            }
        },
        None => {
            if !alive_nodes.contains(rm) {
                VoteStatus::Unlearnable
            } else {
                VoteStatus::Pending
            }
        },
    }
}

/// Evaluate the Paxos-Commit commit rule for a transaction.
///
/// For each key in the transaction, checks whether a quorum of its replicas
/// voted Prepared (learned via acceptor quorum of Accepted messages).
///
/// Returns:
/// - `Some(true)` — committed: every key has `rq` replicas with learned Prepared votes
/// - `Some(false)` — aborted: some key can never reach `rq` Prepared votes
/// - `None` — not yet determined: waiting for more Accepted messages
///
/// Dead RMs with insufficient Accepted messages are treated as Aborted (safe:
/// an unlearned vote was never "chosen" in the Paxos sense).
pub fn evaluate_commit_rule<N: Eq + Hash + Clone>(
    key_replicas: &[Vec<N>],
    rm_votes: &HashMap<N, (HashSet<N>, HashSet<N>)>,
    rq: usize,
    aq: usize,
    alive_nodes: &HashSet<N>,
) -> (outcome: Option<bool>)
    requires
        vstd::std_specs::hash::obeys_key_model::<N>(),
    ensures
        outcome == commit_rule(
            replica_lists(key_replicas@),
            vote_sets(rm_votes@),
            rq as nat,
            aq as nat,
            alive_nodes@,
        ),
{
    let ghost lists = replica_lists(key_replicas@);
    let ghost votes = vote_sets(rm_votes@);
    let ghost alive = alive_nodes@;
    let mut any_pending = false;
    let mut k: usize = 0;
    while k < key_replicas.len()
        invariant
            vstd::std_specs::hash::obeys_key_model::<N>(),
            k <= key_replicas@.len(),
            lists == replica_lists(key_replicas@),
            votes == vote_sets(rm_votes@),
            alive == alive_nodes@,
            forall|j: int|
                0 <= j < k ==> possible_count(#[trigger] lists[j], votes, aq as nat, alive) >= rq,
            any_pending <==> exists|j: int|
                0 <= j < k && prepared_count(#[trigger] lists[j], votes, aq as nat, alive) < rq,
        decreases key_replicas@.len() - k,
    {
        let replicas = &key_replicas[k];
        let mut prepared_count: usize = 0;
        let mut max_possible_prepared: usize = 0;
        let mut i: usize = 0;
        while i < replicas.len()
            invariant
                vstd::std_specs::hash::obeys_key_model::<N>(),
                i <= replicas@.len(),
                votes == vote_sets(rm_votes@),
                alive == alive_nodes@,
                prepared_count <= max_possible_prepared <= i,
                prepared_count == self::prepared_count(
                    replicas@.take(i as int),
                    votes,
                    aq as nat,
                    alive,
                ),
                max_possible_prepared == possible_count(
                    replicas@.take(i as int),
                    votes,
                    aq as nat,
                    alive,
                ),
            decreases replicas@.len() - i,
        {
            proof {
                assert(replicas@.take(i + 1).drop_last() =~= replicas@.take(i as int));
                assert(replicas@.take(i + 1).last() == replicas@[i as int]);
            }
            match classify_rm_vote(rm_votes, &replicas[i], aq, alive_nodes) {
                VoteStatus::LearnedPrepared => {
                    prepared_count += 1;
                    max_possible_prepared += 1;
                },
                VoteStatus::LearnedAborted | VoteStatus::Unlearnable => {},
                VoteStatus::Pending => {
                    max_possible_prepared += 1;
                },
            }
            i += 1;
        }
        assert(replicas@.take(i as int) =~= lists[k as int]);
        if prepared_count < rq {
            if max_possible_prepared < rq {
                return Some(false);
            }
            any_pending = true;
        }
        k += 1;
    }
    if any_pending {
        None
    } else {
        Some(true)
    }
}

/// Reply `i` holds a value, no reply with a value has a higher version, and
/// every later reply with a value has a lower one.
pub open spec fn is_best_reply<V>(responses: Seq<(Option<V>, u64)>, i: int) -> bool {
    &&& 0 <= i < responses.len()
    &&& responses[i].0 is Some
    &&& forall|j: int|
        0 <= j < responses.len() && (#[trigger] responses[j]).0 is Some ==> responses[j].1
            <= responses[i].1 && (j > i ==> responses[j].1 < responses[i].1)
}

/// `best` is a clone of the value of the best reply, or nothing if no reply
/// holds a value.
pub open spec fn is_best_read<V: Clone>(responses: Seq<(Option<V>, u64)>, best: Option<V>) -> bool {
    match best {
        Some(value) => exists|i: int| #[trigger]
            is_best_reply(responses, i) && cloned(responses[i].0->0, value),
        None => forall|i: int| 0 <= i < responses.len() ==> (#[trigger] responses[i]).0 is None,
    }
}

/// Pick the highest-versioned value from quorum read responses.
///
/// Filters out `None` responses (replicas that don't have the key),
/// then selects the value with the highest version number; among equal
/// versions the last response wins.
pub fn select_best_read<V: Clone>(responses: &[(Option<V>, u64)]) -> (best: Option<V>)
    ensures
        is_best_read(responses@, best),
{
    let mut best: Option<usize> = None;
    let mut i: usize = 0;
    while i < responses.len()
        invariant
            i <= responses@.len(),
            match best {
                Some(b) => b < i && is_best_reply(responses@.take(i as int), b as int),
                None => forall|j: int| 0 <= j < i ==> (#[trigger] responses@[j]).0 is None,
            },
        decreases responses@.len() - i,
    {
        let ghost seen = responses@.take(i as int);
        let ghost next = responses@.take(i + 1);
        assert(forall|j: int| 0 <= j < i ==> next[j] == seen[j]);
        assert(next[i as int] == responses@[i as int]);
        if responses[i].0.is_some() {
            match best {
                Some(b) => {
                    assert(seen[b as int] == responses@[b as int]);
                    if responses[i].1 >= responses[b].1 {
                        best = Some(i);
                    }
                },
                None => {
                    best = Some(i);
                },
            }
        }
        proof {
            if let Some(b) = best {
                assert(is_best_reply(next, b as int));
            }
        }
        i += 1;
    }
    assert(responses@.take(i as int) =~= responses@);
    match best {
        Some(b) => match &responses[b].0 {
            Some(value) => {
                let copy = value.clone();
                assert(is_best_reply(responses@, b as int) && cloned(
                    responses@[b as int].0->0,
                    copy,
                ));
                Some(copy)
            },
            None => None,
        },
        None => None,
    }
}

/// A cluster of `n` nodes keeps an acceptor quorum while at most
/// floor((n-1)/2) of them have crashed, and loses it with one crash more.
pub proof fn law_quorum_tolerates_minority_crashes(n: nat, crashed: nat)
    requires
        0 < n,
        crashed <= n,
    ensures
        n - crashed >= majority(n) <==> crashed <= (n - 1) / 2,
{
}

/// Any two quorums among the same voters have a voter in common.
pub proof fn law_quorums_intersect<N>(voters: Set<N>, a: Set<N>, b: Set<N>)
    requires
        voters.finite(),
        a.subset_of(voters),
        b.subset_of(voters),
        a.len() >= majority(voters.len()),
        b.len() >= majority(voters.len()),
    ensures
        exists|x: N| #[trigger] a.contains(x) && b.contains(x),
{
    vstd::set_lib::lemma_len_subset(a, voters);
    vstd::set_lib::lemma_len_subset(b, voters);
    if forall|x: N| #[trigger] a.contains(x) ==> !b.contains(x) {
        assert(a.disjoint(b));
        vstd::set_lib::lemma_set_disjoint_lens(a, b);
        assert(a.union(b).subset_of(voters));
        vstd::set_lib::lemma_len_subset(a.union(b), voters);
    }
}

/// The acceptors that `votes` names are cluster members, and each of them
/// confirmed what its acceptor log holds: one vote per RM.
pub open spec fn votes_from_log<N>(
    votes: Map<N, (Set<N>, Set<N>)>,
    members: Set<N>,
    log: Map<(N, N), bool>,
) -> bool {
    &&& forall|rm: N, a: N|
        votes.contains_key(rm) && #[trigger] votes[rm].0.contains(a) ==> members.contains(a)
            && log.contains_pair((rm, a), true)
    &&& forall|rm: N, a: N|
        votes.contains_key(rm) && #[trigger] votes[rm].1.contains(a) ==> members.contains(a)
            && log.contains_pair((rm, a), false)
}

/// Every confirmation in `earlier` is also in `later`.
pub open spec fn votes_grow<N>(
    earlier: Map<N, (Set<N>, Set<N>)>,
    later: Map<N, (Set<N>, Set<N>)>,
) -> bool {
    forall|rm: N| #[trigger]
        earlier.contains_key(rm) ==> {
            &&& later.contains_key(rm)
            &&& later[rm].0.finite()
            &&& later[rm].1.finite()
            &&& earlier[rm].0.subset_of(later[rm].0)
            &&& earlier[rm].1.subset_of(later[rm].1)
        }
}

/// Two learners never learn opposite votes of the same RM.
pub proof fn law_learned_votes_agree<N>(
    members: Set<N>,
    log: Map<(N, N), bool>,
    first: Map<N, (Set<N>, Set<N>)>,
    second: Map<N, (Set<N>, Set<N>)>,
    rm: N,
)
    requires
        members.finite(),
        votes_from_log(first, members, log),
        votes_from_log(second, members, log),
    ensures
        !(learned_prepared(first, rm, majority(members.len())) && learned_aborted(
            second,
            rm,
            majority(members.len()),
        )),
{
    let aq = majority(members.len());
    if learned_prepared(first, rm, aq) && learned_aborted(second, rm, aq) {
        assert(first[rm].0.subset_of(members));
        assert(second[rm].1.subset_of(members));
        law_quorums_intersect(members, first[rm].0, second[rm].1);
        let a = choose|a: N| #[trigger] first[rm].0.contains(a) && second[rm].1.contains(a);
        assert(log.contains_pair((rm, a), true));
        assert(log.contains_pair((rm, a), false));
    }
}

/// A key's learned Prepared votes are among its possible ones.
pub proof fn lemma_prepared_is_possible<N>(
    replicas: Seq<N>,
    votes: Map<N, (Set<N>, Set<N>)>,
    aq: nat,
    alive: Set<N>,
)
    ensures
        prepared_count(replicas, votes, aq, alive) <= possible_count(replicas, votes, aq, alive)
            <= replicas.len(),
    decreases replicas.len(),
{
    if replicas.len() > 0 {
        lemma_prepared_is_possible(replicas.drop_last(), votes, aq, alive);
    }
}

/// The commit rule answers Some(true) exactly when every key is prepared.
pub proof fn law_commit_iff_all_keys_prepared<N>(
    key_replicas: Seq<Seq<N>>,
    votes: Map<N, (Set<N>, Set<N>)>,
    rq: nat,
    aq: nat,
    alive: Set<N>,
)
    ensures
        commit_rule(key_replicas, votes, rq, aq, alive) == Some(true) <==> all_keys_prepared(
            key_replicas,
            votes,
            rq,
            aq,
            alive,
        ),
{
    assert forall|k: int| 0 <= k < key_replicas.len() implies prepared_count(
        #[trigger] key_replicas[k],
        votes,
        aq,
        alive,
    ) <= possible_count(key_replicas[k], votes, aq, alive) by {
        lemma_prepared_is_possible(key_replicas[k], votes, aq, alive);
    }
}

proof fn lemma_prepared_count_grows<N>(
    replicas: Seq<N>,
    earlier: Map<N, (Set<N>, Set<N>)>,
    later: Map<N, (Set<N>, Set<N>)>,
    aq: nat,
    alive_before: Set<N>,
    alive_after: Set<N>,
)
    requires
        votes_grow(earlier, later),
    ensures
        prepared_count(replicas, earlier, aq, alive_before) <= prepared_count(
            replicas,
            later,
            aq,
            alive_after,
        ),
    decreases replicas.len(),
{
    if replicas.len() > 0 {
        let rm = replicas.last();
        lemma_prepared_count_grows(
            replicas.drop_last(),
            earlier,
            later,
            aq,
            alive_before,
            alive_after,
        );
        if learned_prepared(earlier, rm, aq) {
            vstd::set_lib::lemma_len_subset(earlier[rm].0, later[rm].0);
        }
    }
}

/// A commit is final: once the votes say Some(true), more Accepted messages
/// and any change in which nodes are alive leave it at Some(true).
pub proof fn law_commit_is_final<N>(
    key_replicas: Seq<Seq<N>>,
    earlier: Map<N, (Set<N>, Set<N>)>,
    later: Map<N, (Set<N>, Set<N>)>,
    rq: nat,
    aq: nat,
    alive_before: Set<N>,
    alive_after: Set<N>,
)
    requires
        votes_grow(earlier, later),
        commit_rule(key_replicas, earlier, rq, aq, alive_before) == Some(true),
    ensures
        commit_rule(key_replicas, later, rq, aq, alive_after) == Some(true),
{
    law_commit_iff_all_keys_prepared(key_replicas, earlier, rq, aq, alive_before);
    law_commit_iff_all_keys_prepared(key_replicas, later, rq, aq, alive_after);
    assert forall|k: int| 0 <= k < key_replicas.len() implies prepared_count(
        #[trigger] key_replicas[k],
        later,
        aq,
        alive_after,
    ) >= rq by {
        lemma_prepared_count_grows(
            key_replicas[k],
            earlier,
            later,
            aq,
            alive_before,
            alive_after,
        );
    }
}

/// `rm` is given up for dead under `votes` and `alive`.
pub open spec fn given_up<N>(
    votes: Map<N, (Set<N>, Set<N>)>,
    rm: N,
    aq: nat,
    alive: Set<N>,
) -> bool {
    status_of(votes, rm, aq, alive) is Unlearnable
}

proof fn lemma_possible_covers_prepared<N>(
    replicas: Seq<N>,
    members: Set<N>,
    log: Map<(N, N), bool>,
    first: Map<N, (Set<N>, Set<N>)>,
    second: Map<N, (Set<N>, Set<N>)>,
    first_alive: Set<N>,
    second_alive: Set<N>,
)
    requires
        members.finite(),
        votes_from_log(first, members, log),
        votes_from_log(second, members, log),
        forall|rm: N|
            replicas.contains(rm) && #[trigger] given_up(
                second,
                rm,
                majority(members.len()),
                second_alive,
            ) ==> !learned_prepared(first, rm, majority(members.len())),
    ensures
        prepared_count(replicas, first, majority(members.len()), first_alive) <= possible_count(
            replicas,
            second,
            majority(members.len()),
            second_alive,
        ),
    decreases replicas.len(),
{
    if replicas.len() > 0 {
        let rest = replicas.drop_last();
        let rm = replicas.last();
        let aq = majority(members.len());
        assert(forall|x: N| rest.contains(x) ==> replicas.contains(x));
        assert(replicas.contains(rm));
        lemma_possible_covers_prepared(
            rest,
            members,
            log,
            first,
            second,
            first_alive,
            second_alive,
        );
        law_learned_votes_agree(members, log, first, second, rm);
        assert(given_up(second, rm, aq, second_alive) ==> !learned_prepared(first, rm, aq));
    }
}

/// Every participant determines the outcome by itself, and they agree: where
/// one learner commits and another aborts, the aborting one has given up for
/// dead an RM whose Prepared vote the committing one has learned.
pub proof fn law_learners_agree<N>(
    key_replicas: Seq<Seq<N>>,
    members: Set<N>,
    log: Map<(N, N), bool>,
    rq: nat,
    first: Map<N, (Set<N>, Set<N>)>,
    second: Map<N, (Set<N>, Set<N>)>,
    first_alive: Set<N>,
    second_alive: Set<N>,
)
    requires
        members.finite(),
        votes_from_log(first, members, log),
        votes_from_log(second, members, log),
        commit_rule(key_replicas, first, rq, majority(members.len()), first_alive) == Some(true),
        commit_rule(key_replicas, second, rq, majority(members.len()), second_alive) == Some(false),
    ensures
        exists|rm: N| #[trigger]
            given_up(second, rm, majority(members.len()), second_alive) && learned_prepared(
                first,
                rm,
                majority(members.len()),
            ) && exists|k: int|
                0 <= k < key_replicas.len() && (#[trigger] key_replicas[k]).contains(rm),
{
    let aq = majority(members.len());
    law_commit_iff_all_keys_prepared(key_replicas, first, rq, aq, first_alive);
    let k = choose|k: int|
        0 <= k < key_replicas.len() && possible_count(
            #[trigger] key_replicas[k],
            second,
            aq,
            second_alive,
        ) < rq;
    if forall|rm: N|
        key_replicas[k].contains(rm) && #[trigger] given_up(second, rm, aq, second_alive)
            ==> !learned_prepared(first, rm, aq) {
        lemma_possible_covers_prepared(
            key_replicas[k],
            members,
            log,
            first,
            second,
            first_alive,
            second_alive,
        );
        assert(prepared_count(key_replicas[k], first, aq, first_alive) >= rq);
    } else {
        let rm = choose|rm: N|
            key_replicas[k].contains(rm) && #[trigger] given_up(second, rm, aq, second_alive)
                && learned_prepared(first, rm, aq);
        assert(given_up(second, rm, aq, second_alive));
    }
}

proof fn lemma_possible_count_shrinks<N>(
    replicas: Seq<N>,
    members: Set<N>,
    log: Map<(N, N), bool>,
    earlier: Map<N, (Set<N>, Set<N>)>,
    later: Map<N, (Set<N>, Set<N>)>,
    alive_before: Set<N>,
    alive_after: Set<N>,
)
    requires
        members.finite(),
        votes_from_log(later, members, log),
        votes_grow(earlier, later),
        alive_after.subset_of(alive_before),
        forall|rm: N|
            replicas.contains(rm) && #[trigger] given_up(
                earlier,
                rm,
                majority(members.len()),
                alive_before,
            ) ==> !learned_prepared(later, rm, majority(members.len())),
    ensures
        possible_count(replicas, later, majority(members.len()), alive_after) <= possible_count(
            replicas,
            earlier,
            majority(members.len()),
            alive_before,
        ),
    decreases replicas.len(),
{
    if replicas.len() > 0 {
        let rest = replicas.drop_last();
        let rm = replicas.last();
        let aq = majority(members.len());
        assert(forall|x: N| rest.contains(x) ==> replicas.contains(x));
        assert(replicas.contains(rm));
        lemma_possible_count_shrinks(
            rest,
            members,
            log,
            earlier,
            later,
            alive_before,
            alive_after,
        );
        law_learned_votes_agree(members, log, later, later, rm);
        if learned_aborted(earlier, rm, aq) {
            vstd::set_lib::lemma_len_subset(earlier[rm].1, later[rm].1);
        }
        if learned_prepared(earlier, rm, aq) {
            vstd::set_lib::lemma_len_subset(earlier[rm].0, later[rm].0);
        }
        assert(given_up(earlier, rm, aq, alive_before) ==> !learned_prepared(later, rm, aq));
    }
}

/// An abort is final too, as nodes die and Accepted messages arrive, unless
/// the Prepared vote of an RM that was given up for dead is learned after all.
pub proof fn law_abort_is_final<N>(
    key_replicas: Seq<Seq<N>>,
    members: Set<N>,
    log: Map<(N, N), bool>,
    rq: nat,
    earlier: Map<N, (Set<N>, Set<N>)>,
    later: Map<N, (Set<N>, Set<N>)>,
    alive_before: Set<N>,
    alive_after: Set<N>,
)
    requires
        members.finite(),
        votes_from_log(later, members, log),
        votes_grow(earlier, later),
        alive_after.subset_of(alive_before),
        commit_rule(key_replicas, earlier, rq, majority(members.len()), alive_before) == Some(
            false,
        ),
    ensures
        commit_rule(key_replicas, later, rq, majority(members.len()), alive_after) == Some(false)
            || exists|rm: N| #[trigger]
            given_up(earlier, rm, majority(members.len()), alive_before) && learned_prepared(
                later,
                rm,
                majority(members.len()),
            ),
{
    let aq = majority(members.len());
    let k = choose|k: int|
        0 <= k < key_replicas.len() && possible_count(
            #[trigger] key_replicas[k],
            earlier,
            aq,
            alive_before,
        ) < rq;
    if forall|rm: N|
        key_replicas[k].contains(rm) && #[trigger] given_up(earlier, rm, aq, alive_before)
            ==> !learned_prepared(later, rm, aq) {
        lemma_possible_count_shrinks(
            key_replicas[k],
            members,
            log,
            earlier,
            later,
            alive_before,
            alive_after,
        );
        assert(possible_count(key_replicas[k], later, aq, alive_after) < rq);
    }
}

/// Among replies of which one holds a value there is a best one, and only one.
pub proof fn law_best_reply_is_unique<V>(responses: Seq<(Option<V>, u64)>, some: int)
    requires
        0 <= some < responses.len(),
        responses[some].0 is Some,
    ensures
        exists|i: int| #[trigger] is_best_reply(responses, i),
        forall|i: int, j: int| #[trigger]
            is_best_reply(responses, i) && #[trigger] is_best_reply(responses, j) ==> i == j,
    decreases responses.len(),
{
    let rest = responses.drop_last();
    let last = responses.len() - 1;
    assert(forall|j: int| 0 <= j < last ==> rest[j] == responses[j]);
    if some < last {
        law_best_reply_is_unique(rest, some);
        let b = choose|b: int| #[trigger] is_best_reply(rest, b);
        assert(rest[b] == responses[b]);
        if responses[last].0 is Some && responses[last].1 >= responses[b].1 {
            assert forall|j: int|
                0 <= j < responses.len() && (#[trigger] responses[j]).0 is Some implies responses[j].1
                <= responses[last].1 by {
                if j < last {
                    assert(rest[j] == responses[j]);
                }
            }
            assert(is_best_reply(responses, last));
        } else {
            assert forall|j: int|
                0 <= j < responses.len() && (#[trigger] responses[j]).0 is Some implies responses[j].1
                <= responses[b].1 && (j > b ==> responses[j].1 < responses[b].1) by {
                if j < last {
                    assert(rest[j] == responses[j]);
                }
            }
            assert(is_best_reply(responses, b));
        }
    } else if exists|j: int| 0 <= j < last && (#[trigger] rest[j]).0 is Some && rest[j].1
        > responses[last].1 {
        let j = choose|j: int|
            0 <= j < last && (#[trigger] rest[j]).0 is Some && rest[j].1 > responses[last].1;
        law_best_reply_is_unique(rest, j);
        let b = choose|b: int| #[trigger] is_best_reply(rest, b);
        assert(rest[b] == responses[b]);
        assert forall|j: int|
            0 <= j < responses.len() && (#[trigger] responses[j]).0 is Some implies responses[j].1
            <= responses[b].1 && (j > b ==> responses[j].1 < responses[b].1) by {
            if j < last {
                assert(rest[j] == responses[j]);
            }
        }
        assert(is_best_reply(responses, b));
    } else {
        assert forall|j: int|
            0 <= j < responses.len() && (#[trigger] responses[j]).0 is Some implies responses[j].1
            <= responses[last].1 by {
            if j < last {
                assert(rest[j] == responses[j]);
            }
        }
        assert(is_best_reply(responses, last));
    }
}

/// A quorum read sees a quorum write. Where a majority of a key's replicas
/// store version `version` or a later one, and a majority of them replies,
/// the best reply has version `version` or a later one. It holds the written
/// value if no reply of that version or a later one holds another.
pub proof fn law_quorum_read_sees_quorum_write<N, V>(
    replicas: Set<N>,
    writers: Set<N>,
    readers: Seq<N>,
    responses: Seq<(Option<V>, u64)>,
    version: u64,
    value: V,
)
    requires
        replicas.finite(),
        writers.subset_of(replicas),
        writers.len() >= majority(replicas.len()),
        readers.no_duplicates(),
        readers.to_set().subset_of(replicas),
        readers.len() >= majority(replicas.len()),
        responses.len() == readers.len(),
        forall|i: int|
            0 <= i < readers.len() && writers.contains(#[trigger] readers[i])
                ==> responses[i].0 is Some && responses[i].1 >= version,
    ensures
        exists|i: int| #[trigger] is_best_reply(responses, i),
        forall|i: int| #[trigger]
            is_best_reply(responses, i) ==> {
                &&& responses[i].1 >= version
                &&& (forall|j: int|
                    0 <= j < responses.len() && (#[trigger] responses[j]).0 is Some
                        && responses[j].1 >= version ==> responses[j].0 == Some(value))
                    ==> responses[i].0 == Some(value)
            },
{
    readers.unique_seq_to_set();
    law_quorums_intersect(replicas, writers, readers.to_set());
    let x = choose|x: N| #[trigger] writers.contains(x) && readers.to_set().contains(x);
    assert(readers.contains(x));
    let i = choose|i: int| 0 <= i < readers.len() && readers[i] == x;
    assert(writers.contains(readers[i]));
    law_best_reply_is_unique(responses, i);
}

/// A strict majority is more than half, and the least number that is.
pub proof fn law_majority_is_least(n: nat)
    ensures
        2 * majority(n) > n,
        2 * (majority(n) - 1) <= n,
{
}

/// The positions in a list of replicas whose RM's Prepared vote at least `aq`
/// acceptors have confirmed.
pub open spec fn prepared_positions<N>(
    replicas: Seq<N>,
    votes: Map<N, (Set<N>, Set<N>)>,
    aq: nat,
) -> Set<int> {
    Set::new(
        |i: int|
            0 <= i < replicas.len() && votes.contains_key(replicas[i]) && votes[replicas[i]].0.len()
                >= aq,
    )
}

/// Those positions, and the ones of RMs that are alive and whose Aborted vote
/// fewer than `aq` acceptors have confirmed.
pub open spec fn possible_positions<N>(
    replicas: Seq<N>,
    votes: Map<N, (Set<N>, Set<N>)>,
    aq: nat,
    alive: Set<N>,
) -> Set<int> {
    Set::new(
        |i: int|
            0 <= i < replicas.len() && (prepared_positions(replicas, votes, aq).contains(i) || (
            alive.contains(replicas[i]) && !(votes.contains_key(replicas[i])
                && votes[replicas[i]].1.len() >= aq))),
    )
}

proof fn lemma_counts_are_positions<N>(
    replicas: Seq<N>,
    votes: Map<N, (Set<N>, Set<N>)>,
    aq: nat,
    alive: Set<N>,
)
    ensures
        prepared_positions(replicas, votes, aq).finite(),
        prepared_positions(replicas, votes, aq).len() == prepared_count(replicas, votes, aq, alive),
        possible_positions(replicas, votes, aq, alive).finite(),
        possible_positions(replicas, votes, aq, alive).len() == possible_count(
            replicas,
            votes,
            aq,
            alive,
        ),
    decreases replicas.len(),
{
    let prepared = prepared_positions(replicas, votes, aq);
    let possible = possible_positions(replicas, votes, aq, alive);
    if replicas.len() == 0 {
        assert(prepared =~= Set::empty());
        assert(possible =~= Set::empty());
    } else {
        let rest = replicas.drop_last();
        let last = replicas.len() - 1;
        lemma_counts_are_positions(rest, votes, aq, alive);
        let rest_prepared = prepared_positions(rest, votes, aq);
        let rest_possible = possible_positions(rest, votes, aq, alive);
        assert(forall|i: int| 0 <= i < last ==> rest[i] == replicas[i]);
        if prepared.contains(last) {
            assert(prepared =~= rest_prepared.insert(last));
        } else {
            assert(prepared =~= rest_prepared);
        }
        assert forall|i: int| 0 <= i < last implies (possible.contains(i)
            <==> rest_possible.contains(i)) by {
            assert(prepared.contains(i) <==> rest_prepared.contains(i));
        }
        if possible.contains(last) {
            assert(possible =~= rest_possible.insert(last));
        } else {
            assert(possible =~= rest_possible);
        }
    }
}

/// The commit rule in numbers. A transaction is committed exactly where each of
/// its keys has at least `rq` replicas whose Prepared vote at least `aq`
/// acceptors have confirmed; it is aborted exactly where some key has fewer than
/// `rq` replicas of which that is true or may become true, for which an RM has
/// to be alive and its Aborted vote not confirmed by `aq` acceptors.
pub proof fn law_commit_rule_in_numbers<N>(
    key_replicas: Seq<Seq<N>>,
    votes: Map<N, (Set<N>, Set<N>)>,
    rq: nat,
    aq: nat,
    alive: Set<N>,
)
    ensures
        commit_rule(key_replicas, votes, rq, aq, alive) == Some(true) <==> forall|k: int|
            0 <= k < key_replicas.len() ==> prepared_positions(
                #[trigger] key_replicas[k],
                votes,
                aq,
            ).len() >= rq,
        commit_rule(key_replicas, votes, rq, aq, alive) == Some(false) <==> exists|k: int|
            0 <= k < key_replicas.len() && possible_positions(
                #[trigger] key_replicas[k],
                votes,
                aq,
                alive,
            ).len() < rq,
{
    assert forall|k: int| 0 <= k < key_replicas.len() implies prepared_positions(
        #[trigger] key_replicas[k],
        votes,
        aq,
    ).len() == prepared_count(key_replicas[k], votes, aq, alive) && possible_positions(
        key_replicas[k],
        votes,
        aq,
        alive,
    ).len() == possible_count(key_replicas[k], votes, aq, alive) by {
        lemma_counts_are_positions(key_replicas[k], votes, aq, alive);
    }
    law_commit_iff_all_keys_prepared(key_replicas, votes, rq, aq, alive);
}

/// Which positions count, told of one position.
pub proof fn law_positions<N>(
    replicas: Seq<N>,
    votes: Map<N, (Set<N>, Set<N>)>,
    aq: nat,
    alive: Set<N>,
    i: int,
)
    requires
        0 <= i < replicas.len(),
    ensures
        prepared_positions(replicas, votes, aq).contains(i) <==> votes.contains_key(replicas[i])
            && votes[replicas[i]].0.len() >= aq,
        possible_positions(replicas, votes, aq, alive).contains(i) <==> (votes.contains_key(
            replicas[i],
        ) && votes[replicas[i]].0.len() >= aq) || (alive.contains(replicas[i]) && !(
        votes.contains_key(replicas[i]) && votes[replicas[i]].1.len() >= aq)),
{
}

/// The status of an RM's vote: Prepared once `aq` acceptors have confirmed that,
/// else Aborted once `aq` have confirmed that, else open while the RM is alive,
/// else never to be learned.
pub proof fn law_status_of_a_vote<N>(
    votes: Map<N, (Set<N>, Set<N>)>,
    rm: N,
    aq: nat,
    alive: Set<N>,
)
    ensures
        ({
            let prepared = votes.contains_key(rm) && votes[rm].0.len() >= aq;
            let aborted = votes.contains_key(rm) && votes[rm].1.len() >= aq;
            let status = status_of(votes, rm, aq, alive);
            &&& status == VoteStatus::LearnedPrepared <==> prepared
            &&& status == VoteStatus::LearnedAborted <==> !prepared && aborted
            &&& status == VoteStatus::Pending <==> !prepared && !aborted && alive.contains(rm)
            &&& status == VoteStatus::Unlearnable <==> !prepared && !aborted && !alive.contains(rm)
            &&& learned_prepared(votes, rm, aq) <==> prepared
            &&& learned_aborted(votes, rm, aq) <==> aborted
        }),
{
}

/// The best read: nothing exactly where no reply holds a value; else a clone of
/// the value of a reply such that no other reply with a value has a higher
/// version, nor a later one the same.
pub proof fn law_best_read_is_newest<V: Clone>(
    responses: Seq<(Option<V>, u64)>,
    best: Option<V>,
)
    requires
        is_best_read(responses, best),
    ensures
        best is None <==> forall|j: int|
            0 <= j < responses.len() ==> (#[trigger] responses[j]).0 is None,
        best is Some ==> exists|i: int|
            0 <= i < responses.len() && (#[trigger] responses[i]).0 is Some && cloned(
                responses[i].0->0,
                best->0,
            ) && (forall|j: int|
                0 <= j < responses.len() && (#[trigger] responses[j]).0 is Some ==> responses[j].1
                    <= responses[i].1) && (forall|j: int|
                i < j < responses.len() && (#[trigger] responses[j]).0 is Some ==> responses[j].1
                    < responses[i].1),
{
    if best is Some {
        let i = choose|i: int| #[trigger]
            is_best_reply(responses, i) && cloned(responses[i].0->0, best->0);
        assert(responses[i].0 is Some);
    }
}

/// A table of confirmations as sets, and lists of replicas as sequences.
pub proof fn law_tables_are_read_as_sets<N>(
    rm_votes: Map<N, (HashSet<N>, HashSet<N>)>,
    key_replicas: Seq<Vec<N>>,
    rm: N,
    k: int,
)
    ensures
        vote_sets(rm_votes).contains_key(rm) <==> rm_votes.contains_key(rm),
        rm_votes.contains_key(rm) ==> vote_sets(rm_votes)[rm] == (
            rm_votes[rm].0@,
            rm_votes[rm].1@,
        ),
        replica_lists(key_replicas).len() == key_replicas.len(),
        0 <= k < key_replicas.len() ==> replica_lists(key_replicas)[k] == key_replicas[k]@,
{
}

} // verus!
