use dht::commit::{
    acceptor_quorum, classify_rm_vote, evaluate_commit_rule, replica_quorum, select_best_read,
    VoteStatus,
};
use std::collections::{HashMap, HashSet};

#[test]
fn test_acceptor_quorum() {
    assert_eq!(acceptor_quorum(1), 1);
    assert_eq!(acceptor_quorum(2), 2);
    assert_eq!(acceptor_quorum(3), 2);
    assert_eq!(acceptor_quorum(4), 3);
    assert_eq!(acceptor_quorum(5), 3);
}

#[test]
fn test_replica_quorum() {
    assert_eq!(replica_quorum(1), 1);
    assert_eq!(replica_quorum(2), 2);
    assert_eq!(replica_quorum(3), 2);
    assert_eq!(replica_quorum(4), 3);
    assert_eq!(replica_quorum(5), 3);
}

fn prepared_by(acceptors: &[usize]) -> (HashSet<usize>, HashSet<usize>) {
    (acceptors.iter().copied().collect(), HashSet::new())
}

fn aborted_by(acceptors: &[usize]) -> (HashSet<usize>, HashSet<usize>) {
    (HashSet::new(), acceptors.iter().copied().collect())
}

fn alive(nodes: &[usize]) -> HashSet<usize> {
    nodes.iter().copied().collect()
}

#[test]
fn commit_all_prepared() {
    // 3 nodes, R=3, rq=2, aq=2. All 3 RMs voted Prepared (learned).
    let key_replicas = vec![vec![0, 1, 2]];
    let mut rm_votes = HashMap::new();
    rm_votes.insert(0, prepared_by(&[0, 1]));
    rm_votes.insert(1, prepared_by(&[0, 1]));
    rm_votes.insert(2, prepared_by(&[0, 1]));

    assert_eq!(
        evaluate_commit_rule(&key_replicas, &rm_votes, 2, 2, &alive(&[0, 1, 2])),
        Some(true)
    );
}

#[test]
fn commit_one_aborted_but_quorum_met() {
    // RMs 0,1 Prepared, RM 2 Aborted. 2 >= rq(2) -> commit.
    let key_replicas = vec![vec![0, 1, 2]];
    let mut rm_votes = HashMap::new();
    rm_votes.insert(0, prepared_by(&[0, 1]));
    rm_votes.insert(1, prepared_by(&[0, 1]));
    rm_votes.insert(2, aborted_by(&[0, 1]));

    assert_eq!(
        evaluate_commit_rule(&key_replicas, &rm_votes, 2, 2, &alive(&[0, 1, 2])),
        Some(true)
    );
}

#[test]
fn abort_too_many_aborted() {
    // RM 0 Prepared, RMs 1,2 Aborted. 1 < rq(2), max=1 < 2 -> abort.
    let key_replicas = vec![vec![0, 1, 2]];
    let mut rm_votes = HashMap::new();
    rm_votes.insert(0, prepared_by(&[0, 1]));
    rm_votes.insert(1, aborted_by(&[0, 1]));
    rm_votes.insert(2, aborted_by(&[0, 1]));

    assert_eq!(
        evaluate_commit_rule(&key_replicas, &rm_votes, 2, 2, &alive(&[0, 1, 2])),
        Some(false)
    );
}

#[test]
fn pending_not_enough_accepted() {
    // RM 0 learned Prepared (2 acceptors). RM 1 only 1 acceptor (pending). RM 2 no votes (pending).
    // prepared=1, max_possible=3 -> None.
    let key_replicas = vec![vec![0, 1, 2]];
    let mut rm_votes = HashMap::new();
    rm_votes.insert(0, prepared_by(&[0, 1]));
    rm_votes.insert(1, prepared_by(&[0])); // 1 < aq(2)

    assert_eq!(
        evaluate_commit_rule(&key_replicas, &rm_votes, 2, 2, &alive(&[0, 1, 2])),
        None
    );
}

#[test]
fn dead_rm_treated_as_aborted_still_commits() {
    // RMs 0,1 Prepared (learned). RM 2 is dead, no votes -> Unlearnable.
    // prepared=2 >= rq(2) -> commit.
    let key_replicas = vec![vec![0, 1, 2]];
    let mut rm_votes = HashMap::new();
    rm_votes.insert(0, prepared_by(&[0, 1]));
    rm_votes.insert(1, prepared_by(&[0, 1]));

    assert_eq!(
        evaluate_commit_rule(&key_replicas, &rm_votes, 2, 2, &alive(&[0, 1])),
        Some(true)
    );
}

#[test]
fn dead_rm_causes_abort() {
    // RM 0 pending (1 acceptor, alive). RMs 1,2 dead, no votes -> Unlearnable.
    // prepared=0, max_possible=1 < rq(2) -> abort.
    let key_replicas = vec![vec![0, 1, 2]];
    let mut rm_votes = HashMap::new();
    rm_votes.insert(0, prepared_by(&[0])); // 1 < aq(2), still pending

    assert_eq!(
        evaluate_commit_rule(&key_replicas, &rm_votes, 2, 2, &alive(&[0])),
        Some(false)
    );
}

#[test]
fn triput_all_keys_committed() {
    // 3 keys, same replica set [0,1,2], all Prepared.
    let key_replicas = vec![vec![0, 1, 2], vec![0, 1, 2], vec![0, 1, 2]];
    let mut rm_votes = HashMap::new();
    rm_votes.insert(0, prepared_by(&[0, 1]));
    rm_votes.insert(1, prepared_by(&[0, 1]));
    rm_votes.insert(2, prepared_by(&[0, 1]));

    assert_eq!(
        evaluate_commit_rule(&key_replicas, &rm_votes, 2, 2, &alive(&[0, 1, 2])),
        Some(true)
    );
}

#[test]
fn triput_one_key_aborted() {
    // 5 nodes, R=3. Key 0: replicas [0,1,2]. Key 1: replicas [2,3,4].
    // RMs 0,1,2 Prepared. RMs 3,4 Aborted. aq=3.
    // Key 0: 3 Prepared >= rq(2). Key 1: 1 Prepared (RM 2) < rq(2), max=1 -> abort.
    let key_replicas = vec![vec![0, 1, 2], vec![2, 3, 4]];
    let mut rm_votes = HashMap::new();
    rm_votes.insert(0, prepared_by(&[0, 1, 2]));
    rm_votes.insert(1, prepared_by(&[0, 1, 2]));
    rm_votes.insert(2, prepared_by(&[0, 1, 2]));
    rm_votes.insert(3, aborted_by(&[0, 1, 2]));
    rm_votes.insert(4, aborted_by(&[0, 1, 2]));

    assert_eq!(
        evaluate_commit_rule(&key_replicas, &rm_votes, 2, 3, &alive(&[0, 1, 2, 3, 4])),
        Some(false)
    );
}

#[test]
fn abort_detected_even_with_pending_keys() {
    // Key 0: all Aborted (definitely aborted). Key 1: pending.
    // Should return Some(false), not None.
    let key_replicas = vec![vec![0, 1, 2], vec![3, 4, 5]];
    let mut rm_votes = HashMap::new();
    rm_votes.insert(0, aborted_by(&[0, 1]));
    rm_votes.insert(1, aborted_by(&[0, 1]));
    rm_votes.insert(2, aborted_by(&[0, 1]));
    // Key 1 RMs: no votes yet (pending)

    assert_eq!(
        evaluate_commit_rule(&key_replicas, &rm_votes, 2, 2, &alive(&[0, 1, 2, 3, 4, 5])),
        Some(false)
    );
}

#[test]
fn best_read_highest_version() {
    let responses = vec![
        (Some("old".to_string()), 1),
        (Some("new".to_string()), 3),
        (Some("mid".to_string()), 2),
    ];
    assert_eq!(select_best_read(&responses), Some("new".to_string()));
}

#[test]
fn best_read_with_nones() {
    let responses = vec![(None, 0), (Some("val".to_string()), 1), (None, 0)];
    assert_eq!(select_best_read(&responses), Some("val".to_string()));
}

#[test]
fn best_read_all_none() {
    let responses: Vec<(Option<String>, u64)> = vec![(None, 0), (None, 0)];
    assert_eq!(select_best_read::<String>(&responses), None);
}

#[test]
fn best_read_empty() {
    let responses: Vec<(Option<String>, u64)> = vec![];
    assert_eq!(select_best_read::<String>(&responses), None);
}

#[test]
fn best_read_takes_the_last_of_equal_versions() {
    let responses = vec![(Some(1u8), 4), (Some(2u8), 4), (None, 9), (Some(3u8), 2)];
    assert_eq!(select_best_read(&responses), Some(2));
}

#[test]
fn no_keys_commit_at_once() {
    let key_replicas: Vec<Vec<usize>> = vec![];
    let rm_votes = HashMap::new();
    assert_eq!(
        evaluate_commit_rule(&key_replicas, &rm_votes, 2, 2, &alive(&[])),
        Some(true)
    );
}

#[test]
fn every_vote_status() {
    let mut rm_votes = HashMap::new();
    rm_votes.insert(0, prepared_by(&[0, 1]));
    rm_votes.insert(1, aborted_by(&[0, 1]));
    rm_votes.insert(2, prepared_by(&[0]));
    let living = alive(&[0, 1, 2, 4]);
    assert_eq!(classify_rm_vote(&rm_votes, &0, 2, &living), VoteStatus::LearnedPrepared);
    assert_eq!(classify_rm_vote(&rm_votes, &1, 2, &living), VoteStatus::LearnedAborted);
    assert_eq!(classify_rm_vote(&rm_votes, &2, 2, &living), VoteStatus::Pending);
    assert_eq!(classify_rm_vote(&rm_votes, &3, 2, &living), VoteStatus::Unlearnable);
    assert_eq!(classify_rm_vote(&rm_votes, &4, 2, &living), VoteStatus::Pending);
    assert_eq!(classify_rm_vote(&rm_votes, &2, 2, &alive(&[0])), VoteStatus::Unlearnable);
    assert_eq!(classify_rm_vote(&rm_votes, &0, 2, &alive(&[])), VoteStatus::LearnedPrepared);
}

#[test]
fn a_commit_stays_a_commit() {
    let key_replicas = vec![vec![0, 1, 2]];
    let mut rm_votes = HashMap::new();
    rm_votes.insert(0, prepared_by(&[0, 1]));
    rm_votes.insert(1, prepared_by(&[1, 2]));
    assert_eq!(
        evaluate_commit_rule(&key_replicas, &rm_votes, 2, 2, &alive(&[0, 1, 2])),
        Some(true)
    );
    rm_votes.insert(2, aborted_by(&[0, 1, 2]));
    assert_eq!(
        evaluate_commit_rule(&key_replicas, &rm_votes, 2, 2, &alive(&[])),
        Some(true)
    );
}

#[test]
fn a_given_up_rm_can_split_two_learners() {
    // One learner has heard the dead RM's vote from enough acceptors, the
    // other has not and gives it up.
    let key_replicas = vec![vec![0, 1]];
    let mut informed = HashMap::new();
    informed.insert(0, prepared_by(&[0, 1]));
    informed.insert(1, prepared_by(&[0, 1]));
    let mut uninformed = HashMap::new();
    uninformed.insert(0, prepared_by(&[0, 1]));
    uninformed.insert(1, prepared_by(&[0]));
    let living = alive(&[0, 2]);
    assert_eq!(evaluate_commit_rule(&key_replicas, &informed, 2, 2, &living), Some(true));
    assert_eq!(evaluate_commit_rule(&key_replicas, &uninformed, 2, 2, &living), Some(false));
}
