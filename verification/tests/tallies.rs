use dht::types::NodeId;
use dht::votes::{confirm, recover, recover_strangers, AcceptorLog, RmVotes, StrangerVotes};
use std::collections::HashSet;

fn name(n: usize) -> NodeId {
    NodeId::new(format!("host{}", n), n)
}

fn set(ranks: &[usize]) -> HashSet<usize> {
    ranks.iter().copied().collect()
}

#[test]
fn confirmations_are_counted_by_rank() {
    let mut votes = RmVotes::new();
    confirm(&mut votes, 1, 0, true);
    confirm(&mut votes, 1, 2, true);
    confirm(&mut votes, 1, 2, true);
    confirm(&mut votes, 3, 0, false);
    assert_eq!(votes[&1], (set(&[0, 2]), set(&[])));
    assert_eq!(votes[&3], (set(&[]), set(&[0])));
    assert_eq!(votes.len(), 2);
}

#[test]
fn own_confirmations_are_recovered_from_the_log() {
    let cluster = vec![name(0), name(1), name(2)];
    let mut log = AcceptorLog::new();
    log.insert(5, name(1), true);
    log.insert(5, name(2), true);
    log.insert(5, name(2), false);
    log.insert(5, name(9), true);
    log.insert(6, name(0), true);
    assert_eq!(log.get(5, &name(2)), Some(false));
    assert_eq!(log.get(5, &name(0)), None);
    let found = recover(&log, 5, &cluster, 0);
    assert_eq!(found.len(), 2);
    assert_eq!(found[&1], (set(&[0]), set(&[])));
    assert_eq!(found[&2], (set(&[]), set(&[0])));
    log.forget(5);
    assert_eq!(log.get(5, &name(1)), None);
    assert_eq!(log.get(6, &name(0)), Some(true));
    assert!(recover(&log, 5, &cluster, 0).is_empty());
}

#[test]
fn votes_of_strangers_are_kept_by_name() {
    let cluster = vec![name(0), name(1)];
    let mut log = AcceptorLog::new();
    log.insert(5, name(8), false);
    log.insert(5, name(1), true);
    log.insert(5, name(8), true);
    let mut found = recover_strangers(&log, 5, &cluster, 0);
    assert_eq!(found.get(&name(8)), Some(&(set(&[0]), set(&[]))));
    assert_eq!(found.get(&name(1)), None);
    found.confirm(&name(8), 1, true);
    found.confirm(&name(8), 1, true);
    found.confirm(&name(9), 1, false);
    assert_eq!(found.get(&name(8)), Some(&(set(&[0, 1]), set(&[]))));
    assert_eq!(found.get(&name(9)), Some(&(set(&[]), set(&[1]))));
    let none = StrangerVotes::new();
    assert_eq!(none.get(&name(8)), None);
}
