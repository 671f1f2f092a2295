use dht::membership::{Membership, HEARTBEAT_TIMEOUT};
use dht::messages::{Envelope, LocalMessage, PeerMessage};
use dht::node::{LocalStep, Node, PeerStep};
use dht::types::{KVPair, NodeId};
use std::collections::VecDeque;

fn names(n: usize) -> Vec<NodeId> {
    (0..n).map(|i| NodeId::new(format!("host{}", i), i)).collect()
}

fn node(n: usize, me: usize, degree: usize, stripes: usize) -> Node<u8> {
    let cluster = names(n);
    let my_node_id = cluster[me].clone();
    Node::new(cluster, &my_node_id, degree, stripes, 0).expect("a valid cluster")
}

/// A cluster whose messages arrive in the order in which they were sent.
struct Network {
    nodes: Vec<Node<u8>>,
    tasks: Vec<(usize, u64)>,
    wire: VecDeque<(usize, Envelope<u8>)>,
    completed: Vec<(usize, u64)>,
}

impl Network {
    fn new(n: usize, degree: usize, stripes: usize) -> Network {
        Network {
            nodes: (0..n).map(|me| node(n, me, degree, stripes)).collect(),
            tasks: vec![],
            wire: VecDeque::new(),
            completed: vec![],
        }
    }

    fn send(&mut self, from: usize, out: Vec<Envelope<u8>>) {
        for envelope in out {
            self.wire.push_back((from, envelope));
        }
    }

    fn deliver_all(&mut self) {
        while let Some((from, Envelope { to, msg })) = self.wire.pop_front() {
            match self.nodes[to].on_peer_message(from, msg, 0) {
                PeerStep::Nothing | PeerStep::Learned { .. } | PeerStep::Shutdown => {}
                PeerStep::AnswerRead { to: back, key, req_id } => {
                    if let Some(answer) = self.nodes[to].answer_read(back, key, req_id) {
                        self.send(to, vec![answer]);
                    }
                }
                PeerStep::ReadComplete { reader } => self.completed.push((to, reader)),
                PeerStep::Participate(started) => {
                    self.tasks.push((to, started.task));
                    self.send(to, started.out);
                }
                PeerStep::Accept(accepted) => self.send(to, accepted.out),
                PeerStep::Send(envelope) => self.send(to, vec![envelope]),
            }
        }
    }

    fn write(&mut self, at: usize, pairs: Vec<KVPair<u64, u8>>) -> Option<u64> {
        match self.nodes[at].handle_local_write(pairs) {
            LocalStep::Write { started, .. } => {
                self.tasks.push((at, started.task));
                self.send(at, started.out);
                self.deliver_all();
                Some(started.task)
            }
            LocalStep::WriteRefused => None,
            _ => panic!("a write is begun or refused"),
        }
    }

    /// Decide, apply and close every task; returns the decisions.
    fn settle(&mut self, time_is_up: bool) -> Vec<(usize, bool)> {
        let mut decisions = vec![];
        let tasks: Vec<(usize, u64)> = self.tasks.drain(..).collect();
        for (at, task) in tasks {
            assert!(self.nodes[at].is_undecided(task));
            match self.nodes[at].decide(task, time_is_up) {
                None => self.tasks.push((at, task)),
                Some(committed) => {
                    let applied = self.nodes[at].apply_outcome(task, committed);
                    for entry in applied.late {
                        assert!(self.nodes[at].try_put(entry, applied.version).is_none());
                    }
                    assert!(!self.nodes[at].is_undecided(task));
                    assert!(self.nodes[at].is_applied(task));
                    self.nodes[at].close_task(task);
                    decisions.push((at, committed));
                }
            }
        }
        decisions
    }

    fn read(&mut self, at: usize, key: u64) -> Option<u8> {
        match self.nodes[at].handle_local_get(key) {
            LocalStep::Read { started, .. } => {
                self.send(at, started.out);
                if started.local {
                    let (val, version) = self.nodes[at].read_local(key).expect("stripe is free");
                    self.nodes[at].deliver_local(started.reader, val, version);
                }
                self.deliver_all();
                assert!(self.nodes[at].is_read_complete(started.reader));
                self.nodes[at].finish_read(started.reader)
            }
            LocalStep::ReadRefused => None,
            _ => panic!("a read is begun or refused"),
        }
    }
}

fn pair(key: u64, val: u8) -> KVPair<u64, u8> {
    KVPair { key, val }
}

#[test]
fn a_committed_write_is_read_everywhere() {
    let mut net = Network::new(5, 3, 16);
    assert_eq!(net.read(0, 7), None);
    assert!(net.write(1, vec![pair(7, 70)]).is_some());
    let decisions = net.settle(false);
    assert!(decisions.len() >= 3);
    assert!(decisions.iter().all(|(_, committed)| *committed));
    assert!(net.tasks.is_empty());
    for at in 0..5 {
        assert_eq!(net.read(at, 7), Some(70));
    }
}

#[test]
fn a_later_write_replaces_an_earlier_one() {
    let mut net = Network::new(3, 3, 8);
    net.write(0, vec![pair(1, 10)]);
    net.settle(false);
    net.write(2, vec![pair(1, 20)]);
    net.settle(false);
    for at in 0..3 {
        assert_eq!(net.read(at, 1), Some(20));
        // The second coordinator had observed the first write's version.
        assert_eq!(net.nodes[at].read_local(1), Some((Some(20), 2)));
    }
}

#[test]
fn a_triput_writes_three_keys() {
    let mut net = Network::new(4, 3, 16);
    let request = LocalMessage::TriPut { pairs: [pair(1, 11), pair(2, 12), pair(3, 13)] };
    match net.nodes[2].on_local_message(request) {
        LocalStep::Write { started, .. } => {
            net.tasks.push((2, started.task));
            net.send(2, started.out);
        }
        _ => panic!("expected a write"),
    }
    net.deliver_all();
    assert!(net.settle(false).iter().all(|(_, committed)| *committed));
    assert_eq!(net.read(0, 1), Some(11));
    assert_eq!(net.read(1, 2), Some(12));
    assert_eq!(net.read(3, 3), Some(13));
}

#[test]
fn a_conflicting_write_aborts_and_leaves_no_trace() {
    let mut net = Network::new(3, 3, 1);
    // The only stripe of each node is locked by the first transaction.
    net.write(0, vec![pair(1, 10)]);
    net.write(1, vec![pair(2, 20)]);
    assert_eq!(net.nodes[0].read_local(5), None);
    let decisions = net.settle(false);
    let commits = decisions.iter().filter(|(_, committed)| *committed).count();
    let aborts = decisions.len() - commits;
    assert_eq!((commits, aborts), (3, 3));
    assert_eq!(net.read(2, 1), Some(10));
    assert_eq!(net.read(2, 2), None);
    // The stripes are free again.
    net.write(1, vec![pair(2, 21)]);
    assert!(net.settle(false).iter().all(|(_, committed)| *committed));
    assert_eq!(net.read(0, 2), Some(21));
}

#[test]
fn a_node_that_voted_to_abort_stores_a_commit_late() {
    let mut net = Network::new(3, 3, 1);
    // Node 2 is busy with a transaction that never reaches a decision.
    let busy = net.nodes[2].handle_peer_prepare(vec![pair(9, 90)], 77, 1);
    net.write(0, vec![pair(1, 10)]);
    let task_of_2 = net.tasks.iter().find(|(at, _)| *at == 2).expect("node 2 takes part").1;
    assert_eq!(net.nodes[2].decide(task_of_2, false), Some(true));
    let mut applied = net.nodes[2].apply_outcome(task_of_2, true);
    assert_eq!(applied.late.len(), 1);
    let entry = applied.late.pop().unwrap();
    // The stripe is still locked: the entry comes back.
    let entry = net.nodes[2].try_put(entry, applied.version).expect("locked");
    assert_eq!(net.nodes[2].decide(busy.task, true), Some(false));
    assert!(net.nodes[2].apply_outcome(busy.task, false).late.is_empty());
    assert!(net.nodes[2].try_put(entry, applied.version).is_none());
    assert_eq!(net.nodes[2].read_local(1), Some((Some(10), 1)));
    assert_eq!(net.nodes[2].read_local(9), Some((None, 0)));
}

#[test]
fn a_late_put_does_not_replace_a_later_version() {
    let mut a = node(1, 0, 1, 1);
    let write = a.begin_write(5, vec![pair(1, 50)]).expect("feasible");
    a.apply_outcome(write.task, true);
    a.close_task(write.task);
    assert_eq!(a.read_local(1), Some((Some(50), 1)));
    assert!(a.try_put((pair(1, 49), 0), 0).is_none());
    assert_eq!(a.read_local(1), Some((Some(50), 1)));
    assert!(a.try_put((pair(1, 51), 0), 1).is_none());
    assert_eq!(a.read_local(1), Some((Some(51), 1)));
}

#[test]
fn requests_without_a_quorum_are_refused() {
    let mut a = node(3, 0, 3, 4);
    a.mark_node_dead(1);
    assert!(matches!(a.handle_local_get(1), LocalStep::Read { .. }));
    a.mark_node_dead(2);
    assert!(matches!(a.handle_local_get(1), LocalStep::ReadRefused));
    assert!(matches!(a.handle_local_write(vec![pair(1, 1)]), LocalStep::WriteRefused));
    // The refused write has drawn a version.
    assert_eq!(a.next_version(), 2);
}

#[test]
fn replicas_beyond_the_quorum_of_a_large_degree_are_refused() {
    // Degree 5 in a cluster of 2: three replicas are needed, two exist.
    let mut a = node(2, 0, 5, 4);
    assert_eq!(a.quorum_size(), 3);
    assert_eq!(a.get_key_replicas(&1).len(), 2);
    assert!(matches!(a.handle_local_get(1), LocalStep::ReadRefused));
}

#[test]
fn a_coordinator_that_is_no_replica_casts_no_vote() {
    let a = node(4, 0, 1, 4);
    let key = (0u64..1000).find(|k| a.get_key_replicas(k) == vec![2]).expect("some key");
    let mut a = a;
    let write = a.begin_write(5, vec![pair(key, 1)]).expect("feasible");
    assert_eq!(write.out.len(), 1);
    assert_eq!(write.out[0].to, 2);
    match &write.out[0].msg {
        PeerMessage::Prepare { pairs, tx_id, version } => {
            assert_eq!((pairs[0].key, pairs[0].val), (key, 1));
            assert_eq!((*tx_id, *version), (5, 1));
        }
        _ => panic!("expected Prepare"),
    }
    assert_eq!(a.decide(write.task, false), None);
    // Its RM's vote, confirmed by a majority of the four nodes, decides.
    let rm = NodeId::new("host2".to_string(), 2);
    for acceptor in 1..4 {
        assert_eq!(a.on_accepted(acceptor, 5, rm.clone(), true), Some(write.task));
    }
    assert_eq!(a.decide(write.task, false), Some(true));
    assert!(a.apply_outcome(write.task, true).late.is_empty());
}

#[test]
fn a_write_sends_prepares_before_ballots() {
    let mut a = node(3, 1, 3, 4);
    let write = a.begin_write(9, vec![pair(4, 40)]).expect("feasible");
    let kinds: Vec<(usize, &str)> = write
        .out
        .iter()
        .map(|e| {
            (
                e.to,
                match e.msg {
                    PeerMessage::Prepare { .. } => "prepare",
                    PeerMessage::Vote { vote: true, .. } => "vote",
                    PeerMessage::Accepted { vote: true, .. } => "accepted",
                    _ => "other",
                },
            )
        })
        .collect();
    assert_eq!(
        kinds,
        vec![
            (0, "prepare"),
            (2, "prepare"),
            (0, "vote"),
            (0, "accepted"),
            (2, "vote"),
            (2, "accepted")
        ]
    );
}

#[test]
fn the_first_vote_stands() {
    let mut a = node(3, 0, 3, 4);
    let rm = NodeId::new("host1".to_string(), 1);
    let accepted = a.on_vote(5, rm.clone(), true).expect("first vote");
    assert_eq!(accepted.learner, None);
    let to: Vec<usize> = accepted.out.iter().map(|e| e.to).collect();
    assert_eq!(to, vec![1, 2]);
    assert!(accepted
        .out
        .iter()
        .all(|e| matches!(e.msg, PeerMessage::Accepted { tx_id: 5, vote: true, .. })));
    assert!(a.on_vote(5, rm.clone(), false).is_none());
    assert!(a.on_vote(6, rm, false).is_some());
}

#[test]
fn confirmations_go_to_all_other_nodes_dead_or_alive() {
    let mut a = node(3, 0, 3, 4);
    a.mark_node_dead(1);
    let accepted = a.on_vote(5, NodeId::new("host1".to_string(), 1), true).expect("first vote");
    let to: Vec<usize> = accepted.out.iter().map(|e| e.to).collect();
    assert_eq!(to, vec![1, 2]);
}

#[test]
fn votes_accepted_before_the_prepare_are_recovered() {
    let mut a = node(3, 0, 3, 4);
    let one = NodeId::new("host1".to_string(), 1);
    let two = NodeId::new("host2".to_string(), 2);
    assert!(a.on_vote(5, one.clone(), true).is_some());
    // A confirmation before the prepare finds no learner.
    assert_eq!(a.on_accepted(2, 5, one.clone(), true), None);
    let started = a.handle_peer_prepare(vec![pair(1, 1)], 5, 3);
    // Own vote: confirmed by one acceptor; host1's: by one, recovered.
    assert_eq!(a.decide(started.task, false), None);
    assert_eq!(a.on_accepted(2, 5, one, true), Some(started.task));
    assert_eq!(a.decide(started.task, false), None);
    assert_eq!(a.on_accepted(1, 5, NodeId::new("host0".to_string(), 0), true), Some(started.task));
    assert_eq!(a.decide(started.task, false), Some(true));
    assert_eq!(a.on_accepted(1, 5, two, false), Some(started.task));
    assert_eq!(a.decide(started.task, false), Some(true));
    // The prepare's version has been observed.
    assert_eq!(a.next_version(), 4);
}

#[test]
fn a_vote_of_a_stranger_counts_for_nothing() {
    let mut a = node(1, 0, 1, 4);
    let started = a.begin_write(5, vec![pair(1, 1)]).expect("feasible");
    assert_eq!(
        a.on_accepted(0, 5, NodeId::new("nowhere".to_string(), 0), false),
        Some(started.task)
    );
    assert_eq!(a.decide(started.task, false), Some(true));
    // Nor does one that was accepted before the prepare.
    let mut b = node(1, 0, 1, 4);
    assert!(b.on_vote(6, NodeId::new("nowhere".to_string(), 0), false).is_some());
    let started = b.handle_peer_prepare(vec![pair(1, 1)], 6, 1);
    assert_eq!(b.decide(started.task, false), Some(true));
}

#[test]
fn repeated_confirmations_count_once_and_in_any_order() {
    let rm = NodeId::new("host1".to_string(), 1);
    let mine = NodeId::new("host0".to_string(), 0);
    let mut a = node(5, 0, 2, 4);
    let key = (0u64..1000).find(|k| a.get_key_replicas(k) == vec![0, 1]).expect("some key");
    let task = a.begin_write(5, vec![pair(key, 1)]).expect("feasible").task;
    for acceptor in [1, 1, 1, 2] {
        a.on_accepted(acceptor, 5, rm.clone(), true);
    }
    assert_eq!(a.decide(task, false), None);
    a.on_accepted(3, 5, rm, true);
    a.on_accepted(4, 5, mine.clone(), true);
    assert_eq!(a.decide(task, false), None);
    a.on_accepted(2, 5, mine, true);
    assert_eq!(a.decide(task, false), Some(true));
}

#[test]
fn when_time_is_up_a_coordinator_looks_again_and_others_abort() {
    let mut a = node(3, 0, 3, 4);
    let coordinated = a.begin_write(5, vec![pair(1, 1)]).expect("feasible").task;
    assert_eq!(a.decide(coordinated, false), None);
    assert_eq!(a.decide(coordinated, true), Some(false));
    for rm in 0..2 {
        for acceptor in 0..2 {
            a.on_accepted(acceptor, 5, NodeId::new(format!("host{}", rm), rm), true);
        }
    }
    assert_eq!(a.decide(coordinated, true), Some(true));

    let mut b = node(3, 1, 3, 4);
    let taken_part = b.handle_peer_prepare(vec![pair(1, 1)], 5, 1).task;
    for rm in 0..2 {
        for acceptor in 0..2 {
            b.on_accepted(acceptor, 5, NodeId::new(format!("host{}", rm), rm), true);
        }
    }
    assert_eq!(b.decide(taken_part, false), Some(true));
    assert_eq!(b.decide(taken_part, true), Some(false));
}

#[test]
fn a_repeated_prepare_votes_against_itself() {
    // The stripe is locked by the first prepare of the same transaction.
    let mut a = node(3, 0, 3, 1);
    let first = a.handle_peer_prepare(vec![pair(1, 1)], 5, 1);
    assert!(matches!(first.out[0].msg, PeerMessage::Vote { vote: true, .. }));
    let second = a.handle_peer_prepare(vec![pair(1, 1)], 5, 1);
    assert!(matches!(second.out[0].msg, PeerMessage::Vote { vote: false, .. }));
    assert!(first.task != second.task);
    // Confirmations now go to the second.
    let rm = NodeId::new("host1".to_string(), 1);
    assert_eq!(a.on_accepted(1, 5, rm, true), Some(second.task));
    // An abort of either frees the locks.
    a.apply_outcome(second.task, false);
    assert_eq!(a.read_local(1), Some((None, 0)));
    assert!(a.apply_outcome(first.task, true).late.is_empty());
    assert_eq!(a.read_local(1), Some((None, 0)));
}

#[test]
fn nothing_of_a_closed_task_is_left() {
    let mut a = node(1, 0, 1, 1);
    let write = a.begin_write(5, vec![pair(1, 1)]).expect("feasible");
    assert_eq!(a.decide(write.task, false), Some(true));
    a.apply_outcome(write.task, true);
    a.close_task(write.task);
    assert!(!a.is_undecided(write.task));
    let me = NodeId::new("host0".to_string(), 0);
    assert_eq!(a.on_accepted(0, 5, me.clone(), true), None);
    // Its vote is forgotten too: another one is accepted again.
    assert!(a.on_vote(5, me, false).is_some());
}

#[test]
fn a_read_needs_a_quorum_of_replies() {
    let mut a = node(3, 0, 3, 4);
    let read = a.begin_read(1, 50).expect("feasible");
    assert!(read.local);
    let to: Vec<usize> = read.out.iter().map(|e| e.to).collect();
    assert_eq!(to.len(), 2);
    assert!(!to.contains(&0));
    assert!(read.out.iter().all(|e| matches!(e.msg, PeerMessage::QuorumGet { key: 1, req_id: 50 })));
    assert!(!a.deliver_local(read.reader, None, 0));
    assert!(!a.is_read_complete(read.reader));
    assert_eq!(a.on_read_response(Some(8), 4, 51), None);
    assert_eq!(a.on_read_response(Some(7), 3, 50), Some(read.reader));
    assert!(a.is_read_complete(read.reader));
    // A reply beyond the quorum is ignored.
    assert_eq!(a.on_read_response(Some(9), 9, 50), None);
    assert!(a.is_reading(read.reader));
    assert_eq!(a.finish_read(read.reader), Some(7));
    assert!(!a.is_reading(read.reader));
    assert_eq!(a.on_read_response(Some(7), 3, 50), None);
}

#[test]
fn an_incomplete_read_gives_nothing() {
    let mut a = node(3, 0, 3, 4);
    let read = a.begin_read(1, 50).expect("feasible");
    a.deliver_local(read.reader, Some(5), 1);
    assert_eq!(a.finish_read(read.reader), None);
}

#[test]
fn two_reads_under_one_number_share_its_replies_no_longer() {
    let mut a = node(3, 0, 3, 4);
    let first = a.begin_read(1, 50).expect("feasible");
    let second = a.begin_read(1, 50).expect("feasible");
    assert_eq!(a.on_read_response(Some(1), 1, 50), None);
    assert_eq!(a.on_read_response(Some(2), 2, 50), Some(second.reader));
    assert_eq!(a.finish_read(first.reader), None);
    assert_eq!(a.finish_read(second.reader), Some(2));
}

#[test]
fn a_locked_stripe_holds_back_answers() {
    let mut a = node(3, 0, 3, 1);
    let started = a.handle_peer_prepare(vec![pair(1, 1)], 5, 1);
    assert!(a.answer_read(2, 8, 60).is_none());
    a.apply_outcome(started.task, true);
    let answer = a.answer_read(2, 1, 60).expect("free");
    assert_eq!(answer.to, 2);
    assert!(matches!(
        answer.msg,
        PeerMessage::QuorumGetResponse { val: Some(1), version: 1, req_id: 60 }
    ));
    let absent = a.answer_read(1, 8, 61).expect("free");
    assert!(matches!(
        absent.msg,
        PeerMessage::QuorumGetResponse { val: None, version: 0, req_id: 61 }
    ));
}

#[test]
fn pings_are_answered() {
    let mut a = node(3, 0, 3, 1);
    match a.on_peer_message(2, PeerMessage::Ping, 5) {
        PeerStep::Send(envelope) => {
            assert_eq!(envelope.to, 2);
            assert!(matches!(envelope.msg, PeerMessage::Pong));
        }
        _ => panic!("expected a pong"),
    }
}

#[test]
fn silent_peers_are_found_dead() {
    let mut a = node(3, 0, 3, 1);
    let at_limit = a.heartbeat(HEARTBEAT_TIMEOUT);
    assert!(at_limit.dead.is_empty());
    assert_eq!(at_limit.out.len(), 2);
    assert!(at_limit.out.iter().all(|e| matches!(e.msg, PeerMessage::Ping)));
    assert!(matches!(
        a.on_peer_message(1, PeerMessage::Pong, HEARTBEAT_TIMEOUT),
        PeerStep::Nothing
    ));
    let over = a.heartbeat(HEARTBEAT_TIMEOUT + 1);
    assert_eq!(over.dead, vec![2]);
    assert!(!over.shutdown);
    assert!(!a.members().alive().contains(&2));
    let next = a.heartbeat(HEARTBEAT_TIMEOUT + 2);
    let to: Vec<usize> = next.out.iter().map(|e| e.to).collect();
    assert_eq!(to, vec![1]);
}

#[test]
fn a_cluster_stops_when_all_are_done() {
    let mut a = node(3, 0, 3, 1);
    match a.on_local_message(LocalMessage::Done) {
        LocalStep::Done { out, shutdown } => {
            let to: Vec<usize> = out.iter().map(|e| e.to).collect();
            assert_eq!(to, vec![1, 2]);
            assert!(out.iter().all(|e| matches!(e.msg, PeerMessage::Done)));
            assert!(!shutdown);
        }
        _ => panic!("expected done"),
    }
    assert!(matches!(a.on_peer_message(1, PeerMessage::Done, 0), PeerStep::Nothing));
    // A node is not counted twice.
    assert!(matches!(a.on_peer_message(1, PeerMessage::Done, 0), PeerStep::Nothing));
    // A crashed node counts as done.
    let step = a.heartbeat(2 * HEARTBEAT_TIMEOUT);
    assert_eq!(step.dead, vec![1, 2]);
    assert!(step.shutdown);
}

#[test]
fn the_last_done_message_stops_a_node() {
    let mut a = node(2, 1, 2, 1);
    assert!(!a.mark_node_done(1));
    assert!(matches!(a.on_peer_message(0, PeerMessage::Done, 0), PeerStep::Shutdown));
}

#[test]
fn a_put_request_writes_one_pair() {
    let mut net = Network::new(1, 1, 1);
    match net.nodes[0].on_local_message(LocalMessage::Put { pair: pair(3, 33) }) {
        LocalStep::Write { started, .. } => {
            assert!(started.out.is_empty());
            net.tasks.push((0, started.task));
        }
        _ => panic!("expected a write"),
    }
    net.settle(false);
    match net.nodes[0].on_local_message(LocalMessage::Get { key: 3 }) {
        LocalStep::Read { started, .. } => {
            let (val, version) = net.nodes[0].read_local(3).expect("free");
            assert!(net.nodes[0].deliver_local(started.reader, val, version));
            assert_eq!(net.nodes[0].finish_read(started.reader), Some(33));
        }
        _ => panic!("expected a read"),
    }
}

#[test]
fn request_numbers_are_drawn_at_random() {
    let mut a = node(3, 0, 3, 4);
    let mut drawn = vec![];
    for key in 0..8 {
        match a.handle_local_get(key) {
            LocalStep::Read { req_id, .. } => drawn.push(req_id),
            _ => panic!("expected a read"),
        }
        match a.handle_local_write(vec![pair(key, 0)]) {
            LocalStep::Write { tx_id, .. } => drawn.push(tx_id),
            _ => panic!("expected a write"),
        }
    }
    drawn.sort();
    drawn.dedup();
    assert_eq!(drawn.len(), 16);
}

#[test]
fn the_clock_never_runs_back() {
    let mut a = node(1, 0, 1, 1);
    assert_eq!(a.next_version(), 1);
    a.observe_version(10);
    assert_eq!(a.next_version(), 11);
    a.observe_version(3);
    assert_eq!(a.next_version(), 12);
}

#[test]
fn quorums_of_a_node() {
    let a = node(4, 0, 3, 1);
    assert_eq!(a.acceptor_quorum(), 3);
    assert_eq!(a.quorum_size(), 2);
    let replicas = a.get_key_replicas(&5);
    assert_eq!(a.get_alive_replicas(&5), replicas);
}

#[test]
fn a_cluster_names_each_node_once_and_this_node_too() {
    let me = NodeId::new("host0".to_string(), 0);
    let stranger = NodeId::new("elsewhere".to_string(), 9);
    assert!(Node::<u8>::new(names(2), &stranger, 1, 1, 0).is_none());
    let twice = vec![me.clone(), NodeId::new("host1".to_string(), 1), me.clone()];
    assert!(Node::<u8>::new(twice, &me, 1, 1, 0).is_none());
    assert!(Node::<u8>::new(names(2), &me, 1, 1, 0).is_some());
}

#[test]
fn nodes_agree_on_replicas_and_prepare_reaches_them_all() {
    let mut nodes: Vec<Node<u8>> = (0..5).map(|me| node(5, me, 3, 16)).collect();
    for key in 0..50u64 {
        let replicas = nodes[0].get_key_replicas(&key);
        for other in &nodes {
            assert_eq!(other.get_key_replicas(&key), replicas);
        }
        let write = nodes[4].begin_write(key, vec![pair(key, 1)]).expect("feasible");
        let prepared: Vec<usize> = write
            .out
            .iter()
            .filter(|e| matches!(e.msg, PeerMessage::Prepare { .. }))
            .map(|e| e.to)
            .collect();
        let mut expected: Vec<usize> = replicas.into_iter().filter(|r| *r != 4).collect();
        expected.sort();
        assert_eq!(prepared, expected);
        nodes[4].apply_outcome(write.task, false);
        nodes[4].close_task(write.task);
    }
}

#[test]
fn a_transaction_with_one_key_twice_stores_the_last_value() {
    let mut a = node(1, 0, 1, 4);
    let write = a.begin_write(5, vec![pair(1, 10), pair(2, 20), pair(1, 30)]).expect("feasible");
    assert_eq!(a.decide(write.task, false), Some(true));
    assert_eq!(a.read_local(1), None);
    a.apply_outcome(write.task, true);
    assert_eq!(a.read_local(1), Some((Some(30), 1)));
    assert_eq!(a.read_local(2), Some((Some(20), 1)));
}

#[test]
fn ranks_of_a_cluster() {
    let cluster = names(3);
    let members = Membership::new(cluster.clone(), &cluster[1], 0).expect("valid");
    assert_eq!(members.len(), 3);
    assert_eq!(members.me(), 1);
    assert_eq!(members.others(), vec![0, 2]);
    assert_eq!(members.alive_others(), vec![0, 2]);
    assert_eq!(members.rank_of(&cluster[2]), Some(2));
    assert_eq!(members.rank_of(&NodeId::new("elsewhere".to_string(), 9)), None);
    assert!(*members.node(0) == cluster[0]);
    assert_eq!(members.cluster().len(), 3);
}
