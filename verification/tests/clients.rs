use dht::client::{
    after_attempt, backoff_ms, client_hello, drained_response, get_result, get_succeeded,
    random_backoff_ms, request_for, write_result, write_succeeded, AfterAttempt, Attempt,
    ConnectionState, Waited, MAX_RETRIES,
};
use dht::messages::{
    dropped_response, get_response, local_request, write_response, ClientMessage, ClientResponse,
    LocalMessage,
};
use dht::metrics::{summarize, Interval, IntervalMetrics, LatencySummary};
use dht::types::KVPair;
use dht::workload::{
    generate_test_operations, is_unused, kind_of_roll, least_unused, operation_for_roll,
    print_progress,
    random_operation, tri_put, unique_random, Operation, OperationKind,
};

fn connected() -> ConnectionState {
    let others = vec!["b".to_string(), "c".to_string(), "d".to_string(), "e".to_string()];
    ConnectionState::new("a".to_string(), others)
}

#[test]
fn requests_take_the_connections_in_turn() {
    let mut state = connected();
    assert_eq!(state.begin_request(0), Some(0));
    assert_eq!(state.begin_request(1), Some(0));
    state.complete_failover(&vec![true, false, true, true]);
    let turns: Vec<Option<usize>> = (10..16).map(|id| state.begin_request(id)).collect();
    assert_eq!(turns, vec![Some(2), Some(0), Some(1), Some(2), Some(0), Some(1)]);
}

#[test]
fn without_a_connection_no_request_begins() {
    let mut state = connected();
    state.complete_failover(&vec![false, false, false, false]);
    assert_eq!(state.begin_request(5), None);
    assert!(!state.is_pending(5));
}

#[test]
fn an_answer_goes_to_the_request_that_waits() {
    let mut state = connected();
    state.begin_request(4);
    state.begin_request(5);
    let answer: ClientResponse<u8> = ClientResponse::GetResult { val: None, req_id: 4 };
    assert_eq!(state.on_response(&answer), Some(4));
    assert_eq!(state.on_response(&answer), None);
    assert!(state.is_pending(5));
    assert!(state.end_request(5));
    assert!(!state.end_request(5));
}

#[test]
fn a_failover_drains_what_waits_and_happens_once() {
    let mut state = connected();
    state.begin_request(1);
    state.begin_request(2);
    state.begin_request(1);
    let drained = state.begin_failover::<u8>().expect("first failover");
    assert!(drained
        .iter()
        .all(|(_, r)| matches!(r, ClientResponse::WriteResult { success: false, req_id: 0 })));
    let mut drained: Vec<u64> = drained.into_iter().map(|(req_id, _)| req_id).collect();
    drained.sort();
    assert_eq!(drained, vec![1, 2]);
    assert_eq!(state.writers(), &vec!["a".to_string()]);
    assert_eq!(state.done_writer(), Some(0));
    assert_eq!(state.others().len(), 4);
    state.complete_failover(&vec![true, false, false, true]);
    assert!(!state.is_pending(1));
    assert_eq!(state.writers(), &vec!["b".to_string(), "e".to_string()]);
    assert!(state.begin_failover::<u8>().is_none());
    // A further one changes nothing.
    state.begin_request(7);
    state.complete_failover(&vec![true, true, true, true]);
    assert!(state.is_pending(7));
    assert_eq!(state.writers(), &vec!["b".to_string(), "e".to_string()]);
    assert_eq!(state.done_writer(), None);
    assert!(matches!(
        drained_response::<u8>(),
        ClientResponse::WriteResult { success: false, req_id: 0 }
    ));
}

#[test]
fn requests_are_numbered_from_zero() {
    let mut state = connected();
    assert_eq!(state.next_req_id(), 0);
    assert_eq!(state.next_req_id(), 1);
    assert_eq!(state.next_req_id(), 2);
}

#[test]
fn what_counts_as_success() {
    let get: ClientResponse<u8> = ClientResponse::GetResult { val: Some(1), req_id: 1 };
    let done: ClientResponse<u8> = ClientResponse::WriteResult { success: true, req_id: 1 };
    let failed: ClientResponse<u8> = ClientResponse::WriteResult { success: false, req_id: 1 };
    assert!(get_succeeded(&Waited::Answered(get.clone())));
    assert!(!get_succeeded(&Waited::Answered(done.clone())));
    assert!(!get_succeeded::<u8>(&Waited::Dropped));
    assert!(get_succeeded::<u8>(&Waited::Disconnected));
    assert_eq!(write_succeeded(&Waited::Answered(get)), (false, false));
    assert_eq!(write_succeeded(&Waited::Answered(done)), (true, false));
    assert_eq!(write_succeeded(&Waited::Answered(failed)), (false, false));
    assert_eq!(write_succeeded::<u8>(&Waited::Dropped), (false, false));
    assert_eq!(write_succeeded::<u8>(&Waited::Disconnected), (false, true));
}

#[test]
fn an_attempt_that_was_never_sent_fails() {
    assert!(!get_result::<u8>(&Attempt::NotConnected));
    assert!(!get_result::<u8>(&Attempt::NotSent));
    assert!(get_result::<u8>(&Attempt::Waited(Waited::Disconnected)));
    assert_eq!(write_result::<u8>(&Attempt::NotConnected), (false, true));
    assert_eq!(write_result::<u8>(&Attempt::NotSent), (false, false));
    assert_eq!(write_result::<u8>(&Attempt::Waited(Waited::Disconnected)), (false, true));
    let done: ClientResponse<u8> = ClientResponse::WriteResult { success: true, req_id: 1 };
    assert_eq!(write_result(&Attempt::Waited(Waited::Answered(done))), (true, false));
}

#[test]
fn an_attempt_that_ended_waits_no_longer() {
    let mut state = connected();
    state.begin_request(1);
    state.begin_request(2);
    state.begin_request(3);
    assert_eq!(state.end_write::<u8>(1, &Attempt::NotSent), (false, false));
    assert!(!state.is_pending(1));
    assert_eq!(
        state.end_write::<u8>(2, &Attempt::Waited(Waited::Disconnected)),
        (false, true)
    );
    assert!(!state.is_pending(2));
    assert!(state.end_get::<u8>(3, &Attempt::Waited(Waited::Disconnected)));
    assert!(!state.is_pending(3));
    // Without a connection nothing waits, and a write calls for a failover.
    state.complete_failover(&vec![false, false, false, false]);
    assert_eq!(state.begin_request(4), None);
    assert_eq!(state.end_write::<u8>(4, &Attempt::NotConnected), (false, true));
    assert!(!state.end_get::<u8>(4, &Attempt::NotConnected));
}

#[test]
fn operations_become_requests() {
    let pair = KVPair { key: 1u64, val: 2u8 };
    assert!(matches!(
        request_for(Operation::Get { key: 7 }, 3),
        ClientMessage::Get { key: 7, req_id: 3 }
    ));
    assert!(matches!(
        request_for(Operation::Put { pair }, 4),
        ClientMessage::Put { pair: KVPair { key: 1, val: 2 }, req_id: 4 }
    ));
    assert!(matches!(
        request_for(Operation::TriPut { pairs: [pair, pair, pair] }, 5),
        ClientMessage::TriPut { req_id: 5, .. }
    ));
}

#[test]
fn a_dropped_request_is_answered_by_its_kind() {
    let pair = KVPair { key: 1u64, val: 2u8 };
    assert!(matches!(
        dropped_response(&LocalMessage::<u64, u8>::Get { key: 1 }, 3),
        Some(ClientResponse::GetResult { val: None, req_id: 3 })
    ));
    assert!(matches!(
        dropped_response(&LocalMessage::Put { pair }, 4),
        Some(ClientResponse::WriteResult { success: false, req_id: 4 })
    ));
    assert!(matches!(
        dropped_response(&LocalMessage::TriPut { pairs: [pair, pair, pair] }, 5),
        Some(ClientResponse::WriteResult { success: false, req_id: 5 })
    ));
    assert!(dropped_response(&LocalMessage::<u64, u8>::Done, 6).is_none());
}

#[test]
fn a_write_is_tried_ten_times() {
    assert_eq!(MAX_RETRIES, 10);
    assert_eq!(after_attempt(Some(true), 1), AfterAttempt::Finished(true));
    assert_eq!(after_attempt(Some(false), 1), AfterAttempt::Retry);
    assert_eq!(after_attempt(Some(false), 9), AfterAttempt::Retry);
    assert_eq!(after_attempt(Some(false), 10), AfterAttempt::GivenUp);
    assert_eq!(after_attempt(Some(true), 10), AfterAttempt::Finished(true));
    assert_eq!(after_attempt(None, 1), AfterAttempt::Finished(false));
}

#[test]
fn a_refused_write_makes_ten_attempts_and_is_given_up() {
    let mut attempts = 0;
    let end = loop {
        attempts += 1;
        match after_attempt(Some(false), attempts) {
            AfterAttempt::Retry => {}
            end => break end,
        }
    };
    assert_eq!(attempts, 10);
    assert_eq!(end, AfterAttempt::GivenUp);
}

#[test]
fn pauses_double_five_times() {
    let pauses: Vec<u64> = (0..8).map(|attempts| backoff_ms(attempts, 0)).collect();
    assert_eq!(pauses, vec![10, 20, 40, 80, 160, 320, 320, 320]);
    assert_eq!(backoff_ms(1, 19), 39);
    for attempts in 1..9 {
        let pause = random_backoff_ms(attempts);
        assert!(backoff_ms(attempts, 0) <= pause && pause < backoff_ms(attempts, 20));
    }
}

#[test]
fn a_client_introduces_itself() {
    assert_eq!(client_hello("ariel").client_name, "client-ariel");
}

#[test]
fn client_messages_become_requests() {
    let pair = KVPair { key: 1u64, val: 2u8 };
    assert!(matches!(
        local_request(ClientMessage::<u64, u8>::Get { key: 7, req_id: 3 }),
        (LocalMessage::Get { key: 7 }, Some(3))
    ));
    assert!(matches!(
        local_request(ClientMessage::Put { pair, req_id: 4 }),
        (LocalMessage::Put { .. }, Some(4))
    ));
    assert!(matches!(
        local_request(ClientMessage::TriPut { pairs: [pair, pair, pair], req_id: 5 }),
        (LocalMessage::TriPut { .. }, Some(5))
    ));
    assert!(matches!(
        local_request(ClientMessage::<u64, u8>::Done),
        (LocalMessage::Done, None)
    ));
}

#[test]
fn answers_carry_the_request_number() {
    assert!(matches!(
        get_response(Some(Some(9u8)), 3),
        ClientResponse::GetResult { val: Some(9), req_id: 3 }
    ));
    assert!(matches!(
        get_response::<u8>(None, 3),
        ClientResponse::GetResult { val: None, req_id: 3 }
    ));
    assert!(matches!(
        write_response::<u8>(Some(true), 4),
        ClientResponse::WriteResult { success: true, req_id: 4 }
    ));
    assert!(matches!(
        write_response::<u8>(None, 4),
        ClientResponse::WriteResult { success: false, req_id: 4 }
    ));
    assert_eq!(write_response::<u8>(None, 4).req_id(), 4);
}

#[test]
fn rolls_stand_for_operations() {
    assert_eq!(kind_of_roll(0), OperationKind::Put);
    assert_eq!(kind_of_roll(19), OperationKind::Put);
    assert_eq!(kind_of_roll(20), OperationKind::TriPut);
    assert_eq!(kind_of_roll(39), OperationKind::TriPut);
    assert_eq!(kind_of_roll(40), OperationKind::Get);
    assert_eq!(kind_of_roll(99), OperationKind::Get);
    for _ in 0..20 {
        assert!(matches!(operation_for_roll(0, 5), Operation::Put { .. }));
        assert!(matches!(operation_for_roll(20, 5), Operation::TriPut { .. }));
        assert!(matches!(operation_for_roll(40, 1), Operation::Get { key: 0 }));
    }
}

#[test]
fn operations_are_of_all_kinds_and_in_range() {
    let operations = generate_test_operations(2000, 10);
    assert_eq!(operations.len(), 2000);
    let (mut gets, mut puts, mut triputs) = (0, 0, 0);
    for operation in operations {
        match operation {
            Operation::Get { key } => {
                gets += 1;
                assert!(key < 10);
            }
            Operation::Put { pair } => {
                puts += 1;
                assert!(pair.key < 10);
            }
            Operation::TriPut { pairs } => {
                triputs += 1;
                assert!(pairs.iter().all(|pair| pair.key < 10));
                assert!(pairs[0].key != pairs[1].key);
                assert!(pairs[0].key != pairs[2].key);
                assert!(pairs[1].key != pairs[2].key);
            }
        }
    }
    assert!(gets > 900 && gets < 1500);
    assert!(puts > 200 && puts < 700);
    assert!(triputs > 200 && triputs < 700);
    assert!(generate_test_operations(0, 0).is_empty());
}

#[test]
fn drawn_keys_and_values_vary() {
    let mut keys = vec![];
    let mut values = vec![];
    for _ in 0..200 {
        match random_operation(OperationKind::Put, 1 << 40) {
            Operation::Put { pair } => {
                keys.push(pair.key);
                values.push(pair.val);
            }
            _ => panic!("expected a Put"),
        }
    }
    keys.sort();
    keys.dedup();
    values.sort();
    values.dedup();
    assert!(keys.len() > 100);
    assert!(values.len() > 50);
}

#[test]
fn a_triput_pairs_keys_with_values() {
    match tri_put((1, 2, 3), (10, 20, 30)) {
        Operation::TriPut { pairs } => {
            let listed: Vec<(u64, u8)> = pairs.iter().map(|p| (p.key, p.val)).collect();
            assert_eq!(listed, vec![(1, 10), (2, 20), (3, 30)]);
        }
        _ => panic!("expected a TriPut"),
    }
}

#[test]
fn a_unique_key_differs_from_both() {
    for k1 in 0..3 {
        for k2 in 0..3 {
            for _ in 0..20 {
                let key = unique_random(k1, k2, 3);
                assert!(key < 3 && key != k1 && key != k2);
            }
            let least = least_unused(k1, k2);
            assert!(least < 3 && is_unused(least, k1, k2));
        }
    }
    // Two keys are enough where only one of them is taken.
    assert_eq!(unique_random(0, 0, 2), 1);
    assert_eq!(unique_random(1, 9, 2), 0);
    assert_eq!(least_unused(5, 6), 0);
    assert_eq!(least_unused(0, 6), 1);
    assert_eq!(least_unused(1, 0), 2);
}

#[test]
fn progress_is_told_at_every_tenth() {
    assert_eq!(print_progress(0, 100), Some(0));
    assert_eq!(print_progress(10, 100), Some(10));
    assert_eq!(print_progress(15, 100), None);
    assert_eq!(print_progress(90, 100), Some(90));
    assert_eq!(print_progress(0, 9), None);
    assert_eq!(print_progress(3, 35), Some(8));
}

#[test]
fn intervals_are_counted_and_taken() {
    let mut metrics = IntervalMetrics::new();
    metrics.record(100, true);
    metrics.record(50, false);
    metrics.record_given_up();
    assert_eq!(
        metrics.take_interval(),
        Interval { latency_sum_us: 150, op_count: 2, success_count: 1 }
    );
    assert_eq!(
        metrics.take_interval(),
        Interval { latency_sum_us: 0, op_count: 0, success_count: 0 }
    );
    assert_eq!(metrics.max_retries_hit, 1);
    metrics.record(u64::MAX, true);
    metrics.record(2, true);
    assert_eq!(metrics.take_interval().latency_sum_us, 1);
}

#[test]
fn latencies_are_summed_up() {
    assert_eq!(summarize(vec![7]), LatencySummary { avg: 7, p50: 7, p99: 7 });
    assert_eq!(
        summarize(vec![40, 10, 30, 20]),
        LatencySummary { avg: 25, p50: 30, p99: 40 }
    );
    let mut many: Vec<u64> = (0..200).rev().collect();
    many.push(1000);
    assert_eq!(summarize(many), LatencySummary { avg: 103, p50: 100, p99: 198 });
    assert_eq!(
        summarize(vec![u64::MAX, u64::MAX]),
        LatencySummary { avg: u64::MAX, p50: u64::MAX, p99: u64::MAX }
    );
}
