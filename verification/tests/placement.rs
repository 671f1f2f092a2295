use dht::ring::{hash_key, hash_slot, key_replica_indices, ring_positions};
use dht::types::NodeId;
use std::collections::hash_map::DefaultHasher;
use std::hash::{Hash, Hasher};

fn make_cluster(n: usize) -> Vec<NodeId> {
    let names = [
        "ariel", "caliban", "callisto", "ceres", "chiron", "cupid", "eris", "europa", "hydra",
        "iapetus",
    ];
    (0..n).map(|i| NodeId::new(names[i].to_string(), i)).collect()
}

#[test]
fn single_replica_returns_one_node() {
    let cluster = make_cluster(5);
    let key: u64 = 42;
    let replicas = key_replica_indices(&key, cluster.len(), 1);
    assert_eq!(replicas.len(), 1);
    assert!(replicas[0] < cluster.len());
}

#[test]
fn replication_degree_returns_correct_count() {
    let cluster = make_cluster(5);
    let key: u64 = 42;

    for degree in 1..=5 {
        let replicas = key_replica_indices(&key, cluster.len(), degree);
        assert_eq!(replicas.len(), degree);
    }
}

#[test]
fn no_duplicate_replicas() {
    let cluster = make_cluster(5);
    let key: u64 = 99;
    let replicas = key_replica_indices(&key, cluster.len(), 5);

    let mut unique = replicas.clone();
    unique.sort();
    unique.dedup();
    assert_eq!(unique.len(), replicas.len());
}

#[test]
fn replicas_are_contiguous_on_ring() {
    let cluster = make_cluster(5);
    let key: u64 = 7;
    let replicas = key_replica_indices(&key, cluster.len(), 3);

    for i in 1..replicas.len() {
        assert_eq!(replicas[i], (replicas[i - 1] + 1) % cluster.len());
    }
}

#[test]
fn degree_capped_at_cluster_size() {
    let cluster = make_cluster(3);
    let key: u64 = 55;
    let replicas = key_replica_indices(&key, cluster.len(), 10);
    assert_eq!(replicas.len(), 3);
}

#[test]
fn same_key_same_replicas() {
    let cluster = make_cluster(5);
    let key: u64 = 123;
    let a = key_replica_indices(&key, cluster.len(), 2);
    let b = key_replica_indices(&key, cluster.len(), 2);
    assert_eq!(a, b);
}

#[test]
fn different_keys_distribute() {
    let cluster = make_cluster(5);
    let mut primary_counts = vec![0usize; cluster.len()];

    for key in 0u64..1000 {
        let replicas = key_replica_indices(&key, cluster.len(), 1);
        primary_counts[replicas[0]] += 1;
    }

    for (i, count) in primary_counts.iter().enumerate() {
        assert!(
            *count > 50,
            "node {} only got {} keys out of 1000, distribution looks broken",
            i,
            count
        );
    }
}

#[test]
fn wraps_around_ring() {
    let cluster = make_cluster(5);
    let key = (0u64..10000)
        .find(|k| {
            let replicas = key_replica_indices(k, cluster.len(), 1);
            replicas[0] == cluster.len() - 1
        })
        .expect("should find a key mapping to last node");

    let replicas = key_replica_indices(&key, cluster.len(), 3);
    assert_eq!(replicas[0], cluster.len() - 1);
    assert_eq!(replicas[1], 0);
    assert_eq!(replicas[2], 1);
}

#[test]
fn the_hash_of_a_key_is_that_of_the_default_hasher() {
    for key in [0u64, 1, 42, 0xdead_beef, u64::MAX] {
        let mut hasher = DefaultHasher::new();
        key.hash(&mut hasher);
        let expected = hasher.finish();
        assert_eq!(hash_key(key), expected);
        assert_eq!(hash_slot(key, 7), (expected as usize) % 7);
        assert_eq!(key_replica_indices(&key, 7, 1), vec![(expected as usize) % 7]);
    }
}

#[test]
fn positions_wrap() {
    assert_eq!(ring_positions(3, 5, 4), vec![3, 4, 0, 1]);
    assert_eq!(ring_positions(0, 1, 1), vec![0]);
    assert_eq!(ring_positions(2, 5, 0), Vec::<usize>::new());
}

#[test]
fn degree_zero_has_no_replicas() {
    assert_eq!(key_replica_indices(&9, 4, 0), Vec::<usize>::new());
}
