use dht::db::{sort_entries, StripedDb};
use dht::types::KVPair;

#[test]
fn test_put_and_get() {
    let mut db = StripedDb::new(8);
    assert!(db.put(1u64, "hello", 1));
    assert_eq!(db.get(&1), Some(("hello", 1)));
    assert_eq!(db.get(&2), None);
}

#[test]
fn test_put_replaces_with_higher_version() {
    let mut db = StripedDb::new(8);
    assert!(db.put(1u64, "first", 1));
    assert!(db.put(1u64, "second", 2));
    assert_eq!(db.get(&1), Some(("second", 2)));
}

#[test]
fn test_put_rejects_lower_version() {
    let mut db = StripedDb::new(8);
    assert!(db.put(1u64, "first", 5));
    assert!(!db.put(1u64, "second", 3));
    assert_eq!(db.get(&1), Some(("first", 5)));
}

#[test]
fn test_put_accepts_equal_version() {
    let mut db = StripedDb::new(8);
    assert!(db.put(1u64, "first", 5));
    assert!(db.put(1u64, "second", 5));
    assert_eq!(db.get(&1), Some(("second", 5)));
}

fn entry(key: u64, val: u8, stripe: usize) -> (KVPair<u64, u8>, usize) {
    (KVPair { key, val }, stripe)
}

#[test]
fn entries_are_sorted_by_stripe_and_keep_their_order_within_one() {
    let sorted = sort_entries(vec![
        entry(1, 10, 3),
        entry(2, 20, 0),
        entry(3, 30, 3),
        entry(4, 40, 1),
        entry(5, 50, 0),
    ]);
    let order: Vec<(u64, usize)> = sorted.iter().map(|(pair, stripe)| (pair.key, *stripe)).collect();
    assert_eq!(order, vec![(2, 0), (5, 0), (4, 1), (1, 3), (3, 3)]);
}

#[test]
fn locks_are_taken_all_or_none() {
    let mut db: StripedDb<u8> = StripedDb::new(4);
    let first = vec![entry(1, 1, 0), entry(2, 2, 0), entry(3, 3, 2)];
    assert!(db.try_lock(&first, 7));
    assert_eq!(db.holder(0), Some(7));
    assert_eq!(db.holder(1), None);
    assert_eq!(db.holder(2), Some(7));

    // Stripe 1 is free, stripe 2 is not: neither is taken.
    let second = vec![entry(4, 4, 1), entry(5, 5, 2)];
    assert!(!db.try_lock(&second, 8));
    assert_eq!(db.holder(1), None);
    assert_eq!(db.holder(2), Some(7));

    db.unlock(&first);
    assert_eq!(db.holder(0), None);
    assert_eq!(db.holder(2), None);
    assert!(db.try_lock(&second, 8));
    assert_eq!(db.holder(1), Some(8));
}

#[test]
fn the_last_write_of_a_key_wins_whatever_its_version() {
    let mut db: StripedDb<u8> = StripedDb::new(4);
    assert!(db.put(1, 9, 100));
    db.write_all(vec![entry(1, 1, 0), entry(2, 2, 0), entry(1, 3, 0)], 5);
    assert_eq!(db.get(&1), Some((3, 5)));
    assert_eq!(db.get(&2), Some((2, 5)));
    assert_eq!(db.get(&3), None);
}

#[test]
fn every_key_has_a_stripe() {
    let db: StripedDb<u8> = StripedDb::new(3);
    assert_eq!(db.num_stripes(), 3);
    for key in 0..100u64 {
        assert!(db.stripe_index(&key) < 3);
        let _ = db.get_stripe_by_index(db.stripe_index(&key));
    }
}
