use dht::types::{decimal_string, KVPair, NodeId};

#[test]
fn a_node_is_named_by_machine_and_number() {
    assert_eq!(NodeId::new("ariel".to_string(), 0).to_string(), "ariel_0");
    assert_eq!(NodeId::new("europa".to_string(), 1207).to_string(), "europa_1207");
    let node = NodeId::new("eris".to_string(), 3);
    assert_eq!(node.sunlab_name(), "eris");
    assert_eq!(node.id(), 3);
}

#[test]
fn nodes_are_equal_by_machine_and_number() {
    let a = NodeId::new("ariel".to_string(), 0);
    assert!(a == a.clone());
    assert!(a != NodeId::new("ariel".to_string(), 1));
    assert!(a != NodeId::new("eris".to_string(), 0));
}

#[test]
fn numbers_are_written_in_decimal() {
    assert_eq!(decimal_string(0), "0");
    assert_eq!(decimal_string(9), "9");
    assert_eq!(decimal_string(10), "10");
    assert_eq!(decimal_string(90210), "90210");
    assert_eq!(decimal_string(usize::MAX), format!("{}", usize::MAX));
}

#[test]
fn a_pair_can_be_copied() {
    let pair = KVPair { key: 1u64, val: 2u8 };
    let copy = pair;
    assert_eq!((pair.key, pair.val), (copy.key, copy.val));
    let words = KVPair { key: 1u64, val: "word".to_string() };
    assert_eq!(words.clone().val, words.val);
}
