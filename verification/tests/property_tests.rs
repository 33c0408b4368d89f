use std::hash::BuildHasherDefault;
use std::hash::Hasher;

use hulahoop::table::RingTable;
use hulahoop::HashRing;

/// A hash capability that digests everything to the constant 1.
#[derive(Default, Debug)]
struct ConstantHasher;

impl Hasher for ConstantHasher {
    fn finish(&self) -> u64 {
        1
    }

    fn write(&mut self, _bytes: &[u8]) {}
}

#[test]
fn successor_rule_on_fixed_positions() {
    // Ring positions {5 -> a, 9 -> b}: a key digesting between them goes to
    // the next position up, a key digesting exactly onto a position goes to
    // that position's owner.
    let mut table: RingTable<&str> = RingTable::new();
    table.install("a", 1, &vec![5u64]);
    table.install("b", 1, &vec![9u64]);

    assert_eq!(table.lookup(7), Some(&"b"));
    assert_eq!(table.lookup(9), Some(&"b"));
    assert_eq!(table.lookup(5), Some(&"a"));
    assert_eq!(table.lookup(6), Some(&"b"));
}

#[test]
fn wraparound_on_fixed_positions() {
    // A key digesting above every position wraps around to the minimum.
    let mut table: RingTable<&str> = RingTable::new();
    table.install("a", 1, &vec![5u64]);
    table.install("b", 1, &vec![9u64]);

    assert_eq!(table.lookup(10), Some(&"a"));
    assert_eq!(table.lookup(u64::MAX), Some(&"a"));
    assert_eq!(table.lookup(0), Some(&"a"));
}

#[test]
fn lookup_on_empty_table_is_none() {
    let table: RingTable<&str> = RingTable::new();
    assert_eq!(table.lookup(0), None);
    assert_eq!(table.lookup(u64::MAX), None);
    assert_eq!(table.num_positions(), 0);
    assert_eq!(table.num_records(), 0);
}

#[test]
fn overwriting_a_position_evicts_the_loser() {
    // Two records fight over position 7: the later write wins, and the
    // record that loses its last position is gone from the distinct count.
    let mut table: RingTable<&str> = RingTable::new();
    table.install("a", 1, &vec![7u64]);
    assert_eq!(table.num_records(), 1);
    table.install("b", 1, &vec![7u64]);
    assert_eq!(table.num_positions(), 1);
    assert_eq!(table.num_records(), 1);
    assert_eq!(table.lookup(7), Some(&"b"));
}

#[test]
fn get_is_deterministic_across_repeated_calls() {
    let mut ring: HashRing<&str, _> = HashRing::new();
    ring.insert("10.0.0.1:12345", 10);
    ring.insert("10.0.0.2:12345", 10);

    let first = ring.get("some key").copied();
    for _ in 0..100 {
        assert_eq!(ring.get("some key").copied(), first);
    }
}

#[test]
fn inserting_with_zero_weight_is_a_no_op() {
    let mut ring: HashRing<&str, _> = HashRing::new();
    assert_eq!(ring.insert("10.0.0.1:12345", 0), None);
    assert!(ring.is_empty());
    assert_eq!(ring.len(), 0);
    assert_eq!(ring.virtual_node_count(), 0);
    assert_eq!(ring.get("anything"), None);
}

#[test]
fn removing_an_absent_node_is_idempotent() {
    let mut ring: HashRing<&str, _> = HashRing::new();
    assert_eq!(ring.remove(&"10.0.0.1:12345"), 0);
    assert!(ring.is_empty());

    ring.insert("10.0.0.2:12345", 4);
    let before = ring.virtual_node_count();
    assert_eq!(ring.remove(&"10.0.0.1:12345"), 0);
    assert_eq!(ring.virtual_node_count(), before);
    assert_eq!(ring.len(), 1);
    assert!(ring.contains_node(&"10.0.0.2:12345"));
}

#[test]
fn removal_reports_the_effective_weight() {
    let mut ring: HashRing<&str, _> = HashRing::new();
    let node = "10.0.0.1:12345";
    ring.insert(node, 25);
    let effective = ring.virtual_node_count() as u64;

    assert_eq!(ring.remove(&node), effective);
    assert!(!ring.contains_node(&node));
    assert!(ring.is_empty());
}

#[test]
fn colliding_insertions_leave_one_position_for_the_winner() {
    // Every digest is 1: node a's two candidates collapse to one position,
    // node b's three candidates displace a entirely.
    let mut ring: HashRing<&str, _> =
        HashRing::with_hasher(BuildHasherDefault::<ConstantHasher>::default());
    assert_eq!(ring.insert("a", 2), None);
    assert_eq!(ring.insert("b", 3), Some("a"));

    assert_eq!(ring.virtual_node_count(), 1);
    assert_eq!(ring.len(), 1);
    assert_eq!(ring.get("any key"), Some(&"b"));

    assert_eq!(ring.remove(&"b"), 1);
    assert!(ring.is_empty());
    assert_eq!(ring.len(), 0);
}

#[test]
fn reinsertion_with_another_weight_replaces_and_reports_the_old_node() {
    let mut ring: HashRing<String, _> = HashRing::new();
    assert_eq!(ring.insert(String::from("node"), 8), None);
    assert_eq!(ring.virtual_node_count(), 8);

    assert_eq!(ring.insert(String::from("node"), 2), Some(String::from("node")));
    assert_eq!(ring.virtual_node_count(), 2);
    assert_eq!(ring.len(), 1);
}

#[test]
fn weights_control_the_position_count_exactly() {
    let mut ring: HashRing<&str, _> = HashRing::new();
    ring.insert("10.0.0.1:12345", 7);
    assert_eq!(ring.virtual_node_count(), 7);
    assert_eq!(ring.len(), 1);
    ring.insert("10.0.0.2:12345", 13);
    assert_eq!(ring.virtual_node_count(), 20);
    assert_eq!(ring.len(), 2);
}
