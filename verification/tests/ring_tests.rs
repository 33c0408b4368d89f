use std::hash::BuildHasherDefault;
use std::hash::Hasher;

use hulahoop::HashRing;
use rustc_hash::FxHasher;

#[test]
fn lib_adding_a_node_works() {
    let mut ring: HashRing<&str, _> = HashRing::new();
    let node = "10.0.0.1:12345";
    ring.insert(node, 1);

    assert_eq!(ring.virtual_node_count(), 1);
}

#[test]
fn lib_adding_a_node_with_many_virtual_nodes_works() {
    let mut ring: HashRing<&str, _> = HashRing::new();
    let node = "10.0.0.1:12345";
    ring.insert(node, 100);

    assert_eq!(ring.virtual_node_count(), 100);
}

#[test]
fn lib_adding_multiple_nodes_with_many_virtual_nodes_works() {
    let mut ring: HashRing<&str, _> = HashRing::new();
    let node_1 = "10.0.0.1:12345";
    let node_2 = "20.0.0.1:12345";
    ring.insert(node_1, 100);
    ring.insert(node_2, 500);

    assert_eq!(ring.virtual_node_count(), 600);
}

#[test]
fn lib_removing_a_node_works() {
    let mut ring: HashRing<&str, _> = HashRing::new();
    let node = "10.0.0.1:12345";
    ring.insert(node, 1);
    assert_eq!(ring.virtual_node_count(), 1);

    ring.remove(&node);
    assert_eq!(ring.virtual_node_count(), 0);
}

#[test]
fn lib_removing_a_node_with_many_virtual_nodes_works() {
    let mut ring: HashRing<&str, _> = HashRing::new();
    let node = "10.0.0.1:12345";
    ring.insert(node, 100);
    assert_eq!(ring.virtual_node_count(), 100);

    let nodes_removed = ring.remove(&node);
    assert_eq!(nodes_removed, 100);
    assert_eq!(ring.virtual_node_count(), 0);
}

#[test]
fn lib_removing_multiple_nodes_with_many_virtual_nodes_works() {
    let mut ring: HashRing<&str, _> = HashRing::new();
    let node_1 = "10.0.0.1:12345";
    let node_2 = "20.0.0.1:12345";
    ring.insert(node_1, 100);
    ring.insert(node_2, 500);
    assert_eq!(ring.virtual_node_count(), 600);
    assert_eq!(ring.len(), 2);

    let nodes_removed = ring.remove(&node_1);
    assert_eq!(nodes_removed, 100);
    assert_eq!(ring.virtual_node_count(), 500);
    assert_eq!(ring.len(), 1);

    let nodes_removed = ring.remove(&node_2);
    assert_eq!(nodes_removed, 500);
    assert_eq!(ring.len(), 0);
}

#[test]
fn lib_adding_one_node_and_getting_works() {
    let mut ring: HashRing<&str, _> = HashRing::new();
    let node = "10.0.0.1:12345";
    ring.insert(node, 1);

    let node_for_val_a = ring.get("abc");
    let node_for_val_b = ring.get(12345);

    assert_eq!(node_for_val_a, Some(&node));
    assert_eq!(node_for_val_b, Some(&node));
}

#[test]
fn lib_adding_multiple_nodes_and_getting_works() {
    let mut ring: HashRing<&str, _> = HashRing::new();
    let node_1 = "10.0.0.1:12345";
    let node_2 = "20.0.0.1:12345";
    let node_3 = "30.0.0.1:12345";
    ring.insert(node_1, 1);
    ring.insert(node_2, 1);
    ring.insert(node_3, 1);

    let node_for_val_a = ring.get("hula");
    let node_for_val_b = ring.get(12345);
    let node_for_val_c = ring.get(54321);
    let node_for_val_d = ring.get(b"12345");

    assert_eq!(node_for_val_a, Some(&node_3));
    assert_eq!(node_for_val_b, Some(&node_2));
    assert_eq!(node_for_val_c, Some(&node_3));
    assert_eq!(node_for_val_d, Some(&node_1));
}

#[test]
fn lib_adding_multiple_nodes_getting_and_removing_works() {
    let mut ring: HashRing<&str, _> = HashRing::new();
    let node_1 = "10.0.0.1:12345";
    let node_2 = "20.0.0.1:12345";
    let node_3 = "30.0.0.1:12345";
    ring.insert(node_1, 1);
    ring.insert(node_2, 1);
    ring.insert(node_3, 1);

    let key_1 = "hula";
    let key_2 = 12345;
    let key_3 = 54321;
    let key_4 = b"12345";

    {
        let node_for_key_1 = ring.get(key_1);
        let node_for_val_2 = ring.get(key_2);
        let node_for_key_3 = ring.get(key_3);
        let node_for_key_4 = ring.get(key_4);

        assert_eq!(node_for_key_1, Some(&node_3));
        assert_eq!(node_for_val_2, Some(&node_2));
        assert_eq!(node_for_key_3, Some(&node_3));
        assert_eq!(node_for_key_4, Some(&node_1));
    }

    ring.remove(&node_1);

    {
        let node_for_key_1 = ring.get(key_1);
        let node_for_key_2 = ring.get(key_2);
        let node_for_key_3 = ring.get(key_3);
        let node_for_key_4 = ring.get(key_4);

        assert_eq!(node_for_key_1, Some(&node_3));
        assert_eq!(node_for_key_2, Some(&node_2));
        assert_eq!(node_for_key_3, Some(&node_3));
        // Only this value got remapped
        assert_eq!(node_for_key_4, Some(&node_2));
    }
}

#[test]
fn creating_a_hashring_with_custom_hasher_and_adding_and_getting_works() {
    let mut ring: HashRing<&str, _> =
        HashRing::with_hasher(BuildHasherDefault::<FxHasher>::default());
    let node = "10.0.0.1:12345";
    ring.insert(node, 1);

    let node_for_val_a = ring.get("abc");
    let node_for_val_b = ring.get(12345);

    assert_eq!(node_for_val_a, Some(&node));
    assert_eq!(node_for_val_b, Some(&node));
}

#[derive(Default, Debug)]
struct CollisionHasher;

impl Hasher for CollisionHasher {
    fn finish(&self) -> u64 {
        // To cause hash collisions
        1
    }

    fn write(&mut self, _bytes: &[u8]) {}
}

#[test]
fn virtual_node_collisions_is_not_an_issue() {
    let mut ring: HashRing<&str, _> =
        HashRing::with_hasher(BuildHasherDefault::<CollisionHasher>::default());
    let node = "10.0.0.1:12345";
    let node_2 = "10.0.0.2:12345";
    assert!(ring.insert(node, 3).is_none());
    assert_eq!(ring.insert(node_2, 2), Some(node));

    let node_for_val_a = ring.get("abc");
    let node_for_val_b = ring.get(12345);

    assert_eq!(node_for_val_a, Some(&node_2));
    assert_eq!(node_for_val_b, Some(&node_2));

    // Because of collisions, only 1 virtual node was added
    assert_eq!(ring.remove(&node_2), 1);
    assert!(ring.is_empty())
}

#[test]
fn adding_the_same_node_twice_works() {
    let mut ring: HashRing<&str, _> = HashRing::new();
    let node = "10.0.0.1:12345";
    assert_eq!(ring.insert(node, 5), None);
    assert_eq!(ring.insert(node, 3), Some(node));

    assert_eq!(ring.len(), 1);
}

#[test]
fn contains_node_works() {
    let mut ring: HashRing<&str, _> = HashRing::new();
    let node_1 = "10.0.0.1:12345";
    ring.insert(node_1, 5);
    assert!(ring.contains_node(&node_1));

    let node_2 = "10.0.0.2:12345";
    ring.insert(node_2, 10);
    assert!(ring.contains_node(&node_2));

    ring.remove(&node_1);
    assert!(!ring.contains_node(&node_1));
    assert!(ring.contains_node(&node_2));

    ring.remove(&node_2);
    assert!(!ring.contains_node(&node_2));
}

#[test]
fn read_me_test() {
    let mut map: HashRing<&str, _> = HashRing::default();

    // Nodes only need to implement Hash
    // Provide a weight to define the number of virtual nodes
    map.insert("10.0.0.1:1234", 10);
    map.insert("10.0.0.2:1234", 10);

    // Keys also only need to implement Hash
    assert_eq!(map.get("Some key"), Some(&"10.0.0.1:1234"));
    assert_eq!(map.get("Another key"), Some(&"10.0.0.2:1234"));

    map.remove(&"10.0.0.2:1234");

    assert_eq!(map.get("Some key"), Some(&"10.0.0.1:1234"));
    assert_eq!(map.get("Another key"), Some(&"10.0.0.1:1234"));
}
