use hulahoop::hashring::HashRing;

#[test]
fn hashring_adding_a_node_works() {
    let mut ring: HashRing<&str> = HashRing::new();
    let node = "10.0.0.1:12345";
    ring.add(node, 1);

    assert_eq!(ring.virtual_node_count(), 1);
}

#[test]
fn hashring_adding_a_node_with_many_virtual_nodes_works() {
    let mut ring: HashRing<&str> = HashRing::new();
    let node = "10.0.0.1:12345";
    ring.add(node, 100);

    assert_eq!(ring.virtual_node_count(), 100);
}

#[test]
fn hashring_adding_multiple_nodes_with_many_virtual_nodes_works() {
    let mut ring: HashRing<&str> = HashRing::new();
    let node_1 = "10.0.0.1:12345";
    let node_2 = "20.0.0.1:12345";
    ring.add(node_1, 100);
    ring.add(node_2, 500);

    assert_eq!(ring.virtual_node_count(), 600);
}

#[test]
fn hashring_removing_a_node_works() {
    let mut ring: HashRing<&str> = HashRing::new();
    let node = "10.0.0.1:12345";
    ring.add(node, 1);
    assert_eq!(ring.virtual_node_count(), 1);

    ring.remove(node);
    assert_eq!(ring.virtual_node_count(), 0);
}

#[test]
fn hashring_removing_a_node_with_many_virtual_nodes_works() {
    let mut ring: HashRing<&str> = HashRing::new();
    let node = "10.0.0.1:12345";
    ring.add(node, 100);
    assert_eq!(ring.virtual_node_count(), 100);

    let nodes_removed = ring.remove(node);
    assert_eq!(nodes_removed, 100);
    assert_eq!(ring.virtual_node_count(), 0);
}

#[test]
fn hashring_removing_multiple_nodes_with_many_virtual_nodes_works() {
    let mut ring: HashRing<&str> = HashRing::new();
    let node_1 = "10.0.0.1:12345";
    let node_2 = "20.0.0.1:12345";
    ring.add(node_1, 100);
    ring.add(node_2, 500);
    assert_eq!(ring.virtual_node_count(), 600);

    let nodes_removed = ring.remove(node_1);
    assert_eq!(nodes_removed, 100);
    assert_eq!(ring.virtual_node_count(), 500);

    let nodes_removed = ring.remove(node_2);
    assert_eq!(nodes_removed, 500);
    assert_eq!(ring.virtual_node_count(), 0);
}

#[test]
fn hashring_adding_one_node_and_getting_works() {
    let mut ring: HashRing<&str> = HashRing::new();
    let node = "10.0.0.1:12345";
    ring.add(node, 1);

    let node_for_val_a = ring.get_by_key("abc");
    let node_for_val_b = ring.get_by_key(12345);

    assert_eq!(node_for_val_a, Some(&node));
    assert_eq!(node_for_val_b, Some(&node));
}

#[test]
fn hashring_adding_multiple_nodes_and_getting_works() {
    let mut ring: HashRing<&str> = HashRing::new();
    let node_1 = "10.0.0.1:12345";
    let node_2 = "20.0.0.1:12345";
    let node_3 = "30.0.0.1:12345";
    ring.add(node_1, 1);
    ring.add(node_2, 1);
    ring.add(node_3, 1);

    let node_for_val_a = ring.get_by_key("hula");
    let node_for_val_b = ring.get_by_key(12345);
    let node_for_val_c = ring.get_by_key(54321);
    let node_for_val_d = ring.get_by_key(b"12345");

    assert_eq!(node_for_val_a, Some(&node_3));
    assert_eq!(node_for_val_b, Some(&node_2));
    assert_eq!(node_for_val_c, Some(&node_3));
    assert_eq!(node_for_val_d, Some(&node_1));
}

#[test]
fn hashring_adding_multiple_nodes_getting_and_removing_works() {
    let mut ring: HashRing<&str> = HashRing::new();
    let node_1 = "10.0.0.1:12345";
    let node_2 = "20.0.0.1:12345";
    let node_3 = "30.0.0.1:12345";
    ring.add(node_1, 1);
    ring.add(node_2, 1);
    ring.add(node_3, 1);

    let key_1 = "hula";
    let key_2 = 12345;
    let key_3 = 54321;
    let key_4 = b"12345";

    {
        let node_for_key_1 = ring.get_by_key(key_1);
        let node_for_val_2 = ring.get_by_key(key_2);
        let node_for_key_3 = ring.get_by_key(key_3);
        let node_for_key_4 = ring.get_by_key(key_4);

        assert_eq!(node_for_key_1, Some(&node_3));
        assert_eq!(node_for_val_2, Some(&node_2));
        assert_eq!(node_for_key_3, Some(&node_3));
        assert_eq!(node_for_key_4, Some(&node_1));
    }

    ring.remove(node_1);

    {
        let node_for_key_1 = ring.get_by_key(key_1);
        let node_for_key_2 = ring.get_by_key(key_2);
        let node_for_key_3 = ring.get_by_key(key_3);
        let node_for_key_4 = ring.get_by_key(key_4);

        assert_eq!(node_for_key_1, Some(&node_3));
        assert_eq!(node_for_key_2, Some(&node_2));
        assert_eq!(node_for_key_3, Some(&node_3));
        // Only this value got remapped
        assert_eq!(node_for_key_4, Some(&node_2));
    }
}
