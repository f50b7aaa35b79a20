use prefix_trie::Node;

#[test]
fn symbols_map_to_their_slots() {
    assert_eq!(Node::char_to_index(b'a'), 0);
    assert_eq!(Node::char_to_index(b'b'), 1);
    assert_eq!(Node::char_to_index(b'z'), 25);
    assert_eq!(Node::char_to_index(b'A'), 26);
    assert_eq!(Node::char_to_index(b'B'), 27);
    assert_eq!(Node::char_to_index(b'Z'), 51);
}

#[test]
fn slots_of_the_alphabet_are_all_different() {
    let mut taken = [false; 52];
    for b in (b'a'..=b'z').chain(b'A'..=b'Z') {
        let index = Node::char_to_index(b);
        assert!(index < 52);
        assert!(!taken[index]);
        taken[index] = true;
    }
    assert!(taken.iter().all(|slot| *slot));
}

#[test]
fn new_node_is_dead_weight() {
    let node = Node::new();
    assert!(node.is_useless());
    assert_eq!(node.search(""), None);
    assert_eq!(node.search("a"), None);
}

#[test]
fn node_with_id_or_child_is_no_dead_weight() {
    let mut with_id = Node::new();
    with_id.insert("", 5);
    assert!(!with_id.is_useless());
    assert_eq!(with_id.search(""), Some(5));

    let mut with_child = Node::new();
    with_child.insert("ab", 6);
    assert!(!with_child.is_useless());
    assert_eq!(with_child.search(""), None);
    assert_eq!(with_child.search("a"), None);
    assert_eq!(with_child.search("ab"), Some(6));
}

#[test]
fn node_delete_reports_success_and_dead_weight() {
    let mut node = Node::new();
    node.insert("ab", 1);
    node.insert("a", 2);
    node.insert("c", 3);
    assert_eq!(node.delete("abc"), (false, false));
    assert_eq!(node.delete("b"), (false, false));
    assert_eq!(node.delete("ab"), (true, false));
    assert_eq!(node.delete("ab"), (false, false));
    assert_eq!(node.search("a"), Some(2));
    assert_eq!(node.delete("c"), (true, false));
    assert_eq!(node.delete("a"), (true, true));
    assert!(node.is_useless());
    assert_eq!(node.delete("a"), (false, true));
}

#[test]
fn node_delete_of_empty_key_clears_own_id() {
    let mut node = Node::new();
    assert_eq!(node.delete(""), (false, true));
    node.insert("", 9);
    node.insert("x", 10);
    assert_eq!(node.delete(""), (true, false));
    assert_eq!(node.search(""), None);
    assert_eq!(node.search("x"), Some(10));
    assert_eq!(node.delete("x"), (true, true));
}
