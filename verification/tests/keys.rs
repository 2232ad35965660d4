use b_plus_tree::key::key_less;
use b_plus_tree::node::{
    child_slot, key_position, redirect_all, InternalNode, LeafNode, NodeType,
};

fn strings(xs: &[&str]) -> Vec<String> {
    xs.iter().map(|x| x.to_string()).collect()
}

#[test]
fn key_less_orders_as_strings_are_ordered() {
    let samples = strings(&[
        "", "a", "aa", "ab", "b", "B", "0", "~", "a\u{0}", "\u{7f}", "\u{80}", "\u{7ff}", "\u{800}",
        "\u{d7ff}", "\u{e000}", "\u{ffff}", "\u{10000}", "\u{10ffff}", "\u{e9}t\u{e9}", "\u{e9}",
        "e\u{301}", "\u{4e2d}\u{6587}", "\u{4e2d}", "z\u{1f600}", "\u{1f600}z",
    ]);
    for a in &samples {
        for b in &samples {
            assert_eq!(key_less(a, b), a < b, "{:?} against {:?}", a, b);
        }
    }
}

#[test]
fn key_less_is_strict() {
    assert!(key_less(&"a".to_string(), &"b".to_string()));
    assert!(!key_less(&"b".to_string(), &"a".to_string()));
    assert!(!key_less(&"a".to_string(), &"a".to_string()));
    assert!(key_less(&"".to_string(), &"a".to_string()));
    assert!(!key_less(&"".to_string(), &"".to_string()));
    assert!(key_less(&"ab".to_string(), &"abc".to_string()));
    assert!(key_less(&"Z".to_string(), &"a".to_string()));
}

#[test]
fn child_slot_goes_right_of_an_equal_separator() {
    let keys = strings(&["d", "g"]);
    assert_eq!(child_slot(&keys, &"a".to_string()), 0);
    assert_eq!(child_slot(&keys, &"c".to_string()), 0);
    assert_eq!(child_slot(&keys, &"d".to_string()), 1);
    assert_eq!(child_slot(&keys, &"e".to_string()), 1);
    assert_eq!(child_slot(&keys, &"g".to_string()), 2);
    assert_eq!(child_slot(&keys, &"z".to_string()), 2);
}

#[test]
fn child_slot_of_no_separators_is_zero() {
    let keys: Vec<String> = Vec::new();
    assert_eq!(child_slot(&keys, &"a".to_string()), 0);
}

#[test]
fn key_position_is_that_of_the_first_key_not_smaller() {
    let keys = strings(&["b", "d", "f"]);
    assert_eq!(key_position(&keys, &"a".to_string()), 0);
    assert_eq!(key_position(&keys, &"b".to_string()), 0);
    assert_eq!(key_position(&keys, &"c".to_string()), 1);
    assert_eq!(key_position(&keys, &"d".to_string()), 1);
    assert_eq!(key_position(&keys, &"f".to_string()), 2);
    assert_eq!(key_position(&keys, &"g".to_string()), 3);
}

#[test]
fn keys_are_ordered_by_code_point() {
    // A prefix comes first; an upper-case letter comes before a lower-case
    // one; a character of two bytes comes after every character of one byte,
    // and one of three bytes after it.
    let keys = strings(&["", "B", "a", "ab", "b", "\u{e9}", "\u{4e2d}", "\u{1f600}"]);
    for (i, k) in keys.iter().enumerate() {
        assert_eq!(key_position(&keys, k), i);
        assert_eq!(child_slot(&keys, k), i + 1);
    }
    assert_eq!(key_position(&keys, &"aa".to_string()), 3);
    assert_eq!(key_position(&keys, &"abc".to_string()), 4);
    assert_eq!(key_position(&keys, &"\u{ffff}".to_string()), 7);
}

#[test]
fn leaf_insert_keeps_the_keys_ascending() {
    let mut leaf = LeafNode::new(None);
    for k in ["m", "c", "x", "a", "t"] {
        leaf.insert(k.to_string(), k.to_uppercase());
    }
    assert_eq!(leaf.keys, strings(&["a", "c", "m", "t", "x"]));
    assert_eq!(leaf.values, strings(&["A", "C", "M", "T", "X"]));
    assert_eq!(leaf.parent, None);
}

#[test]
fn leaf_insert_overwrites_the_value_of_a_key_it_holds() {
    let mut leaf = LeafNode::new(Some(7));
    leaf.insert("a".to_string(), "1".to_string());
    leaf.insert("b".to_string(), "2".to_string());
    leaf.insert("a".to_string(), "3".to_string());
    assert_eq!(leaf.keys, strings(&["a", "b"]));
    assert_eq!(leaf.values, strings(&["3", "2"]));
    assert_eq!(leaf.parent, Some(7));
}

#[test]
fn leaf_split_keeps_a_copy_of_the_key_at_the_cut() {
    let mut leaf = LeafNode::new(Some(2));
    for k in ["a", "b", "c", "d", "e", "f"] {
        leaf.insert(k.to_string(), k.to_uppercase());
    }
    let (key, right) = leaf.split(3, Some(9));
    assert_eq!(key, "d");
    assert_eq!(leaf.keys, strings(&["a", "b", "c"]));
    assert_eq!(leaf.values, strings(&["A", "B", "C"]));
    assert_eq!(leaf.parent, Some(9));
    assert_eq!(right.keys, strings(&["d", "e", "f"]));
    assert_eq!(right.values, strings(&["D", "E", "F"]));
    assert_eq!(right.parent, Some(9));
}

#[test]
fn internal_split_gives_the_key_at_the_cut_away() {
    let mut node = InternalNode::new(None);
    node.keys = strings(&["b", "d", "f", "h", "j", "l"]);
    node.children = vec![10, 11, 12, 13, 14, 15, 16];
    let (key, right) = node.split(2, Some(4));
    assert_eq!(key, "f");
    assert_eq!(node.keys, strings(&["b", "d"]));
    assert_eq!(node.children, vec![10, 11, 12]);
    assert_eq!(node.parent, Some(4));
    assert_eq!(right.keys, strings(&["h", "j", "l"]));
    assert_eq!(right.children, vec![13, 14, 15, 16]);
    assert_eq!(right.parent, Some(4));
}

#[test]
fn child_for_picks_the_child_in_front_of_the_first_greater_separator() {
    let mut node = InternalNode::new(None);
    node.keys = strings(&["d", "g"]);
    node.children = vec![5, 8, 3];
    assert_eq!(node.child_for(&"a".to_string()), 5);
    assert_eq!(node.child_for(&"d".to_string()), 8);
    assert_eq!(node.child_for(&"f".to_string()), 8);
    assert_eq!(node.child_for(&"g".to_string()), 3);
    assert_eq!(node.child_for(&"q".to_string()), 3);
}

#[test]
fn new_nodes_are_empty() {
    let node = InternalNode::new(Some(3));
    assert_eq!(node.parent, Some(3));
    assert!(node.keys.is_empty());
    assert!(node.children.is_empty());
    let leaf = LeafNode::new(None);
    assert_eq!(leaf.parent, None);
    assert!(leaf.keys.is_empty());
    assert!(leaf.values.is_empty());
}

#[test]
fn node_getters_read_both_kinds() {
    let mut inner = InternalNode::new(Some(1));
    inner.keys = strings(&["k"]);
    inner.children = vec![4, 5];
    let node = NodeType::Internal(inner);
    assert_eq!(node.parent(), Some(1));
    assert_eq!(node.keys(), &strings(&["k"]));
    assert!(!node.is_leaf());
    let leaf = NodeType::Leaf(LeafNode::new(None));
    assert_eq!(leaf.parent(), None);
    assert!(leaf.keys().is_empty());
    assert!(leaf.is_leaf());
}

#[test]
fn set_parent_changes_the_parent_only() {
    let mut inner = InternalNode::new(Some(1));
    inner.keys = strings(&["k"]);
    inner.children = vec![4, 5];
    let mut node = NodeType::Internal(inner);
    node.set_parent(Some(6));
    assert_eq!(node.parent(), Some(6));
    match &node {
        NodeType::Internal(n) => {
            assert_eq!(n.keys, strings(&["k"]));
            assert_eq!(n.children, vec![4, 5]);
        }
        NodeType::Leaf(_) => panic!("the node changed its kind"),
    }
}

#[test]
fn redirect_renames_one_index() {
    let mut inner = InternalNode::new(Some(9));
    inner.keys = strings(&["k", "m"]);
    inner.children = vec![9, 5, 7];
    let mut node = NodeType::Internal(inner);
    node.redirect(9, 2);
    assert_eq!(node.parent(), Some(2));
    match &node {
        NodeType::Internal(n) => assert_eq!(n.children, vec![2, 5, 7]),
        NodeType::Leaf(_) => panic!("the node changed its kind"),
    }
    let mut leaf = NodeType::Leaf(LeafNode::new(Some(4)));
    leaf.redirect(9, 2);
    assert_eq!(leaf.parent(), Some(4));
    leaf.redirect(4, 0);
    assert_eq!(leaf.parent(), Some(0));
}

#[test]
fn redirect_all_replaces_every_occurrence() {
    let mut list = vec![3, 9, 4, 9, 0];
    redirect_all(&mut list, 9, 1);
    assert_eq!(list, vec![3, 1, 4, 1, 0]);
    redirect_all(&mut list, 7, 2);
    assert_eq!(list, vec![3, 1, 4, 1, 0]);
    let mut empty: Vec<usize> = Vec::new();
    redirect_all(&mut empty, 0, 1);
    assert!(empty.is_empty());
}
