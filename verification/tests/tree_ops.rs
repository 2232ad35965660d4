use b_plus_tree::delete::borrow_mut_nodes;
use b_plus_tree::node::{InternalNode, LeafNode, NodeType};
use b_plus_tree::tree::{BPlusTree, TreeError};

fn s(x: &str) -> String {
    x.to_string()
}

fn strings(xs: &[&str]) -> Vec<String> {
    xs.iter().map(|x| x.to_string()).collect()
}

fn leaf_keys(tree: &BPlusTree, index: usize) -> Vec<String> {
    match tree.node(index).unwrap() {
        NodeType::Leaf(leaf) => leaf.keys.clone(),
        NodeType::Internal(_) => panic!("node {} is not a leaf", index),
    }
}

fn leaf_values(tree: &BPlusTree, index: usize) -> Vec<String> {
    match tree.node(index).unwrap() {
        NodeType::Leaf(leaf) => leaf.values.clone(),
        NodeType::Internal(_) => panic!("node {} is not a leaf", index),
    }
}

fn internal(tree: &BPlusTree, index: usize) -> (Vec<String>, Vec<usize>) {
    match tree.node(index).unwrap() {
        NodeType::Internal(node) => (node.keys.clone(), node.children.clone()),
        NodeType::Leaf(_) => panic!("node {} is not internal", index),
    }
}

#[test]
fn new_tree_is_a_single_empty_leaf() {
    let tree = BPlusTree::new(2);
    assert_eq!(tree.fanout(), 2);
    assert_eq!(tree.node_count(), 1);
    assert_eq!(tree.root_index(), 0);
    assert_eq!(tree.height(), 0);
    assert!(leaf_keys(&tree, 0).is_empty());
    assert!(leaf_values(&tree, 0).is_empty());
    assert_eq!(tree.node(0).unwrap().parent(), None);
    assert_eq!(tree.get(s("a")), None);
}

#[test]
fn try_new_refuses_a_fanout_below_two() {
    assert_eq!(BPlusTree::try_new(0).err(), Some(TreeError::FanoutTooSmall));
    assert_eq!(BPlusTree::try_new(1).err(), Some(TreeError::FanoutTooSmall));
    let tree = BPlusTree::try_new(2).ok().unwrap();
    assert_eq!(tree.fanout(), 2);
    assert_eq!(tree.node_count(), 1);
}

#[test]
fn node_refuses_an_index_outside_the_arena() {
    let tree = BPlusTree::new(3);
    assert!(tree.node(0).is_ok());
    assert_eq!(tree.node(1).err(), Some(TreeError::InvalidIndex));
    assert_eq!(tree.node(usize::MAX).err(), Some(TreeError::InvalidIndex));
}

#[test]
fn errors_say_what_went_wrong() {
    assert_eq!(TreeError::FanoutTooSmall.message(), "the fanout of a tree must be at least 2");
    assert_eq!(TreeError::InvalidIndex.message(), "the arena has no node at this index");
    assert_eq!(TreeError::ArenaFull.message(), "the arena is full");
}

#[test]
fn try_insert_inserts_where_the_arena_has_room() {
    let mut tree = BPlusTree::new(2);
    for k in ["c", "a", "b", "d"] {
        assert_eq!(tree.try_insert(s(k), s(k)), Ok(()));
    }
    assert_eq!(tree.try_insert(s("a"), s("again")), Ok(()));
    assert_eq!(tree.get(s("a")), Some(s("again")));
    for k in ["b", "c", "d"] {
        assert_eq!(tree.get(s(k)), Some(s(k)));
    }
    assert_eq!(tree.node_count(), 3);
}

#[test]
fn insert_overwrites_without_a_change_of_shape() {
    let mut tree = BPlusTree::new(3);
    for k in ["a", "b", "c"] {
        tree.insert(s(k), s("old"));
    }
    tree.insert(s("b"), s("new"));
    assert_eq!(tree.node_count(), 1);
    assert_eq!(leaf_keys(&tree, 0), strings(&["a", "b", "c"]));
    assert_eq!(leaf_values(&tree, 0), strings(&["old", "new", "old"]));
    assert_eq!(tree.get(s("b")), Some(s("new")));
}

#[test]
fn overwriting_in_a_full_leaf_does_not_split() {
    let mut tree = BPlusTree::new(2);
    tree.insert(s("a"), s("1"));
    tree.insert(s("b"), s("2"));
    tree.insert(s("a"), s("3"));
    tree.insert(s("b"), s("4"));
    assert_eq!(tree.node_count(), 1);
    assert_eq!(tree.get(s("a")), Some(s("3")));
    assert_eq!(tree.get(s("b")), Some(s("4")));
}

#[test]
fn get_tells_values_apart_from_keys() {
    let mut tree = BPlusTree::new(4);
    tree.insert(s("key"), s("value"));
    assert_eq!(tree.get(s("key")), Some(s("value")));
    assert_eq!(tree.get(s("value")), None);
}

#[test]
fn deleting_a_missing_key_changes_nothing() {
    let mut tree = BPlusTree::new(5);
    for k in ["a", "b", "c", "d", "e", "f", "g"] {
        tree.insert(s(k), s(k));
    }
    let before: Vec<String> =
        (0..tree.node_count()).map(|i| format!("{:?}", tree.node(i).unwrap())).collect();
    tree.delete(s("zz"));
    tree.delete(s("c0"));
    tree.delete(s(""));
    let after: Vec<String> =
        (0..tree.node_count()).map(|i| format!("{:?}", tree.node(i).unwrap())).collect();
    assert_eq!(before, after);
    assert_eq!(tree.root_index(), 2);
}

#[test]
fn deleting_from_the_root_leaf_leaves_a_leaf() {
    let mut tree = BPlusTree::new(3);
    tree.insert(s("a"), s("1"));
    tree.insert(s("b"), s("2"));
    tree.delete(s("a"));
    assert_eq!(tree.node_count(), 1);
    assert_eq!(leaf_keys(&tree, 0), strings(&["b"]));
    assert_eq!(leaf_values(&tree, 0), strings(&["2"]));
    tree.delete(s("b"));
    assert!(leaf_keys(&tree, 0).is_empty());
    assert_eq!(tree.get(s("b")), None);
}

#[test]
fn a_leaf_next_to_a_large_neighbour_is_not_merged() {
    let mut tree = BPlusTree::new(5);
    for k in ["a", "b", "c", "d", "e", "f"] {
        tree.insert(s(k), s(k));
    }
    tree.delete(s("a"));
    tree.delete(s("b"));
    // One key and three keys are more than the merge threshold of two.
    assert_eq!(tree.node_count(), 3);
    assert_eq!(leaf_keys(&tree, 0), strings(&["c"]));
    assert_eq!(leaf_keys(&tree, 1), strings(&["d", "e", "f"]));
    tree.delete(s("c"));
    assert_eq!(tree.node_count(), 3);
    assert!(leaf_keys(&tree, 0).is_empty());
    tree.delete(s("d"));
    // Now the two leaves hold two keys together.
    assert_eq!(tree.node_count(), 2);
    let root = tree.root_index();
    let (keys, children) = internal(&tree, root);
    assert!(keys.is_empty());
    assert_eq!(children.len(), 1);
    assert_eq!(leaf_keys(&tree, children[0]), strings(&["e", "f"]));
}

#[test]
fn even_fanout_leaves_three_keys_on_the_left() {
    // Fanout 4: a leaf of five keys is cut behind its third key.
    let mut tree = BPlusTree::new(4);
    for k in ["a", "b", "c", "d", "e"] {
        tree.insert(s(k), s(k));
    }
    assert_eq!(leaf_keys(&tree, 0), strings(&["a", "b", "c"]));
    assert_eq!(leaf_keys(&tree, 1), strings(&["d", "e"]));
    assert_eq!(internal(&tree, 2), (strings(&["d"]), vec![0, 1]));
}

#[test]
fn fanout_two_splits_an_internal_node_at_its_first_key() {
    let mut tree = BPlusTree::new(2);
    for k in ["a", "b", "c", "d", "e", "f", "g"] {
        tree.insert(s(k), s(k));
    }
    // Leaves are cut behind their second key; the root [c, e, g] was cut at
    // its second key, which went up into a new root.
    assert_eq!(tree.node_count(), 7);
    assert_eq!(tree.root_index(), 6);
    assert_eq!(tree.height(), 2);
    assert_eq!(leaf_keys(&tree, 0), strings(&["a", "b"]));
    assert_eq!(leaf_keys(&tree, 1), strings(&["c", "d"]));
    assert_eq!(leaf_keys(&tree, 3), strings(&["e", "f"]));
    assert_eq!(leaf_keys(&tree, 4), strings(&["g"]));
    assert_eq!(internal(&tree, 2), (strings(&["c"]), vec![0, 1]));
    assert_eq!(internal(&tree, 5), (strings(&["g"]), vec![3, 4]));
    assert_eq!(internal(&tree, 6), (strings(&["e"]), vec![2, 5]));
    assert_eq!(tree.node(0).unwrap().parent(), Some(2));
    assert_eq!(tree.node(1).unwrap().parent(), Some(2));
    assert_eq!(tree.node(3).unwrap().parent(), Some(5));
    assert_eq!(tree.node(4).unwrap().parent(), Some(5));
    assert_eq!(tree.node(2).unwrap().parent(), Some(6));
    assert_eq!(tree.node(5).unwrap().parent(), Some(6));
    assert_eq!(tree.node(6).unwrap().parent(), None);
    for k in ["a", "b", "c", "d", "e", "f", "g"] {
        assert_eq!(tree.get(s(k)), Some(s(k)));
    }
}

#[test]
fn fanout_five_splits_an_internal_node_at_its_third_key() {
    let mut tree = BPlusTree::new(5);
    // Keys in ascending order: each split of the last leaf adds a separator
    // to the root, which is split when it holds six.
    let keys: Vec<String> = (0..21).map(|i| format!("{:02}", i)).collect();
    for k in &keys {
        tree.insert(k.clone(), k.clone());
    }
    assert_eq!(tree.height(), 2);
    let root = tree.root_index();
    let (root_keys, root_children) = internal(&tree, root);
    assert_eq!(root_keys, strings(&["09"]));
    assert_eq!(root_children.len(), 2);
    let (left_keys, left_children) = internal(&tree, root_children[0]);
    let (right_keys, right_children) = internal(&tree, root_children[1]);
    assert_eq!(left_keys, strings(&["03", "06"]));
    assert_eq!(right_keys, strings(&["12", "15", "18"]));
    assert_eq!(left_children.len(), 3);
    assert_eq!(right_children.len(), 4);
    for k in &keys {
        assert_eq!(tree.get(k.clone()), Some(k.clone()));
    }
}

#[test]
fn a_merge_of_internal_nodes_takes_the_separator_down() {
    let mut tree = BPlusTree::new(2);
    for k in ["a", "b", "c", "d", "e", "f", "g"] {
        tree.insert(s(k), s(k));
    }
    // Leaves [a, b] [c, d] under [c]; leaves [e, f] [g] under [g]; root [e].
    tree.delete(s("a"));
    tree.delete(s("b"));
    tree.delete(s("c"));
    // The leaves [] and [d] hold one key together and are merged: their
    // parent is left with no key and one child. Together with its neighbour
    // [g] it holds one key, so the two internal nodes are merged too, with
    // the root's separator e between their keys.
    assert_eq!(tree.node_count(), 5);
    assert_eq!(tree.height(), 2);
    let root = tree.root_index();
    let (root_keys, root_children) = internal(&tree, root);
    assert!(root_keys.is_empty());
    assert_eq!(root_children.len(), 1);
    let (keys, children) = internal(&tree, root_children[0]);
    assert_eq!(keys, strings(&["e", "g"]));
    assert_eq!(children.len(), 3);
    assert_eq!(leaf_keys(&tree, children[0]), strings(&["d"]));
    assert_eq!(leaf_keys(&tree, children[1]), strings(&["e", "f"]));
    assert_eq!(leaf_keys(&tree, children[2]), strings(&["g"]));
    for c in &children {
        assert_eq!(tree.node(*c).unwrap().parent(), Some(root_children[0]));
    }
    assert_eq!(tree.node(root_children[0]).unwrap().parent(), Some(root));
    for k in ["d", "e", "f", "g"] {
        assert_eq!(tree.get(s(k)), Some(s(k)));
    }
    for k in ["a", "b", "c"] {
        assert_eq!(tree.get(s(k)), None);
    }
}

#[test]
fn a_tree_that_has_split_keeps_its_root_when_it_is_emptied() {
    let mut tree = BPlusTree::new(2);
    for k in ["a", "b", "c"] {
        tree.insert(s(k), s(k));
    }
    assert_eq!(tree.node_count(), 3);
    for k in ["a", "b", "c"] {
        tree.delete(s(k));
    }
    for k in ["a", "b", "c"] {
        assert_eq!(tree.get(s(k)), None);
    }
    assert_eq!(tree.height(), 1);
    assert!(!tree.node(tree.root_index()).unwrap().is_leaf());
}

#[test]
fn borrow_mut_nodes_hands_out_the_three_nodes_in_the_order_asked_for() {
    let orders = [(0, 1, 2), (0, 2, 1), (1, 0, 2), (1, 2, 0), (2, 0, 1), (2, 1, 0), (4, 0, 2)];
    for (i, j, k) in orders {
        let mut nodes: Vec<NodeType> =
            (0..5).map(|n| NodeType::Leaf(LeafNode::new(Some(100 + n)))).collect();
        {
            let (x, y, z) = borrow_mut_nodes(&mut nodes, (i, j, k));
            assert_eq!(x.parent(), Some(100 + i));
            assert_eq!(y.parent(), Some(100 + j));
            assert_eq!(z.parent(), Some(100 + k));
            x.set_parent(Some(1));
            *y = NodeType::Internal(InternalNode::new(Some(2)));
            z.set_parent(None);
        }
        for n in 0..5 {
            let node = &nodes[n];
            if n == i {
                assert_eq!(node.parent(), Some(1));
                assert!(node.is_leaf());
            } else if n == j {
                assert_eq!(node.parent(), Some(2));
                assert!(!node.is_leaf());
            } else if n == k {
                assert_eq!(node.parent(), None);
            } else {
                assert_eq!(node.parent(), Some(100 + n));
            }
        }
    }
}

#[test]
fn get_node_for_key_finds_the_leaf_of_a_separator_on_its_right() {
    let mut tree = BPlusTree::new(5);
    for k in ["a", "b", "c", "d", "e", "f", "g", "h", "i", "j"] {
        tree.insert(s(k), s(k));
    }
    assert_eq!(tree.get_node_for_key(&s("a")), 0);
    assert_eq!(tree.get_node_for_key(&s("c")), 0);
    assert_eq!(tree.get_node_for_key(&s("cz")), 0);
    assert_eq!(tree.get_node_for_key(&s("d")), 1);
    assert_eq!(tree.get_node_for_key(&s("f")), 1);
    assert_eq!(tree.get_node_for_key(&s("g")), 3);
    assert_eq!(tree.get_node_for_key(&s("zzz")), 3);
    assert_eq!(tree.get_node_for_key(&s("")), 0);
}
