use b_plus_tree::node::NodeType;
use b_plus_tree::tree::BPlusTree;

fn s(x: &str) -> String {
    x.to_string()
}

fn strings(xs: &[&str]) -> Vec<String> {
    xs.iter().map(|x| x.to_string()).collect()
}

fn leaf_keys(tree: &BPlusTree, index: usize) -> Vec<String> {
    match tree.node(index).unwrap() {
        NodeType::Leaf(leaf) => leaf.keys.clone(),
        NodeType::Internal(_) => panic!("node {} is not a leaf", index),
    }
}

fn internal(tree: &BPlusTree, index: usize) -> (Vec<String>, Vec<usize>) {
    match tree.node(index).unwrap() {
        NodeType::Internal(node) => (node.keys.clone(), node.children.clone()),
        NodeType::Leaf(_) => panic!("node {} is not internal", index),
    }
}

fn leaves(tree: &BPlusTree) -> Vec<Vec<String>> {
    let mut found = Vec::new();
    for i in 0..tree.node_count() {
        if let NodeType::Leaf(leaf) = tree.node(i).unwrap() {
            found.push(leaf.keys.clone());
        }
    }
    found
}

fn tree_of(fanout: usize, keys: &[&str]) -> BPlusTree {
    let mut tree = BPlusTree::new(fanout);
    for k in keys {
        tree.insert(s(k), s(k));
    }
    tree
}

#[test]
fn five_keys_stay_in_one_leaf() {
    let tree = tree_of(5, &["a", "b", "c", "d", "e"]);
    assert_eq!(tree.node_count(), 1);
    assert_eq!(tree.root_index(), 0);
    assert_eq!(tree.height(), 0);
    assert_eq!(leaf_keys(&tree, 0), strings(&["a", "b", "c", "d", "e"]));
}

#[test]
fn sixth_key_splits_the_leaf_under_a_new_root() {
    let tree = tree_of(5, &["a", "b", "c", "d", "e", "f"]);
    assert_eq!(tree.node_count(), 3);
    assert_eq!(tree.root_index(), 2);
    assert_eq!(tree.height(), 1);
    let (keys, children) = internal(&tree, 2);
    assert_eq!(keys, strings(&["d"]));
    assert_eq!(children, vec![0, 1]);
    assert_eq!(leaf_keys(&tree, 0), strings(&["a", "b", "c"]));
    assert_eq!(leaf_keys(&tree, 1), strings(&["d", "e", "f"]));
    assert_eq!(tree.node(0).unwrap().parent(), Some(2));
    assert_eq!(tree.node(1).unwrap().parent(), Some(2));
    assert_eq!(tree.node(2).unwrap().parent(), None);
}

#[test]
fn ten_keys_make_three_leaves() {
    let tree = tree_of(5, &["a", "b", "c", "d", "e", "f", "g", "h", "i", "j"]);
    assert_eq!(tree.node_count(), 4);
    assert_eq!(tree.root_index(), 2);
    let (keys, children) = internal(&tree, 2);
    assert_eq!(keys, strings(&["d", "g"]));
    assert_eq!(children, vec![0, 1, 3]);
    let all = leaves(&tree);
    assert!(all.len() >= 3);
    for keys in &all {
        assert!(2 <= keys.len() && keys.len() <= 5);
    }
    assert_eq!(leaf_keys(&tree, 0), strings(&["a", "b", "c"]));
    assert_eq!(leaf_keys(&tree, 1), strings(&["d", "e", "f"]));
    assert_eq!(leaf_keys(&tree, 3), strings(&["g", "h", "i", "j"]));
    for k in ["a", "b", "c", "d", "e", "f", "g", "h", "i", "j"] {
        assert_eq!(tree.get(s(k)), Some(s(k)));
    }
}

#[test]
fn four_deletes_trigger_a_merge() {
    let mut tree = tree_of(5, &["a", "b", "c", "d", "e", "f", "g", "h", "i", "j"]);
    tree.delete(s("a"));
    tree.delete(s("b"));
    tree.delete(s("d"));
    assert_eq!(tree.node_count(), 4);
    assert_eq!(leaf_keys(&tree, 0), strings(&["c"]));
    assert_eq!(leaf_keys(&tree, 1), strings(&["e", "f"]));
    tree.delete(s("e"));
    // The leaves [c] and [f] hold two keys together: they are merged, and the
    // last node of the arena takes the slot of the emptied one.
    assert_eq!(tree.node_count(), 3);
    assert_eq!(tree.root_index(), 2);
    let (keys, children) = internal(&tree, 2);
    assert_eq!(keys, strings(&["g"]));
    assert_eq!(children, vec![1, 0]);
    assert_eq!(leaf_keys(&tree, 1), strings(&["c", "f"]));
    assert_eq!(leaf_keys(&tree, 0), strings(&["g", "h", "i", "j"]));
    assert_eq!(tree.node(0).unwrap().parent(), Some(2));
    assert_eq!(tree.node(1).unwrap().parent(), Some(2));
    let resident: usize = leaves(&tree).iter().map(|keys| keys.len()).sum();
    assert_eq!(resident, 6);
    for k in ["c", "f", "g", "h", "i", "j"] {
        assert_eq!(tree.get(s(k)), Some(s(k)));
    }
}

#[test]
fn deleting_f_keeps_the_rest() {
    let mut tree = tree_of(5, &["a", "b", "c", "d", "e", "f", "g", "h", "i", "j"]);
    for k in ["a", "b", "d", "e"] {
        tree.delete(s(k));
    }
    tree.delete(s("f"));
    for k in ["c", "g", "h", "i", "j"] {
        assert_eq!(tree.get(s(k)), Some(s(k)));
    }
    for k in ["a", "b", "d", "e", "f"] {
        assert_eq!(tree.get(s(k)), None);
    }
    assert_eq!(leaf_keys(&tree, 1), strings(&["c"]));
}

#[test]
fn inserts_after_the_deletes_go_to_the_last_leaf() {
    let mut tree = tree_of(5, &["a", "b", "c", "d", "e", "f", "g", "h", "i", "j"]);
    for k in ["a", "b", "d", "e", "f"] {
        tree.delete(s(k));
    }
    tree.insert(s("k"), s("k"));
    tree.insert(s("l"), s("l"));
    // [g, h, i, j, k, l] is one key over the capacity and is split.
    assert_eq!(tree.node_count(), 4);
    let (keys, children) = internal(&tree, 2);
    assert_eq!(keys, strings(&["g", "j"]));
    assert_eq!(children, vec![1, 0, 3]);
    assert_eq!(leaf_keys(&tree, 0), strings(&["g", "h", "i"]));
    assert_eq!(leaf_keys(&tree, 3), strings(&["j", "k", "l"]));
}
