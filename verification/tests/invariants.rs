use std::collections::BTreeMap;

use b_plus_tree::node::NodeType;
use b_plus_tree::tree::BPlusTree;

/// Walks the subtree under `index`, inspects it, and returns its depth. Every
/// key must lie in `[lo, hi)`, strictly above `lo` in an internal node.
fn inspect_subtree(
    tree: &BPlusTree,
    index: usize,
    parent: Option<usize>,
    lo: Option<&String>,
    hi: Option<&String>,
    seen: &mut Vec<bool>,
    pairs: &mut Vec<(String, String)>,
) -> usize {
    assert!(!seen[index], "node {} is reached twice", index);
    seen[index] = true;
    let node = tree.node(index).unwrap();
    assert_eq!(node.parent(), parent);
    let keys = node.keys();
    assert!(keys.len() <= tree.fanout());
    for w in keys.windows(2) {
        assert!(w[0] < w[1], "keys of node {} are not ascending", index);
    }
    for k in keys {
        if let Some(lo) = lo {
            if node.is_leaf() {
                assert!(lo <= k);
            } else {
                assert!(lo < k);
            }
        }
        if let Some(hi) = hi {
            assert!(k < hi);
        }
    }
    match node {
        NodeType::Leaf(leaf) => {
            assert_eq!(leaf.values.len(), leaf.keys.len());
            for (k, v) in leaf.keys.iter().zip(leaf.values.iter()) {
                pairs.push((k.clone(), v.clone()));
            }
            0
        }
        NodeType::Internal(inner) => {
            assert_eq!(inner.children.len(), inner.keys.len() + 1);
            let mut depth = None;
            for (j, child) in inner.children.iter().enumerate() {
                let child_lo = if j == 0 { lo } else { Some(&inner.keys[j - 1]) };
                let child_hi = if j == inner.keys.len() { hi } else { Some(&inner.keys[j]) };
                let d = inspect_subtree(tree, *child, Some(index), child_lo, child_hi, seen, pairs);
                if let Some(depth) = depth {
                    assert_eq!(d, depth, "the leaves under node {} differ in depth", index);
                }
                depth = Some(d);
            }
            depth.unwrap() + 1
        }
    }
}

/// Inspects the whole tree and compares what it holds with `model`.
fn inspect(tree: &BPlusTree, model: &BTreeMap<String, String>) {
    let mut seen = vec![false; tree.node_count()];
    let mut pairs = Vec::new();
    let depth = inspect_subtree(tree, tree.root_index(), None, None, None, &mut seen, &mut pairs);
    assert_eq!(depth, tree.height());
    assert!(seen.iter().all(|s| *s), "a node of the arena is not part of the tree");
    let mut roots = 0;
    for i in 0..tree.node_count() {
        if tree.node(i).unwrap().parent().is_none() {
            roots += 1;
        }
    }
    assert_eq!(roots, 1);
    let expected: Vec<(String, String)> =
        model.iter().map(|(k, v)| (k.clone(), v.clone())).collect();
    assert_eq!(pairs, expected);
}

struct Lcg(u64);

impl Lcg {
    fn next(&mut self, bound: u64) -> u64 {
        self.0 = self.0.wrapping_mul(6364136223846793005).wrapping_add(1442695040888963407);
        (self.0 >> 33) % bound
    }
}

fn churn(fanout: usize, seed: u64, steps: usize, universe: u64) {
    let mut tree = BPlusTree::new(fanout);
    let mut model = BTreeMap::new();
    let mut rng = Lcg(seed);
    for step in 0..steps {
        let key = format!("k{:04}", rng.next(universe));
        // Mostly insertions in the first half, mostly deletions in the second.
        let insert = if step < steps / 2 { rng.next(4) != 0 } else { rng.next(4) == 0 };
        if insert {
            let value = format!("v{}", step);
            tree.insert(key.clone(), value.clone());
            model.insert(key, value);
        } else {
            tree.delete(key.clone());
            model.remove(&key);
        }
        inspect(&tree, &model);
        let probe = format!("k{:04}", rng.next(universe));
        assert_eq!(tree.get(probe.clone()), model.get(&probe).cloned());
    }
    let keys: Vec<String> = model.keys().cloned().collect();
    for key in keys {
        tree.delete(key.clone());
        model.remove(&key);
        inspect(&tree, &model);
    }
    assert!(model.is_empty());
}

#[test]
fn the_tree_stays_in_order_with_fanout_two() {
    churn(2, 1, 600, 120);
}

#[test]
fn the_tree_stays_in_order_with_fanout_three() {
    churn(3, 2, 600, 150);
}

#[test]
fn the_tree_stays_in_order_with_fanout_four() {
    churn(4, 3, 600, 200);
}

#[test]
fn the_tree_stays_in_order_with_fanout_five() {
    churn(5, 4, 800, 300);
}

#[test]
fn the_tree_stays_in_order_with_a_large_fanout() {
    churn(16, 5, 800, 500);
}

#[test]
fn every_inserted_key_is_found_with_its_last_value() {
    let mut tree = BPlusTree::new(3);
    let pairs = [("b", "1"), ("a", "2"), ("c", "3"), ("a", "4"), ("d", "5"), ("b", "6"), ("e", "7")];
    for (k, v) in pairs {
        tree.insert(k.to_string(), v.to_string());
    }
    assert_eq!(tree.get("a".to_string()), Some("4".to_string()));
    assert_eq!(tree.get("b".to_string()), Some("6".to_string()));
    assert_eq!(tree.get("c".to_string()), Some("3".to_string()));
    assert_eq!(tree.get("d".to_string()), Some("5".to_string()));
    assert_eq!(tree.get("e".to_string()), Some("7".to_string()));
}

#[test]
fn a_deleted_key_is_gone_and_the_others_keep_their_values() {
    let mut tree = BPlusTree::new(3);
    for (i, k) in ["m", "c", "x", "a", "t", "e", "q"].iter().enumerate() {
        tree.insert(k.to_string(), i.to_string());
    }
    tree.delete("t".to_string());
    assert_eq!(tree.get("t".to_string()), None);
    for (i, k) in ["m", "c", "x", "a"].iter().enumerate() {
        assert_eq!(tree.get(k.to_string()), Some(i.to_string()));
    }
    assert_eq!(tree.get("e".to_string()), Some("5".to_string()));
    assert_eq!(tree.get("q".to_string()), Some("6".to_string()));
}

#[test]
fn no_more_keys_than_the_fanout_in_and_out_leave_a_single_empty_leaf() {
    for fanout in 2..8usize {
        let mut tree = BPlusTree::new(fanout);
        let keys: Vec<String> = (0..fanout).map(|i| format!("{:02}", (i * 5) % fanout)).collect();
        for k in &keys {
            tree.insert(k.clone(), k.clone());
        }
        assert_eq!(tree.node_count(), 1);
        for k in keys.iter().rev() {
            tree.delete(k.clone());
        }
        assert_eq!(tree.node_count(), 1);
        assert_eq!(tree.root_index(), 0);
        assert_eq!(tree.height(), 0);
        match tree.node(0).unwrap() {
            NodeType::Leaf(leaf) => {
                assert!(leaf.keys.is_empty());
                assert!(leaf.values.is_empty());
                assert_eq!(leaf.parent, None);
            }
            NodeType::Internal(_) => panic!("the root is no leaf"),
        }
    }
}

#[test]
fn keys_in_and_out_leave_nothing_behind() {
    let mut tree = BPlusTree::new(3);
    let keys: Vec<String> = (0..200u32).map(|i| format!("{:03}", (i * 37) % 200)).collect();
    for k in &keys {
        tree.insert(k.clone(), k.clone());
    }
    for k in &keys {
        tree.delete(k.clone());
    }
    for k in &keys {
        assert_eq!(tree.get(k.clone()), None);
    }
    inspect(&tree, &BTreeMap::new());
}
