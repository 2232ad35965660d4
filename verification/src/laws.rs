//! What holds of every well-formed tree, and of every run of insertions and
//! deletions.

use crate::key::{ascending, Text};
use crate::lookup::lemma_first_not_below;
use crate::model::{first_not_below, lemma_fresh, TreeState};
use vstd::prelude::*;

verus! {

/// The keys of every node of a well-formed tree are strictly ascending.
pub proof fn lemma_keys_ascending(s: TreeState, i: int)
    requires
        s.wf(),
        s.has(i),
    ensures
        ascending(s.nodes[i].keys),
{
    assert(s.node_ok(i));
}

/// No node of a well-formed tree, the root included, holds more keys than the
/// fanout.
pub proof fn lemma_within_capacity(s: TreeState, i: int)
    requires
        s.wf(),
        s.has(i),
    ensures
        s.nodes[i].keys.len() <= s.fanout,
{
    assert(s.roomy(i));
}

/// In a well-formed tree the root is the one node without a parent.
pub proof fn lemma_single_root(s: TreeState, i: int)
    requires
        s.wf(),
        s.has(i),
    ensures
        s.has(s.root),
        s.nodes[i].parent is None <==> i == s.root,
{
    assert(s.node_ok(i));
}

/// Every child of a node of a well-formed tree is a node of the arena that
/// names that node as its parent.
pub proof fn lemma_children_point_back(s: TreeState, i: int, j: int)
    requires
        s.wf(),
        s.has(i),
        0 <= j < s.nodes[i].children.len(),
    ensures
        s.has(s.nodes[i].children[j]),
        s.nodes[s.nodes[i].children[j]].parent == Some(i),
{
    assert(s.node_ok(i));
    assert(s.child_ok(i, j));
}

/// What the leaves of a well-formed tree hold is what a search finds: a key
/// that a leaf holds is held by the leaf that is responsible for the key, and
/// the tree maps it to the value that the leaf pairs it with.
pub proof fn lemma_leaves_are_found(s: TreeState, i: int, p: int)
    requires
        s.wf(),
        s.has(i),
        s.nodes[i].leaf,
        0 <= p < s.nodes[i].keys.len(),
    ensures
        i == s.leaf_for(s.nodes[i].keys[p]),
        s.contents().dom().contains(s.nodes[i].keys[p]),
        s.contents()[s.nodes[i].keys[p]] == s.nodes[i].values[p],
{
    let k = s.nodes[i].keys[p];
    let v = s.nodes[i].values[p];
    assert(s.holds_at(i, p, k, v));
    s.lemma_holder_unique(i, p, k, v);
    s.lemma_contents_here(i, p, k, v);
}

/// Each of the two nodes that a split makes of a node with `fanout + 1` keys
/// holds at least `fanout / 2` keys and no more than `fanout`.
pub proof fn lemma_halves_balanced(s: TreeState, n: int)
    requires
        s.splittable(n),
    ensures
        s.fanout / 2 <= s.split_step(n).nodes[n].keys.len() <= s.fanout,
        s.fanout / 2 <= s.split_step(n).nodes[s.nodes.len() as int].keys.len() <= s.fanout,
{
    s.lemma_cut(n);
    if n == s.root {
        s.lemma_root_split_shape(n);
    } else {
        s.lemma_split_shape(n);
    }
}

/// The tree after the pairs of `pairs` were inserted one after the other.
pub open spec fn insert_all(s: TreeState, pairs: Seq<(Text, Text)>) -> TreeState
    decreases pairs.len(),
{
    if pairs.len() == 0 {
        s
    } else {
        insert_all(s, pairs.drop_last()).inserted(pairs.last().0, pairs.last().1)
    }
}

/// The tree after the keys of `keys` were deleted one after the other.
pub open spec fn delete_all(s: TreeState, keys: Seq<Text>) -> TreeState
    decreases keys.len(),
{
    if keys.len() == 0 {
        s
    } else {
        delete_all(s, keys.drop_last()).deleted(keys.last())
    }
}

/// A run of insertions leaves a well-formed tree, which holds no key that it
/// did not hold before and that was not inserted.
pub proof fn lemma_insert_all(s: TreeState, pairs: Seq<(Text, Text)>)
    requires
        s.wf(),
    ensures
        insert_all(s, pairs).wf(),
        insert_all(s, pairs).fanout == s.fanout,
        forall|k: Text| #[trigger]
            insert_all(s, pairs).contents().dom().contains(k) ==> s.contents().dom().contains(k)
                || exists|i: int| 0 <= i < pairs.len() && pairs[i].0 == k,
    decreases pairs.len(),
{
    if pairs.len() > 0 {
        let before = insert_all(s, pairs.drop_last());
        lemma_insert_all(s, pairs.drop_last());
        before.lemma_inserted(pairs.last().0, pairs.last().1);
        assert forall|k: Text| #[trigger]
            insert_all(s, pairs).contents().dom().contains(k) implies s.contents().dom().contains(k)
            || exists|i: int| 0 <= i < pairs.len() && pairs[i].0 == k by {
            if k == pairs.last().0 {
                assert(pairs[pairs.len() - 1].0 == k);
            } else if !s.contents().dom().contains(k) {
                assert(before.contents().dom().contains(k));
                let i = choose|i: int| 0 <= i < pairs.drop_last().len() && pairs.drop_last()[i].0 == k;
                assert(pairs[i].0 == k);
            }
        }
    }
}

/// After any run of insertions, a key is found with the value that it was
/// inserted with last.
pub proof fn lemma_round_trip(s: TreeState, pairs: Seq<(Text, Text)>, i: int)
    requires
        s.wf(),
        0 <= i < pairs.len(),
        forall|j: int| i < j < pairs.len() ==> (#[trigger] pairs[j]).0 != pairs[i].0,
    ensures
        insert_all(s, pairs).contents().dom().contains(pairs[i].0),
        insert_all(s, pairs).contents()[pairs[i].0] == pairs[i].1,
    decreases pairs.len(),
{
    let before = insert_all(s, pairs.drop_last());
    lemma_insert_all(s, pairs.drop_last());
    before.lemma_inserted(pairs.last().0, pairs.last().1);
    if i < pairs.len() - 1 {
        assert(pairs[pairs.len() - 1].0 != pairs[i].0);
        assert forall|j: int| i < j < pairs.drop_last().len() implies (#[trigger] pairs.drop_last()[j]).0
            != pairs.drop_last()[i].0 by {
            assert(pairs[j].0 != pairs[i].0);
        }
        lemma_round_trip(s, pairs.drop_last(), i);
    }
}

/// After the deletion of a key the tree does not hold the key, and it holds
/// every other key with the value that it had.
pub proof fn lemma_delete_one(s: TreeState, k: Text, other: Text)
    requires
        s.wf(),
        other != k,
    ensures
        s.deleted(k).wf(),
        !s.deleted(k).contents().dom().contains(k),
        s.deleted(k).contents().dom().contains(other) == s.contents().dom().contains(other),
        s.contents().dom().contains(other) ==> s.deleted(k).contents()[other]
            == s.contents()[other],
{
    s.lemma_deleted(k);
}

/// A run of deletions leaves a well-formed tree, which holds none of the
/// deleted keys and no key that it did not hold before.
pub proof fn lemma_delete_all(s: TreeState, keys: Seq<Text>)
    requires
        s.wf(),
    ensures
        delete_all(s, keys).wf(),
        delete_all(s, keys).fanout == s.fanout,
        forall|k: Text| #[trigger]
            delete_all(s, keys).contents().dom().contains(k) ==> s.contents().dom().contains(k)
                && !keys.contains(k),
    decreases keys.len(),
{
    if keys.len() > 0 {
        let before = delete_all(s, keys.drop_last());
        lemma_delete_all(s, keys.drop_last());
        before.lemma_deleted(keys.last());
        assert forall|k: Text| #[trigger]
            delete_all(s, keys).contents().dom().contains(k) implies s.contents().dom().contains(k)
            && !keys.contains(k) by {
            assert(before.contents().dom().contains(k));
            if keys.contains(k) {
                let i = choose|i: int| 0 <= i < keys.len() && keys[i] == k;
                if i < keys.len() - 1 {
                    assert(keys.drop_last()[i] == k);
                    assert(keys.drop_last().contains(k));
                }
            }
        }
    }
}

/// A tree from which every key that was ever inserted has been deleted holds
/// nothing.
pub proof fn lemma_churn_empties(fanout: int, pairs: Seq<(Text, Text)>, keys: Seq<Text>)
    requires
        fanout >= 2,
        forall|i: int| 0 <= i < pairs.len() ==> keys.contains((#[trigger] pairs[i]).0),
    ensures
        delete_all(insert_all(TreeState::fresh(fanout), pairs), keys).wf(),
        delete_all(insert_all(TreeState::fresh(fanout), pairs), keys).contents() == Map::<
            Text,
            Text,
        >::empty(),
{
    let s = TreeState::fresh(fanout);
    lemma_fresh(fanout);
    lemma_insert_all(s, pairs);
    let full = insert_all(s, pairs);
    lemma_delete_all(full, keys);
    let last = delete_all(full, keys);
    assert forall|k: Text| !last.contents().dom().contains(k) by {
        if last.contents().dom().contains(k) {
            assert(full.contents().dom().contains(k));
            let i = choose|i: int| 0 <= i < pairs.len() && pairs[i].0 == k;
            assert(keys.contains(pairs[i].0));
        }
    }
    assert(last.contents() =~= Map::<Text, Text>::empty());
}

/// The tree is a single leaf, which is the root.
pub open spec fn single_leaf(s: TreeState) -> bool {
    &&& s.wf()
    &&& s.nodes.len() == 1
    &&& s.root == 0
    &&& s.nodes[0].leaf
}

/// An insertion into a single leaf with room for one more key leaves a single
/// leaf with at most one more key.
pub proof fn lemma_single_leaf_insert(s: TreeState, k: Text, v: Text)
    requires
        single_leaf(s),
        s.nodes[0].keys.len() < s.fanout,
    ensures
        single_leaf(s.inserted(k, v)),
        s.inserted(k, v).nodes[0].keys.len() <= s.nodes[0].keys.len() + 1,
        s.inserted(k, v).fanout == s.fanout,
{
    s.lemma_inserted(k, v);
    s.lemma_root_covers(k);
    assert(s.leaf_for(k) == 0);
    let keys = s.nodes[0].keys;
    let at = first_not_below(keys, k, 0);
    lemma_first_not_below(keys, k, 0);
    if !(at < keys.len() && keys[at] == k) {
        let mid = s.put_pair(0, at, k, v);
        s.lemma_put_pair_unsettles(k, v);
        assert(mid.settle(0) == mid);
    }
}

/// A deletion from a single leaf leaves a single leaf with no more keys.
pub proof fn lemma_single_leaf_delete(s: TreeState, k: Text)
    requires
        single_leaf(s),
    ensures
        single_leaf(s.deleted(k)),
        s.deleted(k).nodes[0].keys.len() <= s.nodes[0].keys.len(),
        s.deleted(k).fanout == s.fanout,
{
    s.lemma_deleted(k);
    s.lemma_root_covers(k);
    assert(s.leaf_for(k) == 0);
    assert(s.node_ok(0));
    lemma_first_not_below(s.nodes[0].keys, k, 0);
}

/// No more insertions than the fanout into a tree that holds nothing leave a
/// single leaf.
pub proof fn lemma_small_growth(fanout: int, pairs: Seq<(Text, Text)>)
    requires
        fanout >= 2,
        pairs.len() <= fanout,
    ensures
        single_leaf(insert_all(TreeState::fresh(fanout), pairs)),
        insert_all(TreeState::fresh(fanout), pairs).nodes[0].keys.len() <= pairs.len(),
        insert_all(TreeState::fresh(fanout), pairs).fanout == fanout,
    decreases pairs.len(),
{
    lemma_fresh(fanout);
    if pairs.len() > 0 {
        lemma_small_growth(fanout, pairs.drop_last());
        lemma_single_leaf_insert(
            insert_all(TreeState::fresh(fanout), pairs.drop_last()),
            pairs.last().0,
            pairs.last().1,
        );
    }
}

/// Deletions from a single leaf leave a single leaf.
pub proof fn lemma_single_leaf_shrinks(s: TreeState, keys: Seq<Text>)
    requires
        single_leaf(s),
    ensures
        single_leaf(delete_all(s, keys)),
        delete_all(s, keys).fanout == s.fanout,
    decreases keys.len(),
{
    if keys.len() > 0 {
        lemma_single_leaf_shrinks(s, keys.drop_last());
        lemma_single_leaf_delete(delete_all(s, keys.drop_last()), keys.last());
    }
}

/// A tree that holds nothing, after no more insertions than its fanout and the
/// deletion of every key that was inserted, is again the tree that holds
/// nothing: a single empty leaf, which is the root.
pub proof fn lemma_small_churn(fanout: int, pairs: Seq<(Text, Text)>, keys: Seq<Text>)
    requires
        fanout >= 2,
        pairs.len() <= fanout,
        forall|i: int| 0 <= i < pairs.len() ==> keys.contains((#[trigger] pairs[i]).0),
    ensures
        delete_all(insert_all(TreeState::fresh(fanout), pairs), keys) == TreeState::fresh(fanout),
{
    let s = TreeState::fresh(fanout);
    let full = insert_all(s, pairs);
    let last = delete_all(full, keys);
    lemma_small_growth(fanout, pairs);
    lemma_single_leaf_shrinks(full, keys);
    lemma_churn_empties(fanout, pairs, keys);
    assert(last.node_ok(0));
    if last.nodes[0].keys.len() > 0 {
        assert(last.holds_at(0, 0, last.nodes[0].keys[0], last.nodes[0].values[0]));
        last.lemma_contents_here(0, 0, last.nodes[0].keys[0], last.nodes[0].values[0]);
    }
    assert(last.nodes[0].keys =~= s.nodes[0].keys);
    assert(last.nodes[0].values =~= s.nodes[0].values);
    assert(last.nodes[0].children =~= s.nodes[0].children);
    assert(last.nodes =~= s.nodes);
    assert(last.spans =~= s.spans);
    assert(last.detached =~= s.detached);
}

} // verus!
