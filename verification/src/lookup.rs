//! What a search finds: the leaf that a descent reaches is the only leaf that
//! can hold the key, so the pairs of the leaves form a map.

use crate::key::{
    ascending, key_le, key_lt, lemma_le_lt, lemma_lt_irreflexive, lemma_lt_le,
    lemma_lt_transitive, lemma_not_lt, Text,
};
use crate::model::{above, below, first_above, first_not_below, TreeState};
use vstd::prelude::*;

verus! {

/// `first_above` returns the first position from `from` on whose key is greater
/// than `k`.
pub proof fn lemma_first_above(keys: Seq<Text>, k: Text, from: int)
    requires
        0 <= from <= keys.len(),
    ensures
        from <= first_above(keys, k, from) <= keys.len(),
        forall|i: int| from <= i < first_above(keys, k, from) ==> !key_lt(k, #[trigger] keys[i]),
        first_above(keys, k, from) < keys.len() ==> key_lt(k, keys[first_above(keys, k, from)]),
    decreases keys.len() - from,
{
    if from < keys.len() && !key_lt(k, keys[from]) {
        lemma_first_above(keys, k, from + 1);
    }
}

/// `first_not_below` returns the first position from `from` on whose key is
/// `k` or greater.
pub proof fn lemma_first_not_below(keys: Seq<Text>, k: Text, from: int)
    requires
        0 <= from <= keys.len(),
    ensures
        from <= first_not_below(keys, k, from) <= keys.len(),
        forall|i: int|
            from <= i < first_not_below(keys, k, from) ==> key_lt(#[trigger] keys[i], k),
        first_not_below(keys, k, from) < keys.len() ==> !key_lt(
            keys[first_not_below(keys, k, from)],
            k,
        ),
    decreases keys.len() - from,
{
    if from < keys.len() && key_lt(keys[from], k) {
        lemma_first_not_below(keys, k, from + 1);
    }
}

/// In ascending keys, the position `j` whose left neighbour is at most `k` and
/// whose own key is greater than `k` is the one that `first_above` returns.
pub proof fn lemma_first_above_is(keys: Seq<Text>, k: Text, j: int)
    requires
        ascending(keys),
        0 <= j <= keys.len(),
        j > 0 ==> key_le(keys[j - 1], k),
        j < keys.len() ==> key_lt(k, keys[j]),
    ensures
        first_above(keys, k, 0) == j,
{
    let r = first_above(keys, k, 0);
    lemma_first_above(keys, k, 0);
    if r < j {
        if r < j - 1 {
            lemma_lt_transitive(k, keys[r], keys[j - 1]);
        }
        lemma_lt_le(k, keys[j - 1], k);
        lemma_lt_irreflexive(k);
    } else if r > j {
        assert(!key_lt(k, keys[j]));
    }
}

/// In ascending keys, `k` occurs at no position but `first_not_below`, and the
/// keys before that position are smaller, those from it on not smaller.
pub proof fn lemma_first_not_below_sorted(keys: Seq<Text>, k: Text)
    requires
        ascending(keys),
    ensures
        forall|i: int|
            0 <= i < keys.len() && #[trigger] keys[i] == k ==> i == first_not_below(keys, k, 0),
        forall|i: int|
            first_not_below(keys, k, 0) <= i < keys.len() ==> key_le(k, #[trigger] keys[i]),
        forall|i: int|
            first_not_below(keys, k, 0) < i < keys.len() ==> key_lt(k, #[trigger] keys[i]),
{
    let r = first_not_below(keys, k, 0);
    lemma_first_not_below(keys, k, 0);
    lemma_lt_irreflexive(k);
    assert forall|i: int| r <= i < keys.len() implies key_le(k, #[trigger] keys[i]) by {
        lemma_not_lt(keys[r], k);
        if i > r {
            lemma_le_lt(k, keys[r], keys[i]);
        }
    }
    assert forall|i: int| r < i < keys.len() implies key_lt(k, #[trigger] keys[i]) by {
        lemma_not_lt(keys[r], k);
        lemma_le_lt(k, keys[r], keys[i]);
    }
    assert forall|i: int| 0 <= i < keys.len() && #[trigger] keys[i] == k implies i == r by {
        if i > r {
            assert(key_lt(k, keys[i]));
        }
    }
}

impl TreeState {
    /// A descent for a key that a node covers ends in a leaf that covers it.
    pub proof fn lemma_descend(self, i: int, k: Text)
        requires
            self.structure(),
            self.live(i),
            self.covers(i, k),
        ensures
            self.live(self.descend(i, k)),
            self.nodes[self.descend(i, k)].leaf,
            self.covers(self.descend(i, k), k),
        decreases self.spans[i].level,
    {
        assert(self.node_ok(i));
        if !self.nodes[i].leaf {
            let keys = self.nodes[i].keys;
            let j = self.slot(i, k);
            lemma_first_above(keys, k, 0);
            assert(self.child_ok(i, j));
            if j > 0 {
                lemma_not_lt(k, keys[j - 1]);
            }
            self.lemma_descend(self.nodes[i].children[j], k);
        }
    }

    /// The position of a live node among the children of its parent.
    pub open spec fn position(self, x: int) -> int {
        let p = self.nodes[x].parent->0;
        choose|j: int| 0 <= j < self.nodes[p].children.len() && self.nodes[p].children[j] == x
    }

    /// A node other than the root is the child of its parent at its position.
    pub proof fn lemma_position(self, x: int)
        requires
            self.structure(),
            self.live(x),
            x != self.root,
        ensures
            self.nodes[x].parent is Some,
            self.live(self.nodes[x].parent->0),
            !self.nodes[self.nodes[x].parent->0].leaf,
            0 <= self.position(x) < self.nodes[self.nodes[x].parent->0].children.len(),
            self.nodes[self.nodes[x].parent->0].children[self.position(x)] == x,
            self.child_ok(self.nodes[x].parent->0, self.position(x)),
            self.node_ok(self.nodes[x].parent->0),
            self.node_ok(x),
    {
        assert(self.node_ok(x));
        let p = self.nodes[x].parent->0;
        assert(self.node_ok(p));
        assert(self.nodes[p].children.contains(x));
        let j = self.position(x);
        assert(self.child_ok(p, j));
    }

    /// The children of a node are pairwise different.
    pub proof fn lemma_children_distinct(self, p: int, a: int, b: int)
        requires
            self.structure(),
            self.live(p),
            !self.nodes[p].leaf,
            0 <= a < b < self.nodes[p].children.len(),
        ensures
            self.nodes[p].children[a] != self.nodes[p].children[b],
    {
        assert(self.node_ok(p));
        assert(self.child_ok(p, a));
        assert(self.child_ok(p, b));
        let keys = self.nodes[p].keys;
        if self.nodes[p].children[a] == self.nodes[p].children[b] {
            // The two upper bounds would be one: but keys[a] is below what
            // bounds the child at b.
            if b < keys.len() {
                assert(key_lt(keys[a], keys[b]));
                lemma_lt_irreflexive(keys[a]);
            } else {
                assert(below(keys[a], self.spans[p].hi));
                lemma_lt_irreflexive(keys[a]);
            }
        }
    }

    /// A key that a node covers is covered by its parent, whose slot for the key
    /// is the node's position.
    pub proof fn lemma_covered_above(self, x: int, k: Text)
        requires
            self.structure(),
            self.live(x),
            x != self.root,
            self.covers(x, k),
        ensures
            self.covers(self.nodes[x].parent->0, k),
            self.slot(self.nodes[x].parent->0, k) == self.position(x),
    {
        self.lemma_position(x);
        let p = self.nodes[x].parent->0;
        let j = self.position(x);
        let keys = self.nodes[p].keys;
        lemma_first_above_is(keys, k, j);
        if j > 0 {
            assert(above(self.spans[p].lo, keys[j - 1], true));
            if self.spans[p].lo is Some {
                lemma_lt_le(self.spans[p].lo->0, keys[j - 1], k);
            }
        }
        if j < keys.len() {
            assert(below(keys[j], self.spans[p].hi));
            if self.spans[p].hi is Some {
                lemma_lt_transitive(k, keys[j], self.spans[p].hi->0);
            }
        }
    }

    /// A descent from the root for a key passes through every node that covers
    /// the key.
    pub proof fn lemma_descend_through(self, x: int, k: Text)
        requires
            self.structure(),
            self.live(x),
            self.covers(x, k),
        ensures
            self.leaf_for(k) == self.descend(x, k),
        decreases self.spans[self.root].level - self.spans[x].level,
    {
        if x != self.root {
            self.lemma_position(x);
            self.lemma_covered_above(x, k);
            let p = self.nodes[x].parent->0;
            assert(self.descend(p, k) == self.descend(x, k));
            assert(self.node_ok(p));
            self.lemma_descend_through(p, k);
        }
    }

    /// The leaf responsible for a key is the one leaf of the tree whose range
    /// holds the key.
    pub proof fn lemma_covering_leaf(self, x: int, k: Text)
        requires
            self.structure(),
            self.live(x),
            self.nodes[x].leaf,
            self.covers(x, k),
        ensures
            x == self.leaf_for(k),
    {
        self.lemma_descend_through(x, k);
    }

    /// A node that holds a key is a leaf of the tree.
    pub proof fn lemma_holder_live(self, i: int, p: int, k: Text, v: Text)
        requires
            self.structure(),
            self.holds_at(i, p, k, v),
        ensures
            self.live(i),
            self.node_ok(i),
            self.covers(i, k),
    {
        if self.detached.contains(i) {
            let d = choose|d: int| 0 <= d < self.detached.len() && self.detached[d] == i;
            assert(self.spent(self.detached[d]));
        }
        assert(self.node_ok(i));
        assert(above(self.spans[i].lo, self.nodes[i].keys[p], false));
    }

    /// A key is held by no leaf but the one that the search for it reaches, and
    /// there at no position but one.
    pub proof fn lemma_holder_unique(self, i: int, p: int, k: Text, v: Text)
        requires
            self.structure(),
            self.holds_at(i, p, k, v),
        ensures
            i == self.leaf_for(k),
            p == first_not_below(self.nodes[i].keys, k, 0),
    {
        self.lemma_holder_live(i, p, k, v);
        self.lemma_descend_through(i, k);
        lemma_first_not_below_sorted(self.nodes[i].keys, k);
    }

    /// The tree maps a key that a leaf holds to the value that the leaf pairs it
    /// with.
    pub proof fn lemma_contents_here(self, i: int, p: int, k: Text, v: Text)
        requires
            self.structure(),
            self.holds_at(i, p, k, v),
        ensures
            self.contents().dom().contains(k),
            self.contents()[k] == v,
    {
        assert(self.holds(k, v));
        let w = choose|w: Text| self.holds(k, w);
        let (other_leaf, other_at) = choose|other_leaf: int, other_at: int| self.holds_at(other_leaf, other_at, k, w);
        self.lemma_holder_unique(i, p, k, v);
        self.lemma_holder_unique(other_leaf, other_at, k, w);
    }

    /// The tree does not map a key that the leaf responsible for it does not
    /// hold.
    pub proof fn lemma_contents_absent(self, k: Text)
        requires
            self.structure(),
            forall|p: int|
                0 <= p < self.nodes[self.leaf_for(k)].keys.len() ==> #[trigger] self.nodes[self.leaf_for(
                    k,
                )].keys[p] != k,
        ensures
            !self.contents().dom().contains(k),
    {
        if self.contents().dom().contains(k) {
            let w = choose|w: Text| self.holds(k, w);
            let (other_leaf, other_at) = choose|other_leaf: int, other_at: int| self.holds_at(other_leaf, other_at, k, w);
            self.lemma_holder_unique(other_leaf, other_at, k, w);
        }
    }

    /// The root covers every key.
    pub proof fn lemma_root_covers(self, k: Text)
        requires
            self.structure(),
        ensures
            self.covers(self.root, k),
            self.live(self.leaf_for(k)),
            self.nodes[self.leaf_for(k)].leaf,
            self.covers(self.leaf_for(k), k),
            self.node_ok(self.leaf_for(k)),
    {
        self.lemma_descend(self.root, k);
    }

    /// A node of `self` that `other` holds unchanged, with its place and with
    /// children and a parent that still agree with it, is in order in `other`.
    pub proof fn lemma_node_kept(self, other: TreeState, i: int)
        requires
            self.node_ok(i),
            other.has(i),
            other.nodes[i] == self.nodes[i],
            other.spans[i] == self.spans[i],
            other.root == self.root,
            other.spans[other.root].level >= self.spans[self.root].level,
            self.nodes[i].parent matches Some(p) ==> other.live(p) && !other.nodes[p].leaf
                && other.nodes[p].children.contains(i),
            forall|j: int|
                0 <= j < self.nodes[i].children.len() ==> {
                    let c = #[trigger] self.nodes[i].children[j];
                    &&& other.live(c)
                    &&& other.nodes[c].parent == self.nodes[c].parent
                    &&& other.spans[c] == self.spans[c]
                },
        ensures
            other.node_ok(i),
    {
        if !self.nodes[i].leaf {
            assert forall|j: int| 0 <= j < other.nodes[i].children.len() implies #[trigger] other.child_ok(
                i,
                j,
            ) by {
                assert(self.child_ok(i, j));
            }
        }
    }

    /// Two trees whose leaves hold the same pairs stand for the same map.
    pub proof fn lemma_same_pairs(self, other: TreeState)
        requires
            self.structure(),
            other.structure(),
            forall|k: Text, v: Text| self.holds(k, v) == other.holds(k, v),
        ensures
            self.contents() == other.contents(),
    {
        assert forall|k: Text| self.contents().dom().contains(k) implies other.contents().dom().contains(
            k,
        ) && self.contents()[k] == other.contents()[k] by {
            let v = self.contents()[k];
            assert(self.holds(k, v));
            assert(other.holds(k, v));
            let (i, p) = choose|i: int, p: int| other.holds_at(i, p, k, v);
            other.lemma_contents_here(i, p, k, v);
        }
        assert forall|k: Text| other.contents().dom().contains(k) implies self.contents().dom().contains(
            k,
        ) by {
            let v = other.contents()[k];
            assert(other.holds(k, v));
            assert(self.holds(k, v));
        }
        assert(self.contents() =~= other.contents());
    }

    /// A tree that holds the pairs of another and one more pair stands for the
    /// other's map with that pair put in.
    pub proof fn lemma_pairs_put(self, other: TreeState, k: Text, v: Text)
        requires
            self.structure(),
            other.structure(),
            forall|k2: Text, v2: Text|
                other.holds(k2, v2) == ((k2 == k && v2 == v) || (k2 != k && self.holds(k2, v2))),
        ensures
            other.contents() == self.contents().insert(k, v),
    {
        let mine = self.contents();
        let theirs = other.contents();
        assert forall|k2: Text| #[trigger]
            theirs.dom().contains(k2) == (k2 == k || mine.dom().contains(k2)) by {
            if k2 == k {
                assert(other.holds(k, v));
            } else if mine.dom().contains(k2) {
                let v2 = mine[k2];
                assert(self.holds(k2, v2));
                assert(other.holds(k2, v2));
            } else if theirs.dom().contains(k2) {
                let v2 = theirs[k2];
                assert(other.holds(k2, v2));
                assert(self.holds(k2, v2));
            }
        }
        assert forall|k2: Text| #[trigger] theirs.dom().contains(k2) implies theirs[k2] == (if k2
            == k {
            v
        } else {
            mine[k2]
        }) by {
            let v2 = if k2 == k {
                v
            } else {
                mine[k2]
            };
            if k2 != k {
                assert(self.holds(k2, v2));
            }
            assert(other.holds(k2, v2));
            let (i, p) = choose|i: int, p: int| other.holds_at(i, p, k2, v2);
            other.lemma_contents_here(i, p, k2, v2);
        }
        assert(theirs =~= mine.insert(k, v));
    }

    /// A tree that holds the pairs of another but those of one key stands for
    /// the other's map with that key taken out.
    pub proof fn lemma_pairs_taken(self, other: TreeState, k: Text)
        requires
            self.structure(),
            other.structure(),
            forall|k2: Text, v2: Text| other.holds(k2, v2) == (k2 != k && self.holds(k2, v2)),
        ensures
            other.contents() == self.contents().remove(k),
    {
        let target = self.contents().remove(k);
        assert forall|k2: Text| target.dom().contains(k2) implies other.contents().dom().contains(
            k2,
        ) && other.contents()[k2] == target[k2] by {
            let v2 = target[k2];
            assert(self.holds(k2, v2));
            assert(other.holds(k2, v2));
            let (i, p) = choose|i: int, p: int| other.holds_at(i, p, k2, v2);
            other.lemma_contents_here(i, p, k2, v2);
        }
        assert forall|k2: Text| other.contents().dom().contains(k2) implies target.dom().contains(
            k2,
        ) by {
            let v2 = other.contents()[k2];
            assert(other.holds(k2, v2));
        }
        assert(other.contents() =~= target);
    }

    /// The leaves are the nodes of level 0.
    pub proof fn lemma_leaf_level(self, x: int)
        requires
            self.structure(),
            self.live(x),
        ensures
            self.nodes[x].leaf <==> self.spans[x].level == 0,
    {
        assert(self.node_ok(x));
        if !self.nodes[x].leaf {
            assert(self.child_ok(x, 0));
        }
    }
}

} // verus!
