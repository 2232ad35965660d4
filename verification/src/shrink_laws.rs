//! Taking a pair out of a leaf and folding two neighbours into one keep the
//! tree a search tree; the first takes one key out of the map, the second
//! leaves the map as it is.

use crate::key::{key_le, key_lt, lemma_lt_irreflexive, lemma_lt_le, lemma_lt_transitive, Text};
use crate::lookup::{lemma_first_not_below, lemma_first_not_below_sorted};
use crate::model::{above, below, first_not_below, NodeView, TreeState};
use crate::removal_laws::origin;
use vstd::prelude::*;

verus! {

impl TreeState {
    /// Taking the pair of a key out of the leaf that holds it keeps the tree a
    /// search tree and takes the key out of the map.
    pub proof fn lemma_take_pair(self, i: int, p: int)
        requires
            self.structure(),
            self.live(i),
            self.nodes[i].leaf,
            0 <= p < self.nodes[i].keys.len(),
        ensures
            self.take_pair(i, p).structure(),
            self.take_pair(i, p).contents() == self.contents().remove(self.nodes[i].keys[p]),
    {
        let other = self.take_pair(i, p);
        let keys = self.nodes[i].keys;
        let k = keys[p];
        assert(self.node_ok(i));
        assert(other.detached == self.detached);
        assert forall|x: int| #![trigger other.node_ok(x)] other.live(x) implies other.node_ok(
            x,
        ) by {
            assert(self.node_ok(x));
            if x != i {
                if self.nodes[x].parent is Some {
                    assert(self.node_ok(self.nodes[x].parent->0));
                }
                assert forall|j: int| 0 <= j < self.nodes[x].children.len() implies {
                    let c = #[trigger] self.nodes[x].children[j];
                    &&& other.live(c)
                    &&& other.nodes[c].parent == self.nodes[c].parent
                    &&& other.spans[c] == self.spans[c]
                } by {
                    assert(self.child_ok(x, j));
                }
                self.lemma_node_kept(other, x);
            } else {
                let nk = other.nodes[i].keys;
                assert forall|a: int, b: int| 0 <= a < b < nk.len() implies key_lt(
                    #[trigger] nk[a],
                    #[trigger] nk[b],
                ) by {
                    let a0 = if a < p {
                        a
                    } else {
                        a + 1
                    };
                    let b0 = if b < p {
                        b
                    } else {
                        b + 1
                    };
                    assert(key_lt(keys[a0], keys[b0]));
                }
                assert forall|q: int| 0 <= q < nk.len() implies above(
                    other.spans[i].lo,
                    #[trigger] nk[q],
                    false,
                ) && below(nk[q], other.spans[i].hi) by {
                    if q < p {
                        assert(nk[q] == keys[q]);
                    } else {
                        assert(nk[q] == keys[q + 1]);
                    }
                }
            }
        }
        assert forall|d: int| 0 <= d < other.detached.len() implies other.spent(
            #[trigger] other.detached[d],
        ) by {
            assert(self.spent(self.detached[d]));
            assert(self.detached.contains(self.detached[d]));
        }
        assert(self.holds_at(i, p, k, self.nodes[i].values[p]));
        assert forall|k2: Text, v2: Text|
            other.holds(k2, v2) == (k2 != k && self.holds(k2, v2)) by {
            if other.holds(k2, v2) {
                let (x, q) = choose|x: int, q: int| other.holds_at(x, q, k2, v2);
                if x == i {
                    let q0 = if q < p {
                        q
                    } else {
                        q + 1
                    };
                    assert(self.holds_at(x, q0, k2, v2));
                    if k2 == k {
                        if q0 < p {
                            assert(key_lt(keys[q0], keys[p]));
                        } else {
                            assert(key_lt(keys[p], keys[q0]));
                        }
                        lemma_lt_irreflexive(k);
                    }
                } else {
                    assert(self.holds_at(x, q, k2, v2));
                    if k2 == k {
                        self.lemma_holder_unique(x, q, k2, v2);
                        self.lemma_holder_unique(i, p, k, self.nodes[i].values[p]);
                    }
                }
            }
            if k2 != k && self.holds(k2, v2) {
                let (x, q) = choose|x: int, q: int| self.holds_at(x, q, k2, v2);
                if x == i {
                    if q < p {
                        assert(other.holds_at(x, q, k2, v2));
                    } else {
                        assert(other.holds_at(x, q - 1, k2, v2));
                    }
                } else {
                    assert(other.holds_at(x, q, k2, v2));
                }
            }
        }
        self.lemma_pairs_taken(other, k);
    }

    /// What is known of two neighbours that can be folded, and of their parent.
    pub proof fn lemma_foldable(self, l: int, r: int, j: int)
        requires
            self.foldable(l, r, j),
        ensures
            ({
                let p = self.nodes[l].parent->0;
                &&& self.nodes[l].parent is Some
                &&& self.live(p)
                &&& self.live(r)
                &&& !self.nodes[p].leaf
                &&& self.node_ok(p)
                &&& self.node_ok(l)
                &&& self.node_ok(r)
                &&& self.child_ok(p, j)
                &&& self.child_ok(p, j + 1)
                &&& j < self.nodes[p].keys.len()
                &&& l != r && l != p && r != p && r != self.root
                &&& self.nodes[r].parent == Some(p)
                &&& self.nodes[l].leaf == self.nodes[r].leaf
                &&& self.spans[l].level == self.spans[r].level
                &&& self.spans[l].hi == Some(self.nodes[p].keys[j])
                &&& self.spans[r].lo == Some(self.nodes[p].keys[j])
                &&& above(self.spans[l].lo, self.nodes[p].keys[j], true)
                &&& below(self.nodes[p].keys[j], self.spans[r].hi)
            }),
    {
        let p = self.nodes[l].parent->0;
        assert(self.node_ok(l));
        assert(self.node_ok(p));
        assert(self.child_ok(p, j));
        assert(self.child_ok(p, j + 1));
        assert(self.node_ok(r));
        self.lemma_children_distinct(p, j, j + 1);
        self.lemma_leaf_level(l);
        self.lemma_leaf_level(r);
        let pk = self.nodes[p].keys;
        assert(above(self.spans[p].lo, pk[j], true));
        assert(below(pk[j], self.spans[p].hi));
        if j > 0 {
            assert(key_lt(pk[j - 1], pk[j]));
        }
        if j + 1 < pk.len() {
            assert(key_lt(pk[j], pk[j + 1]));
        }
    }

    /// A child of the left neighbour is a node of the tree one level below, and
    /// none of the nodes that the fold rewrites.
    pub proof fn lemma_fold_moved(self, l: int, r: int, j: int, c: int)
        requires
            self.foldable(l, r, j),
            self.nodes[l].children.contains(c),
        ensures
            self.live(c),
            self.nodes[c].parent == Some(l),
            self.spans[c].level + 1 == self.spans[l].level,
            c != l,
            c != r,
            c != self.nodes[l].parent->0,
    {
        self.lemma_foldable(l, r, j);
        let q = choose|q: int| 0 <= q < self.nodes[l].children.len() && self.nodes[l].children[q] == c;
        assert(self.child_ok(l, q));
    }

    /// What the arena holds after a fold.
    pub proof fn lemma_fold_shape(self, l: int, r: int, j: int)
        requires
            self.foldable(l, r, j),
        ensures
            ({
                let after = self.fold(l, r, j);
                let p = self.nodes[l].parent->0;
                &&& after.nodes.len() == self.nodes.len()
                &&& after.spans.len() == self.spans.len()
                &&& after.root == self.root
                &&& after.fanout == self.fanout
                &&& after.detached == self.detached.push(l)
                &&& after.nodes[l].keys.len() == 0
                &&& after.nodes[l].children.len() == 0
                &&& after.nodes[l].values.len() == 0
                &&& after.nodes[r] == self.folded(l, r, j)
                &&& after.nodes[p].parent == self.nodes[p].parent
                &&& after.nodes[p].leaf == self.nodes[p].leaf
                &&& after.nodes[p].values == self.nodes[p].values
                &&& after.nodes[p].keys == self.nodes[p].keys.remove(j)
                &&& after.nodes[p].children == self.nodes[p].children.remove(j)
                &&& after.spans[r].level == self.spans[r].level
                &&& after.spans[r].lo == self.spans[l].lo
                &&& after.spans[r].hi == self.spans[r].hi
                &&& forall|x: int|
                    self.has(x) && x != r ==> #[trigger] after.spans[x] == self.spans[x]
                &&& forall|x: int| #[trigger] after.live(x) <==> self.live(x) && x != l
                &&& forall|x: int|
                    self.has(x) && x != l && x != r && x != p ==> #[trigger] after.nodes[x] == (
                    if self.nodes[l].children.contains(x) {
                        NodeView { parent: Some(r), ..self.nodes[x] }
                    } else {
                        self.nodes[x]
                    })
            }),
    {
        self.lemma_foldable(l, r, j);
        let after = self.fold(l, r, j);
        assert forall|x: int| #[trigger] after.live(x) <==> self.live(x) && x != l by {
            if self.detached.contains(x) {
                let d = choose|d: int| 0 <= d < self.detached.len() && self.detached[d] == x;
                assert(after.detached[d] == x);
            }
            if after.detached.contains(x) && x != l {
                let d = choose|d: int| 0 <= d < after.detached.len() && after.detached[d] == x;
                assert(self.detached[d] == x);
            }
            assert(after.detached[self.detached.len() as int] == l);
        }
    }

    /// After a fold, every node of the tree is in order.
    pub proof fn lemma_fold_keeps_nodes(self, l: int, r: int, j: int, x: int)
        requires
            self.foldable(l, r, j),
            self.fold(l, r, j).live(x),
        ensures
            self.fold(l, r, j).node_ok(x),
    {
        let after = self.fold(l, r, j);
        let p = self.nodes[l].parent->0;
        let left = self.nodes[l];
        let right = self.nodes[r];
        let pk = self.nodes[p].keys;
        let pc = self.nodes[p].children;
        let sep = pk[j];
        self.lemma_foldable(l, r, j);
        self.lemma_fold_shape(l, r, j);
        assert(after.nodes[p].children[j] == r);
        if x == r {
            let nk = after.nodes[r].keys;
            let ll = left.keys.len() as int;
            let off = if right.leaf {
                ll
            } else {
                ll + 1
            };
            // Each key of the folded node is a key of the left node, the
            // separator, or a key of the right node.
            assert forall|q: int| 0 <= q < nk.len() implies above(
                after.spans[r].lo,
                #[trigger] nk[q],
                !right.leaf,
            ) && below(nk[q], after.spans[r].hi) && (q < ll ==> nk[q] == left.keys[q] && key_lt(
                nk[q],
                sep,
            )) && (q >= off ==> nk[q] == right.keys[q - off] && key_le(sep, nk[q])) && (ll <= q
                < off ==> nk[q] == sep) by {
                if q < ll {
                    assert(nk[q] == left.keys[q]);
                    assert(below(left.keys[q], self.spans[l].hi));
                    if self.spans[r].hi is Some {
                        lemma_lt_transitive(left.keys[q], sep, self.spans[r].hi->0);
                    }
                } else if q >= off {
                    assert(nk[q] == right.keys[q - off]);
                    assert(above(self.spans[r].lo, right.keys[q - off], !right.leaf));
                    if self.spans[l].lo is Some {
                        lemma_lt_le(self.spans[l].lo->0, sep, right.keys[q - off]);
                    }
                } else {
                    assert(nk[q] == sep);
                }
            }
            assert forall|a: int, b: int| 0 <= a < b < nk.len() implies key_lt(
                #[trigger] nk[a],
                #[trigger] nk[b],
            ) by {
                if b < ll {
                    assert(key_lt(left.keys[a], left.keys[b]));
                } else if a >= off {
                    assert(key_lt(right.keys[a - off], right.keys[b - off]));
                } else if a < ll {
                    lemma_lt_le(nk[a], sep, nk[b]);
                } else {
                    assert(nk[a] == sep);
                    assert(above(self.spans[r].lo, right.keys[b - off], true));
                }
            }
            if !right.leaf {
                let lc = left.children.len() as int;
                assert forall|q: int| 0 <= q < after.nodes[r].children.len() implies #[trigger] after.child_ok(
                    r,
                    q,
                ) by {
                    if q < lc {
                        assert(self.child_ok(l, q));
                        let c = left.children[q];
                        assert(after.nodes[r].children[q] == c);
                        self.lemma_fold_moved(l, r, j, c);
                        if q > 0 {
                            assert(nk[q - 1] == left.keys[q - 1]);
                        }
                        if q < ll {
                            assert(nk[q] == left.keys[q]);
                        } else {
                            assert(nk[q] == sep);
                        }
                    } else {
                        assert(self.child_ok(r, q - lc));
                        let c = right.children[q - lc];
                        assert(after.nodes[r].children[q] == c);
                        if left.children.contains(c) {
                            self.lemma_fold_moved(l, r, j, c);
                        }
                        assert(after.nodes[c] == self.nodes[c]);
                        if q - lc > 0 {
                            assert(nk[q - 1] == right.keys[q - lc - 1]);
                        } else {
                            assert(nk[q - 1] == sep);
                        }
                        if q - lc < right.keys.len() {
                            assert(nk[q] == right.keys[q - lc]);
                        }
                    }
                }
            }
        } else if x == p {
            let nk = after.nodes[p].keys;
            assert forall|a: int, b: int| 0 <= a < b < nk.len() implies key_lt(
                #[trigger] nk[a],
                #[trigger] nk[b],
            ) by {
                let a0 = if a < j {
                    a
                } else {
                    a + 1
                };
                let b0 = if b < j {
                    b
                } else {
                    b + 1
                };
                assert(key_lt(pk[a0], pk[b0]));
            }
            assert forall|q: int| 0 <= q < nk.len() implies above(
                after.spans[p].lo,
                #[trigger] nk[q],
                true,
            ) && below(nk[q], after.spans[p].hi) by {
                if q < j {
                    assert(nk[q] == pk[q]);
                } else {
                    assert(nk[q] == pk[q + 1]);
                }
            }
            if self.nodes[p].parent is Some {
                let g = self.nodes[p].parent->0;
                self.lemma_position(p);
                if left.children.contains(g) {
                    self.lemma_fold_moved(l, r, j, g);
                }
                assert(after.nodes[g] == self.nodes[g]);
            }
            let nc = after.nodes[p].children;
            assert forall|q: int| 0 <= q < nc.len() implies #[trigger] after.child_ok(p, q) by {
                if q < j {
                    assert(self.child_ok(p, q));
                    let c = pc[q];
                    assert(nc[q] == c);
                    self.lemma_children_distinct(p, q, j);
                    self.lemma_children_distinct(p, q, j + 1);
                    if left.children.contains(c) {
                        self.lemma_fold_moved(l, r, j, c);
                    }
                    assert(after.nodes[c] == self.nodes[c]);
                    assert(nk[q] == pk[q]);
                    if q > 0 {
                        assert(nk[q - 1] == pk[q - 1]);
                    }
                } else if q == j {
                    assert(nc[q] == r);
                    if q > 0 {
                        assert(nk[q - 1] == pk[q - 1]);
                    }
                    if q < nk.len() {
                        assert(nk[q] == pk[q + 1]);
                    }
                } else {
                    assert(self.child_ok(p, q + 1));
                    let c = pc[q + 1];
                    assert(nc[q] == c);
                    self.lemma_children_distinct(p, j, q + 1);
                    self.lemma_children_distinct(p, j + 1, q + 1);
                    if left.children.contains(c) {
                        self.lemma_fold_moved(l, r, j, c);
                    }
                    assert(after.nodes[c] == self.nodes[c]);
                    assert(nk[q - 1] == pk[q]);
                    if q < nk.len() {
                        assert(nk[q] == pk[q + 1]);
                    }
                }
            }
        } else {
            assert(self.live(x));
            assert(self.node_ok(x));
            if left.children.contains(x) {
                self.lemma_fold_moved(l, r, j, x);
            }
            if self.nodes[x].parent is Some {
                let q = self.nodes[x].parent->0;
                assert(self.node_ok(q));
                self.lemma_position(x);
                let jx = self.position(x);
                if q == p {
                    if jx < j {
                        assert(after.nodes[p].children[jx] == x);
                    } else {
                        assert(after.nodes[p].children[jx - 1] == x);
                    }
                } else if q == l {
                    assert(left.children.contains(x));
                    assert(after.nodes[r].children[jx] == x);
                } else if q == r {
                    assert(after.nodes[r].children[jx + left.children.len()] == x);
                } else {
                    if left.children.contains(q) {
                        self.lemma_fold_moved(l, r, j, q);
                    }
                    assert(after.nodes[q].children == self.nodes[q].children);
                    assert(after.nodes[q].children[jx] == x);
                }
            }
            assert forall|q: int| 0 <= q < after.nodes[x].children.len() implies #[trigger] after.child_ok(
                x,
                q,
            ) by {
                assert(self.child_ok(x, q));
                let c = self.nodes[x].children[q];
                if left.children.contains(c) {
                    self.lemma_fold_moved(l, r, j, c);
                }
            }
        }
    }

    /// A fold moves the pairs of the left leaf to the right leaf and changes no
    /// other: the leaves hold the same pairs before and after.
    pub proof fn lemma_fold_keeps_pairs(self, l: int, r: int, j: int)
        requires
            self.foldable(l, r, j),
        ensures
            forall|k: Text, v: Text| self.fold(l, r, j).holds(k, v) == self.holds(k, v),
    {
        let after = self.fold(l, r, j);
        let ll = self.nodes[l].keys.len() as int;
        self.lemma_foldable(l, r, j);
        self.lemma_fold_shape(l, r, j);
        assert forall|k: Text, v: Text| after.holds(k, v) == self.holds(k, v) by {
            if after.holds(k, v) {
                let (x, q) = choose|x: int, q: int| after.holds_at(x, q, k, v);
                if x == r {
                    if q < ll {
                        assert(self.holds_at(l, q, k, v));
                    } else {
                        assert(self.holds_at(r, q - ll, k, v));
                    }
                } else {
                    assert(self.holds_at(x, q, k, v));
                }
            }
            if self.holds(k, v) {
                let (x, q) = choose|x: int, q: int| self.holds_at(x, q, k, v);
                if x == l {
                    assert(after.holds_at(r, q, k, v));
                } else if x == r {
                    assert(after.holds_at(r, q + ll, k, v));
                } else {
                    assert(after.holds_at(x, q, k, v));
                }
            }
        }
    }

    /// A fold leaves a search tree that stands for the same map, with the left
    /// node waiting for its removal.
    pub proof fn lemma_fold(self, l: int, r: int, j: int)
        requires
            self.foldable(l, r, j),
        ensures
            self.fold(l, r, j).structure(),
            self.fold(l, r, j).contents() == self.contents(),
            self.fold(l, r, j).detached == self.detached.push(l),
            self.fold(l, r, j).fanout == self.fanout,
            self.fold(l, r, j).root == self.root,
            self.fold(l, r, j).nodes.len() == self.nodes.len(),
            self.fold(l, r, j).live(self.nodes[l].parent->0),
            self.fold(l, r, j).nodes[self.nodes[l].parent->0].parent
                == self.nodes[self.nodes[l].parent->0].parent,
            forall|x: int| self.has(x) ==> #[trigger] self.fold(l, r, j).spans[x].level == self.spans[x].level,
            self.fold(l, r, j).nodes[r].keys.len() == self.nodes[l].keys.len()
                + self.nodes[r].keys.len() + (if self.nodes[r].leaf {
                0int
            } else {
                1int
            }),
            forall|x: int|
                self.has(x) && x != r ==> #[trigger] self.fold(l, r, j).nodes[x].keys.len()
                    <= self.nodes[x].keys.len(),
    {
        let after = self.fold(l, r, j);
        self.lemma_foldable(l, r, j);
        self.lemma_fold_shape(l, r, j);
        assert forall|x: int| #![trigger after.node_ok(x)] after.live(x) implies after.node_ok(
            x,
        ) by {
            self.lemma_fold_keeps_nodes(l, r, j, x);
        }
        assert forall|d: int| 0 <= d < after.detached.len() implies after.spent(
            #[trigger] after.detached[d],
        ) by {
            if d < self.detached.len() {
                let x = self.detached[d];
                assert(self.spent(x));
                assert(self.detached.contains(x));
                if self.nodes[l].children.contains(x) {
                    self.lemma_fold_moved(l, r, j, x);
                }
            }
        }
        assert(after.detached.no_duplicates()) by {
            assert forall|a: int, b: int|
                0 <= a < after.detached.len() && 0 <= b < after.detached.len() && a
                    != b implies after.detached[a] != after.detached[b] by {
                if a < self.detached.len() {
                    assert(self.detached.contains(self.detached[a]));
                }
                if b < self.detached.len() {
                    assert(self.detached.contains(self.detached[b]));
                }
            }
        }
        assert(after.structure());
        self.lemma_fold_keeps_pairs(l, r, j);
        self.lemma_same_pairs(after);
    }

    /// A pair that `first_pair` finds lies among the children and is small
    /// enough.
    pub proof fn lemma_first_pair(self, index: int, from: int)
        requires
            0 <= from,
        ensures
            self.first_pair(index, from) matches Some(j) ==> from <= j && j + 1
                < self.nodes[index].children.len() && self.nodes[self.nodes[index].children[j]].keys.len()
                + self.nodes[self.nodes[index].children[j + 1]].keys.len() <= self.fanout / 2,
        decreases self.nodes[index].children.len() - from,
    {
        let children = self.nodes[index].children;
        if from + 1 < children.len() && !(self.nodes[children[from]].keys.len()
            + self.nodes[children[from + 1]].keys.len() <= self.fanout / 2) {
            self.lemma_first_pair(index, from + 1);
        }
    }

    /// The children of a node of the tree at a position and at the next can be
    /// folded.
    pub proof fn lemma_neighbours_foldable(self, index: int, j: int)
        requires
            self.structure(),
            self.live(index),
            0 <= j,
            j + 1 < self.nodes[index].children.len(),
        ensures
            self.foldable(self.nodes[index].children[j], self.nodes[index].children[j + 1], j),
            self.spans[self.nodes[index].children[j]].level + 1 == self.spans[index].level,
    {
        assert(self.node_ok(index));
        assert(self.child_ok(index, j));
        assert(self.child_ok(index, j + 1));
        assert(self.node_ok(self.nodes[index].children[j]));
    }

    /// A check for a merge leaves a search tree with every node within its
    /// capacity that stands for the same map; as many nodes wait for removal
    /// as before.
    pub proof fn lemma_merge_checked(self, index: int)
        requires
            self.tidy(),
            self.live(index),
        ensures
            self.merge_checked(index).tidy(),
            self.merge_checked(index).contents() == self.contents(),
            self.merge_checked(index).detached.len() == self.detached.len(),
            self.merge_checked(index).fanout == self.fanout,
            self.merge_checked(index).nodes.len() <= self.nodes.len(),
            self.merge_checked(index).spans[self.merge_checked(index).root].level
                == self.spans[self.root].level,
        decreases self.spans[self.root].level - self.spans[index].level, 1int,
    {
        match self.first_pair(index, 0) {
            Some(j) => {
                self.lemma_first_pair(index, 0);
                self.lemma_neighbours_foldable(index, j);
                assert(self.node_ok(index));
                self.lemma_merged(
                    self.nodes[index].children[j],
                    self.nodes[index].children[j + 1],
                    j,
                );
            },
            None => {},
        }
    }

    /// A merge of two neighbours that hold no more than `fanout / 2` keys
    /// together leaves a search tree with every node within its capacity that
    /// stands for the same map; as many nodes wait for removal as before.
    pub proof fn lemma_merged(self, l: int, r: int, j: int)
        requires
            self.tidy(),
            self.foldable(l, r, j),
            self.nodes[l].keys.len() + self.nodes[r].keys.len() <= self.fanout / 2,
        ensures
            self.merged(l, r, j).tidy(),
            self.merged(l, r, j).contents() == self.contents(),
            self.merged(l, r, j).detached.len() == self.detached.len(),
            self.merged(l, r, j).fanout == self.fanout,
            self.merged(l, r, j).nodes.len() <= self.nodes.len(),
            self.merged(l, r, j).spans[self.merged(l, r, j).root].level
                == self.spans[self.root].level,
        decreases self.spans[self.root].level - self.spans[l].level - 1, 0int,
    {
        let p = self.nodes[l].parent->0;
        let mid = self.fold(l, r, j);
        self.lemma_fold(l, r, j);
        self.lemma_foldable(l, r, j);
        assert forall|i: int| mid.has(i) implies #[trigger] mid.roomy(i) by {
            assert(self.roomy(i));
        }
        let last = match self.nodes[p].parent {
            Some(g) => mid.merge_checked(g),
            None => mid,
        };
        if self.nodes[p].parent is Some {
            let g = self.nodes[p].parent->0;
            self.lemma_position(p);
            assert(self.node_ok(g));
            assert(mid.node_ok(p));
            mid.lemma_merge_checked(g);
        }
        last.lemma_discard();
        let after = last.discard();
        assert forall|i: int| after.has(i) implies #[trigger] after.roomy(i) by {
            assert(last.roomy(origin(
                i,
                last.detached.last(),
                last.nodes.len() as int,
            )));
        }
    }

    /// Deletion keeps the tree well-formed and takes the key out of the map.
    pub proof fn lemma_deleted(self, k: Text)
        requires
            self.wf(),
        ensures
            self.deleted(k).wf(),
            self.deleted(k).contents() == self.contents().remove(k),
            self.deleted(k).fanout == self.fanout,
            self.deleted(k).nodes.len() <= self.nodes.len(),
            self.deleted(k).spans[self.deleted(k).root].level == self.spans[self.root].level,
            !self.contents().dom().contains(k) <==> self.deleted(k) == self,
    {
        let leaf = self.leaf_for(k);
        let keys = self.nodes[leaf].keys;
        let at = first_not_below(keys, k, 0);
        self.lemma_root_covers(k);
        lemma_first_not_below(keys, k, 0);
        lemma_first_not_below_sorted(keys, k);
        if at < keys.len() && keys[at] == k {
            let mid = self.take_pair(leaf, at);
            self.lemma_take_pair(leaf, at);
            assert(self.holds_at(leaf, at, k, self.nodes[leaf].values[at]));
            self.lemma_contents_here(leaf, at, k, self.nodes[leaf].values[at]);
            assert forall|i: int| mid.has(i) implies #[trigger] mid.roomy(i) by {
                assert(self.roomy(i));
            }
            if self.nodes[leaf].parent is Some {
                assert(mid.node_ok(leaf));
                mid.lemma_merge_checked(self.nodes[leaf].parent->0);
            }
            assert(self.deleted(k).contents() != self.contents());
        } else {
            self.lemma_contents_absent(k);
            assert(self.contents().remove(k) =~= self.contents());
        }
    }
}

} // verus!
