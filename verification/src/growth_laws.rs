//! Putting a pair into a leaf and splitting a node keep the tree a search
//! tree; the first puts one pair into the map, the second leaves the map as it
//! is.

use crate::key::{ascending, key_lt, lemma_le_lt, lemma_lt_transitive, lemma_not_lt, Text};
use crate::lookup::{lemma_first_above_is, lemma_first_not_below, lemma_first_not_below_sorted};
use crate::model::{above, below, first_above, first_not_below, NodeView, TreeState};
use vstd::prelude::*;

verus! {

/// Ascending keys stay ascending when a key is put between a smaller left and a
/// greater right neighbour.
pub proof fn lemma_insert_ascending(keys: Seq<Text>, j: int, k: Text)
    requires
        ascending(keys),
        0 <= j <= keys.len(),
        j > 0 ==> key_lt(keys[j - 1], k),
        j < keys.len() ==> key_lt(k, keys[j]),
    ensures
        ascending(keys.insert(j, k)),
{
    let r = keys.insert(j, k);
    assert forall|a: int, b: int| 0 <= a < b < r.len() implies key_lt(
        #[trigger] r[a],
        #[trigger] r[b],
    ) by {
        if b == j {
            if a < j - 1 {
                lemma_lt_transitive(keys[a], keys[j - 1], k);
            }
        } else if a == j {
            if b - 1 > j {
                lemma_lt_transitive(k, keys[j], keys[b - 1]);
            }
        } else if a < j && b > j {
            assert(key_lt(keys[a], keys[b - 1]));
        } else if a < j && b < j {
            assert(key_lt(keys[a], keys[b]));
        } else {
            assert(key_lt(keys[a - 1], keys[b - 1]));
        }
    }
}

impl TreeState {
    /// The children that a split of node `n` moves to the new sibling.
    pub open spec fn moved(self, n: int) -> Seq<int> {
        self.right_half(n, 0).children
    }

    /// The cut lies inside the node, and the key at the cut lies strictly
    /// inside the range of the node.
    pub proof fn lemma_cut(self, n: int)
        requires
            self.splittable(n),
        ensures
            1 <= self.cut(n) < self.nodes[n].keys.len(),
            self.cut(n) <= self.fanout,
            self.nodes[n].keys.len() - self.cut(n) - 1 <= self.fanout,
            !self.nodes[n].leaf ==> self.nodes[n].keys.len() - self.cut(n) - 1 >= 1,
            self.node_ok(n),
            above(self.spans[n].lo, self.promoted(n), true),
            below(self.promoted(n), self.spans[n].hi),
    {
        assert(self.node_ok(n));
        let keys = self.nodes[n].keys;
        let m = self.cut(n);
        assert(key_lt(keys[0], keys[m]));
        assert(above(self.spans[n].lo, keys[0], !self.nodes[n].leaf));
        if self.spans[n].lo is Some {
            lemma_le_lt(self.spans[n].lo->0, keys[0], keys[m]);
        }
    }

    /// The children that move are children of `n` behind the cut; they are
    /// nodes of the tree one level below `n`.
    pub proof fn lemma_moved(self, n: int, c: int)
        requires
            self.splittable(n),
        ensures
            self.moved(n).contains(c) <==> !self.nodes[n].leaf && exists|j: int|
                self.cut(n) < j < self.nodes[n].children.len() && self.nodes[n].children[j] == c,
            self.moved(n).contains(c) ==> self.live(c) && self.nodes[c].parent == Some(n)
                && self.spans[c].level + 1 == self.spans[n].level,
    {
        self.lemma_cut(n);
        let m = self.cut(n);
        let ch = self.nodes[n].children;
        let mv = self.moved(n);
        if self.moved(n).contains(c) {
            let q = choose|q: int| 0 <= q < mv.len() && mv[q] == c;
            assert(ch[m + 1 + q] == c);
            assert(self.child_ok(n, m + 1 + q));
        }
        if !self.nodes[n].leaf && exists|j: int| m < j < ch.len() && ch[j] == c {
            let j = choose|j: int| m < j < ch.len() && ch[j] == c;
            assert(mv[j - m - 1] == c);
        }
    }

    /// A child of `n` at or before the cut does not move.
    pub proof fn lemma_stays(self, n: int, j: int)
        requires
            self.splittable(n),
            !self.nodes[n].leaf,
            0 <= j <= self.cut(n),
        ensures
            !self.moved(n).contains(self.nodes[n].children[j]),
    {
        self.lemma_cut(n);
        let c = self.nodes[n].children[j];
        self.lemma_moved(n, c);
        if self.moved(n).contains(c) {
            let j2 = choose|j2: int|
                self.cut(n) < j2 < self.nodes[n].children.len() && self.nodes[n].children[j2] == c;
            self.lemma_children_distinct(n, j, j2);
        }
    }

    /// The separator that node `n` hands to its parent belongs at the position
    /// of `n` among the parent's children.
    pub proof fn lemma_separator_place(self, n: int)
        requires
            self.splittable(n),
            n != self.root,
        ensures
            first_above(self.nodes[self.nodes[n].parent->0].keys, self.promoted(n), 0)
                == self.position(n),
            self.position(n) > 0 ==> key_lt(
                self.nodes[self.nodes[n].parent->0].keys[self.position(n) - 1],
                self.promoted(n),
            ),
            self.position(n) < self.nodes[self.nodes[n].parent->0].keys.len() ==> key_lt(
                self.promoted(n),
                self.nodes[self.nodes[n].parent->0].keys[self.position(n)],
            ),
            above(self.spans[self.nodes[n].parent->0].lo, self.promoted(n), true),
            below(self.promoted(n), self.spans[self.nodes[n].parent->0].hi),
    {
        self.lemma_cut(n);
        self.lemma_position(n);
        let p = self.nodes[n].parent->0;
        let j = self.position(n);
        let pk = self.nodes[p].keys;
        let key = self.promoted(n);
        lemma_first_above_is(pk, key, j);
        if j > 0 {
            assert(above(self.spans[p].lo, pk[j - 1], true));
            if self.spans[p].lo is Some {
                lemma_lt_transitive(self.spans[p].lo->0, pk[j - 1], key);
            }
        }
        if j < pk.len() {
            assert(below(pk[j], self.spans[p].hi));
            if self.spans[p].hi is Some {
                lemma_lt_transitive(key, pk[j], self.spans[p].hi->0);
            }
        }
    }

    /// What the arena holds after a split of a node that has a parent.
    pub proof fn lemma_split_shape(self, n: int)
        requires
            self.splittable(n),
            n != self.root,
        ensures
            ({
                let after = self.split_step(n);
                let p = self.nodes[n].parent->0;
                let t = self.nodes.len() as int;
                let j = self.position(n);
                &&& after.nodes.len() == self.nodes.len() + 1
                &&& after.spans.len() == self.nodes.len() + 1
                &&& after.root == self.root
                &&& after.fanout == self.fanout
                &&& after.detached == self.detached
                &&& after.nodes[n] == self.left_half(n, p)
                &&& after.nodes[t] == self.right_half(n, p)
                &&& after.nodes[p].parent == self.nodes[p].parent
                &&& after.nodes[p].leaf == self.nodes[p].leaf
                &&& after.nodes[p].values == self.nodes[p].values
                &&& after.nodes[p].keys == self.nodes[p].keys.insert(j, self.promoted(n))
                &&& after.nodes[p].children == self.nodes[p].children.insert(j + 1, t)
                &&& after.spans[n].level == self.spans[n].level
                &&& after.spans[n].lo == self.spans[n].lo
                &&& after.spans[n].hi == Some(self.promoted(n))
                &&& after.spans[t].level == self.spans[n].level
                &&& after.spans[t].lo == Some(self.promoted(n))
                &&& after.spans[t].hi == self.spans[n].hi
                &&& p != n && p != t && !self.moved(n).contains(p) && !self.moved(n).contains(n)
                &&& forall|x: int|
                    self.has(x) && x != n ==> #[trigger] after.spans[x] == self.spans[x]
                &&& forall|x: int|
                    self.has(x) && x != n && x != p ==> #[trigger] after.nodes[x] == (if self.moved(
                        n,
                    ).contains(x) {
                        NodeView { parent: Some(t), ..self.nodes[x] }
                    } else {
                        self.nodes[x]
                    })
            }),
    {
        self.lemma_cut(n);
        self.lemma_position(n);
        self.lemma_separator_place(n);
        let p = self.nodes[n].parent->0;
        self.lemma_moved(n, p);
        self.lemma_moved(n, n);
        assert(self.divide(n, p).nodes[p] == self.nodes[p]);
    }

    /// After a split of a node that has a parent, every node is in order.
    pub proof fn lemma_split_keeps_nodes(self, n: int, x: int)
        requires
            self.splittable(n),
            n != self.root,
            self.split_step(n).live(x),
        ensures
            self.split_step(n).node_ok(x),
    {
        let after = self.split_step(n);
        let p = self.nodes[n].parent->0;
        let t = self.nodes.len() as int;
        let j = self.position(n);
        let m = self.cut(n);
        let key = self.promoted(n);
        let node = self.nodes[n];
        self.lemma_split_shape(n);
        self.lemma_cut(n);
        self.lemma_position(n);
        self.lemma_separator_place(n);
        assert(self.node_ok(p));
        assert(self.node_ok(n));
        assert(self.child_ok(p, j));
        assert(after.nodes[p].children[j] == n);
        assert(after.nodes[p].children[j + 1] == t);
        if x == n {
            let nk = after.nodes[n].keys;
            assert forall|a: int, b: int| 0 <= a < b < nk.len() implies key_lt(
                #[trigger] nk[a],
                #[trigger] nk[b],
            ) by {
                assert(key_lt(node.keys[a], node.keys[b]));
            }
            assert forall|q: int| 0 <= q < nk.len() implies above(
                after.spans[n].lo,
                #[trigger] nk[q],
                !node.leaf,
            ) && below(nk[q], after.spans[n].hi) by {
                assert(nk[q] == node.keys[q]);
                assert(key_lt(node.keys[q], node.keys[m]));
            }
            if !node.leaf {
                assert forall|q: int| 0 <= q < after.nodes[n].children.len() implies #[trigger] after.child_ok(
                    n,
                    q,
                ) by {
                    assert(self.child_ok(n, q));
                    self.lemma_stays(n, q);
                    let c = node.children[q];
                    assert(after.nodes[n].children[q] == c);
                    assert(after.nodes[c] == self.nodes[c]);
                }
            }
        } else if x == t {
            let nk = after.nodes[t].keys;
            let off = if node.leaf {
                m
            } else {
                m + 1
            };
            assert forall|a: int, b: int| 0 <= a < b < nk.len() implies key_lt(
                #[trigger] nk[a],
                #[trigger] nk[b],
            ) by {
                assert(key_lt(node.keys[a + off], node.keys[b + off]));
            }
            assert forall|q: int| 0 <= q < nk.len() implies above(
                after.spans[t].lo,
                #[trigger] nk[q],
                !node.leaf,
            ) && below(nk[q], after.spans[t].hi) by {
                assert(nk[q] == node.keys[q + off]);
                if q + off > m {
                    assert(key_lt(node.keys[m], node.keys[q + off]));
                }
            }
            if !node.leaf {
                assert forall|q: int| 0 <= q < after.nodes[t].children.len() implies #[trigger] after.child_ok(
                    t,
                    q,
                ) by {
                    assert(self.child_ok(n, q + m + 1));
                    let c = node.children[q + m + 1];
                    assert(after.nodes[t].children[q] == c);
                    self.lemma_moved(n, c);
                    assert(after.nodes[c].parent == Some(t));
                }
            }
        } else if x == p {
            let pk = self.nodes[p].keys;
            lemma_insert_ascending(pk, j, key);
            let nk = after.nodes[p].keys;
            assert forall|q: int| 0 <= q < nk.len() implies above(
                after.spans[p].lo,
                #[trigger] nk[q],
                true,
            ) && below(nk[q], after.spans[p].hi) by {
                if q < j {
                    assert(nk[q] == pk[q]);
                } else if q > j {
                    assert(nk[q] == pk[q - 1]);
                }
            }
            if self.nodes[p].parent is Some {
                let g = self.nodes[p].parent->0;
                self.lemma_position(p);
                self.lemma_moved(n, g);
                assert(after.nodes[g] == self.nodes[g]);
            }
            let pc = self.nodes[p].children;
            let nc = after.nodes[p].children;
            assert forall|q: int| 0 <= q < after.nodes[p].children.len() implies #[trigger] after.child_ok(
                p,
                q,
            ) by {
                if q < j {
                    assert(self.child_ok(p, q));
                    let c = pc[q];
                    assert(nc[q] == c);
                    self.lemma_moved(n, c);
                    self.lemma_children_distinct(p, q, j);
                    assert(after.nodes[c] == self.nodes[c]);
                    assert(nk[q] == pk[q]);
                    if q > 0 {
                        assert(nk[q - 1] == pk[q - 1]);
                    }
                } else if q == j {
                    if q > 0 {
                        assert(nk[q - 1] == pk[q - 1]);
                    }
                    assert(nk[q] == key);
                } else if q == j + 1 {
                    assert(nk[j] == key);
                    if j < pk.len() {
                        assert(nk[j + 1] == pk[j]);
                    }
                } else {
                    assert(self.child_ok(p, q - 1));
                    let c = pc[q - 1];
                    assert(nc[q] == c);
                    self.lemma_moved(n, c);
                    self.lemma_children_distinct(p, j, q - 1);
                    assert(after.nodes[c] == self.nodes[c]);
                    assert(nk[q - 1] == pk[q - 2]);
                    if q - 1 < pk.len() {
                        assert(nk[q] == pk[q - 1]);
                    }
                }
            }
        } else {
            assert(self.live(x));
            assert(self.node_ok(x));
            self.lemma_moved(n, x);
            // The parent of x still lists x among its children.
            if self.nodes[x].parent is Some {
                let q = self.nodes[x].parent->0;
                assert(self.node_ok(q));
                self.lemma_position(x);
                let jx = self.position(x);
                if q == p {
                    if jx <= j {
                        assert(after.nodes[p].children[jx] == x);
                    } else {
                        assert(after.nodes[p].children[jx + 1] == x);
                    }
                } else if q == n {
                    if jx <= m {
                        assert(after.nodes[n].children[jx] == x);
                    } else {
                        assert(after.nodes[t].children[jx - m - 1] == x);
                    }
                } else {
                    self.lemma_moved(n, q);
                    assert(after.nodes[q].children == self.nodes[q].children);
                    assert(after.nodes[q].children[jx] == x);
                }
            }
            assert forall|q: int| 0 <= q < after.nodes[x].children.len() implies #[trigger] after.child_ok(
                x,
                q,
            ) by {
                assert(self.child_ok(x, q));
                let c = self.nodes[x].children[q];
                self.lemma_moved(n, c);
            }
        }
    }

    /// What the arena holds after a split of the root.
    pub proof fn lemma_root_split_shape(self, n: int)
        requires
            self.splittable(n),
            n == self.root,
        ensures
            ({
                let after = self.split_step(n);
                let t = self.nodes.len() as int;
                let r = t + 1;
                &&& self.nodes[n].parent is None
                &&& after.nodes.len() == self.nodes.len() + 2
                &&& after.spans.len() == self.nodes.len() + 2
                &&& after.root == r
                &&& after.fanout == self.fanout
                &&& after.detached == self.detached
                &&& after.nodes[n] == self.left_half(n, r)
                &&& after.nodes[t] == self.right_half(n, r)
                &&& after.nodes[r].parent is None
                &&& !after.nodes[r].leaf
                &&& after.nodes[r].values.len() == 0
                &&& after.nodes[r].keys == Seq::<Text>::empty().push(self.promoted(n))
                &&& after.nodes[r].children == Seq::<int>::empty().push(n).push(t)
                &&& after.spans[n].level == self.spans[n].level
                &&& after.spans[n].lo == self.spans[n].lo
                &&& after.spans[n].hi == Some(self.promoted(n))
                &&& after.spans[t].level == self.spans[n].level
                &&& after.spans[t].lo == Some(self.promoted(n))
                &&& after.spans[t].hi == self.spans[n].hi
                &&& after.spans[r].level == self.spans[n].level + 1
                &&& after.spans[r].lo is None
                &&& after.spans[r].hi is None
                &&& !self.moved(n).contains(n)
                &&& forall|x: int|
                    self.has(x) && x != n ==> #[trigger] after.spans[x] == self.spans[x]
                &&& forall|x: int|
                    self.has(x) && x != n ==> #[trigger] after.nodes[x] == (if self.moved(
                        n,
                    ).contains(x) {
                        NodeView { parent: Some(t), ..self.nodes[x] }
                    } else {
                        self.nodes[x]
                    })
            }),
    {
        self.lemma_cut(n);
        self.lemma_moved(n, n);
    }

    /// After a split of the root, every node is in order.
    pub proof fn lemma_root_split_keeps_nodes(self, n: int, x: int)
        requires
            self.splittable(n),
            n == self.root,
            self.split_step(n).live(x),
        ensures
            self.split_step(n).node_ok(x),
    {
        let after = self.split_step(n);
        let t = self.nodes.len() as int;
        let r = t + 1;
        let m = self.cut(n);
        let key = self.promoted(n);
        let node = self.nodes[n];
        self.lemma_root_split_shape(n);
        self.lemma_cut(n);
        assert(self.node_ok(n));
        assert(after.nodes[r].children[0] == n);
        assert(after.nodes[r].children[1] == t);
        if x == n {
            let nk = after.nodes[n].keys;
            assert forall|a: int, b: int| 0 <= a < b < nk.len() implies key_lt(
                #[trigger] nk[a],
                #[trigger] nk[b],
            ) by {
                assert(key_lt(node.keys[a], node.keys[b]));
            }
            assert forall|q: int| 0 <= q < nk.len() implies above(
                after.spans[n].lo,
                #[trigger] nk[q],
                !node.leaf,
            ) && below(nk[q], after.spans[n].hi) by {
                assert(nk[q] == node.keys[q]);
                assert(key_lt(node.keys[q], node.keys[m]));
            }
            if !node.leaf {
                assert forall|q: int| 0 <= q < after.nodes[n].children.len() implies #[trigger] after.child_ok(
                    n,
                    q,
                ) by {
                    assert(self.child_ok(n, q));
                    self.lemma_stays(n, q);
                    let c = node.children[q];
                    assert(after.nodes[n].children[q] == c);
                    assert(after.nodes[c] == self.nodes[c]);
                }
            }
        } else if x == t {
            let nk = after.nodes[t].keys;
            let off = if node.leaf {
                m
            } else {
                m + 1
            };
            assert forall|a: int, b: int| 0 <= a < b < nk.len() implies key_lt(
                #[trigger] nk[a],
                #[trigger] nk[b],
            ) by {
                assert(key_lt(node.keys[a + off], node.keys[b + off]));
            }
            assert forall|q: int| 0 <= q < nk.len() implies above(
                after.spans[t].lo,
                #[trigger] nk[q],
                !node.leaf,
            ) && below(nk[q], after.spans[t].hi) by {
                assert(nk[q] == node.keys[q + off]);
                if q + off > m {
                    assert(key_lt(node.keys[m], node.keys[q + off]));
                }
            }
            if !node.leaf {
                assert forall|q: int| 0 <= q < after.nodes[t].children.len() implies #[trigger] after.child_ok(
                    t,
                    q,
                ) by {
                    assert(self.child_ok(n, q + m + 1));
                    let c = node.children[q + m + 1];
                    assert(after.nodes[t].children[q] == c);
                    self.lemma_moved(n, c);
                    assert(after.nodes[c].parent == Some(t));
                }
            }
        } else if x == r {
            let nk = after.nodes[r].keys;
            assert(nk[0] == key);
            assert forall|q: int| 0 <= q < after.nodes[r].children.len() implies #[trigger] after.child_ok(
                r,
                q,
            ) by {
            }
        } else {
            assert(self.live(x));
            assert(self.node_ok(x));
            self.lemma_moved(n, x);
            if self.nodes[x].parent is Some {
                let q = self.nodes[x].parent->0;
                assert(self.node_ok(q));
                self.lemma_position(x);
                let jx = self.position(x);
                if q == n {
                    if jx <= m {
                        assert(after.nodes[n].children[jx] == x);
                    } else {
                        assert(after.nodes[t].children[jx - m - 1] == x);
                    }
                } else {
                    self.lemma_moved(n, q);
                    assert(after.nodes[q].children == self.nodes[q].children);
                    assert(after.nodes[q].children[jx] == x);
                }
            }
            assert forall|q: int| 0 <= q < after.nodes[x].children.len() implies #[trigger] after.child_ok(
                x,
                q,
            ) by {
                assert(self.child_ok(x, q));
                let c = self.nodes[x].children[q];
                self.lemma_moved(n, c);
            }
        }
    }

    /// A split moves pairs between the two halves of a leaf and changes no
    /// other: the leaves hold the same pairs before and after.
    pub proof fn lemma_split_keeps_pairs(self, n: int)
        requires
            self.splittable(n),
        ensures
            forall|k: Text, v: Text| self.split_step(n).holds(k, v) == self.holds(k, v),
    {
        let after = self.split_step(n);
        let t = self.nodes.len() as int;
        let m = self.cut(n);
        self.lemma_cut(n);
        if n == self.root {
            self.lemma_root_split_shape(n);
        } else {
            self.lemma_split_shape(n);
            self.lemma_position(n);
        }
        assert forall|k: Text, v: Text| after.holds(k, v) == self.holds(k, v) by {
            if after.holds(k, v) {
                let (x, q) = choose|x: int, q: int| after.holds_at(x, q, k, v);
                if x == n {
                    assert(self.holds_at(n, q, k, v));
                } else if x == t {
                    assert(self.holds_at(n, q + m, k, v));
                } else {
                    assert(self.holds_at(x, q, k, v));
                }
            }
            if self.holds(k, v) {
                let (x, q) = choose|x: int, q: int| self.holds_at(x, q, k, v);
                if x == n {
                    if q < m {
                        assert(after.holds_at(n, q, k, v));
                    } else {
                        assert(after.holds_at(t, q - m, k, v));
                    }
                } else {
                    assert(after.holds_at(x, q, k, v));
                }
            }
        }
    }

    /// One split of a node that is one key over its capacity leaves a search
    /// tree that stands for the same map. The two halves are within capacity;
    /// the parent has one key more; a split of the root puts a new root above.
    pub proof fn lemma_split_step(self, n: int)
        requires
            self.splittable(n),
        ensures
            self.split_step(n).structure(),
            self.split_step(n).detached.len() == 0,
            self.split_step(n).fanout == self.fanout,
            self.split_step(n).contents() == self.contents(),
            self.split_step(n).roomy(n),
            self.split_step(n).roomy(self.nodes.len() as int),
            forall|x: int|
                self.has(x) && x != n && Some(x) != self.nodes[n].parent ==> self.split_step(
                    n,
                ).nodes[x].keys == #[trigger] self.nodes[x].keys,
            self.nodes[n].parent matches Some(p) ==> {
                &&& self.split_step(n).nodes.len() == self.nodes.len() + 1
                &&& self.split_step(n).root == self.root
                &&& self.split_step(n).live(p)
                &&& self.split_step(n).nodes[p].keys.len() == self.nodes[p].keys.len() + 1
                &&& self.split_step(n).spans[self.root].level == self.spans[self.root].level
                &&& self.split_step(n).spans[p].level == self.spans[n].level + 1
            },
            self.nodes[n].parent is None ==> {
                &&& self.split_step(n).nodes.len() == self.nodes.len() + 2
                &&& self.split_step(n).root == self.nodes.len() + 1
                &&& self.split_step(n).nodes[self.nodes.len() as int + 1].keys.len() == 1
            },
    {
        let after = self.split_step(n);
        self.lemma_cut(n);
        assert(self.node_ok(n));
        if n == self.root {
            self.lemma_root_split_shape(n);
            assert forall|x: int| #![trigger after.node_ok(x)] after.live(x) implies after.node_ok(
                x,
            ) by {
                self.lemma_root_split_keeps_nodes(n, x);
            }
        } else {
            self.lemma_split_shape(n);
            self.lemma_position(n);
            assert forall|x: int| #![trigger after.node_ok(x)] after.live(x) implies after.node_ok(
                x,
            ) by {
                self.lemma_split_keeps_nodes(n, x);
            }
        }
        assert(after.structure());
        self.lemma_split_keeps_pairs(n);
        self.lemma_same_pairs(after);
    }

    /// After a split, the parent is the one node that may be over its capacity.
    pub proof fn lemma_split_unsettles_parent(self, n: int)
        requires
            self.unsettled(n),
            self.nodes[n].keys.len() > self.fanout,
            self.nodes[n].parent is Some,
        ensures
            self.split_step(n).unsettled(self.nodes[n].parent->0),
    {
        let after = self.split_step(n);
        let p = self.nodes[n].parent->0;
        self.lemma_split_step(n);
        assert(self.node_ok(n));
        assert(self.roomy(p));
        assert forall|i: int| after.has(i) && i != p implies #[trigger] after.roomy(i) by {
            if i != n && i != self.nodes.len() {
                assert(self.roomy(i));
            }
        }
    }

    /// The splits that a node over its capacity sets off leave a well-formed
    /// tree that stands for the same map. They add at most one node for each
    /// level from the node up to the root, and one more for a new root.
    pub proof fn lemma_settle(self, n: int)
        requires
            self.unsettled(n),
        ensures
            self.settle(n).wf(),
            self.settle(n).contents() == self.contents(),
            self.settle(n).fanout == self.fanout,
            self.nodes.len() <= self.settle(n).nodes.len() <= self.nodes.len() + (
            self.spans[self.root].level - self.spans[n].level) + 2,
            self.spans[self.root].level <= self.settle(n).spans[self.settle(n).root].level
                <= self.spans[self.root].level + 1,
        decreases self.spans[self.root].level - self.spans[n].level,
    {
        assert(self.node_ok(n));
        if self.nodes[n].keys.len() <= self.fanout {
            assert(self.roomy(n));
        } else {
            let after = self.split_step(n);
            self.lemma_split_step(n);
            match self.nodes[n].parent {
                Some(p) => {
                    self.lemma_split_unsettles_parent(n);
                    assert(after.node_ok(p));
                    after.lemma_settle(p);
                },
                None => {
                    self.lemma_root_split_shape(n);
                    assert forall|i: int| after.has(i) implies #[trigger] after.roomy(i) by {
                        if i < self.nodes.len() && i != n {
                            assert(self.roomy(i));
                        }
                    }
                },
            }
        }
    }

    /// A leaf that took a new pair is the one node that may be over its
    /// capacity.
    pub proof fn lemma_put_pair_unsettles(self, k: Text, v: Text)
        requires
            self.wf(),
            !(first_not_below(self.nodes[self.leaf_for(k)].keys, k, 0)
                < self.nodes[self.leaf_for(k)].keys.len() && self.nodes[self.leaf_for(
                k,
            )].keys[first_not_below(self.nodes[self.leaf_for(k)].keys, k, 0)] == k),
        ensures
            self.put_pair(
                self.leaf_for(k),
                first_not_below(self.nodes[self.leaf_for(k)].keys, k, 0),
                k,
                v,
            ).unsettled(self.leaf_for(k)),
    {
        let leaf = self.leaf_for(k);
        let at = first_not_below(self.nodes[leaf].keys, k, 0);
        let after = self.put_pair(leaf, at, k, v);
        self.lemma_root_covers(k);
        self.lemma_put_pair(k, v);
        lemma_first_not_below(self.nodes[leaf].keys, k, 0);
        assert(self.roomy(leaf));
        assert forall|i: int| after.has(i) && i != leaf implies #[trigger] after.roomy(i) by {
            assert(self.roomy(i));
        }
    }

    /// Insertion keeps the tree well-formed and puts the pair into the map.
    pub proof fn lemma_inserted(self, k: Text, v: Text)
        requires
            self.wf(),
        ensures
            self.inserted(k, v).wf(),
            self.inserted(k, v).contents() == self.contents().insert(k, v),
            self.inserted(k, v).fanout == self.fanout,
            self.nodes.len() <= self.inserted(k, v).nodes.len() <= self.nodes.len()
                + self.spans[self.root].level + 2,
            self.spans[self.root].level <= self.inserted(k, v).spans[self.inserted(k, v).root].level
                <= self.spans[self.root].level + 1,
    {
        let leaf = self.leaf_for(k);
        let keys = self.nodes[leaf].keys;
        let at = first_not_below(keys, k, 0);
        self.lemma_root_covers(k);
        lemma_first_not_below(keys, k, 0);
        if at < keys.len() && keys[at] == k {
            let after = self.put_value(leaf, at, v);
            self.lemma_put_value(leaf, at, v);
            assert forall|i: int| after.has(i) implies #[trigger] after.roomy(i) by {
                assert(self.roomy(i));
            }
        } else {
            let mid = self.put_pair(leaf, at, k, v);
            self.lemma_put_pair(k, v);
            self.lemma_put_pair_unsettles(k, v);
            mid.lemma_settle(leaf);
        }
    }

    /// Overwriting the value of a key that a leaf holds keeps the tree a search
    /// tree of the same shape and maps the key to the new value.
    pub proof fn lemma_put_value(self, i: int, p: int, v: Text)
        requires
            self.structure(),
            self.live(i),
            self.nodes[i].leaf,
            0 <= p < self.nodes[i].keys.len(),
        ensures
            self.put_value(i, p, v).structure(),
            self.put_value(i, p, v).contents() == self.contents().insert(self.nodes[i].keys[p], v),
    {
        let other = self.put_value(i, p, v);
        let k = self.nodes[i].keys[p];
        assert(self.node_ok(i));
        assert(other.detached == self.detached);
        assert forall|x: int| #![trigger other.node_ok(x)] other.live(x) implies other.node_ok(
            x,
        ) by {
            assert(self.node_ok(x));
            if x != i {
                if self.nodes[x].parent is Some {
                    assert(self.node_ok(self.nodes[x].parent->0));
                }
                assert forall|j: int| 0 <= j < self.nodes[x].children.len() implies {
                    let c = #[trigger] self.nodes[x].children[j];
                    &&& other.live(c)
                    &&& other.nodes[c].parent == self.nodes[c].parent
                    &&& other.spans[c] == self.spans[c]
                } by {
                    assert(self.child_ok(x, j));
                }
                self.lemma_node_kept(other, x);
            }
        }
        assert forall|d: int| 0 <= d < other.detached.len() implies other.spent(
            #[trigger] other.detached[d],
        ) by {
            assert(self.spent(self.detached[d]));
        }
        assert(self.holds_at(i, p, k, self.nodes[i].values[p]));
        assert forall|k2: Text, v2: Text|
            other.holds(k2, v2) == ((k2 == k && v2 == v) || (k2 != k && self.holds(k2, v2))) by {
            if other.holds(k2, v2) {
                let (x, q) = choose|x: int, q: int| other.holds_at(x, q, k2, v2);
                if x == i && q == p {
                } else {
                    assert(self.holds_at(x, q, k2, v2));
                    if k2 == k {
                        self.lemma_holder_unique(x, q, k2, v2);
                        self.lemma_holder_unique(i, p, k, self.nodes[i].values[p]);
                    }
                }
            }
            if k2 == k && v2 == v {
                assert(other.holds_at(i, p, k2, v2));
            }
            if k2 != k && self.holds(k2, v2) {
                let (x, q) = choose|x: int, q: int| self.holds_at(x, q, k2, v2);
                assert(other.holds_at(x, q, k2, v2));
            }
        }
        self.lemma_pairs_put(other, k, v);
    }

    /// Putting a new pair into the leaf that is responsible for its key, at the
    /// position that keeps the keys ascending, keeps the tree a search tree
    /// and adds the pair to the map.
    pub proof fn lemma_put_pair(self, k: Text, v: Text)
        requires
            self.structure(),
            !(first_not_below(self.nodes[self.leaf_for(k)].keys, k, 0) < self.nodes[self.leaf_for(
                k,
            )].keys.len() && self.nodes[self.leaf_for(k)].keys[first_not_below(
                self.nodes[self.leaf_for(k)].keys,
                k,
                0,
            )] == k),
        ensures
            self.put_pair(
                self.leaf_for(k),
                first_not_below(self.nodes[self.leaf_for(k)].keys, k, 0),
                k,
                v,
            ).structure(),
            self.put_pair(
                self.leaf_for(k),
                first_not_below(self.nodes[self.leaf_for(k)].keys, k, 0),
                k,
                v,
            ).contents() == self.contents().insert(k, v),
    {
        let i = self.leaf_for(k);
        let keys = self.nodes[i].keys;
        let p = first_not_below(keys, k, 0);
        let other = self.put_pair(i, p, k, v);
        self.lemma_root_covers(k);
        lemma_first_not_below(keys, k, 0);
        lemma_first_not_below_sorted(keys, k);
        assert(self.node_ok(i));
        assert(other.detached == self.detached);
        if p < keys.len() {
            lemma_not_lt(keys[p], k);
        }
        lemma_insert_ascending(keys, p, k);
        assert forall|x: int| #![trigger other.node_ok(x)] other.live(x) implies other.node_ok(
            x,
        ) by {
            assert(self.node_ok(x));
            if x != i {
                if self.nodes[x].parent is Some {
                    assert(self.node_ok(self.nodes[x].parent->0));
                }
                assert forall|j: int| 0 <= j < self.nodes[x].children.len() implies {
                    let c = #[trigger] self.nodes[x].children[j];
                    &&& other.live(c)
                    &&& other.nodes[c].parent == self.nodes[c].parent
                    &&& other.spans[c] == self.spans[c]
                } by {
                    assert(self.child_ok(x, j));
                }
                self.lemma_node_kept(other, x);
            } else {
                let nk = other.nodes[i].keys;
                assert forall|q: int| 0 <= q < nk.len() implies above(
                    other.spans[i].lo,
                    #[trigger] nk[q],
                    false,
                ) && below(nk[q], other.spans[i].hi) by {
                    if q < p {
                        assert(nk[q] == keys[q]);
                    } else if q > p {
                        assert(nk[q] == keys[q - 1]);
                    }
                }
            }
        }
        assert forall|d: int| 0 <= d < other.detached.len() implies other.spent(
            #[trigger] other.detached[d],
        ) by {
            assert(self.spent(self.detached[d]));
            assert(self.detached.contains(self.detached[d]));
        }
        assert forall|k2: Text, v2: Text|
            other.holds(k2, v2) == ((k2 == k && v2 == v) || (k2 != k && self.holds(k2, v2))) by {
            if other.holds(k2, v2) {
                let (x, q) = choose|x: int, q: int| other.holds_at(x, q, k2, v2);
                if x == i {
                    if q < p {
                        assert(self.holds_at(x, q, k2, v2));
                    } else if q > p {
                        assert(self.holds_at(x, q - 1, k2, v2));
                    }
                } else {
                    assert(self.holds_at(x, q, k2, v2));
                }
                if k2 == k && !(x == i && q == p) {
                    let (x1, q1) = choose|x1: int, q1: int| self.holds_at(x1, q1, k2, v2);
                    self.lemma_holder_unique(x1, q1, k2, v2);
                }
            }
            if k2 == k && v2 == v {
                assert(other.holds_at(i, p, k2, v2));
            }
            if k2 != k && self.holds(k2, v2) {
                let (x, q) = choose|x: int, q: int| self.holds_at(x, q, k2, v2);
                if x == i {
                    if q < p {
                        assert(other.holds_at(x, q, k2, v2));
                    } else {
                        assert(other.holds_at(x, q + 1, k2, v2));
                    }
                } else {
                    assert(other.holds_at(x, q, k2, v2));
                }
            }
        }
        self.lemma_pairs_put(other, k, v);
    }
}

} // verus!
