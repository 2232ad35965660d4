//! How the tree grows: a pair is put into a leaf, and a node that has become
//! too large is split in two, which hands one key up to its parent.

use crate::key::Text;
use crate::model::{first_above, first_not_below, NodeView, Span, TreeState};
use vstd::prelude::*;

verus! {

impl TreeState {
    /// The state in which leaf `i` pairs the key at position `p` with `v`.
    pub open spec fn put_value(self, i: int, p: int, v: Text) -> TreeState {
        TreeState {
            nodes: self.nodes.update(
                i,
                NodeView { values: self.nodes[i].values.update(p, v), ..self.nodes[i] },
            ),
            ..self
        }
    }

    /// The state in which leaf `i` holds the new pair of `k` and `v` at
    /// position `p`.
    pub open spec fn put_pair(self, i: int, p: int, k: Text, v: Text) -> TreeState {
        TreeState {
            nodes: self.nodes.update(
                i,
                NodeView {
                    keys: self.nodes[i].keys.insert(p, k),
                    values: self.nodes[i].values.insert(p, v),
                    ..self.nodes[i]
                },
            ),
            ..self
        }
    }

    /// The position at which node `n` is cut when it is split: a leaf keeps
    /// `fanout / 2 + 1` keys, an internal node `fanout / 2`.
    pub open spec fn cut(self, n: int) -> int {
        if self.nodes[n].leaf {
            self.fanout / 2 + 1
        } else {
            self.fanout / 2
        }
    }

    /// The key that a split of node `n` hands up: the key at the cut. A leaf
    /// keeps a copy of it as the first key of the new sibling; an internal node
    /// gives it away.
    pub open spec fn promoted(self, n: int) -> Text {
        self.nodes[n].keys[self.cut(n)]
    }

    /// What stays in node `n` when it is split, under the parent `up`.
    pub open spec fn left_half(self, n: int, up: int) -> NodeView {
        self.nodes[n].lower_part(self.cut(n), Some(up))
    }

    /// What moves from node `n` into its new sibling when it is split, under the
    /// parent `up`.
    pub open spec fn right_half(self, n: int, up: int) -> NodeView {
        self.nodes[n].upper_part(self.cut(n), Some(up))
    }

    /// The arena after node `n` was cut in two: the right half stands in a new
    /// node at the end of the arena, the children that moved with it point at
    /// it, and both halves name `up` as their parent.
    pub open spec fn divide(self, n: int, up: int) -> TreeState {
        let t = self.nodes.len() as int;
        let left = self.left_half(n, up);
        let right = self.right_half(n, up);
        let key = self.promoted(n);
        TreeState {
            nodes: Seq::new(
                self.nodes.len() + 1,
                |i: int|
                    if i == n {
                        left
                    } else if i == t {
                        right
                    } else if right.children.contains(i) {
                        NodeView { parent: Some(t), ..self.nodes[i] }
                    } else {
                        self.nodes[i]
                    },
            ),
            spans: self.spans.update(n, Span { hi: Some(key), ..self.spans[n] }).push(
                Span { level: self.spans[n].level, lo: Some(key), hi: self.spans[n].hi },
            ),
            ..self
        }
    }

    /// The arena after internal node `p` took in the separator `key` at its
    /// place among the keys and the child `t` right behind it.
    pub open spec fn take_in(self, p: int, key: Text, t: int) -> TreeState {
        let node = self.nodes[p];
        let at = first_above(node.keys, key, 0);
        TreeState {
            nodes: self.nodes.update(
                p,
                NodeView {
                    keys: node.keys.insert(at, key),
                    children: node.children.insert(at + 1, t),
                    ..node
                },
            ),
            ..self
        }
    }

    /// The arena after a new root was put above the two nodes `n` and `t`, which
    /// `key` separates.
    pub open spec fn raise(self, n: int, t: int, key: Text) -> TreeState {
        TreeState {
            nodes: self.nodes.push(
                NodeView {
                    parent: None,
                    keys: Seq::empty().push(key),
                    leaf: false,
                    children: Seq::empty().push(n).push(t),
                    values: Seq::empty(),
                },
            ),
            spans: self.spans.push(
                Span { level: self.spans[n].level + 1, lo: None, hi: None },
            ),
            root: self.nodes.len() as int,
            ..self
        }
    }

    /// The arena after one split of node `n`: the node is cut in two, and the
    /// key at the cut goes to its parent, or to a new root if it had none.
    pub open spec fn split_step(self, n: int) -> TreeState {
        let t = self.nodes.len() as int;
        match self.nodes[n].parent {
            Some(p) => self.divide(n, p).take_in(p, self.promoted(n), t),
            None => self.divide(n, t + 1).raise(n, t, self.promoted(n)),
        }
    }

    /// Node `n` of a search tree is one key over its capacity and waits for its
    /// split.
    pub open spec fn splittable(self, n: int) -> bool {
        &&& self.structure()
        &&& self.detached.len() == 0
        &&& self.live(n)
        &&& self.nodes[n].keys.len() == self.fanout + 1
    }

    /// Node `n` may be one key over its capacity; no other node is, and no node
    /// waits for removal.
    pub open spec fn unsettled(self, n: int) -> bool {
        &&& self.structure()
        &&& self.detached.len() == 0
        &&& self.live(n)
        &&& self.nodes[n].keys.len() <= self.fanout + 1
        &&& forall|i: int| self.has(i) && i != n ==> #[trigger] self.roomy(i)
    }

    /// The tree after the splits that a node over its capacity sets off: node
    /// `n` is split if it holds more than `fanout` keys, then its parent if
    /// that took it over its capacity, and so on up to the root.
    pub open spec fn settle(self, n: int) -> TreeState
        decreases self.spans[self.root].level - self.spans[n].level,
        when self.unsettled(n)
    {
        if self.nodes[n].keys.len() <= self.fanout {
            self
        } else {
            match self.nodes[n].parent {
                Some(p) => {
                    proof {
                        self.lemma_split_step(n);
                        self.lemma_split_unsettles_parent(n);
                        assert(self.split_step(n).node_ok(p));
                    }
                    self.split_step(n).settle(p)
                },
                None => self.split_step(n),
            }
        }
    }

    /// The tree after `k` was paired with `v`: a key that the tree holds gets
    /// the new value in place; a new key is put into the leaf responsible for
    /// it at its place among the keys, and the splits that this sets off are
    /// made.
    pub open spec fn inserted(self, k: Text, v: Text) -> TreeState {
        let leaf = self.leaf_for(k);
        let keys = self.nodes[leaf].keys;
        let at = first_not_below(keys, k, 0);
        if at < keys.len() && keys[at] == k {
            self.put_value(leaf, at, v)
        } else {
            self.put_pair(leaf, at, k, v).settle(leaf)
        }
    }
}

} // verus!
