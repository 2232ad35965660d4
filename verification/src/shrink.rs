//! How the tree shrinks: a pair is taken out of a leaf, two neighbouring
//! children of a node are folded into one, and the node that was emptied is
//! removed from the arena.

use crate::key::Text;
use crate::model::{first_not_below, NodeView, Span, TreeState};
use vstd::prelude::*;

verus! {

/// The arena index `i` after the node at `from` has moved to the slot `to`.
pub open spec fn renamed(i: int, from: int, to: int) -> int {
    if i == from {
        to
    } else {
        i
    }
}

/// The node with every reference to the arena index `from` set to `to`.
pub open spec fn redirected(node: NodeView, from: int, to: int) -> NodeView {
    NodeView {
        parent: match node.parent {
            Some(p) => Some(renamed(p, from, to)),
            None => None,
        },
        children: node.children.map_values(|c: int| renamed(c, from, to)),
        ..node
    }
}

impl TreeState {
    /// The state in which leaf `i` no longer holds the pair at position `p`.
    pub open spec fn take_pair(self, i: int, p: int) -> TreeState {
        TreeState {
            nodes: self.nodes.update(
                i,
                NodeView {
                    keys: self.nodes[i].keys.remove(p),
                    values: self.nodes[i].values.remove(p),
                    ..self.nodes[i]
                },
            ),
            ..self
        }
    }

    /// Node `l` is the child at position `j` of its parent and `r` is the next
    /// child: the two can be folded into one.
    pub open spec fn foldable(self, l: int, r: int, j: int) -> bool {
        &&& self.structure()
        &&& self.live(l)
        &&& l != self.root
        &&& 0 <= j
        &&& j + 1 < self.nodes[self.nodes[l].parent->0].children.len()
        &&& self.nodes[self.nodes[l].parent->0].children[j] == l
        &&& self.nodes[self.nodes[l].parent->0].children[j + 1] == r
    }

    /// The node that holds what `l` and its right neighbour `r` held: the keys
    /// of `l`, then for internal nodes the separator that stood between the two
    /// in their parent, then the keys of `r`.
    pub open spec fn folded(self, l: int, r: int, j: int) -> NodeView {
        let left = self.nodes[l];
        let right = self.nodes[r];
        let separator = self.nodes[left.parent->0].keys[j];
        NodeView {
            keys: if right.leaf {
                left.keys + right.keys
            } else {
                left.keys.push(separator) + right.keys
            },
            children: left.children + right.children,
            values: left.values + right.values,
            ..right
        }
    }

    /// The arena after `l`, the child at position `j` of its parent, was folded
    /// into the next child `r`: `r` holds what both held, the parent has lost
    /// the separator between them and its pointer to `l`, the children of `l`
    /// point at `r`, and `l` is empty and waits for its removal.
    pub open spec fn fold(self, l: int, r: int, j: int) -> TreeState {
        let left = self.nodes[l];
        let p = left.parent->0;
        let upper = self.nodes[p];
        TreeState {
            nodes: Seq::new(
                self.nodes.len(),
                |i: int|
                    if i == l {
                        NodeView {
                            keys: Seq::empty(),
                            children: Seq::empty(),
                            values: Seq::empty(),
                            ..left
                        }
                    } else if i == r {
                        self.folded(l, r, j)
                    } else if i == p {
                        NodeView {
                            keys: upper.keys.remove(j),
                            children: upper.children.remove(j),
                            ..upper
                        }
                    } else if left.children.contains(i) {
                        NodeView { parent: Some(r), ..self.nodes[i] }
                    } else {
                        self.nodes[i]
                    },
            ),
            spans: self.spans.update(r, Span { lo: self.spans[l].lo, ..self.spans[r] }),
            detached: self.detached.push(l),
            ..self
        }
    }

    /// The arena after the node that was detached last left it: the last node
    /// of the arena stands in its slot, and every reference to the last node
    /// points at that slot.
    pub open spec fn discard(self) -> TreeState {
        let x = self.detached.last();
        let len = self.nodes.len() as int;
        TreeState {
            nodes: Seq::new(
                (len - 1) as nat,
                |i: int|
                    redirected(
                        if i == x {
                            self.nodes[len - 1]
                        } else {
                            self.nodes[i]
                        },
                        len - 1,
                        x,
                    ),
            ),
            spans: self.spans.update(x, self.spans[len - 1]).drop_last(),
            root: renamed(self.root, len - 1, x),
            detached: self.detached.drop_last().map_values(|d: int| renamed(d, len - 1, x)),
            ..self
        }
    }

    /// The tree is a search tree with every node within its capacity; nodes may
    /// wait for their removal.
    pub open spec fn tidy(self) -> bool {
        self.structure() && forall|i: int| self.has(i) ==> #[trigger] self.roomy(i)
    }

    /// The first position from `from` on at which a child of node `index` and
    /// the next child hold no more than `fanout / 2` keys together, if there is
    /// one.
    pub open spec fn first_pair(self, index: int, from: int) -> Option<int>
        decreases self.nodes[index].children.len() - from,
    {
        let children = self.nodes[index].children;
        if from < 0 || from + 1 >= children.len() {
            None
        } else if self.nodes[children[from]].keys.len() + self.nodes[children[from + 1]].keys.len()
            <= self.fanout / 2 {
            Some(from)
        } else {
            self.first_pair(index, from + 1)
        }
    }

    /// The tree after node `index` was checked for a merge: the first two
    /// neighbouring children that hold no more than `fanout / 2` keys together
    /// are merged; with no such pair the tree stays as it is.
    pub open spec fn merge_checked(self, index: int) -> TreeState
        decreases self.spans[self.root].level - self.spans[index].level, 1int,
        when self.structure() && self.live(index)
    {
        match self.first_pair(index, 0) {
            Some(j) => {
                proof {
                    self.lemma_first_pair(index, 0);
                    self.lemma_neighbours_foldable(index, j);
                    assert(self.node_ok(index));
                }
                self.merged(self.nodes[index].children[j], self.nodes[index].children[j + 1], j)
            },
            None => self,
        }
    }

    /// The tree after `l`, the child at position `j` of its parent, was merged
    /// into the next child `r`: the two are folded into `r`, then the parent's
    /// own parent is checked for a merge, and at last `l` is removed from the
    /// arena.
    pub open spec fn merged(self, l: int, r: int, j: int) -> TreeState
        decreases self.spans[self.root].level - self.spans[l].level - 1, 0int,
        when self.foldable(l, r, j)
    {
        let p = self.nodes[l].parent->0;
        match self.nodes[p].parent {
            Some(g) => {
                proof {
                    self.lemma_fold(l, r, j);
                    self.lemma_foldable(l, r, j);
                    self.lemma_position(p);
                    assert(self.node_ok(g));
                }
                self.fold(l, r, j).merge_checked(g).discard()
            },
            None => self.fold(l, r, j).discard(),
        }
    }

    /// The tree after `k` was deleted: the leaf responsible for `k` loses the
    /// pair of `k`, and its parent is checked for a merge. A tree that does not
    /// hold `k` stays as it is.
    pub open spec fn deleted(self, k: Text) -> TreeState {
        let leaf = self.leaf_for(k);
        let keys = self.nodes[leaf].keys;
        let at = first_not_below(keys, k, 0);
        if at < keys.len() && keys[at] == k {
            match self.nodes[leaf].parent {
                Some(p) => self.take_pair(leaf, at).merge_checked(p),
                None => self.take_pair(leaf, at),
            }
        } else {
            self
        }
    }
}

} // verus!
