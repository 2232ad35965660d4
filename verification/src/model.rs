//! The mathematical model of the tree: what a node and an arena of nodes are,
//! which arenas are well-formed trees, and which key-value pairs a tree holds.

use crate::key::{ascending, key_le, key_lt, Text};
use vstd::prelude::*;

verus! {

/// A node as a value: its parent, its keys, and either its children (an internal
/// node) or the values paired with its keys (a leaf).
pub struct NodeView {
    pub parent: Option<int>,
    pub keys: Seq<Text>,
    pub leaf: bool,
    pub children: Seq<int>,
    pub values: Seq<Text>,
}

/// What the tree knows of a node's place: its height above the leaves and the
/// range of keys that its subtree is responsible for, from `lo` (inclusive) up
/// to `hi` (exclusive); `None` is unbounded.
pub struct Span {
    pub level: nat,
    pub lo: Option<Text>,
    pub hi: Option<Text>,
}

/// An arena of nodes with its root, the fanout, and the nodes that were folded
/// into a sibling and still wait for their removal.
pub struct TreeState {
    pub nodes: Seq<NodeView>,
    pub spans: Seq<Span>,
    pub root: int,
    pub fanout: int,
    pub detached: Seq<int>,
}

/// `k` is at or above the lower bound `lo`; strictly above on request.
pub open spec fn above(lo: Option<Text>, k: Text, strict: bool) -> bool {
    lo matches Some(l) ==> if strict {
        key_lt(l, k)
    } else {
        key_le(l, k)
    }
}

/// `k` is strictly below the upper bound `hi`.
pub open spec fn below(k: Text, hi: Option<Text>) -> bool {
    hi matches Some(h) ==> key_lt(k, h)
}

/// The first position from `from` on whose key is strictly greater than `k`,
/// or the length of `keys` if there is none.
pub open spec fn first_above(keys: Seq<Text>, k: Text, from: int) -> int
    decreases keys.len() - from,
{
    if from < 0 || from >= keys.len() || key_lt(k, keys[from]) {
        from
    } else {
        first_above(keys, k, from + 1)
    }
}

/// The first position from `from` on whose key is `k` or greater, or the
/// length of `keys` if there is none.
pub open spec fn first_not_below(keys: Seq<Text>, k: Text, from: int) -> int
    decreases keys.len() - from,
{
    if from < 0 || from >= keys.len() || !key_lt(keys[from], k) {
        from
    } else {
        first_not_below(keys, k, from + 1)
    }
}

impl NodeView {
    /// The leaf with `k` paired with `v`: the value of a key that the leaf
    /// holds is overwritten; a new key is put with its value at the first
    /// position whose key is greater.
    pub open spec fn holding(self, k: Text, v: Text) -> NodeView {
        let at = first_not_below(self.keys, k, 0);
        if at < self.keys.len() && self.keys[at] == k {
            NodeView { values: self.values.update(at, v), ..self }
        } else {
            NodeView { keys: self.keys.insert(at, k), values: self.values.insert(at, v), ..self }
        }
    }

    /// What stays in a node that is cut at position `m`, under the parent
    /// `parent`: the keys before the cut, with their values in a leaf, and with
    /// the children up to the cut in an internal node.
    pub open spec fn lower_part(self, m: int, parent: Option<int>) -> NodeView {
        NodeView {
            parent,
            keys: self.keys.subrange(0, m),
            leaf: self.leaf,
            children: if self.leaf {
                self.children
            } else {
                self.children.subrange(0, m + 1)
            },
            values: if self.leaf {
                self.values.subrange(0, m)
            } else {
                self.values
            },
        }
    }

    /// What leaves a node that is cut at position `m`, under the parent
    /// `parent`: in a leaf the keys from the cut on with their values; in an
    /// internal node the keys behind the key at the cut and the children behind
    /// the cut.
    pub open spec fn upper_part(self, m: int, parent: Option<int>) -> NodeView {
        NodeView {
            parent,
            keys: if self.leaf {
                self.keys.subrange(m, self.keys.len() as int)
            } else {
                self.keys.subrange(m + 1, self.keys.len() as int)
            },
            leaf: self.leaf,
            children: if self.leaf {
                self.children
            } else {
                self.children.subrange(m + 1, self.children.len() as int)
            },
            values: if self.leaf {
                self.values.subrange(m, self.values.len() as int)
            } else {
                self.values
            },
        }
    }
}

impl TreeState {
    /// The tree that holds nothing: a single empty leaf, which is the root.
    pub open spec fn fresh(fanout: int) -> TreeState {
        TreeState {
            nodes: Seq::empty().push(
                NodeView {
                    parent: None,
                    keys: Seq::empty(),
                    leaf: true,
                    children: Seq::empty(),
                    values: Seq::empty(),
                },
            ),
            spans: Seq::empty().push(Span { level: 0, lo: None, hi: None }),
            root: 0,
            fanout,
            detached: Seq::empty(),
        }
    }

    /// `i` is an index of the arena.
    pub open spec fn has(self, i: int) -> bool {
        0 <= i < self.nodes.len()
    }

    /// `i` is a node of the tree: in the arena and not waiting for removal.
    pub open spec fn live(self, i: int) -> bool {
        self.has(i) && !self.detached.contains(i)
    }

    /// The lower bound that node `i` gives to its child at position `j`.
    pub open spec fn child_lo(self, i: int, j: int) -> Option<Text> {
        if j == 0 {
            self.spans[i].lo
        } else {
            Some(self.nodes[i].keys[j - 1])
        }
    }

    /// The upper bound that node `i` gives to its child at position `j`.
    pub open spec fn child_hi(self, i: int, j: int) -> Option<Text> {
        if j == self.nodes[i].keys.len() {
            self.spans[i].hi
        } else {
            Some(self.nodes[i].keys[j])
        }
    }

    /// The child at position `j` of node `i` is a node of the tree one level
    /// below, points back at `i`, and is responsible for exactly the keys
    /// between the separators on its two sides.
    pub open spec fn child_ok(self, i: int, j: int) -> bool {
        let c = self.nodes[i].children[j];
        &&& self.live(c)
        &&& self.nodes[c].parent == Some(i)
        &&& self.spans[c].level + 1 == self.spans[i].level
        &&& self.spans[c].lo == self.child_lo(i, j)
        &&& self.spans[c].hi == self.child_hi(i, j)
    }

    /// Key `k` lies in the range that node `i` is responsible for.
    pub open spec fn covers(self, i: int, k: Text) -> bool {
        above(self.spans[i].lo, k, false) && below(k, self.spans[i].hi)
    }

    /// Everything that must hold of one node of the tree but its size.
    pub open spec fn node_ok(self, i: int) -> bool {
        let n = self.nodes[i];
        let sp = self.spans[i];
        &&& ascending(n.keys)
        &&& forall|k: int|
            0 <= k < n.keys.len() ==> above(sp.lo, #[trigger] n.keys[k], !n.leaf) && below(
                n.keys[k],
                sp.hi,
            )
        &&& (n.parent is None <==> i == self.root)
        &&& sp.level <= self.spans[self.root].level
        &&& (n.parent matches Some(p) ==> self.live(p) && !self.nodes[p].leaf
            && self.nodes[p].children.contains(i))
        &&& (n.leaf ==> n.values.len() == n.keys.len() && n.children.len() == 0 && sp.level == 0)
        &&& (!n.leaf ==> n.values.len() == 0 && n.children.len() == n.keys.len() + 1
            && forall|j: int| 0 <= j < n.children.len() ==> #[trigger] self.child_ok(i, j))
    }

    /// A node that was folded into its sibling: it holds nothing and is not the
    /// root.
    pub open spec fn spent(self, i: int) -> bool {
        &&& self.has(i)
        &&& i != self.root
        &&& self.nodes[i].keys.len() == 0
        &&& self.nodes[i].children.len() == 0
        &&& self.nodes[i].values.len() == 0
    }

    /// The arena is a search tree, whatever the sizes of its nodes: one root,
    /// parents and children that agree, ascending keys, and every subtree
    /// within the range that its parent's separators leave it.
    pub open spec fn structure(self) -> bool {
        &&& self.fanout >= 2
        &&& self.spans.len() == self.nodes.len()
        &&& self.live(self.root)
        &&& self.spans[self.root].lo is None
        &&& self.spans[self.root].hi is None
        &&& forall|i: int| #![trigger self.node_ok(i)] self.live(i) ==> self.node_ok(i)
        &&& forall|d: int| 0 <= d < self.detached.len() ==> self.spent(#[trigger] self.detached[d])
        &&& self.detached.no_duplicates()
    }

    /// Node `i` holds at most `fanout` keys.
    pub open spec fn roomy(self, i: int) -> bool {
        self.nodes[i].keys.len() <= self.fanout
    }

    /// The state between two operations: a search tree with no node waiting for
    /// removal and no node over its capacity.
    pub open spec fn wf(self) -> bool {
        &&& self.structure()
        &&& self.detached.len() == 0
        &&& forall|i: int| self.has(i) ==> #[trigger] self.roomy(i)
    }

    /// Leaf `i` pairs key `k` with value `v` at position `p`.
    pub open spec fn holds_at(self, i: int, p: int, k: Text, v: Text) -> bool {
        &&& self.has(i)
        &&& self.nodes[i].leaf
        &&& 0 <= p < self.nodes[i].keys.len()
        &&& self.nodes[i].keys[p] == k
        &&& self.nodes[i].values[p] == v
    }

    /// Some leaf pairs key `k` with value `v`.
    pub open spec fn holds(self, k: Text, v: Text) -> bool {
        exists|i: int, p: int| self.holds_at(i, p, k, v)
    }

    /// The map that the tree stands for: the pairs that its leaves hold.
    pub open spec fn contents(self) -> Map<Text, Text> {
        Map::new(
            |k: Text| exists|v: Text| self.holds(k, v),
            |k: Text| choose|v: Text| self.holds(k, v),
        )
    }

    /// The position of the child of internal node `i` that is responsible for
    /// key `k`.
    pub open spec fn slot(self, i: int, k: Text) -> int {
        first_above(self.nodes[i].keys, k, 0)
    }

    /// The leaf that a search for `k` reaches from node `i`.
    pub open spec fn descend(self, i: int, k: Text) -> int
        decreases self.spans[i].level,
        when self.structure() && self.live(i)
    {
        if self.nodes[i].leaf {
            i
        } else {
            proof {
                crate::lookup::lemma_first_above(self.nodes[i].keys, k, 0);
                assert(self.node_ok(i));
                assert(self.child_ok(i, self.slot(i, k)));
            }
            self.descend(self.nodes[i].children[self.slot(i, k)], k)
        }
    }

    /// The leaf that is responsible for key `k`.
    pub open spec fn leaf_for(self, k: Text) -> int {
        self.descend(self.root, k)
    }
}

/// The tree that holds nothing is well-formed and stands for the empty map.
pub proof fn lemma_fresh(fanout: int)
    requires
        fanout >= 2,
    ensures
        TreeState::fresh(fanout).wf(),
        TreeState::fresh(fanout).contents() == Map::<Text, Text>::empty(),
{
    let s = TreeState::fresh(fanout);
    assert(s.node_ok(0));
    assert(s.contents() =~= Map::<Text, Text>::empty());
}

} // verus!
