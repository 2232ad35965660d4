//! Removing an emptied node from the arena renumbers the node that takes its
//! slot and keeps the tree what it was.

use crate::key::Text;
use crate::model::TreeState;
use crate::shrink::{redirected, renamed};
use vstd::prelude::*;

verus! {

/// The index that a node of the arena after a removal had before it.
pub open spec fn origin(i: int, x: int, len: int) -> int {
    if i == x {
        len - 1
    } else {
        i
    }
}

impl TreeState {
    /// A node is waiting for its removal.
    pub open spec fn pending(self) -> bool {
        self.structure() && self.detached.len() > 0
    }

    /// The node that is removed holds nothing, is not the root, and no other
    /// node waiting for removal is the same node.
    pub proof fn lemma_discarded(self)
        requires
            self.pending(),
        ensures
            self.spent(self.detached.last()),
            !self.live(self.detached.last()),
            forall|d: int|
                0 <= d < self.detached.len() - 1 ==> #[trigger] self.detached[d]
                    != self.detached.last(),
    {
        let top = self.detached.len() - 1;
        assert(self.spent(self.detached[top]));
        assert(self.detached.contains(self.detached[top]));
    }

    /// A node of the tree before the removal is a node of the tree after it,
    /// under its new number and with its references renumbered.
    pub proof fn lemma_discard_keeps(self, i: int)
        requires
            self.pending(),
            self.live(i),
        ensures
            ({
                let x = self.detached.last();
                let len = self.nodes.len() as int;
                let after = self.discard();
                &&& i != x
                &&& after.live(renamed(i, len - 1, x))
                &&& origin(renamed(i, len - 1, x), x, len) == i
                &&& after.nodes[renamed(i, len - 1, x)] == redirected(self.nodes[i], len - 1, x)
                &&& after.spans[renamed(i, len - 1, x)] == self.spans[i]
            }),
    {
        let x = self.detached.last();
        let len = self.nodes.len() as int;
        let after = self.discard();
        let to = renamed(i, len - 1, x);
        self.lemma_discarded();
        if after.detached.contains(to) {
            let d = choose|d: int| 0 <= d < after.detached.len() && after.detached[d] == to;
            assert(after.detached[d] == renamed(self.detached[d], len - 1, x));
            assert(self.detached[d] != x);
            assert(self.spent(self.detached[d]));
            assert(self.detached[d] == i);
            assert(self.detached.contains(i));
        }
    }

    /// A node of the tree after the removal was a node of the tree before it.
    pub proof fn lemma_discard_origin(self, to: int)
        requires
            self.pending(),
            self.discard().live(to),
        ensures
            ({
                let x = self.detached.last();
                let len = self.nodes.len() as int;
                &&& self.live(origin(to, x, len))
                &&& renamed(origin(to, x, len), len - 1, x) == to
            }),
    {
        let x = self.detached.last();
        let len = self.nodes.len() as int;
        let after = self.discard();
        let i = origin(to, x, len);
        self.lemma_discarded();
        if self.detached.contains(i) {
            let d = choose|d: int| 0 <= d < self.detached.len() && self.detached[d] == i;
            assert(after.detached[d] == renamed(self.detached[d], len - 1, x));
            assert(after.detached.contains(to));
        }
    }

    /// After the removal, every node of the tree is in order.
    pub proof fn lemma_discard_keeps_nodes(self, to: int)
        requires
            self.pending(),
            self.discard().live(to),
        ensures
            self.discard().node_ok(to),
    {
        let x = self.detached.last();
        let len = self.nodes.len() as int;
        let after = self.discard();
        let i = origin(to, x, len);
        self.lemma_discarded();
        self.lemma_discard_origin(to);
        self.lemma_discard_keeps(i);
        self.lemma_discard_keeps(self.root);
        assert(self.node_ok(i));
        if self.nodes[i].parent is Some {
            let q = self.nodes[i].parent->0;
            self.lemma_discard_keeps(q);
            let at = choose|at: int|
                0 <= at < self.nodes[q].children.len() && self.nodes[q].children[at] == i;
            assert(after.nodes[renamed(q, len - 1, x)].children[at] == to);
        }
        assert forall|j: int| 0 <= j < after.nodes[to].children.len() implies #[trigger] after.child_ok(
            to,
            j,
        ) by {
            assert(self.child_ok(i, j));
            let c = self.nodes[i].children[j];
            self.lemma_discard_keeps(c);
            assert(after.nodes[to].children[j] == renamed(c, len - 1, x));
        }
    }

    /// The removal of an emptied node leaves a search tree that stands for the
    /// same map, with one node less waiting for removal.
    pub proof fn lemma_discard(self)
        requires
            self.pending(),
        ensures
            self.discard().structure(),
            self.discard().contents() == self.contents(),
            self.discard().detached.len() == self.detached.len() - 1,
            self.discard().fanout == self.fanout,
            self.discard().nodes.len() == self.nodes.len() - 1,
            self.discard().spans[self.discard().root].level == self.spans[self.root].level,
            forall|to: int|
                0 <= to < self.nodes.len() - 1 ==> (#[trigger] self.discard().nodes[to]).keys
                    == self.nodes[origin(to, self.detached.last(), self.nodes.len() as int)].keys,
    {
        let x = self.detached.last();
        let len = self.nodes.len() as int;
        let after = self.discard();
        self.lemma_discarded();
        self.lemma_discard_keeps(self.root);
        assert forall|to: int| #![trigger after.node_ok(to)] after.live(to) implies after.node_ok(
            to,
        ) by {
            self.lemma_discard_keeps_nodes(to);
        }
        assert forall|d: int| 0 <= d < after.detached.len() implies after.spent(
            #[trigger] after.detached[d],
        ) by {
            let i = self.detached[d];
            assert(self.spent(i));
            assert(after.detached[d] == renamed(i, len - 1, x));
        }
        assert(after.detached.no_duplicates()) by {
            assert forall|a: int, b: int|
                0 <= a < after.detached.len() && 0 <= b < after.detached.len() && a
                    != b implies after.detached[a] != after.detached[b] by {
                assert(self.spent(self.detached[a]));
                assert(self.spent(self.detached[b]));
                assert(self.detached[a] != self.detached[b]);
            }
        }
        assert(after.structure());
        assert forall|k: Text, v: Text| after.holds(k, v) == self.holds(k, v) by {
            if after.holds(k, v) {
                let (to, q) = choose|to: int, q: int| after.holds_at(to, q, k, v);
                assert(self.holds_at(origin(to, x, len), q, k, v));
            }
            if self.holds(k, v) {
                let (i, q) = choose|i: int, q: int| self.holds_at(i, q, k, v);
                assert(after.holds_at(renamed(i, len - 1, x), q, k, v));
            }
        }
        self.lemma_same_pairs(after);
    }
}

} // verus!
