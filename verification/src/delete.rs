//! Deletion, and the merges that fold neighbouring nodes which have become
//! small.

use crate::lookup::lemma_first_not_below_sorted;
use crate::node::{key_position, redirect_all, NodeType};
use crate::shrink::redirected;
use crate::tree::BPlusTree;
use vstd::prelude::*;

verus! {

broadcast use crate::views::group_views;

/// Exclusive access to the three nodes at the ascending arena indices `a`,
/// `b` and `c` at once: the arena is cut at `b` and at `c` into three windows
/// that do not overlap, and one node is borrowed from each.
fn borrow_ascending(v: &mut Vec<NodeType>, a: usize, b: usize, c: usize) -> (r: (
    &mut NodeType,
    &mut NodeType,
    &mut NodeType,
))
    requires
        a < b < c < old(v).len(),
    ensures
        *r.0 == old(v)@[a as int],
        *r.1 == old(v)@[b as int],
        *r.2 == old(v)@[c as int],
        final(v)@ == old(v)@.update(a as int, *final(r.0)).update(b as int, *final(r.1)).update(
            c as int,
            *final(r.2),
        ),
{
    let whole = v.as_mut_slice();
    let (head, rest) = whole.split_at_mut(b);
    let (mid, tail) = rest.split_at_mut(c - b);
    (&mut head[a], &mut mid[0], &mut tail[0])
}

/// Exclusive access to the three nodes at the pairwise different arena indices
/// `indices.0`, `indices.1` and `indices.2` at once, in that order, whatever
/// their order in the arena.
pub fn borrow_mut_nodes(v: &mut Vec<NodeType>, indices: (usize, usize, usize)) -> (r: (
    &mut NodeType,
    &mut NodeType,
    &mut NodeType,
))
    requires
        indices.0 < old(v).len(),
        indices.1 < old(v).len(),
        indices.2 < old(v).len(),
        indices.0 != indices.1,
        indices.0 != indices.2,
        indices.1 != indices.2,
    ensures
        *r.0 == old(v)@[indices.0 as int],
        *r.1 == old(v)@[indices.1 as int],
        *r.2 == old(v)@[indices.2 as int],
        final(v)@ == old(v)@.update(indices.0 as int, *final(r.0)).update(
            indices.1 as int,
            *final(r.1),
        ).update(indices.2 as int, *final(r.2)),
{
    let (i, j, k) = indices;
    if i < j {
        if j < k {
            let (x, y, z) = borrow_ascending(v, i, j, k);
            (x, y, z)
        } else if i < k {
            let (x, y, z) = borrow_ascending(v, i, k, j);
            (x, z, y)
        } else {
            let (x, y, z) = borrow_ascending(v, k, i, j);
            (y, z, x)
        }
    } else {
        if i < k {
            let (x, y, z) = borrow_ascending(v, j, i, k);
            (y, x, z)
        } else if j < k {
            let (x, y, z) = borrow_ascending(v, j, k, i);
            (z, x, y)
        } else {
            let (x, y, z) = borrow_ascending(v, k, j, i);
            (z, y, x)
        }
    }
}

impl BPlusTree {
    /// The tree is a search tree with every node within its capacity; nodes may
    /// wait for their removal.
    pub open(crate) spec fn tidy(&self) -> bool {
        self.thresholds_ok() && self.state().tidy()
    }

    /// Removes the node at `index`, the one that was emptied last, from the
    /// arena: the last node of the arena takes its slot, and every reference to
    /// the last node, in the nodes, in the root index and in the list of the
    /// nodes that wait for removal, is set to that slot.
    pub(crate) fn remove_node(&mut self, index: usize)
        requires
            old(self).state().pending(),
            index == old(self).state().detached.last(),
        ensures
            final(self).state() == old(self).state().discard(),
            final(self).fanout == old(self).fanout,
            final(self).split_threshold == old(self).split_threshold,
            final(self).merge_threshold == old(self).merge_threshold,
            final(self).height == old(self).height,
    {
        let ghost s = self.state();
        let ghost target = s.discard();
        proof {
            s.lemma_discarded();
        }
        let swap_origin: usize = self.nodes.len() - 1;
        self.detached.pop();
        self.nodes.swap_remove(index);
        if self.root_index == swap_origin {
            self.root_index = index;
        }
        let ghost swapped = self.nodes@;
        let ghost mid = *self;
        let mut i: usize = 0;
        while i < self.nodes.len()
            invariant
                i <= self.nodes@.len(),
                mid.same_frame(self),
                swapped == mid.nodes@,
                forall|q: int|
                    0 <= q < i ==> (#[trigger] self.nodes@[q])@ == redirected(swapped[q]@, swap_origin as int, index as int),
                forall|q: int| i <= q < self.nodes@.len() ==> #[trigger] self.nodes@[q] == swapped[q],
            decreases self.nodes@.len() - i,
        {
            self.nodes[i].redirect(swap_origin, index);
            i += 1;
        }
        redirect_all(&mut self.detached, swap_origin, index);
        proof {
            self.spans@ = target.spans;
            assert(self.state().nodes =~= target.nodes);
            assert(self.state().detached =~= target.detached);
            assert(self.state() == target);
        }
    }

    /// The child at position `slot` of the internal node at `index`.
    pub(crate) fn child_at(&self, index: usize, slot: usize) -> (child: usize)
        requires
            index < self.nodes@.len(),
            slot < self.nodes@[index as int]@.children.len(),
        ensures
            child == self.nodes@[index as int]@.children[slot as int],
    {
        match &self.nodes[index] {
            NodeType::Internal(node) => node.children[slot],
            NodeType::Leaf(_) => index,
        }
    }

    /// The position of the node at `child` among the children of the node at
    /// `parent_index`.
    pub(crate) fn child_position(&self, parent_index: usize, child: usize) -> (slot: usize)
        requires
            parent_index < self.nodes@.len(),
            self.nodes@[parent_index as int]@.children.contains(child as int),
        ensures
            slot < self.nodes@[parent_index as int]@.children.len(),
            self.nodes@[parent_index as int]@.children[slot as int] == child,
    {
        let ghost children = self.nodes@[parent_index as int]@.children;
        let ghost at = choose|at: int| 0 <= at < children.len() && children[at] == child;
        let count: usize = match &self.nodes[parent_index] {
            NodeType::Internal(node) => node.children.len(),
            NodeType::Leaf(_) => 0,
        };
        let mut slot: usize = 0;
        loop
            invariant
                slot <= at < children.len(),
                count == children.len(),
                children[at] == child,
                children == self.nodes@[parent_index as int]@.children,
                parent_index < self.nodes@.len(),
            decreases at - slot,
        {
            if self.child_at(parent_index, slot) == child {
                return slot;
            }
            assert(slot != at);
            slot += 1;
        }
    }

    /// The left node of a fold may be folded into the right one: the two are
    /// neighbours under one parent and hold no more keys together than the
    /// merge threshold allows.
    pub open(crate) spec fn mergeable(&self, l: int, r: int) -> bool {
        let s = self.state();
        &&& self.tidy()
        &&& s.foldable(l, r, s.position(l))
        &&& s.nodes[l].keys.len() + s.nodes[r].keys.len() <= self.merge_threshold
    }

    /// Looks among the children of the internal node at `index`, from the left,
    /// for two neighbours that hold no more keys together than the merge
    /// threshold, and merges the first such pair. Does nothing if there is none
    /// or if the node is a leaf.
    pub(crate) fn check_merge(&mut self, index: usize)
        requires
            old(self).tidy(),
            old(self).state().live(index as int),
        ensures
            final(self).state() == old(self).state().merge_checked(index as int),
            final(self).thresholds_ok(),
        decreases
                old(self).state().spans[old(self).state().root].level - old(
                    self,
                ).state().spans[index as int].level,
                1int,
    {
        let ghost s = self.state();
        let count: usize = match &self.nodes[index] {
            NodeType::Internal(node) => node.children.len(),
            NodeType::Leaf(_) => 0,
        };
        proof {
            assert(s.node_ok(index as int));
        }
        let mut first_pos: usize = 0;
        let mut second_pos: usize = 1;
        while second_pos < count
            invariant
                self.state() == s,
                *self == *old(self),
                self.tidy(),
                s.live(index as int),
                s.node_ok(index as int),
                count == s.nodes[index as int].children.len(),
                second_pos == first_pos + 1,
                s.first_pair(index as int, 0) == s.first_pair(index as int, first_pos as int),
            decreases count - first_pos,
        {
            let left: usize = self.child_at(index, first_pos);
            let right: usize = self.child_at(index, second_pos);
            proof {
                assert(s.child_ok(index as int, first_pos as int));
                assert(s.child_ok(index as int, second_pos as int));
            }
            let left_len: usize = self.nodes[left].keys().len();
            let right_len: usize = self.nodes[right].keys().len();
            if left_len <= self.merge_threshold && right_len <= self.merge_threshold - left_len {
                proof {
                    s.lemma_neighbours_foldable(index as int, first_pos as int);
                    let at = s.position(left as int);
                    s.lemma_position(left as int);
                    if at < first_pos {
                        s.lemma_children_distinct(index as int, at, first_pos as int);
                    } else if at > first_pos {
                        s.lemma_children_distinct(index as int, first_pos as int, at);
                    }
                }
                self.merge(left, right);
                return ;
            }
            first_pos += 1;
            second_pos += 1;
        }
    }

    /// Folds the node at `left_node_index` into its right neighbour at
    /// `right_node_index`: their parent loses the separator between the two and
    /// its pointer to the left node; the right node takes the keys of the left
    /// node in front of its own, with the separator between them if the nodes
    /// are internal, and likewise the values or the children, which are made to
    /// point at it. Then the parent's own parent is checked for a merge, and at
    /// last the left node is removed from the arena.
    pub(crate) fn merge(&mut self, left_node_index: usize, right_node_index: usize)
        requires
            old(self).mergeable(left_node_index as int, right_node_index as int),
        ensures
            final(self).state() == old(self).state().merged(
                left_node_index as int,
                right_node_index as int,
                old(self).state().position(left_node_index as int),
            ),
            final(self).thresholds_ok(),
        decreases
                old(self).state().spans[old(self).state().root].level - old(
                    self,
                ).state().spans[left_node_index as int].level - 1,
                0int,
    {
        let ghost s = self.state();
        let ghost l = left_node_index as int;
        let ghost r = right_node_index as int;
        let ghost j0 = s.position(l);
        proof {
            s.lemma_foldable(l, r, j0);
        }
        let parent_index: usize = self.nodes[left_node_index].parent().unwrap();
        let ghost p = parent_index as int;
        let key_position: usize = self.child_position(parent_index, left_node_index);
        let ghost j = key_position as int;
        proof {
            if j != j0 {
                if j < j0 {
                    s.lemma_children_distinct(p, j, j0);
                } else {
                    s.lemma_children_distinct(p, j0, j);
                }
            }
            s.lemma_fold(l, r, j);
            s.lemma_fold_shape(l, r, j);
        }
        let ghost target = s.fold(l, r, j);
        let grandparent = self.nodes[parent_index].parent();
        let (left_node, right_node, parent_node) = borrow_mut_nodes(
            &mut self.nodes,
            (left_node_index, right_node_index, parent_index),
        );
        match parent_node {
            NodeType::Internal(upper) => {
                let separator = upper.keys.remove(key_position);
                upper.children.remove(key_position);
                match left_node {
                    NodeType::Internal(left) => {
                        match right_node {
                            NodeType::Internal(right) => {
                                left.keys.push(separator);
                                left.keys.append(&mut right.keys);
                                core::mem::swap(&mut left.keys, &mut right.keys);
                                left.children.append(&mut right.children);
                                core::mem::swap(&mut left.children, &mut right.children);
                            },
                            NodeType::Leaf(_) => {},
                        }
                    },
                    NodeType::Leaf(left) => {
                        match right_node {
                            NodeType::Leaf(right) => {
                                left.keys.append(&mut right.keys);
                                core::mem::swap(&mut left.keys, &mut right.keys);
                                left.values.append(&mut right.values);
                                core::mem::swap(&mut left.values, &mut right.values);
                            },
                            NodeType::Internal(_) => {},
                        }
                    },
                }
            },
            NodeType::Leaf(_) => {},
        }
        let ghost folded = self.nodes@;
        proof {
            assert(folded[l]@ =~~= target.nodes[l]);
            assert(folded[r]@ =~~= target.nodes[r]);
            assert(folded[p]@ =~~= target.nodes[p]);
            assert forall|q: int|
                0 <= q < folded[r]@.children.len() implies 0 <= (#[trigger] folded[r]@.children[q])
                < folded.len() && folded[r]@.children[q] != right_node_index by {
                let ll = s.nodes[l].children.len() as int;
                if q < ll {
                    assert(s.child_ok(l, q));
                } else {
                    assert(s.child_ok(r, q - ll));
                }
            }
        }
        self.adopt_children(right_node_index);
        self.detached.push(left_node_index);
        proof {
            self.spans@ = target.spans;
            assert(self.state().detached =~= target.detached);
            assert(self.state().nodes =~= target.nodes) by {
                assert forall|i: int| 0 <= i < target.nodes.len() implies self.state().nodes[i]
                    == target.nodes[i] by {
                    let ll = s.nodes[l].children.len() as int;
                    if folded[r]@.children.contains(i) {
                        let q = choose|q: int|
                            0 <= q < folded[r]@.children.len() && folded[r]@.children[q] == i;
                        if q < ll {
                            assert(s.nodes[l].children[q] == i);
                            s.lemma_fold_moved(l, r, j, i);
                        } else {
                            assert(s.child_ok(r, q - ll));
                            if s.nodes[l].children.contains(i) {
                                s.lemma_fold_moved(l, r, j, i);
                            }
                        }
                    } else {
                        if s.nodes[l].children.contains(i) {
                            let q = choose|q: int|
                                0 <= q < s.nodes[l].children.len() && s.nodes[l].children[q] == i;
                            assert(folded[r]@.children[q] == i);
                        }
                    }
                    if i != l && i != r && i != p {
                        assert(folded[i] == old(self).nodes@[i]);
                    }
                }
            }
            assert(self.state() == target);
            assert forall|i: int| target.has(i) implies #[trigger] target.roomy(i) by {
                assert(s.roomy(i));
            }
            assert(target.node_ok(p));
            if grandparent is Some {
                target.lemma_merge_checked(grandparent->0 as int);
            }
        }
        match grandparent {
            Some(index) => {
                proof {
                    s.lemma_position(p);
                    assert(target.live(index as int));
                }
                self.check_merge(index)
            },
            None => {},
        }
        let last: usize = self.detached[self.detached.len() - 1];
        self.remove_node(last);
    }

    /// Takes `key` and its value out of the tree; does nothing if the tree does
    /// not hold the key. After a pair was taken out of a leaf, the leaf's
    /// parent is checked for a merge.
    pub fn delete(&mut self, key: String)
        requires
            old(self).wf(),
        ensures
            final(self).wf(),
            final(self)@ == old(self)@.remove(key@),
            !final(self)@.dom().contains(key@),
            final(self).state() == old(self).state().deleted(key@),
            final(self).spec_fanout() == old(self).spec_fanout(),
            final(self).spec_node_count() <= old(self).spec_node_count(),
            final(self).spec_height() == old(self).spec_height(),
            !old(self)@.dom().contains(key@) ==> *final(self) == *old(self),
    {
        let ghost s = self.state();
        let ghost k = key@;
        proof {
            s.lemma_deleted(k);
        }
        let target_node_index: usize = self.get_node_for_key(&key);
        let ghost leaf = target_node_index as int;
        proof {
            assert(s.node_ok(leaf));
            lemma_first_not_below_sorted(s.nodes[leaf].keys, k);
        }
        let found: Option<usize> = match &self.nodes[target_node_index] {
            NodeType::Internal(_) => None,
            NodeType::Leaf(node) => {
                let index: usize = key_position(&node.keys, &key);
                if index < node.keys.len() && node.keys[index] == key {
                    Some(index)
                } else {
                    None
                }
            },
        };
        match found {
            Some(index) => {
                match self.node_mut(target_node_index) {
                    Ok(NodeType::Leaf(node)) => {
                        node.keys.remove(index);
                        node.values.remove(index);
                    },
                    _ => {},
                }
                proof {
                    let after = s.take_pair(leaf, index as int);
                    s.lemma_take_pair(leaf, index as int);
                    assert(self.state().nodes =~= after.nodes) by {
                        assert(self.state().nodes[leaf] =~~= after.nodes[leaf]);
                    }
                    assert(self.state() == after);
                    assert forall|i: int| after.has(i) implies #[trigger] after.roomy(i) by {
                        assert(s.roomy(i));
                    }
                    assert(s.holds_at(leaf, index as int, k, s.nodes[leaf].values[index as int]));
                    s.lemma_contents_here(leaf, index as int, k, s.nodes[leaf].values[index as int]);
                    assert(after.node_ok(leaf));
                }
                match self.nodes[target_node_index].parent() {
                    Some(parent_index) => {
                        self.check_merge(parent_index)
                    },
                    None => {},
                }
            },
            None => {
                proof {
                    s.lemma_contents_absent(k);
                    assert(s.contents().remove(k) =~= s.contents());
                }
            },
        }
    }
}

} // verus!
