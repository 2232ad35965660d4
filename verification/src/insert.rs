//! Insertion, and the splits that keep every node within its capacity.

use crate::lookup::{lemma_first_not_below, lemma_first_not_below_sorted};
use crate::model::{first_not_below, NodeView};
use crate::node::{child_slot, InternalNode, NodeType};
use crate::tree::{BPlusTree, TreeError};
use vstd::prelude::*;

verus! {

broadcast use crate::views::group_views;

impl BPlusTree {
    /// Node `n` may be one key over its capacity; apart from that the tree is
    /// well-formed, and the arena has room for the nodes that splits from `n`
    /// up to the root can add.
    pub open(crate) spec fn overfull_at(&self, n: int) -> bool {
        let s = self.state();
        &&& self.thresholds_ok()
        &&& s.unsettled(n)
        &&& s.nodes.len() + (s.spans[s.root].level - s.spans[n].level) + 2 <= usize::MAX
        &&& s.spans[s.root].level < usize::MAX
    }

    /// Puts `node` at the end of the arena and returns its index.
    pub(crate) fn allocate(&mut self, node: NodeType) -> (index: usize)
        ensures
            index == old(self).nodes@.len(),
            final(self).nodes@ == old(self).nodes@.push(node),
            final(self).root_index == old(self).root_index,
            final(self).fanout == old(self).fanout,
            final(self).split_threshold == old(self).split_threshold,
            final(self).merge_threshold == old(self).merge_threshold,
            final(self).height == old(self).height,
            final(self).detached == old(self).detached,
            final(self).spans == old(self).spans,
    {
        self.nodes.push(node);
        self.nodes.len() - 1
    }

    /// Makes every child of the node at `parent_index` name that node as its
    /// parent.
    pub(crate) fn adopt_children(&mut self, parent_index: usize)
        requires
            parent_index < old(self).nodes@.len(),
            forall|j: int|
                0 <= j < old(self).nodes@[parent_index as int]@.children.len() ==> 0 <= (
                #[trigger] old(self).nodes@[parent_index as int]@.children[j]) < old(
                    self,
                ).nodes@.len() && old(self).nodes@[parent_index as int]@.children[j]
                    != parent_index,
        ensures
            old(self).same_frame(final(self)),
            forall|i: int|
                0 <= i < old(self).nodes@.len() ==> #[trigger] final(self).nodes@[i]@ == (if old(
                    self,
                ).nodes@[parent_index as int]@.children.contains(i) {
                    NodeView { parent: Some(parent_index as int), ..old(self).nodes@[i]@ }
                } else {
                    old(self).nodes@[i]@
                }),
    {
        let count: usize = match &self.nodes[parent_index] {
            NodeType::Internal(node) => node.children.len(),
            NodeType::Leaf(_) => 0,
        };
        let ghost children = self.nodes@[parent_index as int]@.children;
        let mut k: usize = 0;
        while k < count
            invariant
                k <= count,
                count == children.len(),
                parent_index < self.nodes@.len(),
                old(self).same_frame(self),
                self.nodes@[parent_index as int]@ == old(self).nodes@[parent_index as int]@,
                children == old(self).nodes@[parent_index as int]@.children,
                forall|j: int|
                    0 <= j < children.len() ==> 0 <= (#[trigger] children[j]) < self.nodes@.len()
                        && children[j] != parent_index,
                forall|i: int|
                    0 <= i < old(self).nodes@.len() ==> #[trigger] self.nodes@[i]@ == (if children.subrange(
                        0,
                        k as int,
                    ).contains(i) {
                        NodeView { parent: Some(parent_index as int), ..old(self).nodes@[i]@ }
                    } else {
                        old(self).nodes@[i]@
                    }),
            decreases count - k,
        {
            let child: usize = match &self.nodes[parent_index] {
                NodeType::Internal(node) => node.children[k],
                NodeType::Leaf(_) => parent_index,
            };
            assert(child == children[k as int]);
            let ghost before = self.nodes@;
            self.nodes[child].set_parent(Some(parent_index));
            proof {
                let done = children.subrange(0, k as int);
                let next = children.subrange(0, k as int + 1);
                assert forall|i: int| 0 <= i < old(self).nodes@.len() implies #[trigger] self.nodes@[i]@
                    == (if next.contains(i) {
                    NodeView { parent: Some(parent_index as int), ..old(self).nodes@[i]@ }
                } else {
                    old(self).nodes@[i]@
                }) by {
                    assert(next[k as int] == child);
                    if done.contains(i) {
                        let q = choose|q: int| 0 <= q < done.len() && done[q] == i;
                        assert(next[q] == i);
                    }
                    if next.contains(i) && i != child {
                        let q = choose|q: int| 0 <= q < next.len() && next[q] == i;
                        assert(done[q] == i);
                    }
                    assert(before[i]@ == (if done.contains(i) {
                        NodeView { parent: Some(parent_index as int), ..old(self).nodes@[i]@ }
                    } else {
                        old(self).nodes@[i]@
                    }));
                }
            }
            k += 1;
        }
        proof {
            assert(children.subrange(0, k as int) =~= children);
        }
    }

    /// Splits the node at `index` if it holds more keys than the split
    /// threshold allows.
    pub(crate) fn check_split(&mut self, index: usize)
        requires
            old(self).overfull_at(index as int),
        ensures
            final(self).state() == old(self).state().settle(index as int),
            final(self).thresholds_ok(),
        decreases
                old(self).state().spans[old(self).state().root].level - old(
                    self,
                ).state().spans[index as int].level,
                1int,
    {
        if self.nodes[index].keys().len() <= self.split_threshold {
            return ;
        }
        self.split(index);
    }

    /// Splits the node at `node_index` in two if it is over its capacity, hands
    /// the key at the cut to its parent, and goes on with the parent; a root
    /// that is split gets a new root above it. Does nothing if the node is
    /// within its capacity.
    pub(crate) fn split(&mut self, node_index: usize)
        requires
            old(self).overfull_at(node_index as int),
        ensures
            final(self).state() == old(self).state().settle(node_index as int),
            final(self).thresholds_ok(),
        decreases
                old(self).state().spans[old(self).state().root].level - old(
                    self,
                ).state().spans[node_index as int].level,
                0int,
    {
        if self.nodes[node_index].keys().len() <= self.split_threshold {
            return ;
        }
        let ghost s = self.state();
        let ghost n = node_index as int;
        let ghost target = s.split_step(n);
        proof {
            assert(s.node_ok(n));
            s.lemma_cut(n);
            s.lemma_split_step(n);
            if n != s.root {
                s.lemma_position(n);
                s.lemma_split_shape(n);
            } else {
                s.lemma_root_split_shape(n);
            }
        }
        let nodes_length: usize = self.nodes.len();
        let parent = self.nodes[node_index].parent();
        let next_parent_index: usize = match parent {
            Some(index) => index,
            None => nodes_length + 1,
        };
        let (promotion_key, sibling_node) = match &mut self.nodes[node_index] {
            NodeType::Internal(node) => {
                let (key, sibling) = node.split(self.fanout / 2, Some(next_parent_index));
                (key, NodeType::Internal(sibling))
            },
            NodeType::Leaf(node) => {
                let (key, sibling) = node.split(self.fanout / 2 + 1, Some(next_parent_index));
                (key, NodeType::Leaf(sibling))
            },
        };
        proof {
            assert(promotion_key@ == s.promoted(n));
            assert(self.nodes@[n]@ =~~= s.left_half(n, next_parent_index as int));
            assert(sibling_node@ =~~= s.right_half(n, next_parent_index as int));
        }
        let new_index: usize = self.allocate(sibling_node);
        proof {
            assert forall|j: int|
                0 <= j < self.nodes@[nodes_length as int]@.children.len() implies 0 <= (
            #[trigger] self.nodes@[nodes_length as int]@.children[j]) < self.nodes@.len()
                && self.nodes@[nodes_length as int]@.children[j] != nodes_length by {
                let c = s.moved(n)[j];
                assert(s.moved(n).contains(c));
                s.lemma_moved(n, c);
            }
        }
        let ghost pushed = self.nodes@;
        self.adopt_children(nodes_length);
        proof {
            self.spans@ = s.divide(n, next_parent_index as int).spans;
            let mid = s.divide(n, next_parent_index as int);
            assert(self.state().nodes =~= mid.nodes) by {
                assert forall|i: int| 0 <= i < mid.nodes.len() implies self.state().nodes[i]
                    == mid.nodes[i] by {
                    s.lemma_moved(n, i);
                    if i != n && i != nodes_length {
                        assert(pushed[i] == old(self).nodes@[i]);
                    }
                }
            }
            assert(self.state() == mid);
        }
        match parent {
            Some(parent_index) => {
                match &mut self.nodes[parent_index] {
                    NodeType::Internal(parent_node) => {
                        let key_position: usize = child_slot(&parent_node.keys, &promotion_key);
                        assert(parent_node.children.len() == parent_node.keys.len() + 1) by {
                            assert(s.node_ok(parent_index as int));
                        }
                        parent_node.keys.insert(key_position, promotion_key);
                        parent_node.children.insert(key_position + 1, new_index);
                    },
                    NodeType::Leaf(_) => {},
                }
                proof {
                    assert(self.state().nodes =~= target.nodes) by {
                        assert(self.state().nodes[parent_index as int] =~~= target.nodes[parent_index as int]);
                    }
                    assert(self.state() == target);
                    s.lemma_split_unsettles_parent(n);
                }
                self.check_split(parent_index)
            },
            None => {
                let mut new_root = InternalNode::new(None);
                new_root.keys.push(promotion_key);
                new_root.children.push(node_index);
                new_root.children.push(new_index);
                self.root_index = self.allocate(NodeType::Internal(new_root));
                self.height = self.height + 1;
                proof {
                    self.spans@ = target.spans;
                    let top = self.state().nodes[nodes_length as int + 1];
                    let goal = target.nodes[nodes_length as int + 1];
                    assert(top.keys =~= goal.keys);
                    assert(top.children =~= goal.children);
                    assert(top.values =~= goal.values);
                    assert(top == goal);
                    assert(self.state().nodes =~= target.nodes);
                    assert(self.state() == target);
                }
            },
        }
    }

    /// Pairs `key` with `value`: a key that the tree holds gets the new value,
    /// and a new key is put into the leaf that is responsible for it, which is
    /// split if that takes it over its capacity.
    pub fn insert(&mut self, key: String, value: String)
        requires
            old(self).wf(),
            old(self).spec_node_count() + old(self).spec_height() + 2 <= usize::MAX,
        ensures
            final(self).wf(),
            final(self)@ == old(self)@.insert(key@, value@),
            final(self)@.dom().contains(key@) && final(self)@[key@] == value@,
            final(self).state() == old(self).state().inserted(key@, value@),
            final(self).spec_fanout() == old(self).spec_fanout(),
            old(self).spec_node_count() <= final(self).spec_node_count() <= old(self).spec_node_count() + old(
                self,
            ).spec_height() + 2,
            old(self).spec_height() <= final(self).spec_height() <= old(self).spec_height() + 1,
    {
        let ghost s = self.state();
        let ghost k = key@;
        let ghost v = value@;
        proof {
            s.lemma_inserted(k, v);
        }
        let target_node_index: usize = self.get_node_for_key(&key);
        let ghost leaf = target_node_index as int;
        proof {
            assert(s.node_ok(leaf));
            lemma_first_not_below_sorted(s.nodes[leaf].keys, k);
            lemma_first_not_below(s.nodes[leaf].keys, k, 0);
        }
        match self.node_mut(target_node_index) {
            Ok(NodeType::Leaf(node)) => {
                node.insert(key, value);
            },
            _ => {},
        }
        proof {
            let at = first_not_below(s.nodes[leaf].keys, k, 0);
            let found = at < s.nodes[leaf].keys.len() && s.nodes[leaf].keys[at] == k;
            let after = if found {
                s.put_value(leaf, at, v)
            } else {
                s.put_pair(leaf, at, k, v)
            };
            assert(self.state().nodes =~= after.nodes);
            assert(self.state() == after);
            if !found {
                s.lemma_put_pair_unsettles(k, v);
                assert(after.node_ok(leaf));
            } else {
                assert(s.roomy(leaf));
            }
        }
        if self.nodes[target_node_index].keys().len() > self.split_threshold {
            self.check_split(target_node_index)
        }
    }

    /// Pairs `key` with `value` as `insert` does, unless the arena could not
    /// take the nodes that the insertion may add: then the tree stays as it is
    /// and the request is refused.
    pub fn try_insert(&mut self, key: String, value: String) -> (done: Result<(), TreeError>)
        requires
            old(self).wf(),
        ensures
            final(self).wf(),
            old(self).spec_node_count() + old(self).spec_height() + 2 <= usize::MAX <==> done is Ok,
            done is Ok ==> final(self).state() == old(self).state().inserted(key@, value@)
                && final(self)@ == old(self)@.insert(key@, value@),
            done matches Err(e) ==> e == TreeError::ArenaFull && *final(self) == *old(self),
    {
        let count: usize = self.nodes.len();
        if self.height <= usize::MAX - 2 && count <= usize::MAX - 2 - self.height {
            self.insert(key, value);
            Ok(())
        } else {
            Err(TreeError::ArenaFull)
        }
    }
}

} // verus!
