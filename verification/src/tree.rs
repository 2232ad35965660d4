//! The tree: an arena of nodes, its root, and the search from the root to a leaf.

use crate::key::Text;
use crate::lookup::{lemma_first_above, lemma_first_not_below_sorted};
use crate::model::{lemma_fresh, Span, TreeState};
use crate::node::{key_position, LeafNode, NodeType};
use vstd::prelude::*;

verus! {

broadcast use crate::views::group_views;

/// Why the tree refused a request.
#[derive(Debug, Clone, Copy, PartialEq, Eq, Structural)]
pub enum TreeError {
    /// A tree needs a fanout of at least 2.
    FanoutTooSmall,
    /// The arena has no node at the index.
    InvalidIndex,
    /// The arena cannot take the nodes that an insertion may add.
    ArenaFull,
}

impl TreeError {
    /// The error in words.
    pub fn message(&self) -> (text: String)
        ensures
            text@ == match self {
                TreeError::FanoutTooSmall => "the fanout of a tree must be at least 2"@,
                TreeError::InvalidIndex => "the arena has no node at this index"@,
                TreeError::ArenaFull => "the arena is full"@,
            },
    {
        match self {
            TreeError::FanoutTooSmall => "the fanout of a tree must be at least 2".to_string(),
            TreeError::InvalidIndex => "the arena has no node at this index".to_string(),
            TreeError::ArenaFull => "the arena is full".to_string(),
        }
    }
}

/// A B+-tree that maps string keys to string values.
pub struct BPlusTree {
    /// The arena index of the root.
    pub(crate) root_index: usize,
    /// The arena: every node of the tree, each at its index.
    pub(crate) nodes: Vec<NodeType>,
    /// The largest number of keys that a node may hold between two operations.
    pub(crate) fanout: usize,
    /// A node with more keys than this is split: the fanout.
    pub(crate) split_threshold: usize,
    /// Two neighbours with no more keys together than this are merged: half
    /// the fanout.
    pub(crate) merge_threshold: usize,
    /// The number of levels above the leaves.
    pub(crate) height: usize,
    /// The nodes that were folded into a neighbour and wait for their removal
    /// from the arena, the latest last; empty between two operations.
    pub(crate) detached: Vec<usize>,
    /// For each node its level and the range of keys that it is responsible for.
    pub(crate) spans: Ghost<Seq<Span>>,
}

impl BPlusTree {
    /// The tree as a mathematical value.
    pub open(crate) spec fn state(&self) -> TreeState {
        TreeState {
            nodes: self.nodes@.map_values(|n: NodeType| n@),
            spans: self.spans@,
            root: self.root_index as int,
            fanout: self.fanout as int,
            detached: self.detached@.map_values(|d: usize| d as int),
        }
    }

    /// The number of nodes in the arena.
    pub open spec fn spec_node_count(&self) -> nat {
        self.state().nodes.len()
    }

    /// The number of levels above the leaves.
    pub open spec fn spec_height(&self) -> nat {
        self.state().spans[self.state().root].level
    }

    /// The fanout that the tree was made with.
    pub open spec fn spec_fanout(&self) -> int {
        self.state().fanout
    }

    /// The arena index of the root.
    pub open spec fn spec_root_index(&self) -> int {
        self.state().root
    }

    /// `other` differs from `self` in its nodes at most.
    pub open(crate) spec fn same_frame(&self, other: &BPlusTree) -> bool {
        &&& self.root_index == other.root_index
        &&& self.fanout == other.fanout
        &&& self.split_threshold == other.split_threshold
        &&& self.merge_threshold == other.merge_threshold
        &&& self.height == other.height
        &&& self.detached == other.detached
        &&& self.spans == other.spans
        &&& self.nodes@.len() == other.nodes@.len()
    }

    /// The thresholds are those of the fanout, and the height that the tree
    /// keeps is that of its root.
    pub open(crate) spec fn thresholds_ok(&self) -> bool {
        &&& self.split_threshold == self.fanout
        &&& self.merge_threshold == self.fanout / 2
        &&& self.height == self.spans@[self.root_index as int].level
    }

    /// The tree is well-formed: this holds between any two operations.
    pub open spec fn wf(&self) -> bool {
        self.thresholds_ok() && self.state().wf()
    }

    /// An empty tree: a single leaf, which is the root.
    pub fn new(fanout: usize) -> (tree: Self)
        requires
            fanout >= 2,
        ensures
            tree.wf(),
            tree.state() == TreeState::fresh(fanout as int),
            tree@ == Map::<Text, Text>::empty(),
    {
        let mut nodes: Vec<NodeType> = Vec::new();
        nodes.push(NodeType::Leaf(LeafNode::new(None)));
        let ghost first = Seq::empty().push(Span { level: 0, lo: None, hi: None });
        let spans: Ghost<Seq<Span>> = Ghost(first);
        let tree = BPlusTree {
            root_index: 0,
            nodes,
            fanout,
            split_threshold: fanout,
            merge_threshold: fanout / 2,
            height: 0,
            detached: Vec::new(),
            spans,
        };
        proof {
            lemma_fresh(fanout as int);
            let mine = tree.state().nodes[0];
            let goal = TreeState::fresh(fanout as int).nodes[0];
            assert(mine.keys =~= goal.keys);
            assert(mine.values =~= goal.values);
            assert(mine.children =~= goal.children);
            assert(tree.state().nodes =~= TreeState::fresh(fanout as int).nodes);
            assert(tree.state().detached =~= TreeState::fresh(fanout as int).detached);
        }
        tree
    }

    /// The tree that holds nothing, if `fanout` is at least 2; a smaller fanout
    /// is refused.
    pub fn try_new(fanout: usize) -> (made: Result<Self, TreeError>)
        ensures
            fanout >= 2 <==> made is Ok,
            made matches Ok(tree) ==> tree.wf() && tree.state() == TreeState::fresh(fanout as int),
            made matches Err(e) ==> e == TreeError::FanoutTooSmall,
    {
        if fanout < 2 {
            Err(TreeError::FanoutTooSmall)
        } else {
            Ok(BPlusTree::new(fanout))
        }
    }

    /// The fanout that the tree was made with.
    pub fn fanout(&self) -> (fanout: usize)
        ensures
            fanout == self.spec_fanout(),
    {
        self.fanout
    }

    /// The number of nodes in the arena.
    pub fn node_count(&self) -> (count: usize)
        ensures
            count == self.spec_node_count(),
    {
        self.nodes.len()
    }

    /// The number of levels above the leaves.
    pub fn height(&self) -> (height: usize)
        requires
            self.wf(),
        ensures
            height == self.spec_height(),
    {
        self.height
    }

    /// The arena index of the root.
    pub fn root_index(&self) -> (root: usize)
        ensures
            root == self.spec_root_index(),
    {
        self.root_index
    }

    /// The node at `index` of the arena; an index outside the arena is
    /// refused.
    pub fn node(&self, index: usize) -> (found: Result<&NodeType, TreeError>)
        ensures
            index < self.spec_node_count() <==> found is Ok,
            found matches Ok(node) ==> node@ == self.state().nodes[index as int],
            found matches Err(e) ==> e == TreeError::InvalidIndex,
    {
        if index < self.nodes.len() {
            Ok(&self.nodes[index])
        } else {
            Err(TreeError::InvalidIndex)
        }
    }

    /// The node at `index` of the arena, to be changed in place; an index
    /// outside the arena is refused.
    pub(crate) fn node_mut(&mut self, index: usize) -> (found: Result<&mut NodeType, TreeError>)
        ensures
            index < old(self).nodes@.len() <==> found is Ok,
            found matches Ok(node) ==> *node == old(self).nodes@[index as int]
                && final(self).nodes@ == old(self).nodes@.update(index as int, *final(node)),
            found matches Err(e) ==> e == TreeError::InvalidIndex
                && final(self).nodes@ == old(self).nodes@,
            old(self).same_frame(final(self)),
    {
        if index < self.nodes.len() {
            Ok(&mut self.nodes[index])
        } else {
            Err(TreeError::InvalidIndex)
        }
    }

    /// The index of the leaf that is responsible for `key`: the search starts
    /// at the root and at each internal node goes on in the child whose range
    /// holds the key.
    pub fn get_node_for_key(&self, key: &String) -> (leaf: usize)
        requires
            self.wf(),
        ensures
            leaf == self.state().leaf_for(key@),
            self.state().live(leaf as int),
            self.state().nodes[leaf as int].leaf,
            self.state().covers(leaf as int, key@),
    {
        let ghost s = self.state();
        let mut current: usize = self.root_index;
        proof {
            s.lemma_root_covers(key@);
        }
        loop
            invariant
                s == self.state(),
                s.structure(),
                s.live(current as int),
                s.covers(current as int, key@),
                s.leaf_for(key@) == s.descend(current as int, key@),
            decreases s.spans[current as int].level,
        {
            proof {
                assert(s.node_ok(current as int));
                s.lemma_descend(current as int, key@);
            }
            match &self.nodes[current] {
                NodeType::Leaf(_) => {
                    return current;
                },
                NodeType::Internal(node) => {
                    proof {
                        let slot = s.slot(current as int, key@);
                        lemma_first_above(s.nodes[current as int].keys, key@, 0);
                        assert(s.child_ok(current as int, slot));
                        if slot > 0 {
                            crate::key::lemma_not_lt(key@, s.nodes[current as int].keys[slot - 1]);
                        }
                    }
                    current = node.child_for(key);
                },
            }
        }
    }

    /// The value that the tree holds for `key`, if it holds one.
    pub fn get(&self, key: String) -> (value: Option<String>)
        requires
            self.wf(),
        ensures
            match value {
                Some(v) => self@.dom().contains(key@) && self@[key@] == v@,
                None => !self@.dom().contains(key@),
            },
    {
        let ghost s = self.state();
        let leaf: usize = self.get_node_for_key(&key);
        match &self.nodes[leaf] {
            NodeType::Leaf(node) => {
                let p: usize = key_position(&node.keys, &key);
                proof {
                    assert(s.node_ok(leaf as int));
                    lemma_first_not_below_sorted(s.nodes[leaf as int].keys, key@);
                }
                if p < node.keys.len() && node.keys[p] == key {
                    proof {
                        assert(s.holds_at(leaf as int, p as int, key@, node.values@[p as int]@));
                        s.lemma_contents_here(leaf as int, p as int, key@, node.values@[p as int]@);
                    }
                    Some(node.values[p].clone())
                } else {
                    proof {
                        s.lemma_contents_absent(key@);
                    }
                    None
                }
            },
            NodeType::Internal(_) => None,
        }
    }
}

impl View for BPlusTree {
    type V = Map<Text, Text>;

    /// The map from keys to values that the tree stands for.
    open spec fn view(&self) -> Map<Text, Text> {
        self.state().contents()
    }
}

} // verus!
