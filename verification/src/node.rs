//! The nodes of the tree as they are stored in the arena.

use crate::key::key_less;
use crate::model::{first_above, first_not_below, NodeView};
use crate::shrink::{redirected, renamed};
use crate::views::{index_of, indices, texts};
use vstd::prelude::*;

verus! {

broadcast use crate::views::group_views;

/// A node that routes a search: `keys` separate the subtrees under `children`.
#[derive(Debug)]
pub struct InternalNode {
    /// The arena index of the parent; `None` in the root.
    pub parent: Option<usize>,
    /// The separators, ascending.
    pub keys: Vec<String>,
    /// The arena indices of the children, one more than there are keys: the
    /// child at position `i` holds the keys from `keys[i - 1]` up to, but not
    /// including, `keys[i]`.
    pub children: Vec<usize>,
}

/// A node that stores pairs: `values[i]` belongs to `keys[i]`.
#[derive(Debug)]
pub struct LeafNode {
    /// The arena index of the parent; `None` in the root.
    pub parent: Option<usize>,
    /// The keys, ascending.
    pub keys: Vec<String>,
    /// The values, as many as there are keys.
    pub values: Vec<String>,
}

/// A node of the arena.
#[derive(Debug)]
pub enum NodeType {
    /// A node that routes a search.
    Internal(InternalNode),
    /// A node that stores pairs.
    Leaf(LeafNode),
}

/// Replaces every occurrence of the arena index `from` in `list` by `to`.
pub fn redirect_all(list: &mut Vec<usize>, from: usize, to: usize)
    ensures
        indices(final(list)@) == indices(old(list)@).map_values(
            |c: int| renamed(c, from as int, to as int),
        ),
{
    let mut j: usize = 0;
    while j < list.len()
        invariant
            j <= list@.len(),
            list@.len() == old(list)@.len(),
            forall|q: int|
                0 <= q < j ==> #[trigger] list@[q] as int == renamed(old(list)@[q] as int, from as int, to as int),
            forall|q: int| j <= q < list@.len() ==> #[trigger] list@[q] == old(list)@[q],
        decreases list@.len() - j,
    {
        if list[j] == from {
            list[j] = to;
        }
        j += 1;
    }
    assert(indices(list@) =~= indices(old(list)@).map_values(
        |c: int| renamed(c, from as int, to as int),
    ));
}

/// The position of the child that is responsible for `key` under the
/// separators `keys`: that of the first separator greater than `key`, or the
/// last position if there is none.
pub fn child_slot(keys: &Vec<String>, key: &String) -> (slot: usize)
    ensures
        slot == first_above(texts(keys@), key@, 0),
        slot <= keys@.len(),
{
    let mut i: usize = 0;
    while i < keys.len()
        invariant
            i <= keys@.len(),
            first_above(texts(keys@), key@, 0) == first_above(texts(keys@), key@, i as int),
        decreases keys@.len() - i,
    {
        if key_less(key, &keys[i]) {
            return i;
        }
        i += 1;
    }
    i
}

/// The position in `keys` at which `key` stands or would have to be put: that
/// of the first key that is not smaller, or the length if there is none.
pub fn key_position(keys: &Vec<String>, key: &String) -> (position: usize)
    ensures
        position == first_not_below(texts(keys@), key@, 0),
        position <= keys@.len(),
{
    let mut i: usize = 0;
    while i < keys.len()
        invariant
            i <= keys@.len(),
            first_not_below(texts(keys@), key@, 0) == first_not_below(
                texts(keys@),
                key@,
                i as int,
            ),
        decreases keys@.len() - i,
    {
        if !key_less(&keys[i], key) {
            return i;
        }
        i += 1;
    }
    i
}

impl View for InternalNode {
    type V = NodeView;

    /// The node as a value: an internal node with these keys and children.
    open spec fn view(&self) -> NodeView {
        NodeView {
            parent: index_of(self.parent),
            keys: texts(self.keys@),
            leaf: false,
            children: indices(self.children@),
            values: Seq::empty(),
        }
    }
}

impl View for LeafNode {
    type V = NodeView;

    /// The node as a value: a leaf with these keys and values.
    open spec fn view(&self) -> NodeView {
        NodeView {
            parent: index_of(self.parent),
            keys: texts(self.keys@),
            leaf: true,
            children: Seq::empty(),
            values: texts(self.values@),
        }
    }
}

impl InternalNode {
    /// An internal node under `parent` with no keys and no children yet.
    pub fn new(parent: Option<usize>) -> (node: Self)
        ensures
            node@ == (NodeView {
                parent: index_of(parent),
                keys: Seq::empty(),
                leaf: false,
                children: Seq::empty(),
                values: Seq::empty(),
            }),
    {
        InternalNode { parent, keys: Vec::new(), children: Vec::new() }
    }

    /// The arena index of the child that is responsible for `key`: the child
    /// in front of the first separator greater than `key`, or the last child
    /// if there is none.
    pub fn child_for(&self, key: &String) -> (child: usize)
        requires
            self.children@.len() == self.keys@.len() + 1,
        ensures
            child == self@.children[first_above(self@.keys, key@, 0)],
    {
        let slot: usize = child_slot(&self.keys, key);
        self.children[slot]
    }

    /// Cuts the node at position `at`: the node keeps the keys before `at` and
    /// the children up to `at`; the key at `at` is handed out, and with it a
    /// new node that holds the keys and the children behind it. Both nodes
    /// name `parent` as their parent.
    pub fn split(&mut self, at: usize, parent: Option<usize>) -> (r: (String, InternalNode))
        requires
            at < old(self).keys@.len(),
            at < old(self).children@.len(),
        ensures
            final(self)@ == old(self)@.lower_part(at as int, index_of(parent)),
            r.0@ == old(self)@.keys[at as int],
            r.1@ == old(self)@.upper_part(at as int, index_of(parent)),
    {
        let promotion_key = self.keys[at].clone();
        let ghost all_keys = self.keys@;
        let mut right_keys = self.keys.split_off(at);
        right_keys.remove(0);
        assert(right_keys@ =~= all_keys.subrange(at as int + 1, all_keys.len() as int));
        assert(at < self.children.len());
        let right_children = self.children.split_off(at + 1);
        self.parent = parent;
        let sibling = InternalNode { parent, keys: right_keys, children: right_children };
        (promotion_key, sibling)
    }
}

impl LeafNode {
    /// An empty leaf under `parent`.
    pub fn new(parent: Option<usize>) -> (node: Self)
        ensures
            node@ == (NodeView {
                parent: index_of(parent),
                keys: Seq::empty(),
                leaf: true,
                children: Seq::empty(),
                values: Seq::empty(),
            }),
    {
        LeafNode { parent, keys: Vec::new(), values: Vec::new() }
    }

    /// Pairs `key` with `value` in this leaf: a key that the leaf holds gets
    /// the new value; a new key is put with its value at the first position
    /// whose key is greater.
    pub fn insert(&mut self, key: String, value: String)
        requires
            old(self).values@.len() == old(self).keys@.len(),
        ensures
            final(self)@ == old(self)@.holding(key@, value@),
    {
        let index: usize = key_position(&self.keys, &key);
        if index < self.keys.len() && self.keys[index] == key {
            let ghost keys_before = self.keys@;
            self.keys[index] = key;
            self.values[index] = value;
            assert(texts(self.keys@) =~= texts(keys_before));
        } else {
            self.keys.insert(index, key);
            self.values.insert(index, value);
        }
    }

    /// Cuts the leaf at position `at`: the leaf keeps the pairs before `at`; a
    /// copy of the key at `at` is handed out, and with it a new leaf that holds
    /// the pairs from `at` on. Both leaves name `parent` as their parent.
    pub fn split(&mut self, at: usize, parent: Option<usize>) -> (r: (String, LeafNode))
        requires
            at < old(self).keys@.len(),
            at <= old(self).values@.len(),
        ensures
            final(self)@ == old(self)@.lower_part(at as int, index_of(parent)),
            r.0@ == old(self)@.keys[at as int],
            r.1@ == old(self)@.upper_part(at as int, index_of(parent)),
    {
        let promotion_key = self.keys[at].clone();
        let right_keys = self.keys.split_off(at);
        let right_values = self.values.split_off(at);
        self.parent = parent;
        let sibling = LeafNode { parent, keys: right_keys, values: right_values };
        (promotion_key, sibling)
    }
}

impl NodeType {
    /// The index of the node's parent; `None` for the root.
    pub fn parent(&self) -> (parent: Option<usize>)
        ensures
            index_of(parent) == self@.parent,
    {
        match self {
            NodeType::Internal(n) => n.parent,
            NodeType::Leaf(n) => n.parent,
        }
    }

    /// The node's keys, in ascending order.
    pub fn keys(&self) -> (keys: &Vec<String>)
        ensures
            texts(keys@) == self@.keys,
    {
        match self {
            NodeType::Internal(n) => &n.keys,
            NodeType::Leaf(n) => &n.keys,
        }
    }

    /// Names `parent` as the node's parent.
    pub fn set_parent(&mut self, parent: Option<usize>)
        ensures
            final(self)@ == (NodeView { parent: index_of(parent), ..old(self)@ }),
    {
        match self {
            NodeType::Internal(n) => {
                n.parent = parent;
            },
            NodeType::Leaf(n) => {
                n.parent = parent;
            },
        }
    }

    /// Makes every reference of the node to the arena index `from` one to `to`.
    pub fn redirect(&mut self, from: usize, to: usize)
        ensures
            final(self)@ == redirected(old(self)@, from as int, to as int),
    {
        match self {
            NodeType::Internal(n) => {
                if n.parent == Some(from) {
                    n.parent = Some(to);
                }
                redirect_all(&mut n.children, from, to);
            },
            NodeType::Leaf(n) => {
                if n.parent == Some(from) {
                    n.parent = Some(to);
                }
                assert(Seq::<int>::empty().map_values(
                    |c: int| renamed(c, from as int, to as int),
                ) =~= Seq::<int>::empty());
            },
        }
    }

    /// Whether the node is a leaf.
    pub fn is_leaf(&self) -> (leaf: bool)
        ensures
            leaf == self@.leaf,
    {
        match self {
            NodeType::Internal(_) => false,
            NodeType::Leaf(_) => true,
        }
    }
}

impl View for NodeType {
    type V = NodeView;

    /// The node as a value.
    open spec fn view(&self) -> NodeView {
        match self {
            NodeType::Internal(n) => n@,
            NodeType::Leaf(n) => n@,
        }
    }
}

} // verus!
