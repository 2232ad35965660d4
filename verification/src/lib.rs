//! An in-memory B+-tree index that maps string keys to string values.
//!
//! The nodes of the tree live in an arena, a vector, and refer to each other
//! by their indices in it. [`BPlusTree`] offers insertion, deletion and lookup;
//! each keeps the tree balanced by splitting nodes that have become too large
//! and merging neighbours that have become small.
//!
//! Every operation is specified against a mathematical model of the tree,
//! [`model::TreeState`], and against the map from keys to values that the tree
//! stands for. The modules:
//!
//! - `key`: the order on keys;
//! - `views`: from strings and indices to their mathematical values;
//! - `model`: the model, its well-formedness, the map it stands for, the search;
//! - `lookup`: what a search finds;
//! - `growth`, `growth_laws`: insertion and splits on the model, and what they keep;
//! - `shrink`, `shrink_laws`, `removal_laws`: deletion, merges and the removal of
//!   nodes on the model, and what they keep;
//! - `node`, `tree`, `insert`, `delete`: the executable nodes and tree;
//! - `laws`: what holds of every tree and of every run of operations.

pub mod delete;
pub mod growth;
pub mod growth_laws;
pub mod insert;
pub mod key;
pub mod laws;
pub mod lookup;
pub mod model;
pub mod node;
pub mod removal_laws;
pub mod shrink;
pub mod shrink_laws;
pub mod tree;
pub mod views;

pub use crate::node::{InternalNode, LeafNode, NodeType};
pub use crate::tree::{BPlusTree, TreeError};
