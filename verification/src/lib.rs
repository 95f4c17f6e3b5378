//! Ordered maps kept as B-trees of a minimum degree chosen by the caller.
//!
//! [`map`] holds the tree in memory: [`map::BTreeMap`] with lookup,
//! insertion, removal and walks in ascending order of the keys, all proved
//! against the map that the tree stands for and against the shape that a
//! B-tree must have. [`tree`] holds what a tree whose nodes lie in a storage
//! needs: the steps that an operation takes in one node that has been read,
//! each with what it does to the nodes at hand. [`order`] says what is asked
//! of the keys.

pub mod map;
pub mod order;
pub mod tree;
