//! The tree whose nodes lie in a storage: what of it is kept in memory.
//!
//! An operation on such a tree reads a node, takes a step in it, and reads
//! on, writes back or stops as the step says. The steps are here; reading
//! and writing is the caller's part.

pub mod error;
pub mod laws;
pub mod node;

use crate::map::node::valid_degree;
use crate::tree::node::Node;
use vstd::prelude::*;

verus! {

/// The minimum degree of a tree made by [`BTree::new`].
pub const DEFAULT_DEGREE: usize = 2;

/// What is kept in memory of a tree whose nodes lie in a storage: how many
/// entries it holds, its minimum degree, and the identifier of its root.
pub struct BTree {
    len: u64,
    degree: usize,
    root: u64,
}

impl BTree {
    /// The number of entries that the tree counts.
    pub closed spec fn count(self) -> u64 {
        self.len
    }

    /// The minimum degree.
    pub closed spec fn min_degree(self) -> usize {
        self.degree
    }

    /// The identifier of the root.
    pub closed spec fn root_id(self) -> u64 {
        self.root
    }

    /// An empty tree of the default degree whose root, an empty leaf, has
    /// the identifier `root`.
    pub fn new(root: u64) -> (tree: Self)
        ensures
            tree.count() == 0,
            tree.min_degree() == DEFAULT_DEGREE,
            tree.root_id() == root,
    {
        Self::with_degree(root, DEFAULT_DEGREE)
    }

    /// An empty tree of the minimum degree `degree` whose root, an empty
    /// leaf, has the identifier `root`.
    pub fn with_degree(root: u64, degree: usize) -> (tree: Self)
        requires
            valid_degree(degree),
        ensures
            tree.count() == 0,
            tree.min_degree() == degree,
            tree.root_id() == root,
    {
        Self { len: 0, degree, root }
    }

    /// The number of entries.
    pub fn len(&self) -> (n: u64)
        ensures
            n == self.count(),
    {
        self.len
    }

    /// Whether the tree has no entry.
    pub fn is_empty(&self) -> (b: bool)
        ensures
            b == (self.count() == 0),
    {
        self.len() == 0
    }

    /// The minimum degree.
    pub fn degree(&self) -> (degree: usize)
        ensures
            degree == self.min_degree(),
    {
        self.degree
    }

    /// The identifier of the root.
    pub fn root(&self) -> (root: u64)
        ensures
            root == self.root_id(),
    {
        self.root
    }

    /// Whether `root`, the root as it was read, has to give way to a new
    /// root above it before an insertion: whether it is full.
    pub fn must_grow<K, V>(&self, root: &Node<K, V>) -> (b: bool)
        requires
            valid_degree(self.min_degree()),
        ensures
            b == (root.keys.len() == 2 * self.min_degree() - 1),
    {
        root.is_full(self.degree)
    }

    /// Makes the node with the identifier `root` the root: after the old
    /// root was put below a new one.
    pub fn grow(&mut self, root: u64)
        ensures
            final(self).root_id() == root,
            final(self).count() == old(self).count(),
            final(self).min_degree() == old(self).min_degree(),
    {
        self.root = root;
    }

    /// Counts an insertion that returned `prior`: one entry more where the
    /// key was not bound before.
    pub fn record_insert<V>(&mut self, prior: &Option<V>)
        requires
            old(self).count() < u64::MAX,
        ensures
            final(self).root_id() == old(self).root_id(),
            final(self).min_degree() == old(self).min_degree(),
            final(self).count() == if prior is None {
                (old(self).count() + 1) as u64
            } else {
                old(self).count()
            },
    {
        if prior.is_none() {
            self.len += 1;
        }
    }

    /// Counts a removal that returned `entry` and left the root as `root`:
    /// one entry less where an entry was taken out, and a root that is left
    /// without keys above a single child gives way to that child.
    pub fn record_remove<K, V>(&mut self, entry: &Option<(K, V)>, root: &Node<K, V>)
        requires
            entry is Some ==> old(self).count() > 0,
        ensures
            final(self).min_degree() == old(self).min_degree(),
            final(self).count() == if entry is Some {
                (old(self).count() - 1) as u64
            } else {
                old(self).count()
            },
            final(self).root_id() == if root.children.len() > 0 && root.keys.len() == 0 {
                root.children[0]
            } else {
                old(self).root_id()
            },
    {
        if !root.is_leaf() && root.is_empty() {
            self.root = root.children[0];
        }
        if entry.is_some() {
            self.len -= 1;
        }
    }

    /// Empties the tree: its root is then the node with the identifier
    /// `root`, an empty leaf.
    pub fn clear(&mut self, root: u64)
        ensures
            final(self).count() == 0,
            final(self).root_id() == root,
            final(self).min_degree() == old(self).min_degree(),
    {
        self.len = 0;
        self.root = root;
    }
}

} // verus!
