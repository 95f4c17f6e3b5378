//! The map whose tree lies in memory.

pub mod flat;
pub mod iter;
pub mod laws;
pub mod lookup;
pub mod node;
pub mod rebalance;
pub mod remove;
pub mod route;
pub mod shape;
pub mod sorted;

use crate::map::flat::lemma_flat_split;
use crate::map::iter::{keys_of, values_of, Iter, Keys, Values};
use crate::map::node::{valid_degree, Node};
use crate::map::sorted::{ascending, lemma_to_map_empty, lemma_to_map_len, to_map};
use crate::order::total_order;
use vstd::prelude::*;

verus! {

/// The minimum degree of a tree made by [`BTreeMap::new`].
pub const DEFAULT_DEGREE: usize = 2;

/// An ordered map, kept as a B-tree of a minimum degree chosen when the map
/// is made.
pub struct BTreeMap<K, V> {
    len: u64,
    degree: usize,
    root: Node<K, V>,
}

impl<K: Ord, V> View for BTreeMap<K, V> {
    type V = Map<K, V>;

    /// The bindings of the map.
    open spec fn view(&self) -> Map<K, V> {
        to_map(self.entries())
    }
}

impl<K: Ord, V> BTreeMap<K, V> {
    /// The root node.
    pub closed spec fn root_node(self) -> Node<K, V> {
        self.root
    }

    /// The minimum degree.
    pub closed spec fn min_degree(self) -> usize {
        self.degree
    }

    /// The number of bindings that the map counts.
    pub closed spec fn count(&self) -> u64 {
        self.len
    }

    /// The bindings in ascending order of their keys: what an in-order
    /// traversal of the tree yields.
    pub open spec fn entries(self) -> Seq<(K, V)> {
        self.root_node().entries()
    }

    /// The tree is a B-tree of the map's degree that holds ascending keys,
    /// and the map counts its entries.
    pub open spec fn wf(self) -> bool {
        &&& valid_degree(self.min_degree())
        &&& self.root_node().well_shaped()
        &&& self.root_node().balanced(self.min_degree())
        &&& self.root_node().ordered()
        &&& self.root_node().children.len() > 0 ==> self.root_node().keys.len() >= 1
        &&& self.count() == self.entries().len()
    }

    /// `post` is what binding `k` to `v` makes of the tree `pre`: a full
    /// root first gives way to a new root above it and is split; then the
    /// entry goes into the tree from the root.
    pub open spec fn insertion(pre: Node<K, V>, post: Node<K, V>, k: K, v: V, degree: usize) -> bool {
        if pre.keys.len() == 2 * degree - 1 {
            exists|top: Node<K, V>, mid: Node<K, V>|
                #![trigger Node::is_split(top, mid, 0, degree)]
                {
                    &&& top.keys.len() == 0
                    &&& top.vals.len() == 0
                    &&& top.children@ == seq![pre]
                    &&& Node::is_split(top, mid, 0, degree)
                    &&& Node::inserted(mid, post, k, v, degree, mid.height())
                }
        } else {
            Node::inserted(pre, post, k, v, degree, pre.height())
        }
    }

    /// `post` is what unbinding `k` makes of the tree `pre`: the key is
    /// taken out from the root, and a root that is left without keys above a
    /// single child gives way to that child.
    pub open spec fn removal(pre: Node<K, V>, post: Node<K, V>, k: K, degree: usize) -> bool {
        exists|mid: Node<K, V>|
            #![trigger Node::removed(pre, mid, k, degree, pre.height())]
            {
                &&& Node::removed(pre, mid, k, degree, pre.height())
                &&& post == if mid.children.len() > 0 && mid.keys.len() == 0 {
                    mid.children[0]
                } else {
                    mid
                }
            }
    }

    /// An empty map of the default degree.
    pub fn new() -> (map: Self)
        ensures
            map.wf(),
            map.min_degree() == DEFAULT_DEGREE,
            map.count() == 0,
            map.root_node().keys.len() == 0,
            map.root_node().children.len() == 0,
            map.entries() == Seq::<(K, V)>::empty(),
            map@ == Map::<K, V>::empty(),
    {
        Self::with_degree(DEFAULT_DEGREE)
    }

    /// An empty map whose tree has the minimum degree `degree`.
    pub fn with_degree(degree: usize) -> (map: Self)
        requires
            valid_degree(degree),
        ensures
            map.wf(),
            map.min_degree() == degree,
            map.count() == 0,
            map.root_node().keys.len() == 0,
            map.root_node().children.len() == 0,
            map.entries() == Seq::<(K, V)>::empty(),
            map@ == Map::<K, V>::empty(),
    {
        let map = Self { len: 0, degree, root: Node::new() };
        proof {
            map.root.lemma_leaf_entries();
            assert(map.root.items() =~= Seq::<(K, V)>::empty());
            lemma_to_map_empty::<K, V>();
        }
        map
    }

    /// The map whose tree is `root`, a B-tree of the minimum degree
    /// `degree` that holds `len` entries in ascending order.
    pub fn from_parts(degree: usize, len: u64, root: Node<K, V>) -> (map: Self)
        requires
            valid_degree(degree),
            root.well_shaped(),
            root.balanced(degree),
            root.ordered(),
            root.children.len() > 0 ==> root.keys.len() >= 1,
            len == root.entries().len(),
        ensures
            map.wf(),
            map.min_degree() == degree,
            map.count() == len,
            map.root_node() == root,
    {
        Self { len, degree, root }
    }

    /// The root of the tree.
    pub fn root(&self) -> (root: &Node<K, V>)
        ensures
            *root == self.root_node(),
    {
        &self.root
    }

    /// The minimum degree of the tree.
    pub fn degree(&self) -> (degree: usize)
        ensures
            degree == self.min_degree(),
    {
        self.degree
    }

    /// The number of bindings.
    #[verifier::when_used_as_spec(count)]
    pub fn len(&self) -> (n: u64)
        ensures
            n == self.count(),
            self.wf() ==> n == self.entries().len(),
    {
        self.len
    }

    /// Whether the map has no binding.
    pub fn is_empty(&self) -> (b: bool)
        ensures
            b == (self.count() == 0),
            self.wf() ==> b == (self.entries().len() == 0),
    {
        self.len() == 0
    }

    /// Whether `k` is bound.
    pub fn contains(&self, k: &K) -> (b: bool)
        requires
            total_order::<K>(),
            self.wf(),
        ensures
            b == self@.contains_key(*k),
    {
        self.get(k).is_some()
    }

    /// The value that `k` is bound to.
    pub fn get(&self, k: &K) -> (value: Option<&V>)
        requires
            total_order::<K>(),
            self.wf(),
        ensures
            match value {
                Some(v) => self@.contains_key(*k) && *v == self@[*k],
                None => !self@.contains_key(*k),
            },
    {
        match self.root.get(k) {
            Some((idx, node)) => Some(&node.vals[idx]),
            None => None,
        }
    }

    /// The value that `k` is bound to, for a change.
    pub fn get_mut(&mut self, k: &K) -> (value: Option<&mut V>)
        requires
            total_order::<K>(),
            old(self).wf(),
        ensures
            final(self).wf(),
            final(self).min_degree() == old(self).min_degree(),
            final(self).count() == old(self).count(),
            match value {
                Some(v) => {
                    &&& old(self)@.contains_key(*k)
                    &&& *v == old(self)@[*k]
                    &&& final(self)@ == old(self)@.insert(*k, *final(v))
                },
                None => !old(self)@.contains_key(*k) && final(self).entries() == old(self).entries(),
            },
    {
        let ghost root = self.root;
        let ghost degree = self.degree;
        proof {
            assert forall|post: Node<K, V>, sub: Node<K, V>, by: Node<K, V>, idx: int|
                #![trigger Node::grafted(root, post, sub, by), Node::revalued(sub, by, idx)]
                Node::grafted(root, post, sub, by) && Node::revalued(sub, by, idx) implies {
                &&& post.well_shaped()
                &&& post.balanced(degree)
                &&& post.ordered()
                &&& post.keys.len() == root.keys.len()
                &&& post.children.len() == root.children.len()
                &&& post.entries().len() == root.entries().len()
                &&& post.as_map() == root.as_map().insert(sub.keys[idx], by.vals[idx])
            } by {
                Node::lemma_grafted_value(root, post, sub, by, idx, degree);
            }
            assert forall|post: Node<K, V>| #[trigger] root.alike(post) implies {
                &&& post.entries() == root.entries()
                &&& post.well_shaped()
                &&& post.balanced(degree)
                &&& post.keys.len() == root.keys.len()
                &&& post.children.len() == root.children.len()
            } by {
                root.lemma_alike(post);
            }
        }
        match self.root.get_mut(k) {
            Some((idx, node)) => Some(node.value_mut(idx)),
            None => None,
        }
    }

    /// The key `k` as the map holds it, and the value that it is bound to.
    pub fn get_key_value(&self, k: &K) -> (entry: Option<(&K, &V)>)
        requires
            total_order::<K>(),
            self.wf(),
        ensures
            match entry {
                Some((key, v)) => self@.contains_key(*k) && *key == *k && *v == self@[*k],
                None => !self@.contains_key(*k),
            },
    {
        match self.root.get(k) {
            Some((idx, node)) => Some((&node.keys[idx], &node.vals[idx])),
            None => None,
        }
    }

    /// Binds `k` to `v` and returns the value that `k` was bound to.
    pub fn insert(&mut self, k: K, v: V) -> (prior: Option<V>)
        requires
            total_order::<K>(),
            old(self).wf(),
            old(self).count() < u64::MAX,
        ensures
            final(self).wf(),
            final(self).min_degree() == old(self).min_degree(),
            final(self)@ == old(self)@.insert(k, v),
            prior == old(self)@.get(k),
            final(self).count() == if old(self)@.contains_key(k) {
                old(self).count()
            } else {
                (old(self).count() + 1) as u64
            },
            Self::insertion(
                old(self).root_node(),
                final(self).root_node(),
                k,
                v,
                old(self).min_degree(),
            ),
    {
        if self.root.is_full(self.degree) {
            let mut new_root = Node::new();
            std::mem::swap(&mut self.root, &mut new_root);
            self.root.children.push(new_root);
            proof {
                assert(self.root.items() =~= Seq::<(K, V)>::empty());
                assert(self.root.kids() =~= seq![old(self).root.entries()]);
                lemma_flat_split(self.root.items(), self.root.kids(), 0);
                assert(self.root.entries() =~= old(self).root.entries());
            }
            let ghost top = self.root;
            assert(top.children@ =~= seq![old(self).root]);
            self.root.split_child(0, self.degree);
            assert(Node::is_split(top, self.root, 0, self.degree));
        }
        let ghost mid = self.root;
        let prior = self.root.insert_nonfull(k, v, self.degree);
        proof {
            lemma_to_map_len(old(self).entries());
            lemma_to_map_len(self.entries());
            assert(Node::inserted(mid, self.root, k, v, self.degree, mid.height()));
        }
        if prior.is_none() {
            self.len += 1;
        }
        prior
    }

    /// Unbinds `k` and returns the value that it was bound to.
    pub fn remove(&mut self, k: &K) -> (value: Option<V>)
        requires
            total_order::<K>(),
            old(self).wf(),
        ensures
            final(self).wf(),
            final(self).min_degree() == old(self).min_degree(),
            final(self)@ == old(self)@.remove(*k),
            value == old(self)@.get(*k),
            final(self).count() == if old(self)@.contains_key(*k) {
                (old(self).count() - 1) as u64
            } else {
                old(self).count()
            },
            Self::removal(old(self).root_node(), final(self).root_node(), *k, old(self).min_degree()),
    {
        match self.remove_entry(k) {
            Some((_, val)) => Some(val),
            None => None,
        }
    }

    /// Unbinds `k` and returns the key as the map held it with the value
    /// that it was bound to. A root that is left without keys above a single
    /// child gives way to that child.
    pub fn remove_entry(&mut self, k: &K) -> (entry: Option<(K, V)>)
        requires
            total_order::<K>(),
            old(self).wf(),
        ensures
            final(self).wf(),
            final(self).min_degree() == old(self).min_degree(),
            final(self)@ == old(self)@.remove(*k),
            match entry {
                Some((key, val)) => old(self)@.contains_key(*k) && key == *k && val == old(
                    self,
                )@[*k],
                None => !old(self)@.contains_key(*k),
            },
            final(self).count() == if old(self)@.contains_key(*k) {
                (old(self).count() - 1) as u64
            } else {
                old(self).count()
            },
            Self::removal(old(self).root_node(), final(self).root_node(), *k, old(self).min_degree()),
    {
        let entry = self.root.remove(k, self.degree);
        let ghost mid = self.root;
        assert(Node::removed(old(self).root, mid, *k, self.degree, old(self).root.height()));
        if !self.root.is_leaf() && self.root.is_empty() {
            let ghost emptied = self.root;
            self.root = self.root.children.pop().unwrap();
            proof {
                assert(emptied.items() =~= Seq::<(K, V)>::empty());
                assert(emptied.kids() =~= seq![self.root.entries()]);
                lemma_flat_split(emptied.items(), emptied.kids(), 0);
                assert(emptied.entries() =~= self.root.entries());
                assert(emptied.children[0].well_shaped());
                assert(emptied.children[0].balanced(self.degree));
            }
        }
        proof {
            lemma_to_map_len(old(self).entries());
            lemma_to_map_len(self.entries());
        }
        if entry.is_some() {
            self.len -= 1;
        }
        entry
    }

    /// A walk through the bindings in ascending order of their keys.
    pub fn iter(&self) -> (iter: Iter<'_, K, V>)
        requires
            self.wf(),
        ensures
            iter.wf(),
            iter.remaining() == self.entries(),
            ascending(iter.remaining()),
            iter.remaining().len() == self.count(),
    {
        proof {
            if self.root.keys.len() > 0 {
                self.root.lemma_balanced_populated(self.degree);
            }
        }
        Iter::new(&self.root)
    }

    /// A walk through the keys in ascending order.
    pub fn keys(&self) -> (keys: Keys<'_, K, V>)
        requires
            self.wf(),
        ensures
            keys.wf(),
            keys.remaining() == keys_of(self.entries()),
    {
        Keys::new(self.iter())
    }

    /// A walk through the values in ascending order of their keys.
    pub fn values(&self) -> (values: Values<'_, K, V>)
        requires
            self.wf(),
        ensures
            values.wf(),
            values.remaining() == values_of(self.entries()),
    {
        Values::new(self.iter())
    }

    /// Empties the map.
    pub fn clear(&mut self)
        requires
            valid_degree(old(self).min_degree()),
        ensures
            final(self).wf(),
            final(self).min_degree() == old(self).min_degree(),
            final(self).count() == 0,
            final(self).root_node().keys.len() == 0,
            final(self).root_node().children.len() == 0,
            final(self).entries() == Seq::<(K, V)>::empty(),
            final(self)@ == Map::<K, V>::empty(),
    {
        self.len = 0;
        self.root = Node::new();
        proof {
            self.root.lemma_leaf_entries();
            assert(self.root.items() =~= Seq::<(K, V)>::empty());
            lemma_to_map_empty::<K, V>();
        }
    }
}

} // verus!
