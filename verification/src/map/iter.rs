//! Walks through a tree in ascending order of the keys.

use crate::map::flat::{flat_from, kid, lemma_flat_split};
use crate::map::node::{valid_degree, Node};
use vstd::prelude::*;

verus! {

impl<K, V> Node<K, V> {
    /// No node of the subtree is without keys.
    pub open spec fn populated(self) -> bool
        decreases self,
    {
        &&& self.keys.len() >= 1
        &&& forall|i: int| 0 <= i < self.children.len() ==> (#[trigger] self.children[i]).populated()
    }

    /// A balanced subtree whose top node has a key is populated.
    pub proof fn lemma_balanced_populated(self, degree: usize)
        requires
            valid_degree(degree),
            self.balanced(degree),
            self.keys.len() >= 1,
        ensures
            self.populated(),
        decreases self,
    {
        assert forall|i: int| 0 <= i < self.children.len() implies (
        #[trigger] self.children[i]).populated() by {
            assert(self.children[i].balanced(degree));
            self.children[i].lemma_balanced_populated(degree);
        }
    }

    /// What the node has yet to yield once it has yielded its first `i`
    /// keys and all that lies left of key `i`.
    pub open spec fn rest(self, i: int) -> Seq<(K, V)> {
        flat_from(self.items(), self.kids(), i)
    }

    /// The entries of a node are those of its first child and then the rest
    /// of the node.
    pub proof fn lemma_first_child_then_rest(self)
        requires
            self.keys.len() == self.vals.len(),
        ensures
            self.children.len() == 0 ==> self.entries() == self.rest(0),
            self.children.len() > 0 ==> self.entries() == self.children[0].entries() + self.rest(0),
    {
        lemma_flat_split(self.items(), self.kids(), 0);
        assert(self.entries() =~= kid(self.kids(), 0) + self.rest(0));
    }

    /// After key `i` come child `i + 1` and then the rest of the node.
    pub proof fn lemma_rest_step(self, i: int)
        requires
            self.keys.len() == self.vals.len(),
            self.children.len() == 0 || self.children.len() == self.keys.len() + 1,
            0 <= i < self.keys.len(),
        ensures
            self.children.len() == 0 ==> self.rest(i) == seq![(self.keys[i], self.vals[i])]
                + self.rest(i + 1),
            self.children.len() > 0 ==> self.rest(i) == seq![(self.keys[i], self.vals[i])]
                + self.children[i + 1].entries() + self.rest(i + 1),
            self.rest(self.keys.len() as int) == Seq::<(K, V)>::empty(),
    {
        assert(self.rest(i) =~= seq![self.items()[i]] + kid(self.kids(), i + 1)
            + self.rest(i + 1));
    }
}

/// What a stack of nodes, each entered up to a position, has yet to yield:
/// the rest of the topmost node, then that of the one below it, and so on.
pub open spec fn pending<K, V>(nodes: Seq<&Node<K, V>>, indices: Seq<usize>) -> Seq<(K, V)>
    decreases nodes.len(),
{
    if nodes.len() == 0 || indices.len() != nodes.len() {
        Seq::empty()
    } else {
        nodes.last().rest(indices.last() as int) + pending(nodes.drop_last(), indices.drop_last())
    }
}

/// A node put on top of a stack is the first to yield.
pub proof fn lemma_pending_push<K, V>(
    nodes: Seq<&Node<K, V>>,
    indices: Seq<usize>,
    node: &Node<K, V>,
    idx: usize,
)
    requires
        nodes.len() == indices.len(),
    ensures
        pending(nodes.push(node), indices.push(idx)) == node.rest(idx as int) + pending(
            nodes,
            indices,
        ),
{
    assert(nodes.push(node).drop_last() =~= nodes);
    assert(indices.push(idx).drop_last() =~= indices);
}

/// Moving the topmost node of a stack on to another position lets it yield
/// from there.
pub proof fn lemma_pending_update<K, V>(nodes: Seq<&Node<K, V>>, indices: Seq<usize>, idx: usize)
    requires
        nodes.len() == indices.len(),
        nodes.len() > 0,
    ensures
        pending(nodes, indices.update(indices.len() - 1, idx)) == nodes.last().rest(idx as int)
            + pending(nodes.drop_last(), indices.drop_last()),
{
    let moved = indices.update(indices.len() - 1, idx);
    assert(moved.drop_last() =~= indices.drop_last());
}

/// The keys of a sequence of entries.
pub open spec fn keys_of<K, V>(entries: Seq<(K, V)>) -> Seq<K> {
    Seq::new(entries.len(), |i: int| entries[i].0)
}

/// The values of a sequence of entries.
pub open spec fn values_of<K, V>(entries: Seq<(K, V)>) -> Seq<V> {
    Seq::new(entries.len(), |i: int| entries[i].1)
}

/// A walk through the entries of a tree in ascending order of their keys.
pub struct Iter<'a, K, V> {
    nodes: Vec<&'a Node<K, V>>,
    indices: Vec<usize>,
}

impl<'a, K, V> Iter<'a, K, V> {
    /// The entries that the walk has yet to yield, in the order in which it
    /// yields them.
    pub closed spec fn remaining(self) -> Seq<(K, V)> {
        pending(self.nodes@, self.indices@)
    }

    /// Each node on the stack is well shaped, populated and not yet
    /// exhausted.
    pub closed spec fn wf(self) -> bool {
        &&& self.nodes.len() == self.indices.len()
        &&& forall|j: int|
            0 <= j < self.nodes.len() ==> {
                &&& (#[trigger] self.nodes[j]).well_shaped()
                &&& self.nodes[j].populated()
                &&& self.indices[j] < self.nodes[j].keys.len()
            }
    }

    /// Enters `node` and its first children down to a leaf.
    fn descend(&mut self, node: &'a Node<K, V>)
        requires
            old(self).wf(),
            node.well_shaped(),
            node.populated(),
        ensures
            final(self).wf(),
            final(self).remaining() == node.entries() + old(self).remaining(),
    {
        let mut node = node;
        let ghost goal = node.entries() + self.remaining();
        while !node.is_leaf()
            invariant
                self.wf(),
                node.well_shaped(),
                node.populated(),
                node.entries() + self.remaining() == goal,
            decreases node,
        {
            proof {
                node.lemma_first_child_then_rest();
                assert(node.children[0].well_shaped());
                assert(node.children[0].populated());
                lemma_pending_push(self.nodes@, self.indices@, node, 0);
                assert(node.children[0].entries() + (node.rest(0) + self.remaining()) =~= goal);
            }
            self.nodes.push(node);
            self.indices.push(0);
            node = &node.children[0];
        }
        proof {
            node.lemma_first_child_then_rest();
            lemma_pending_push(self.nodes@, self.indices@, node, 0);
        }
        self.nodes.push(node);
        self.indices.push(0);
    }

    /// A walk through the subtree below `root`. An empty root gives a walk
    /// that yields nothing.
    pub fn new(root: &'a Node<K, V>) -> (iter: Self)
        requires
            root.well_shaped(),
            root.keys.len() == 0 ==> root.children.len() == 0,
            root.keys.len() > 0 ==> root.populated(),
        ensures
            iter.wf(),
            iter.remaining() == root.entries(),
    {
        let mut iter = Iter { nodes: Vec::new(), indices: Vec::new() };
        if !root.is_empty() {
            iter.descend(root);
            assert(root.entries() + Seq::<(K, V)>::empty() =~= root.entries());
        } else {
            proof {
                root.lemma_leaf_entries();
                assert(root.items() =~= Seq::<(K, V)>::empty());
            }
        }
        iter
    }

    /// Moves the topmost node on by one key, and takes it off the stack if
    /// that was its last: the node, and the position it has moved on to.
    fn advance(&mut self) -> (at: (&'a Node<K, V>, usize))
        requires
            old(self).wf(),
            old(self).nodes.len() > 0,
        ensures
            final(self).wf(),
            at.0 == old(self).nodes@.last(),
            at.1 == old(self).indices@.last() + 1,
            at.1 <= at.0.keys.len(),
            at.0.well_shaped(),
            at.0.populated(),
            old(self).remaining() == at.0.rest(at.1 - 1) + pending(
                old(self).nodes@.drop_last(),
                old(self).indices@.drop_last(),
            ),
            final(self).remaining() == at.0.rest(at.1 as int) + pending(
                old(self).nodes@.drop_last(),
                old(self).indices@.drop_last(),
            ),
    {
        let top = self.nodes.len() - 1;
        let node: &'a Node<K, V> = self.nodes[top];
        let idx = self.indices[top] + 1;
        self.indices[top] = idx;
        proof {
            lemma_pending_update(old(self).nodes@, old(self).indices@, idx);
        }
        if idx == node.len() {
            self.nodes.truncate(top);
            self.indices.truncate(top);
            proof {
                node.lemma_rest_step(idx - 1);
                assert(self.nodes@ =~= old(self).nodes@.drop_last());
                assert(self.indices@ =~= old(self).indices@.drop_last());
            }
        }
        (node, idx)
    }

    /// Yields the next entry, if any is left.
    pub fn next(&mut self) -> (entry: Option<(&'a K, &'a V)>)
        requires
            old(self).wf(),
        ensures
            final(self).wf(),
            match entry {
                Some((k, v)) => {
                    &&& old(self).remaining().len() > 0
                    &&& (*k, *v) == old(self).remaining()[0]
                    &&& final(self).remaining() == old(self).remaining().skip(1)
                },
                None => old(self).remaining().len() == 0 && final(self).remaining() == old(
                    self,
                ).remaining(),
            },
    {
        if self.nodes.is_empty() {
            return None;
        }
        let (node, idx) = self.advance();
        let key = &node.keys[idx - 1];
        let val = &node.vals[idx - 1];
        let ghost first = seq![(*key, *val)];
        let ghost rest = self.remaining();
        proof {
            node.lemma_rest_step(idx - 1);
        }
        if idx < node.children.len() {
            assert(node.children[idx as int].well_shaped());
            assert(node.children[idx as int].populated());
            self.descend(&node.children[idx]);
            assert(old(self).remaining() =~= first + (node.children[idx as int].entries() + rest));
        } else {
            assert(old(self).remaining() =~= first + rest);
        }
        assert(self.remaining() =~= old(self).remaining().skip(1));
        Some((key, val))
    }
}

/// A walk through the keys of a tree in ascending order.
pub struct Keys<'a, K, V> {
    inner: Iter<'a, K, V>,
}

impl<'a, K, V> Keys<'a, K, V> {
    /// The keys that the walk has yet to yield, in the order in which it
    /// yields them.
    pub closed spec fn remaining(self) -> Seq<K> {
        keys_of(self.inner.remaining())
    }

    /// The walk over entries that this one rests on is well formed.
    pub closed spec fn wf(self) -> bool {
        self.inner.wf()
    }

    /// The walk through the keys of the entries that `inner` yields.
    pub fn new(inner: Iter<'a, K, V>) -> (keys: Self)
        requires
            inner.wf(),
        ensures
            keys.wf(),
            keys.remaining() == keys_of(inner.remaining()),
    {
        Self { inner }
    }

    /// Yields the next key, if any is left.
    pub fn next(&mut self) -> (key: Option<&'a K>)
        requires
            old(self).wf(),
        ensures
            final(self).wf(),
            match key {
                Some(k) => {
                    &&& old(self).remaining().len() > 0
                    &&& *k == old(self).remaining()[0]
                    &&& final(self).remaining() == old(self).remaining().skip(1)
                },
                None => old(self).remaining().len() == 0 && final(self).remaining() == old(
                    self,
                ).remaining(),
            },
    {
        let entry = self.inner.next();
        proof {
            if old(self).inner.remaining().len() > 0 {
                assert(keys_of(old(self).inner.remaining().skip(1)) =~= keys_of(
                    old(self).inner.remaining(),
                ).skip(1));
            }
        }
        match entry {
            Some((k, _)) => Some(k),
            None => None,
        }
    }
}

/// A walk through the values of a tree in ascending order of their keys.
pub struct Values<'a, K, V> {
    inner: Iter<'a, K, V>,
}

impl<'a, K, V> Values<'a, K, V> {
    /// The values that the walk has yet to yield, in the order in which it
    /// yields them.
    pub closed spec fn remaining(self) -> Seq<V> {
        values_of(self.inner.remaining())
    }

    /// The walk over entries that this one rests on is well formed.
    pub closed spec fn wf(self) -> bool {
        self.inner.wf()
    }

    /// The walk through the values of the entries that `inner` yields.
    pub fn new(inner: Iter<'a, K, V>) -> (values: Self)
        requires
            inner.wf(),
        ensures
            values.wf(),
            values.remaining() == values_of(inner.remaining()),
    {
        Self { inner }
    }

    /// Yields the next value, if any is left.
    pub fn next(&mut self) -> (value: Option<&'a V>)
        requires
            old(self).wf(),
        ensures
            final(self).wf(),
            match value {
                Some(v) => {
                    &&& old(self).remaining().len() > 0
                    &&& *v == old(self).remaining()[0]
                    &&& final(self).remaining() == old(self).remaining().skip(1)
                },
                None => old(self).remaining().len() == 0 && final(self).remaining() == old(
                    self,
                ).remaining(),
            },
    {
        let entry = self.inner.next();
        proof {
            if old(self).inner.remaining().len() > 0 {
                assert(values_of(old(self).inner.remaining().skip(1)) =~= values_of(
                    old(self).inner.remaining(),
                ).skip(1));
            }
        }
        match entry {
            Some((_, v)) => Some(v),
            None => None,
        }
    }
}

} // verus!
