//! The node of a stored tree, which names its children by their
//! identifiers, and the steps of lookup, insertion and removal in one node.

use crate::map::node::valid_degree;
use crate::map::sorted::{ascending, lemma_insert_at, lemma_remove_at, lemma_update_at};
use crate::order::{compare, lemma_lt_transitive, lemma_trichotomy, lt, total_order, Rank};
use crate::tree::error::Error;
use vstd::prelude::*;

verus! {

/// A node of a stored tree: its own identifier, keys in ascending order,
/// the value of each key at the same position, and the identifiers of its
/// children: none, or one more than there are keys.
pub struct Node<K, V> {
    pub id: u64,
    pub keys: Vec<K>,
    pub vals: Vec<V>,
    pub children: Vec<u64>,
}

/// What a lookup finds in one node.
pub enum Lookup {
    /// The key, at this position of the node.
    Found(usize),
    /// A leaf without the key: the tree does not hold it.
    Absent,
    /// Neither: the key belongs below the child with this identifier.
    Descend(u64),
}

/// What an insertion does in one node.
pub enum Inserted<K, V> {
    /// The node held the key: it has the new value, and this was the old
    /// one.
    Replaced(V),
    /// The node is a leaf that did not hold the key: it holds the entry now.
    Added,
    /// Neither: the entry, handed back, belongs below the child at this
    /// position.
    Descend(usize, K, V),
}

/// What is to be done to a child with the least number of keys before the
/// descent into it, as far as the siblings that have been read tell.
#[derive(Debug, Clone, Copy, PartialEq, Eq)]
pub enum Plan {
    /// Nothing: the child has a key to spare.
    Keep,
    /// The left sibling has to be read first.
    ReadLeft,
    /// The child takes an entry from its left sibling.
    RotateRight,
    /// The right sibling has to be read first.
    ReadRight,
    /// The child takes an entry from its right sibling.
    RotateLeft,
    /// The child is joined to its left sibling.
    MergeLeft,
    /// The right sibling is joined to the child.
    MergeRight,
}

/// How the entry of a node with children is taken out, as far as the
/// children on either side of it that have been read tell.
#[derive(Debug, Clone, Copy, PartialEq, Eq)]
pub enum Inner {
    /// The last entry below the child before it takes its place.
    Predecessor,
    /// The child after it has to be read first.
    ReadSuccessor,
    /// The first entry below the child after it takes its place.
    Successor,
    /// The two children are joined around it, and it is taken out of the
    /// joined child.
    Merge,
}

/// What a removal does in one node.
pub enum Removed<K, V> {
    /// The node is a leaf that held the key: this entry was taken out.
    Taken(K, V),
    /// The node is a leaf without the key: the tree does not hold it.
    Absent,
    /// The node holds the key at this position and has children.
    Inner(usize),
    /// Neither: the key belongs below the child at this position.
    Descend(usize),
}

impl<K, V> Node<K, V> {
    /// The node's own entries: each key with its value.
    pub open spec fn items(self) -> Seq<(K, V)> {
        Seq::new(self.keys.len() as nat, |i: int| (self.keys[i], self.vals[i]))
    }

    /// Each key has a value, and the node has no children or one more than
    /// it has keys.
    pub open spec fn well_shaped(self) -> bool {
        &&& self.keys.len() == self.vals.len()
        &&& self.children.len() == 0 || self.children.len() == self.keys.len() + 1
    }

    /// An empty leaf with the identifier `id`.
    pub fn new(id: u64) -> (node: Self)
        ensures
            node.id == id,
            node.keys@.len() == 0,
            node.vals@.len() == 0,
            node.children@.len() == 0,
    {
        Self { id, keys: Vec::new(), vals: Vec::new(), children: Vec::new() }
    }

    /// A node without keys above a single child: what a root is replaced by
    /// before it is split.
    pub fn above(id: u64, child: u64) -> (node: Self)
        ensures
            node.id == id,
            node.keys@.len() == 0,
            node.vals@.len() == 0,
            node.children@ == seq![child],
    {
        let mut node = Self::new(id);
        node.children.push(child);
        node
    }

    /// The number of keys in the node.
    pub fn len(&self) -> (n: usize)
        ensures
            n == self.keys.len(),
    {
        self.keys.len()
    }

    /// Whether the node has no key.
    pub fn is_empty(&self) -> (b: bool)
        ensures
            b == (self.keys.len() == 0),
    {
        self.keys.is_empty()
    }

    /// Whether the node holds as many keys as a node of this degree can.
    pub fn is_full(&self, degree: usize) -> (b: bool)
        requires
            1 <= degree <= usize::MAX / 2,
        ensures
            b == (self.keys.len() == 2 * degree - 1),
    {
        self.keys.len() == 2 * degree - 1
    }

    /// Whether the node has no children.
    pub fn is_leaf(&self) -> (b: bool)
        ensures
            b == (self.children.len() == 0),
    {
        self.children.is_empty()
    }

    /// What is to be done to the child at position `idx` of a node with
    /// `children` children, which has `mid` keys, before the descent into it;
    /// `left` and `right` are the numbers of keys of the siblings as far as
    /// they have been read. Nothing where the child has not the least number
    /// of keys; else it takes an entry from the left sibling if that has one
    /// to spare, else from the right sibling if that has; else it is joined
    /// to the left sibling if there is one, else to the right one.
    pub open spec fn plan_of(
        idx: usize,
        children: usize,
        mid: usize,
        left: Option<usize>,
        right: Option<usize>,
        degree: usize,
    ) -> Plan {
        if mid + 1 != degree {
            Plan::Keep
        } else if idx > 0 && left is None {
            Plan::ReadLeft
        } else if idx > 0 && left->0 >= degree {
            Plan::RotateRight
        } else if idx + 1 < children && right is None {
            Plan::ReadRight
        } else if idx + 1 < children && right->0 >= degree {
            Plan::RotateLeft
        } else if idx > 0 {
            Plan::MergeLeft
        } else if idx + 1 < children {
            Plan::MergeRight
        } else {
            Plan::Keep
        }
    }

    /// Decides what is to be done to the child `mid`, at position `idx` of
    /// this node, before the descent into it, given the siblings that have
    /// been read.
    pub fn plan_fix(
        &self,
        idx: usize,
        mid: &Node<K, V>,
        left: Option<&Node<K, V>>,
        right: Option<&Node<K, V>>,
        degree: usize,
    ) -> (plan: Plan)
        requires
            idx < self.children.len(),
            mid.keys.len() < usize::MAX,
        ensures
            plan == Self::plan_of(
                idx,
                self.children.len(),
                mid.keys.len(),
                match left {
                    Some(node) => Some(node.keys.len()),
                    None => None,
                },
                match right {
                    Some(node) => Some(node.keys.len()),
                    None => None,
                },
                degree,
            ),
    {
        if mid.len() + 1 != degree {
            return Plan::Keep;
        }
        if idx > 0 {
            match left {
                None => {
                    return Plan::ReadLeft;
                },
                Some(node) => {
                    if node.len() >= degree {
                        return Plan::RotateRight;
                    }
                },
            }
        }
        if idx + 1 < self.children.len() {
            match right {
                None => {
                    return Plan::ReadRight;
                },
                Some(node) => {
                    if node.len() >= degree {
                        return Plan::RotateLeft;
                    }
                },
            }
        }
        if idx > 0 {
            Plan::MergeLeft
        } else if idx + 1 < self.children.len() {
            Plan::MergeRight
        } else {
            Plan::Keep
        }
    }

    /// How an entry of a node with children is taken out: by the
    /// predecessor where the child before it, of `pred` keys, has one to
    /// spare; else by the successor where the child after it, of `succ`
    /// keys once it has been read, has; else by joining the two.
    pub open spec fn inner_of(pred: usize, succ: Option<usize>, degree: usize) -> Inner {
        if pred >= degree {
            Inner::Predecessor
        } else if succ is None {
            Inner::ReadSuccessor
        } else if succ->0 >= degree {
            Inner::Successor
        } else {
            Inner::Merge
        }
    }

    /// Decides how an entry of this node is taken out, given the child
    /// before it and, if it has been read, the child after it.
    pub fn plan_inner(pred: &Node<K, V>, succ: Option<&Node<K, V>>, degree: usize) -> (plan: Inner)
        ensures
            plan == Self::inner_of(
                pred.keys.len(),
                match succ {
                    Some(node) => Some(node.keys.len()),
                    None => None,
                },
                degree,
            ),
    {
        if pred.len() >= degree {
            return Inner::Predecessor;
        }
        match succ {
            None => Inner::ReadSuccessor,
            Some(node) => {
                if node.len() >= degree {
                    Inner::Successor
                } else {
                    Inner::Merge
                }
            },
        }
    }
}

impl<K, V> Node<K, V> {
    /// `post` is `pre` after its full child at position `idx`, `whole`, was
    /// cut in two around its median: the median entry stands at position
    /// `idx` of `post`, `lower` is the child with its first `degree - 1`
    /// entries and first `degree` children, and `upper`, a new node, holds
    /// the rest and is the child at position `idx + 1`.
    pub open spec fn is_split(
        pre: Self,
        post: Self,
        whole: Self,
        lower: Self,
        upper: Self,
        idx: int,
        degree: usize,
    ) -> bool {
        let t = degree as int;
        &&& post.id == pre.id
        &&& lower.id == whole.id
        &&& post.keys@ == pre.keys@.insert(idx, whole.keys[t - 1])
        &&& post.vals@ == pre.vals@.insert(idx, whole.vals[t - 1])
        &&& post.children@ == pre.children@.insert(idx + 1, upper.id)
        &&& lower.keys@ == whole.keys@.take(t - 1)
        &&& lower.vals@ == whole.vals@.take(t - 1)
        &&& upper.keys@ == whole.keys@.skip(t)
        &&& upper.vals@ == whole.vals@.skip(t)
        &&& if whole.children.len() == 0 {
            lower.children.len() == 0 && upper.children.len() == 0
        } else {
            lower.children@ == whole.children@.take(t) && upper.children@ == whole.children@.skip(t)
        }
    }

    /// `post` is `pre` after its children at positions `idx` and `idx + 1`,
    /// `left` and `right`, were joined around entry `idx`: `joined` holds
    /// what `left` held, then that entry, then what `right` held, and is the
    /// child at position `idx`.
    pub open spec fn is_merged(
        pre: Self,
        post: Self,
        left: Self,
        right: Self,
        joined: Self,
        idx: int,
    ) -> bool {
        &&& post.id == pre.id
        &&& joined.id == left.id
        &&& post.keys@ == pre.keys@.remove(idx)
        &&& post.vals@ == pre.vals@.remove(idx)
        &&& post.children@ == pre.children@.remove(idx + 1)
        &&& joined.keys@ == left.keys@.push(pre.keys[idx]) + right.keys@
        &&& joined.vals@ == left.vals@.push(pre.vals[idx]) + right.vals@
        &&& joined.children@ == left.children@ + right.children@
    }

    /// `post` is `pre` after the child at position `idx` took an entry from
    /// its left sibling: entry `idx - 1` of `pre` moved down to the front of
    /// the child, the last entry of the sibling moved up in its place, and
    /// the last child of the sibling, if it had any, became the first of
    /// the child. `left` and `mid` are the two children before, `lesser`
    /// and `greater` after.
    pub open spec fn is_rotated_right(
        pre: Self,
        post: Self,
        left: Self,
        mid: Self,
        lesser: Self,
        greater: Self,
        idx: int,
    ) -> bool {
        &&& post.id == pre.id
        &&& lesser.id == left.id
        &&& greater.id == mid.id
        &&& post.keys@ == pre.keys@.update(idx - 1, left.keys@.last())
        &&& post.vals@ == pre.vals@.update(idx - 1, left.vals@.last())
        &&& post.children@ == pre.children@
        &&& lesser.keys@ == left.keys@.drop_last()
        &&& lesser.vals@ == left.vals@.drop_last()
        &&& greater.keys@ == seq![pre.keys[idx - 1]] + mid.keys@
        &&& greater.vals@ == seq![pre.vals[idx - 1]] + mid.vals@
        &&& if left.children.len() == 0 {
            lesser.children@ == left.children@ && greater.children@ == mid.children@
        } else {
            lesser.children@ == left.children@.drop_last() && greater.children@ == seq![
                left.children@.last(),
            ] + mid.children@
        }
    }

    /// `post` is `pre` after the child at position `idx` took an entry from
    /// its right sibling: entry `idx` of `pre` moved down to the end of the
    /// child, the first entry of the sibling moved up in its place, and the
    /// first child of the sibling, if it had any, became the last of the
    /// child. `mid` and `right` are the two children before, `lesser` and
    /// `greater` after.
    pub open spec fn is_rotated_left(
        pre: Self,
        post: Self,
        mid: Self,
        right: Self,
        lesser: Self,
        greater: Self,
        idx: int,
    ) -> bool {
        &&& post.id == pre.id
        &&& lesser.id == mid.id
        &&& greater.id == right.id
        &&& post.keys@ == pre.keys@.update(idx, right.keys@.first())
        &&& post.vals@ == pre.vals@.update(idx, right.vals@.first())
        &&& post.children@ == pre.children@
        &&& greater.keys@ == right.keys@.drop_first()
        &&& greater.vals@ == right.vals@.drop_first()
        &&& lesser.keys@ == mid.keys@.push(pre.keys[idx])
        &&& lesser.vals@ == mid.vals@.push(pre.vals[idx])
        &&& if right.children.len() == 0 {
            greater.children@ == right.children@ && lesser.children@ == mid.children@
        } else {
            greater.children@ == right.children@.drop_first() && lesser.children@
                == mid.children@.push(right.children@.first())
        }
    }

    /// Cuts the full child at position `idx`, which the caller has read as
    /// `child`, in two around its median: the median entry moves up into
    /// this node at position `idx`, `child` keeps the lower half, and the
    /// upper half is returned as a new node with the identifier `right_id`,
    /// which becomes the child at position `idx + 1`. All three nodes have
    /// changed.
    pub fn split_child(&mut self, idx: usize, child: &mut Node<K, V>, right_id: u64, degree: usize) -> (right:
        Node<K, V>)
        requires
            valid_degree(degree),
            old(self).well_shaped(),
            old(self).keys.len() < 2 * degree - 1,
            idx < old(self).children.len(),
            old(self).children[idx as int] == old(child).id,
            old(child).well_shaped(),
            old(child).keys.len() == 2 * degree - 1,
        ensures
            Self::is_split(*old(self), *final(self), *old(child), *final(child), right, idx as int, degree),
            right.id == right_id,
            final(self).well_shaped(),
            final(child).well_shaped(),
            right.well_shaped(),
    {
        let mut right = Self::new(right_id);
        right.vals = child.vals.split_off(degree);
        right.keys = child.keys.split_off(degree);
        let key = child.keys.pop().unwrap();
        let val = child.vals.pop().unwrap();
        if !child.is_leaf() {
            right.children = child.children.split_off(degree);
        }
        self.keys.insert(idx, key);
        self.vals.insert(idx, val);
        self.children.insert(idx + 1, right.id);
        proof {
            let t = degree as int;
            assert(child.keys@ =~= old(child).keys@.take(t - 1));
            assert(child.vals@ =~= old(child).vals@.take(t - 1));
            assert(right.keys@ =~= old(child).keys@.skip(t));
            assert(right.vals@ =~= old(child).vals@.skip(t));
            if old(child).children.len() > 0 {
                assert(child.children@ =~= old(child).children@.take(t));
                assert(right.children@ =~= old(child).children@.skip(t));
            }
        }
        right
    }

    /// Takes the entry at position `idx` out of a leaf.
    pub fn take_entry(&mut self, idx: usize) -> (entry: (K, V))
        requires
            old(self).keys.len() == old(self).vals.len(),
            idx < old(self).keys.len(),
        ensures
            final(self).id == old(self).id,
            entry == (old(self).keys[idx as int], old(self).vals[idx as int]),
            final(self).keys@ == old(self).keys@.remove(idx as int),
            final(self).vals@ == old(self).vals@.remove(idx as int),
            final(self).children@ == old(self).children@,
    {
        let key = self.keys.remove(idx);
        let val = self.vals.remove(idx);
        (key, val)
    }

    /// Puts `entry` in the place of the entry at position `idx`, which is
    /// returned.
    pub fn replace_entry(&mut self, idx: usize, entry: (K, V)) -> (prior: (K, V))
        requires
            old(self).keys.len() == old(self).vals.len(),
            idx < old(self).keys.len(),
        ensures
            final(self).id == old(self).id,
            prior == (old(self).keys[idx as int], old(self).vals[idx as int]),
            final(self).keys@ == old(self).keys@.update(idx as int, entry.0),
            final(self).vals@ == old(self).vals@.update(idx as int, entry.1),
            final(self).children@ == old(self).children@,
    {
        let (mut key, mut val) = entry;
        std::mem::swap(&mut self.keys[idx], &mut key);
        std::mem::swap(&mut self.vals[idx], &mut val);
        (key, val)
    }

    /// Joins the children at positions `idx` and `idx + 1`, which the caller
    /// has read as `left` and `right`, around entry `idx` of this node, which
    /// moves down between them: `left` then holds everything and stays the
    /// child at position `idx`; the node `right` is no longer part of the
    /// tree. This node and `left` have changed.
    pub fn merge_children(&mut self, idx: usize, left: &mut Node<K, V>, right: Node<K, V>)
        requires
            old(self).well_shaped(),
            idx < old(self).keys.len(),
            old(self).children.len() > 0,
            old(self).children[idx as int] == old(left).id,
            old(self).children[idx + 1] == right.id,
            old(left).well_shaped(),
            right.well_shaped(),
            old(left).children.len() == 0 <==> right.children.len() == 0,
        ensures
            Self::is_merged(*old(self), *final(self), *old(left), right, *final(left), idx as int),
            final(self).well_shaped(),
            final(left).well_shaped(),
    {
        let mut right = right;
        let key = self.keys.remove(idx);
        let val = self.vals.remove(idx);
        self.children.remove(idx + 1);
        left.keys.push(key);
        left.vals.push(val);
        left.keys.append(&mut right.keys);
        left.vals.append(&mut right.vals);
        left.children.append(&mut right.children);
    }

    /// Moves the last entry of `left`, the child at position `idx - 1`, up
    /// into this node and entry `idx - 1` of this node down to the front of
    /// `mid`, the child at position `idx`; the last child of `left`, if it
    /// has any, becomes the first of `mid`. All three nodes have changed.
    pub fn rotate_right(&mut self, idx: usize, left: &mut Node<K, V>, mid: &mut Node<K, V>)
        requires
            old(self).well_shaped(),
            0 < idx < old(self).children.len(),
            old(self).children[idx - 1] == old(left).id,
            old(self).children[idx as int] == old(mid).id,
            old(left).well_shaped(),
            old(mid).well_shaped(),
            old(left).keys.len() >= 1,
            old(left).children.len() == 0 <==> old(mid).children.len() == 0,
        ensures
            Self::is_rotated_right(
                *old(self),
                *final(self),
                *old(left),
                *old(mid),
                *final(left),
                *final(mid),
                idx as int,
            ),
            final(self).well_shaped(),
            final(left).well_shaped(),
            final(mid).well_shaped(),
    {
        let parent_key = self.keys.remove(idx - 1);
        let parent_val = self.vals.remove(idx - 1);
        mid.keys.insert(0, parent_key);
        mid.vals.insert(0, parent_val);
        let left_key = left.keys.pop().unwrap();
        let left_val = left.vals.pop().unwrap();
        self.keys.insert(idx - 1, left_key);
        self.vals.insert(idx - 1, left_val);
        if !left.is_leaf() {
            let child = left.children.pop().unwrap();
            mid.children.insert(0, child);
        }
        proof {
            let i = idx as int;
            assert(self.keys@ =~= old(self).keys@.update(i - 1, left_key));
            assert(self.vals@ =~= old(self).vals@.update(i - 1, left_val));
            assert(left.keys@ =~= old(left).keys@.drop_last());
            assert(left.vals@ =~= old(left).vals@.drop_last());
            assert(mid.keys@ =~= seq![parent_key] + old(mid).keys@);
            assert(mid.vals@ =~= seq![parent_val] + old(mid).vals@);
            if old(left).children.len() > 0 {
                assert(left.children@ =~= old(left).children@.drop_last());
                assert(mid.children@ =~= seq![old(left).children@.last()] + old(mid).children@);
            }
        }
    }

    /// Moves the first entry of `right`, the child at position `idx + 1`, up
    /// into this node and entry `idx` of this node down to the end of `mid`,
    /// the child at position `idx`; the first child of `right`, if it has
    /// any, becomes the last of `mid`. All three nodes have changed.
    pub fn rotate_left(&mut self, idx: usize, mid: &mut Node<K, V>, right: &mut Node<K, V>)
        requires
            old(self).well_shaped(),
            idx < old(self).keys.len(),
            old(self).children.len() > 0,
            old(self).children[idx as int] == old(mid).id,
            old(self).children[idx + 1] == old(right).id,
            old(mid).well_shaped(),
            old(right).well_shaped(),
            old(right).keys.len() >= 1,
            old(right).children.len() == 0 <==> old(mid).children.len() == 0,
        ensures
            Self::is_rotated_left(
                *old(self),
                *final(self),
                *old(mid),
                *old(right),
                *final(mid),
                *final(right),
                idx as int,
            ),
            final(self).well_shaped(),
            final(mid).well_shaped(),
            final(right).well_shaped(),
    {
        let parent_key = self.keys.remove(idx);
        let parent_val = self.vals.remove(idx);
        mid.keys.push(parent_key);
        mid.vals.push(parent_val);
        let right_key = right.keys.remove(0);
        let right_val = right.vals.remove(0);
        self.keys.insert(idx, right_key);
        self.vals.insert(idx, right_val);
        if !right.is_leaf() {
            let child = right.children.remove(0);
            mid.children.push(child);
        }
        proof {
            let i = idx as int;
            assert(self.keys@ =~= old(self).keys@.update(i, right_key));
            assert(self.vals@ =~= old(self).vals@.update(i, right_val));
            assert(right.keys@ =~= old(right).keys@.drop_first());
            assert(right.vals@ =~= old(right).vals@.drop_first());
            if old(right).children.len() > 0 {
                assert(right.children@ =~= old(right).children@.drop_first());
            }
        }
    }
}

impl<K: Ord, V> Node<K, V> {
    /// The key `k` belongs between key `i - 1` and key `i` of this node.
    pub open spec fn routes(self, i: int, k: K) -> bool {
        &&& 0 <= i <= self.keys.len()
        &&& forall|j: int| 0 <= j < i ==> lt(#[trigger] self.keys[j], k)
        &&& forall|j: int| i <= j < self.keys.len() ==> lt(k, #[trigger] self.keys[j])
    }

    /// The node has the key `k`.
    pub open spec fn has(self, k: K) -> bool {
        exists|i: int| 0 <= i < self.keys.len() && #[trigger] self.keys[i] == k
    }

    /// The position of `k` among the node's keys: that of the key itself
    /// where the node has it, else that of the first key above it, else the
    /// number of keys.
    pub fn find_index(&self, k: &K) -> (idx: usize)
        requires
            total_order::<K>(),
            self.keys.len() == self.vals.len(),
            ascending(self.items()),
        ensures
            idx <= self.keys.len(),
            forall|j: int| 0 <= j < idx ==> lt(#[trigger] self.keys[j], *k),
            idx < self.keys.len() ==> self.keys[idx as int] == *k || lt(*k, self.keys[idx as int]),
            forall|j: int| idx < j < self.keys.len() ==> lt(*k, #[trigger] self.keys[j]),
    {
        let mut size = self.len();
        let mut left: usize = 0;
        let mut right: usize = size;
        while left < right
            invariant
                total_order::<K>(),
                self.keys.len() == self.vals.len(),
                ascending(self.items()),
                left <= right <= self.keys.len(),
                size == right - left,
                forall|j: int| 0 <= j < left ==> lt(#[trigger] self.keys[j], *k),
                forall|j: int| right <= j < self.keys.len() ==> lt(*k, #[trigger] self.keys[j]),
            decreases right - left,
        {
            let mid = left + size / 2;
            match compare(&self.keys[mid], k) {
                Rank::Same => {
                    proof {
                        self.lemma_around(mid as int, *k);
                    }
                    return mid;
                },
                Rank::Below => {
                    proof {
                        self.lemma_around(mid as int, *k);
                    }
                    left = mid + 1;
                },
                Rank::Above => {
                    proof {
                        self.lemma_around(mid as int, *k);
                    }
                    right = mid;
                },
            }
            size = right - left;
        }
        left
    }

    /// One step of a lookup: whether this node has `k`, and if not, whether
    /// and where to look on.
    pub fn lookup(&self, k: &K) -> (found: Lookup)
        requires
            total_order::<K>(),
            self.well_shaped(),
            ascending(self.items()),
        ensures
            match found {
                Lookup::Found(idx) => idx < self.keys.len() && self.keys[idx as int] == *k,
                Lookup::Absent => !self.has(*k) && self.children.len() == 0,
                Lookup::Descend(child) => !self.has(*k) && exists|i: int|
                    #![trigger self.children[i]]
                    self.routes(i, *k) && child == self.children[i],
            },
    {
        let idx = self.find_index(k);
        if idx < self.len() {
            if let Rank::Same = compare(&self.keys[idx], k) {
                return Lookup::Found(idx);
            }
        }
        proof {
            self.lemma_routed_absent(idx as int, *k);
        }
        if self.is_leaf() {
            Lookup::Absent
        } else {
            Lookup::Descend(self.children[idx])
        }
    }

    /// A key that belongs between two keys of the node is not in the node.
    pub proof fn lemma_routed_absent(self, i: int, k: K)
        requires
            total_order::<K>(),
            self.routes(i, k),
        ensures
            !self.has(k),
    {
        if self.has(k) {
            let j = choose|j: int| 0 <= j < self.keys.len() && #[trigger] self.keys[j] == k;
            lemma_trichotomy(self.keys[j], k);
        }
    }

    /// One step of an insertion: a node that has `k` gets the new value; a
    /// leaf that has it not gets the entry at the position where the key
    /// belongs; from any other node the entry is handed back with the
    /// position of the child below which it belongs.
    pub fn insert_step(&mut self, k: K, v: V) -> (done: Inserted<K, V>)
        requires
            total_order::<K>(),
            old(self).well_shaped(),
            ascending(old(self).items()),
        ensures
            final(self).id == old(self).id,
            final(self).children@ == old(self).children@,
            final(self).well_shaped(),
            ascending(final(self).items()),
            match done {
                Inserted::Replaced(prior) => exists|i: int|
                    #![trigger old(self).keys[i]]
                    {
                        &&& 0 <= i < old(self).keys.len()
                        &&& old(self).keys[i] == k
                        &&& prior == old(self).vals[i]
                        &&& final(self).keys@ == old(self).keys@
                        &&& final(self).vals@ == old(self).vals@.update(i, v)
                    },
                Inserted::Added => exists|i: int|
                    #![trigger old(self).routes(i, k)]
                    {
                        &&& old(self).routes(i, k)
                        &&& old(self).children.len() == 0
                        &&& final(self).keys@ == old(self).keys@.insert(i, k)
                        &&& final(self).vals@ == old(self).vals@.insert(i, v)
                    },
                Inserted::Descend(idx, key, val) => {
                    &&& key == k
                    &&& val == v
                    &&& old(self).routes(idx as int, k)
                    &&& idx < old(self).children.len()
                    &&& final(self).keys@ == old(self).keys@
                    &&& final(self).vals@ == old(self).vals@
                },
            },
    {
        let mut v = v;
        let idx = self.find_index(&k);
        if idx < self.len() {
            if let Rank::Same = compare(&self.keys[idx], &k) {
                std::mem::swap(&mut self.vals[idx], &mut v);
                proof {
                    assert(self.items() =~= old(self).items().update(idx as int, (k, self.vals[idx as int])));
                    lemma_update_at(old(self).items(), idx as int, self.vals[idx as int]);
                }
                return Inserted::Replaced(v);
            }
        }
        if self.is_leaf() {
            self.keys.insert(idx, k);
            self.vals.insert(idx, v);
            proof {
                assert(self.items() =~= old(self).items().insert(idx as int, (k, v)));
                assert forall|j: int| 0 <= j < idx implies lt((#[trigger] old(self).items()[j]).0, k) by {
                    assert(old(self).items()[j].0 == old(self).keys[j]);
                }
                assert forall|j: int| idx <= j < old(self).items().len() implies lt(
                    k,
                    (#[trigger] old(self).items()[j]).0,
                ) by {
                    assert(old(self).items()[j].0 == old(self).keys[j]);
                }
                lemma_insert_at(old(self).items(), idx as int, k, v);
                assert(old(self).routes(idx as int, k));
            }
            return Inserted::Added;
        }
        Inserted::Descend(idx, k, v)
    }

    /// One step of a removal: a leaf that has `k` loses the entry; for any
    /// other node the step says where the removal goes on.
    pub fn remove_step(&mut self, k: &K) -> (done: Removed<K, V>)
        requires
            total_order::<K>(),
            old(self).well_shaped(),
            ascending(old(self).items()),
        ensures
            final(self).id == old(self).id,
            final(self).children@ == old(self).children@,
            final(self).well_shaped(),
            ascending(final(self).items()),
            match done {
                Removed::Taken(key, val) => exists|i: int|
                    #![trigger old(self).keys[i]]
                    {
                        &&& 0 <= i < old(self).keys.len()
                        &&& old(self).children.len() == 0
                        &&& old(self).keys[i] == *k
                        &&& key == *k
                        &&& val == old(self).vals[i]
                        &&& final(self).keys@ == old(self).keys@.remove(i)
                        &&& final(self).vals@ == old(self).vals@.remove(i)
                    },
                Removed::Absent => {
                    &&& !old(self).has(*k)
                    &&& old(self).children.len() == 0
                    &&& final(self).keys@ == old(self).keys@
                    &&& final(self).vals@ == old(self).vals@
                },
                Removed::Inner(idx) => {
                    &&& idx < old(self).keys.len()
                    &&& old(self).keys[idx as int] == *k
                    &&& old(self).children.len() > 0
                    &&& final(self).keys@ == old(self).keys@
                    &&& final(self).vals@ == old(self).vals@
                },
                Removed::Descend(idx) => {
                    &&& old(self).routes(idx as int, *k)
                    &&& idx < old(self).children.len()
                    &&& final(self).keys@ == old(self).keys@
                    &&& final(self).vals@ == old(self).vals@
                },
            },
    {
        let idx = self.find_index(k);
        let mut found = false;
        if idx < self.len() {
            if let Rank::Same = compare(&self.keys[idx], k) {
                found = true;
            }
        }
        if found {
            if self.is_leaf() {
                let (key, val) = self.take_entry(idx);
                proof {
                    assert(self.items() =~= old(self).items().remove(idx as int));
                    lemma_remove_at(old(self).items(), idx as int);
                }
                Removed::Taken(key, val)
            } else {
                Removed::Inner(idx)
            }
        } else {
            proof {
                assert(old(self).routes(idx as int, *k));
                self.lemma_routed_absent(idx as int, *k);
            }
            if self.is_leaf() {
                Removed::Absent
            } else {
                Removed::Descend(idx)
            }
        }
    }

    /// Whether the node can be part of a tree of the minimum degree
    /// `degree`: each key has a value, there are no children or one more
    /// than keys, no more keys than a node may hold, and the keys ascend.
    pub fn check(&self, degree: usize) -> (ok: bool)
        requires
            total_order::<K>(),
            valid_degree(degree),
        ensures
            ok == (self.well_shaped() && self.keys.len() <= 2 * degree - 1 && ascending(
                self.items(),
            )),
    {
        if self.keys.len() != self.vals.len() {
            return false;
        }
        if self.keys.len() > 2 * degree - 1 {
            return false;
        }
        if self.children.len() != 0 && self.children.len() != self.keys.len() + 1 {
            return false;
        }
        let mut i: usize = 1;
        while i < self.keys.len()
            invariant
                total_order::<K>(),
                self.keys.len() == self.vals.len(),
                1 <= i,
                forall|a: int, b: int|
                    0 <= a < b < i && b < self.keys.len() ==> lt(
                        #[trigger] self.keys[a],
                        #[trigger] self.keys[b],
                    ),
            decreases self.keys.len() - i,
        {
            match compare(&self.keys[i - 1], &self.keys[i]) {
                Rank::Below => {},
                _ => {
                    proof {
                        lemma_trichotomy(self.keys[i - 1], self.keys[i as int]);
                        if ascending(self.items()) {
                            assert(lt(self.items()[i - 1].0, self.items()[i as int].0));
                        }
                    }
                    return false;
                },
            }
            proof {
                assert forall|a: int, b: int| 0 <= a < b < i + 1 && b < self.keys.len() implies lt(
                    #[trigger] self.keys[a],
                    #[trigger] self.keys[b],
                ) by {
                    if b == i && a < i - 1 {
                        lemma_lt_transitive(self.keys[a], self.keys[i - 1], self.keys[b]);
                    }
                }
            }
            i += 1;
        }
        proof {
            assert forall|a: int, b: int| 0 <= a < b < self.items().len() implies lt(
                (#[trigger] self.items()[a]).0,
                (#[trigger] self.items()[b]).0,
            ) by {
                assert(lt(self.keys[a], self.keys[b]));
            }
        }
        true
    }

    /// Takes a node that was read under the identifier `id` into a tree of
    /// the minimum degree `degree`, if it bears that identifier and can be
    /// part of such a tree; what was read is otherwise no node of the tree.
    pub fn accept(self, id: u64, degree: usize) -> (node: Result<Self, Error>)
        requires
            total_order::<K>(),
            valid_degree(degree),
        ensures
            match node {
                Ok(node) => {
                    &&& node == self
                    &&& self.id == id
                    &&& self.well_shaped()
                    &&& self.keys.len() <= 2 * degree - 1
                    &&& ascending(self.items())
                },
                Err(e) => e == Error::Serde && !(self.id == id && self.well_shaped()
                    && self.keys.len() <= 2 * degree - 1 && ascending(self.items())),
            },
    {
        if self.id == id && self.check(degree) {
            Ok(self)
        } else {
            Err(Error::Serde)
        }
    }

    /// How `k` stands to key `mid` decides how it stands to the keys on one
    /// side of it.
    pub proof fn lemma_around(self, mid: int, k: K)
        requires
            total_order::<K>(),
            self.keys.len() == self.vals.len(),
            ascending(self.items()),
            0 <= mid < self.keys.len(),
        ensures
            lt(self.keys[mid], k) || self.keys[mid] == k ==> forall|j: int|
                0 <= j < mid ==> lt(#[trigger] self.keys[j], k),
            lt(k, self.keys[mid]) || self.keys[mid] == k ==> forall|j: int|
                mid < j < self.keys.len() ==> lt(k, #[trigger] self.keys[j]),
    {
        let s = self.items();
        if lt(self.keys[mid], k) || self.keys[mid] == k {
            assert forall|j: int| 0 <= j < mid implies lt(#[trigger] self.keys[j], k) by {
                assert(lt(s[j].0, s[mid].0));
                if self.keys[mid] != k {
                    lemma_lt_transitive(self.keys[j], self.keys[mid], k);
                }
            }
        }
        if lt(k, self.keys[mid]) || self.keys[mid] == k {
            assert forall|j: int| mid < j < self.keys.len() implies lt(k, #[trigger] self.keys[j]) by {
                assert(lt(s[mid].0, s[j].0));
                if self.keys[mid] != k {
                    lemma_lt_transitive(k, self.keys[mid], self.keys[j]);
                }
            }
        }
    }
}

} // verus!
