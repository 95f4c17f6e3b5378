//! The node of a tree in memory: what a subtree holds, the shape it must
//! have, lookup, the split of a full child, and insertion.

use crate::map::flat::{
    flat, flat_from, flat_upto, lemma_flat_item_update, lemma_flat_join, lemma_flat_leaf,
    lemma_flat_replace_kid, lemma_flat_split, lemma_flat_split_kid, place,
};
use crate::map::laws::{descendant, is_path, lemma_path_extend};
use crate::map::route::{lemma_descend, lemma_item_bound, lemma_items_ascending};
use crate::map::sorted::{
    above, ascending, below, has_key, lemma_insert_at, lemma_replace_middle, lemma_update_at,
    to_map,
};
use crate::order::{compare, lemma_lt_transitive, lemma_trichotomy, lt, total_order, Rank};
use vstd::prelude::*;

verus! {

/// A minimum degree that a tree can have: at least 2, and small enough for
/// the size of a full node to be computed.
pub open spec fn valid_degree(degree: usize) -> bool {
    2 <= degree <= usize::MAX / 2
}

/// A node of the tree: keys in ascending order, the value of each key at the
/// same position, and either no children or one more than there are keys.
pub struct Node<K, V> {
    pub keys: Vec<K>,
    pub vals: Vec<V>,
    pub children: Vec<Node<K, V>>,
}

impl<K, V> Node<K, V> {
    /// The node's own entries: each key with its value.
    pub open spec fn items(self) -> Seq<(K, V)> {
        Seq::new(self.keys.len() as nat, |i: int| (self.keys[i], self.vals[i]))
    }

    /// The entries of each child's subtree.
    pub open spec fn kids(self) -> Seq<Seq<(K, V)>>
        decreases self, 0nat,
    {
        Seq::new(
            self.children.len() as nat,
            |i: int|
                if 0 <= i < self.children.len() {
                    self.children[i].entries()
                } else {
                    Seq::empty()
                },
        )
    }

    /// The entries of the subtree in the order of an in-order traversal.
    pub open spec fn entries(self) -> Seq<(K, V)>
        decreases self, 1nat,
    {
        flat(self.items(), self.kids())
    }

    /// The number of levels below this node.
    pub open spec fn height(self) -> nat
        decreases self,
    {
        if self.children.len() == 0 {
            0
        } else {
            1 + self.children[0].height()
        }
    }

    /// In every node of the subtree each key has a value, and a node has no
    /// children or one more than it has keys.
    pub open spec fn well_shaped(self) -> bool
        decreases self,
    {
        &&& self.keys.len() == self.vals.len()
        &&& (self.children.len() == 0 || self.children.len() == self.keys.len() + 1)
        &&& forall|i: int|
            0 <= i < self.children.len() ==> (#[trigger] self.children[i]).well_shaped()
    }

    /// No node of the subtree has more than `2 * degree - 1` keys, none but
    /// this one has fewer than `degree - 1`, and all leaves are at one depth.
    pub open spec fn balanced(self, degree: usize) -> bool
        decreases self,
    {
        &&& self.keys.len() <= 2 * degree - 1
        &&& forall|i: int|
            0 <= i < self.children.len() ==> {
                &&& (#[trigger] self.children[i]).balanced(degree)
                &&& self.children[i].keys.len() >= degree - 1
                &&& self.children[i].height() + 1 == self.height()
            }
    }

    /// An empty leaf.
    pub fn new() -> (node: Self)
        ensures
            node.keys@.len() == 0,
            node.vals@.len() == 0,
            node.children@.len() == 0,
    {
        Self { keys: Vec::new(), vals: Vec::new(), children: Vec::new() }
    }

    /// The number of keys in the node itself.
    pub fn len(&self) -> (n: usize)
        ensures
            n == self.keys.len(),
    {
        self.keys.len()
    }

    /// Whether the node itself has no key.
    pub fn is_empty(&self) -> (b: bool)
        ensures
            b == (self.keys.len() == 0),
    {
        self.keys.is_empty()
    }

    /// Whether the node holds as many keys as a node of this degree can.
    pub fn is_full(&self, degree: usize) -> (b: bool)
        requires
            1 <= degree <= usize::MAX / 2,
        ensures
            b == (self.keys.len() == 2 * degree - 1),
    {
        self.keys.len() == 2 * degree - 1
    }

    /// Whether the node has no children.
    pub fn is_leaf(&self) -> (b: bool)
        ensures
            b == (self.children.len() == 0),
    {
        self.children.is_empty()
    }

    /// `left`, `mid` and `right` are what `whole`, a full node, is cut into
    /// around its median: the first `degree - 1` entries with the first
    /// `degree` children, the median entry, and the rest.
    pub open spec fn cut(whole: Self, left: Self, mid: (K, V), right: Self, degree: usize) -> bool {
        let t = degree as int;
        &&& left.keys@ == whole.keys@.take(t - 1)
        &&& left.vals@ == whole.vals@.take(t - 1)
        &&& mid == (whole.keys[t - 1], whole.vals[t - 1])
        &&& right.keys@ == whole.keys@.skip(t)
        &&& right.vals@ == whole.vals@.skip(t)
        &&& if whole.children.len() == 0 {
            left.children.len() == 0 && right.children.len() == 0
        } else {
            left.children@ == whole.children@.take(t) && right.children@ == whole.children@.skip(t)
        }
    }

    /// What a full node is cut into reads as the node did.
    pub proof fn lemma_cut_entries(whole: Self, left: Self, mid: (K, V), right: Self, degree: usize)
        requires
            valid_degree(degree),
            whole.keys.len() == 2 * degree - 1,
            whole.vals.len() == 2 * degree - 1,
            whole.children.len() == 0 || whole.children.len() == 2 * degree,
            Self::cut(whole, left, mid, right, degree),
        ensures
            whole.entries() == left.entries() + seq![mid] + right.entries(),
            left.height() == whole.height(),
            whole.balanced(degree) ==> right.height() == whole.height(),
            whole.well_shaped() ==> left.well_shaped() && right.well_shaped(),
            whole.balanced(degree) ==> left.balanced(degree) && right.balanced(degree),
    {
        let t = degree as int;
        assert(whole.items() =~= left.items() + seq![mid] + right.items());
        assert(whole.kids() =~= left.kids() + right.kids());
        lemma_flat_join(left.items(), left.kids(), mid, right.items(), right.kids());
        if whole.children.len() > 0 {
            assert(left.children[0] == whole.children[0]);
            assert(right.children[0] == whole.children[t]);
            if whole.balanced(degree) {
                assert(whole.children[0].height() + 1 == whole.height());
                assert(whole.children[t].height() + 1 == whole.height());
            }
        }
        if whole.well_shaped() {
            assert forall|i: int| 0 <= i < left.children.len() implies (
            #[trigger] left.children[i]).well_shaped() by {
                assert(left.children[i] == whole.children[i]);
            }
            assert forall|i: int| 0 <= i < right.children.len() implies (
            #[trigger] right.children[i]).well_shaped() by {
                assert(right.children[i] == whole.children[i + t]);
            }
        }
        if whole.balanced(degree) {
            assert forall|i: int| 0 <= i < left.children.len() implies {
                &&& (#[trigger] left.children[i]).balanced(degree)
                &&& left.children[i].keys.len() >= degree - 1
                &&& left.children[i].height() + 1 == left.height()
            } by {
                assert(left.children[i] == whole.children[i]);
            }
            assert forall|i: int| 0 <= i < right.children.len() implies {
                &&& (#[trigger] right.children[i]).balanced(degree)
                &&& right.children[i].keys.len() >= degree - 1
                &&& right.children[i].height() + 1 == right.height()
            } by {
                assert(right.children[i] == whole.children[i + t]);
            }
        }
    }

    /// `post` is `pre` after its full child `idx` was cut in two around its
    /// median: the median entry stands at position `idx` of `post`, the lower
    /// half is child `idx` and the upper half child `idx + 1`.
    pub open spec fn is_split(pre: Self, post: Self, idx: int, degree: usize) -> bool {
        &&& post.keys@ == pre.keys@.insert(idx, pre.children[idx].keys[degree - 1])
        &&& post.vals@ == pre.vals@.insert(idx, pre.children[idx].vals[degree - 1])
        &&& post.children@ == pre.children@.update(idx, post.children[idx]).insert(
            idx + 1,
            post.children[idx + 1],
        )
        &&& Self::cut(
            pre.children[idx],
            post.children[idx],
            (post.keys[idx], post.vals[idx]),
            post.children[idx + 1],
            degree,
        )
    }

    /// A node with a full child `idx` that can be split.
    pub open spec fn can_split(self, idx: int, degree: usize) -> bool {
        &&& valid_degree(degree)
        &&& self.keys.len() == self.vals.len()
        &&& self.keys.len() < 2 * degree - 1
        &&& self.children.len() == self.keys.len() + 1
        &&& 0 <= idx < self.children.len()
        &&& self.children[idx].keys.len() == 2 * degree - 1
        &&& self.children[idx].vals.len() == 2 * degree - 1
        &&& (self.children[idx].children.len() == 0 || self.children[idx].children.len() == 2
            * degree)
    }

    /// Splitting a child keeps the entries.
    pub proof fn lemma_split_entries(pre: Self, post: Self, idx: int, degree: usize)
        requires
            pre.can_split(idx, degree),
            Self::is_split(pre, post, idx, degree),
        ensures
            post.entries() == pre.entries(),
    {
        let whole = pre.children[idx];
        let lower = post.children[idx];
        let upper = post.children[idx + 1];
        let mid = (post.keys[idx], post.vals[idx]);
        Self::lemma_cut_entries(whole, lower, mid, upper, degree);
        assert(post.items() =~= pre.items().insert(idx, mid));
        assert(post.kids() =~= pre.kids().update(idx, lower.entries()).insert(
            idx + 1,
            upper.entries(),
        ));
        lemma_flat_split_kid(pre.items(), pre.kids(), idx, lower.entries(), mid, upper.entries());
    }

    /// Splitting a child keeps the height and the shape.
    pub proof fn lemma_split_shape(pre: Self, post: Self, idx: int, degree: usize)
        requires
            pre.can_split(idx, degree),
            Self::is_split(pre, post, idx, degree),
        ensures
            post.height() == pre.height(),
            post.keys.len() == pre.keys.len() + 1,
            post.children[idx].keys.len() == degree - 1,
            post.children[idx + 1].keys.len() == degree - 1,
            pre.well_shaped() ==> post.well_shaped(),
            pre.balanced(degree) ==> post.balanced(degree),
    {
        let whole = pre.children[idx];
        let lower = post.children[idx];
        let upper = post.children[idx + 1];
        let mid = (post.keys[idx], post.vals[idx]);
        Self::lemma_cut_entries(whole, lower, mid, upper, degree);
        if idx > 0 {
            assert(post.children[0] == pre.children[0]);
        }
        if pre.well_shaped() {
            assert forall|j: int| 0 <= j < post.children.len() implies (
            #[trigger] post.children[j]).well_shaped() by {
                if j < idx {
                    assert(post.children[j] == pre.children[j]);
                } else if j > idx + 1 {
                    assert(post.children[j] == pre.children[j - 1]);
                }
            }
        }
        if pre.balanced(degree) {
            assert forall|j: int| 0 <= j < post.children.len() implies {
                &&& (#[trigger] post.children[j]).balanced(degree)
                &&& post.children[j].keys.len() >= degree - 1
                &&& post.children[j].height() + 1 == post.height()
            } by {
                assert(pre.children[idx].height() + 1 == pre.height());
                if j < idx {
                    assert(post.children[j] == pre.children[j]);
                } else if j > idx + 1 {
                    assert(post.children[j] == pre.children[j - 1]);
                }
            }
        }
    }

    /// Cuts the full child `idx` in two around its median, which moves up
    /// into this node at position `idx`; the upper half becomes child
    /// `idx + 1`.
    pub fn split_child(&mut self, idx: usize, degree: usize)
        requires
            old(self).can_split(idx as int, degree),
        ensures
            Self::is_split(*old(self), *final(self), idx as int, degree),
            final(self).entries() == old(self).entries(),
            final(self).height() == old(self).height(),
            final(self).keys.len() == old(self).keys.len() + 1,
            final(self).children[idx as int].keys.len() == degree - 1,
            final(self).children[idx + 1].keys.len() == degree - 1,
            old(self).well_shaped() ==> final(self).well_shaped(),
            old(self).balanced(degree) ==> final(self).balanced(degree),
    {
        let ghost whole = self.children[idx as int];
        let left = &mut self.children[idx];
        let mut right = Self::new();
        right.vals = left.vals.split_off(degree);
        right.keys = left.keys.split_off(degree);
        let key = left.keys.pop().unwrap();
        let val = left.vals.pop().unwrap();
        if !left.is_leaf() {
            right.children = left.children.split_off(degree);
        }
        proof {
            let t = degree as int;
            assert(left.keys@ =~= whole.keys@.take(t - 1));
            assert(left.vals@ =~= whole.vals@.take(t - 1));
            assert(right.keys@ =~= whole.keys@.skip(t));
            assert(right.vals@ =~= whole.vals@.skip(t));
            if whole.children.len() > 0 {
                assert(left.children@ =~= whole.children@.take(t));
                assert(right.children@ =~= whole.children@.skip(t));
            }
        }
        self.keys.insert(idx, key);
        self.vals.insert(idx, val);
        self.children.insert(idx + 1, right);
        proof {
            Self::lemma_split_entries(*old(self), *self, idx as int, degree);
            Self::lemma_split_shape(*old(self), *self, idx as int, degree);
        }
    }

    /// `post` is `pre` with child `idx` replaced.
    pub open spec fn child_replaced(pre: Self, post: Self, idx: int) -> bool {
        &&& post.keys@ == pre.keys@
        &&& post.vals@ == pre.vals@
        &&& 0 <= idx < pre.children.len()
        &&& post.children@ == pre.children@.update(idx, post.children[idx])
    }

    /// Replacing a child by one of the same height that is well shaped and
    /// balanced, and not too small, keeps the node so, whatever keys and
    /// values the node then has, as long as it has as many.
    pub proof fn lemma_child_replaced_shape(pre: Self, post: Self, idx: int, degree: usize)
        requires
            post.keys.len() == pre.keys.len(),
            post.vals.len() == pre.vals.len(),
            0 <= idx < pre.children.len(),
            post.children@ == pre.children@.update(idx, post.children[idx]),
            pre.well_shaped(),
            pre.balanced(degree),
            post.children[idx].well_shaped(),
            post.children[idx].balanced(degree),
            post.children[idx].keys.len() >= degree - 1,
            post.children[idx].height() == pre.children[idx].height(),
        ensures
            post.well_shaped(),
            post.balanced(degree),
            post.height() == pre.height(),
    {
        assert(pre.children[idx].height() + 1 == pre.height());
        assert forall|j: int| 0 <= j < post.children.len() implies {
            &&& (#[trigger] post.children[j]).well_shaped()
            &&& post.children[j].balanced(degree)
            &&& post.children[j].keys.len() >= degree - 1
            &&& post.children[j].height() + 1 == post.height()
        } by {
            assert(pre.children[0].height() + 1 == pre.height());
            if j != idx {
                assert(post.children[j] == pre.children[j]);
            }
        }
    }

    /// A leaf reads as its own entries.
    pub proof fn lemma_leaf_entries(self)
        requires
            self.children.len() == 0,
        ensures
            self.entries() == self.items(),
    {
        assert(self.kids() =~= Seq::<Seq<(K, V)>>::empty());
        lemma_flat_leaf(self.items());
    }
}

impl<K: Ord, V> Node<K, V> {
    /// The keys of the subtree ascend in the order of an in-order traversal.
    pub open spec fn ordered(self) -> bool {
        ascending(self.entries())
    }

    /// The map that the subtree stands for.
    pub open spec fn as_map(self) -> Map<K, V> {
        to_map(self.entries())
    }

    /// The key `k` belongs between key `i - 1` and key `i` of this node.
    pub open spec fn routes(self, i: int, k: K) -> bool {
        &&& 0 <= i <= self.keys.len()
        &&& i > 0 ==> lt(self.keys[i - 1], k)
        &&& i < self.keys.len() ==> lt(k, self.keys[i])
    }

    /// Where `k` belongs between key `i - 1` and key `i` of this node, the
    /// subtree has it exactly if child `i` has it, and with the same value.
    pub proof fn lemma_route(self, i: int, k: K)
        requires
            total_order::<K>(),
            self.keys.len() == self.vals.len(),
            self.ordered(),
            self.routes(i, k),
        ensures
            below(flat_upto(self.items(), self.kids(), i), k),
            above(flat_from(self.items(), self.kids(), i), k),
            self.children.len() <= i ==> !has_key(self.entries(), k),
            i < self.children.len() ==> {
                &&& self.children[i].ordered()
                &&& has_key(self.entries(), k) <==> has_key(self.children[i].entries(), k)
                &&& has_key(self.children[i].entries(), k) ==> self.as_map()[k]
                    == self.children[i].as_map()[k]
            },
    {
        lemma_descend(self.items(), self.kids(), i, k);
    }

    /// The subtree binds key `i` of this node to value `i`.
    pub proof fn lemma_own_key(self, i: int)
        requires
            total_order::<K>(),
            self.keys.len() == self.vals.len(),
            self.ordered(),
            0 <= i < self.keys.len(),
        ensures
            has_key(self.entries(), self.keys[i]),
            self.as_map().contains_key(self.keys[i]),
            self.as_map()[self.keys[i]] == self.vals[i],
    {
        lemma_item_bound(self.items(), self.kids(), i);
    }

    /// Replacing child `idx`, where `k` is routed, by an ordered subtree
    /// whose keys are those of the old child and possibly `k`, keeps the
    /// order; the map of either node is the union of what lies left of the
    /// child, the child, and what lies right of it, and only the child's
    /// part can hold `k`.
    pub proof fn lemma_child_replaced(pre: Self, post: Self, idx: int, k: K)
        requires
            total_order::<K>(),
            Self::child_replaced(pre, post, idx),
            pre.keys.len() == pre.vals.len(),
            pre.ordered(),
            pre.routes(idx, k),
            post.children[idx].ordered(),
            forall|x: K|
                has_key(post.children[idx].entries(), x) ==> has_key(
                    pre.children[idx].entries(),
                    x,
                ) || x == k,
        ensures
            post.ordered(),
            pre.as_map() == to_map(
                flat_upto(pre.items(), pre.kids(), idx),
            ).union_prefer_right(pre.children[idx].as_map()).union_prefer_right(
                to_map(flat_from(pre.items(), pre.kids(), idx)),
            ),
            post.as_map() == to_map(
                flat_upto(pre.items(), pre.kids(), idx),
            ).union_prefer_right(post.children[idx].as_map()).union_prefer_right(
                to_map(flat_from(pre.items(), pre.kids(), idx)),
            ),
            !to_map(flat_upto(pre.items(), pre.kids(), idx)).contains_key(k),
            !to_map(flat_from(pre.items(), pre.kids(), idx)).contains_key(k),
            to_map(flat_upto(pre.items(), pre.kids(), idx)).dom().disjoint(
                pre.children[idx].as_map().dom(),
            ),
            pre.children[idx].as_map().dom().disjoint(
                to_map(flat_from(pre.items(), pre.kids(), idx)).dom(),
            ),
    {
        let u = flat_upto(pre.items(), pre.kids(), idx);
        let f = flat_from(pre.items(), pre.kids(), idx);
        pre.lemma_route(idx, k);
        lemma_flat_split(pre.items(), pre.kids(), idx);
        assert(post.items() =~= pre.items());
        assert(post.kids() =~= pre.kids().update(idx, post.children[idx].entries()));
        lemma_flat_replace_kid(pre.items(), pre.kids(), idx, post.children[idx].entries());
        lemma_replace_middle(
            u,
            pre.children[idx].entries(),
            post.children[idx].entries(),
            f,
            k,
        );
    }

    /// Binding `k` in child `idx`, where `k` is routed, binds it in the node.
    pub proof fn lemma_child_inserted(pre: Self, post: Self, idx: int, k: K, v: V)
        requires
            total_order::<K>(),
            Self::child_replaced(pre, post, idx),
            pre.keys.len() == pre.vals.len(),
            pre.ordered(),
            pre.routes(idx, k),
            post.children[idx].ordered(),
            post.children[idx].as_map() == pre.children[idx].as_map().insert(k, v),
        ensures
            post.ordered(),
            post.as_map() == pre.as_map().insert(k, v),
    {
        assert forall|x: K| has_key(post.children[idx].entries(), x) implies has_key(
            pre.children[idx].entries(),
            x,
        ) || x == k by {
            assert(pre.children[idx].as_map().insert(k, v).contains_key(x));
        }
        Self::lemma_child_replaced(pre, post, idx, k);
        assert(post.as_map() =~= pre.as_map().insert(k, v));
    }

    /// Taking `k` out of child `idx`, where `k` is routed, takes it out of
    /// the node.
    pub proof fn lemma_child_removed(pre: Self, post: Self, idx: int, k: K)
        requires
            total_order::<K>(),
            Self::child_replaced(pre, post, idx),
            pre.keys.len() == pre.vals.len(),
            pre.ordered(),
            pre.routes(idx, k),
            post.children[idx].ordered(),
            post.children[idx].as_map() == pre.children[idx].as_map().remove(k),
        ensures
            post.ordered(),
            post.as_map() == pre.as_map().remove(k),
    {
        assert forall|x: K| has_key(post.children[idx].entries(), x) implies has_key(
            pre.children[idx].entries(),
            x,
        ) || x == k by {
            assert(pre.children[idx].as_map().remove(k).contains_key(x));
        }
        Self::lemma_child_replaced(pre, post, idx, k);
        assert(post.as_map() =~= pre.as_map().remove(k));
    }

    /// After child `idx` was split, a key that was routed there is routed to
    /// the lower half where it is below the median and to the upper half
    /// where it is above.
    pub proof fn lemma_split_routes(pre: Self, post: Self, idx: int, degree: usize, k: K)
        requires
            pre.can_split(idx, degree),
            Self::is_split(pre, post, idx, degree),
            pre.routes(idx, k),
        ensures
            lt(k, post.keys[idx]) ==> post.routes(idx, k),
            lt(post.keys[idx], k) ==> post.routes(idx + 1, k),
    {
        if idx > 0 {
            assert(post.keys[idx - 1] == pre.keys[idx - 1]);
        }
        if idx < pre.keys.len() {
            assert(post.keys[idx + 1] == pre.keys[idx]);
        }
    }

    /// Giving key `idx` of the node another value rebinds the key in the map
    /// and changes nothing else.
    pub proof fn lemma_value_replaced(pre: Self, post: Self, idx: int)
        requires
            total_order::<K>(),
            pre.keys.len() == pre.vals.len(),
            pre.ordered(),
            0 <= idx < pre.keys.len(),
            post.keys@ == pre.keys@,
            post.vals@ == pre.vals@.update(idx, post.vals[idx]),
            post.children@ == pre.children@,
        ensures
            post.ordered(),
            post.entries() == pre.entries().update(
                place(pre.items(), pre.kids(), idx),
                (pre.keys[idx], post.vals[idx]),
            ),
            0 <= place(pre.items(), pre.kids(), idx) < pre.entries().len(),
            pre.entries()[place(pre.items(), pre.kids(), idx)].0 == pre.keys[idx],
            post.as_map() == pre.as_map().insert(pre.keys[idx], post.vals[idx]),
            post.height() == pre.height(),
            pre.well_shaped() ==> post.well_shaped(),
            forall|degree: usize| pre.balanced(degree) ==> post.balanced(degree),
    {
        let x = (pre.keys[idx], post.vals[idx]);
        assert(post.items() =~= pre.items().update(idx, x));
        assert(post.kids() =~= pre.kids());
        lemma_flat_item_update(pre.items(), pre.kids(), idx, x);
        lemma_update_at(pre.entries(), place(pre.items(), pre.kids(), idx), post.vals[idx]);
    }

    /// Putting an entry into a leaf at the position where its key belongs
    /// adds the binding to the map.
    pub proof fn lemma_leaf_insert(pre: Self, post: Self, idx: int, k: K, v: V)
        requires
            total_order::<K>(),
            pre.keys.len() == pre.vals.len(),
            pre.children.len() == 0,
            pre.ordered(),
            pre.routes(idx, k),
            post.keys@ == pre.keys@.insert(idx, k),
            post.vals@ == pre.vals@.insert(idx, v),
            post.children@ == pre.children@,
        ensures
            post.ordered(),
            !pre.as_map().contains_key(k),
            post.as_map() == pre.as_map().insert(k, v),
    {
        pre.lemma_leaf_entries();
        post.lemma_leaf_entries();
        assert(post.items() =~= pre.items().insert(idx, (k, v)));
        let s = pre.items();
        assert forall|j: int| 0 <= j < idx implies lt((#[trigger] s[j]).0, k) by {
            if j < idx - 1 {
                assert(lt(s[j].0, s[idx - 1].0));
                lemma_lt_transitive(s[j].0, s[idx - 1].0, k);
            }
        }
        assert forall|j: int| idx <= j < s.len() implies lt(k, (#[trigger] s[j]).0) by {
            if j > idx {
                assert(lt(s[idx].0, s[j].0));
                lemma_lt_transitive(k, s[idx].0, s[j].0);
            }
        }
        lemma_insert_at(s, idx, k, v);
    }

    /// The position of `k` among the node's own keys: that of the key itself
    /// where the node has it, else that of the first key above it, else the
    /// number of keys.
    pub fn find_index(&self, k: &K) -> (idx: usize)
        requires
            total_order::<K>(),
            ascending(self.items()),
        ensures
            idx <= self.keys.len(),
            forall|j: int| 0 <= j < idx ==> lt(#[trigger] self.keys[j], *k),
            idx < self.keys.len() ==> self.keys[idx as int] == *k || lt(*k, self.keys[idx as int]),
    {
        let mut size = self.len();
        let mut left: usize = 0;
        let mut right: usize = size;
        while left < right
            invariant
                total_order::<K>(),
                ascending(self.items()),
                left <= right <= self.keys.len(),
                size == right - left,
                forall|j: int| 0 <= j < left ==> lt(#[trigger] self.keys[j], *k),
                right < self.keys.len() ==> lt(*k, self.keys[right as int]),
            decreases right - left,
        {
            let mid = left + size / 2;
            match compare(&self.keys[mid], k) {
                Rank::Same => {
                    proof {
                        assert forall|j: int| 0 <= j < mid implies lt(
                            #[trigger] self.keys[j],
                            *k,
                        ) by {
                            assert(lt(self.items()[j].0, self.items()[mid as int].0));
                        }
                    }
                    return mid;
                },
                Rank::Below => {
                    proof {
                        assert forall|j: int| 0 <= j < mid + 1 implies lt(
                            #[trigger] self.keys[j],
                            *k,
                        ) by {
                            if j < mid {
                                assert(lt(self.items()[j].0, self.items()[mid as int].0));
                                lemma_lt_transitive(self.keys[j], self.keys[mid as int], *k);
                            }
                        }
                    }
                    left = mid + 1;
                },
                Rank::Above => {
                    right = mid;
                },
            }
            size = right - left;
        }
        left
    }

    /// Binds `k` to `v` in the subtree below a node that is not full, and
    /// returns the value that `k` had. Each full child on the way down is
    /// split before it is entered.
    pub fn insert_nonfull(&mut self, k: K, v: V, degree: usize) -> (prior: Option<V>)
        requires
            total_order::<K>(),
            valid_degree(degree),
            old(self).well_shaped(),
            old(self).balanced(degree),
            old(self).ordered(),
            old(self).keys.len() < 2 * degree - 1,
        ensures
            final(self).well_shaped(),
            final(self).balanced(degree),
            final(self).ordered(),
            final(self).height() == old(self).height(),
            final(self).keys.len() >= old(self).keys.len(),
            final(self).as_map() == old(self).as_map().insert(k, v),
            prior == old(self).as_map().get(k),
            Self::inserted(*old(self), *final(self), k, v, degree, old(self).height()),
        decreases old(self).height(),
    {
        let mut v = v;
        proof {
            lemma_items_ascending(self.items(), self.kids());
        }
        let mut idx = self.find_index(&k);
        let ghost place = idx as int;
        assert(old(self).points(place, k));
        if idx < self.len() {
            if let Rank::Same = compare(&self.keys[idx], &k) {
                std::mem::swap(&mut self.vals[idx], &mut v);
                proof {
                    old(self).lemma_own_key(idx as int);
                    Self::lemma_value_replaced(*old(self), *self, idx as int);
                }
                return Some(v);
            }
        }
        proof {
            old(self).lemma_route(idx as int, k);
            assert(!old(self).holds(place, k)) by {
                if idx < old(self).keys.len() {
                    lemma_trichotomy(old(self).keys[place], k);
                }
            }
        }
        if self.is_leaf() {
            self.keys.insert(idx, k);
            self.vals.insert(idx, v);
            proof {
                Self::lemma_leaf_insert(*old(self), *self, idx as int, k, v);
            }
            return None;
        }
        assert(self.children[idx as int].well_shaped());
        assert(self.children[idx as int].balanced(degree));
        assert(self.children[idx as int].height() + 1 == self.height());
        let ghost split = false;
        if self.children[idx].is_full(degree) {
            self.split_child(idx, degree);
            proof {
                split = true;
                Self::lemma_split_routes(*old(self), *self, idx as int, degree, k);
            }
            match compare(&self.keys[idx], &k) {
                Rank::Same => {
                    let ghost mid = *self;
                    std::mem::swap(&mut self.vals[idx], &mut v);
                    proof {
                        mid.lemma_own_key(idx as int);
                        Self::lemma_value_replaced(mid, *self, idx as int);
                        assert(Self::is_split(*old(self), mid, place, degree));
                    }
                    return Some(v);
                },
                Rank::Below => {
                    idx += 1;
                },
                Rank::Above => {},
            }
        }
        let ghost mid = *self;
        proof {
            mid.lemma_route(idx as int, k);
            assert(mid.children[idx as int].height() + 1 == mid.height());
        }
        let prior = self.children[idx].insert_nonfull(k, v, degree);
        proof {
            Self::lemma_child_replaced_shape(mid, *self, idx as int, degree);
            Self::lemma_child_inserted(mid, *self, idx as int, k, v);
            if split {
                assert(Self::is_split(*old(self), mid, place, degree));
                lemma_trichotomy(mid.keys[place], k);
            } else {
                assert(mid == *old(self));
            }
        }
        prior
    }

    /// Looks `k` up in the subtree: the node that holds it and its position
    /// there.
    pub fn get(&self, k: &K) -> (found: Option<(usize, &Node<K, V>)>)
        requires
            total_order::<K>(),
            self.well_shaped(),
            self.ordered(),
        ensures
            match found {
                Some((idx, node)) => {
                    &&& idx < node.keys.len() == node.vals.len()
                    &&& node.keys[idx as int] == *k
                    &&& self.as_map().contains_key(*k)
                    &&& node.vals[idx as int] == self.as_map()[*k]
                    &&& exists|path: Seq<int>|
                        #![trigger descendant(*self, path)]
                        is_path(*self, path) && descendant(*self, path) == *node
                },
                None => !self.as_map().contains_key(*k),
            },
    {
        let mut node = self;
        let ghost path = Seq::<int>::empty();
        loop
            invariant
                total_order::<K>(),
                node.well_shaped(),
                node.ordered(),
                has_key(self.entries(), *k) <==> has_key(node.entries(), *k),
                has_key(node.entries(), *k) ==> self.as_map()[*k] == node.as_map()[*k],
                is_path(*self, path),
                descendant(*self, path) == *node,
            decreases node,
        {
            proof {
                lemma_items_ascending(node.items(), node.kids());
            }
            let idx = node.find_index(k);
            if idx < node.len() {
                if let Rank::Same = compare(&node.keys[idx], k) {
                    proof {
                        node.lemma_own_key(idx as int);
                    }
                    return Some((idx, node));
                }
            }
            proof {
                node.lemma_route(idx as int, *k);
            }
            if node.is_leaf() {
                return None;
            }
            proof {
                lemma_path_extend(*self, path, idx as int);
                path = path.push(idx as int);
            }
            node = &node.children[idx];
        }
    }
}

} // verus!
