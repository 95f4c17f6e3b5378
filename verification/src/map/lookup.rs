//! Subtrees that are alike, subtrees with one part replaced, the least and
//! the greatest key, and lookup for a change of the value.

use crate::map::flat::{
    flat_from, flat_upto, lemma_flat_replace_kid, lemma_flat_split, lemma_nest, place,
};
use crate::map::node::Node;
use crate::map::route::lemma_items_ascending;
use crate::map::sorted::{lemma_ascending_concat, lemma_update_at};
use crate::order::{compare, total_order, Rank};
use vstd::prelude::*;

verus! {

impl<K, V> Node<K, V> {
    /// The two subtrees hold the same keys, values and children, node for
    /// node.
    pub open spec fn alike(self, other: Self) -> bool
        decreases self,
    {
        &&& self.keys@ == other.keys@
        &&& self.vals@ == other.vals@
        &&& self.children.len() == other.children.len()
        &&& forall|i: int|
            0 <= i < self.children.len() ==> (#[trigger] self.children[i]).alike(other.children[i])
    }

    /// A subtree is like itself.
    pub proof fn lemma_alike_self(self)
        ensures
            self.alike(self),
        decreases self,
    {
        assert forall|i: int| 0 <= i < self.children.len() implies (
        #[trigger] self.children[i]).alike(self.children[i]) by {
            self.children[i].lemma_alike_self();
        }
    }

    /// Subtrees that are alike have the same entries, shape and height.
    pub proof fn lemma_alike(self, other: Self)
        requires
            self.alike(other),
        ensures
            other.entries() == self.entries(),
            other.height() == self.height(),
            self.well_shaped() ==> other.well_shaped(),
            forall|degree: usize| self.balanced(degree) ==> other.balanced(degree),
        decreases self,
    {
        assert forall|i: int| 0 <= i < self.children.len() implies {
            &&& (#[trigger] other.children[i]).entries() == self.children[i].entries()
            &&& other.children[i].height() == self.children[i].height()
            &&& self.children[i].well_shaped() ==> other.children[i].well_shaped()
            &&& forall|degree: usize|
                self.children[i].balanced(degree) ==> other.children[i].balanced(degree)
        } by {
            assert(self.children[i].alike(other.children[i]));
            self.children[i].lemma_alike(other.children[i]);
        }
        assert(other.items() =~= self.items());
        assert(other.kids() =~= self.kids());
        if self.children.len() > 0 {
            assert(self.children[0].alike(other.children[0]));
        }
        if self.well_shaped() {
            assert forall|i: int| 0 <= i < other.children.len() implies (
            #[trigger] other.children[i]).well_shaped() by {
                assert(self.children[i].well_shaped());
            }
        }
        assert forall|degree: usize| self.balanced(degree) implies other.balanced(degree) by {
            assert forall|i: int| 0 <= i < other.children.len() implies {
                &&& (#[trigger] other.children[i]).balanced(degree)
                &&& other.children[i].keys.len() >= degree - 1
                &&& other.children[i].height() + 1 == other.height()
            } by {
                assert(self.children[i].alike(other.children[i]));
                assert(self.children[i].balanced(degree));
            }
        }
    }

    /// `post` is `pre` with one subtree, `sub`, replaced by `by`.
    pub open spec fn grafted(pre: Self, post: Self, sub: Self, by: Self) -> bool
        decreases pre,
    {
        ||| (pre == sub && post == by)
        ||| exists|i: int|
            0 <= i < pre.children.len() && Self::child_replaced(pre, post, i) && Self::grafted(
                #[trigger] pre.children[i],
                post.children[i],
                sub,
                by,
            )
    }

    /// Where the entries of child `i` changed in the middle only, so did
    /// those of the node.
    pub proof fn lemma_child_replaced_entries(
        pre: Self,
        post: Self,
        i: int,
        before: Seq<(K, V)>,
        was: Seq<(K, V)>,
        is: Seq<(K, V)>,
        after: Seq<(K, V)>,
    )
        requires
            Self::child_replaced(pre, post, i),
            pre.children.len() == pre.keys.len() + 1,
            pre.children[i].entries() == before + was + after,
            post.children[i].entries() == before + is + after,
        ensures
            pre.entries() == (flat_upto(pre.items(), pre.kids(), i) + before)
                + was + (after + flat_from(pre.items(), pre.kids(), i)),
            post.entries() == (flat_upto(pre.items(), pre.kids(), i) + before)
                + is + (after + flat_from(pre.items(), pre.kids(), i)),
    {
        let u = flat_upto(pre.items(), pre.kids(), i);
        let f = flat_from(pre.items(), pre.kids(), i);
        assert(post.entries() == u + post.children[i].entries() + f) by {
            assert(post.items() =~= pre.items());
            assert(post.kids() =~= pre.kids().update(i, post.children[i].entries()));
            lemma_flat_replace_kid(pre.items(), pre.kids(), i, post.children[i].entries());
        }
        assert(pre.entries() == u + pre.children[i].entries() + f) by {
            lemma_flat_split(pre.items(), pre.kids(), i);
        }
        lemma_nest(u, before, was, after, f);
        lemma_nest(u, before, is, after, f);
    }

    /// Where a subtree was replaced, the entries before it and after it are
    /// as they were.
    pub proof fn lemma_grafted_entries(pre: Self, post: Self, sub: Self, by: Self) -> (around: (
        Seq<(K, V)>,
        Seq<(K, V)>,
    ))
        requires
            Self::grafted(pre, post, sub, by),
            pre.well_shaped(),
        ensures
            pre.entries() == around.0 + sub.entries() + around.1,
            post.entries() == around.0 + by.entries() + around.1,
        decreases pre,
    {
        let none = Seq::<(K, V)>::empty();
        if pre == sub && post == by {
            assert(pre.entries() =~= none + sub.entries() + none);
            assert(post.entries() =~= none + by.entries() + none);
            (none, none)
        } else {
            let i = choose|i: int|
                0 <= i < pre.children.len() && Self::child_replaced(pre, post, i) && Self::grafted(
                    #[trigger] pre.children[i],
                    post.children[i],
                    sub,
                    by,
                );
            assert(pre.children[i].well_shaped());
            let inner = Self::lemma_grafted_entries(pre.children[i], post.children[i], sub, by);
            Self::lemma_child_replaced_entries(
                pre,
                post,
                i,
                inner.0,
                sub.entries(),
                by.entries(),
                inner.1,
            );
            (
                flat_upto(pre.items(), pre.kids(), i) + inner.0,
                inner.1 + flat_from(pre.items(), pre.kids(), i),
            )
        }
    }

    /// Where a subtree was replaced by one of the same height and size that
    /// is well shaped and balanced, the whole is as well shaped and balanced
    /// as it was.
    pub proof fn lemma_grafted_shape(pre: Self, post: Self, sub: Self, by: Self, degree: usize)
        requires
            Self::grafted(pre, post, sub, by),
            pre.well_shaped(),
            pre.balanced(degree),
            sub.well_shaped() ==> by.well_shaped(),
            sub.balanced(degree) ==> by.balanced(degree),
            by.height() == sub.height(),
            by.keys.len() == sub.keys.len(),
            by.children.len() == sub.children.len(),
        ensures
            post.well_shaped(),
            post.balanced(degree),
            post.height() == pre.height(),
            post.keys.len() == pre.keys.len(),
            post.children.len() == pre.children.len(),
        decreases pre,
    {
        if pre == sub && post == by {
        } else {
            let i = choose|i: int|
                0 <= i < pre.children.len() && Self::child_replaced(pre, post, i) && Self::grafted(
                    #[trigger] pre.children[i],
                    post.children[i],
                    sub,
                    by,
                );
            assert(pre.children[i].well_shaped());
            assert(pre.children[i].balanced(degree));
            Self::lemma_grafted_shape(pre.children[i], post.children[i], sub, by, degree);
            Self::lemma_child_replaced_shape(pre, post, i, degree);
        }
    }

    /// A populated subtree has entries: its first is that of its first
    /// child, or its own first where it is a leaf; its last is that of its
    /// last child, or its own last.
    pub proof fn lemma_ends(self)
        requires
            self.well_shaped(),
            self.populated(),
        ensures
            self.entries().len() >= 1,
            self.children.len() == 0 ==> self.entries().first() == (self.keys[0], self.vals[0])
                && self.entries().last() == (
                self.keys[self.keys.len() - 1],
                self.vals[self.keys.len() - 1],
            ),
            self.children.len() > 0 ==> self.entries().first() == self.children[0].entries().first()
                && self.entries().last() == self.children[self.keys.len() as int].entries().last(),
        decreases self,
    {
        let n = self.keys.len() as int;
        if self.children.len() == 0 {
            self.lemma_leaf_entries();
        } else {
            assert(self.children[0].well_shaped() && self.children[0].populated());
            assert(self.children[n].well_shaped() && self.children[n].populated());
            self.children[0].lemma_ends();
            self.children[n].lemma_ends();
            lemma_flat_split(self.items(), self.kids(), 0);
            lemma_flat_split(self.items(), self.kids(), n);
            assert(flat_upto(self.items(), self.kids(), 0) =~= Seq::<
                (K, V),
            >::empty());
            assert(flat_from(self.items(), self.kids(), n) =~= Seq::<
                (K, V),
            >::empty());
        }
    }

    /// The least key of the subtree: the first key of its leftmost leaf.
    pub fn min_key(&self) -> (key: &K)
        requires
            self.well_shaped(),
            self.populated(),
        ensures
            self.entries().len() >= 1,
            *key == self.entries().first().0,
    {
        let mut node = self;
        proof {
            self.lemma_ends();
        }
        while !node.is_leaf() && !node.children[0].is_empty()
            invariant
                node.well_shaped(),
                node.populated(),
                node.entries().len() >= 1,
                node.entries().first() == self.entries().first(),
            decreases node,
        {
            proof {
                node.lemma_ends();
                assert(node.children[0].well_shaped() && node.children[0].populated());
                node.children[0].lemma_ends();
            }
            node = &node.children[0];
        }
        proof {
            node.lemma_ends();
            if node.children.len() > 0 {
                assert(node.children[0].populated());
            }
        }
        &node.keys[0]
    }

    /// The greatest key of the subtree: the last key of its rightmost leaf.
    pub fn max_key(&self) -> (key: &K)
        requires
            self.well_shaped(),
            self.populated(),
        ensures
            self.entries().len() >= 1,
            *key == self.entries().last().0,
    {
        let mut node = self;
        proof {
            self.lemma_ends();
        }
        while !node.is_leaf() && !node.children[node.children.len() - 1].is_empty()
            invariant
                node.well_shaped(),
                node.populated(),
                node.entries().len() >= 1,
                node.entries().last() == self.entries().last(),
            decreases node,
        {
            proof {
                node.lemma_ends();
                let n = node.keys.len() as int;
                assert(node.children[n].well_shaped() && node.children[n].populated());
                node.children[n].lemma_ends();
            }
            node = &node.children[node.children.len() - 1];
        }
        proof {
            node.lemma_ends();
            if node.children.len() > 0 {
                assert(node.children[node.keys.len() as int].populated());
            }
        }
        &node.keys[node.keys.len() - 1]
    }

    /// Child `idx`, for a change.
    pub fn child_mut(&mut self, idx: usize) -> (child: &mut Node<K, V>)
        requires
            idx < old(self).children.len(),
        ensures
            *child == old(self).children[idx as int],
            *final(child) == final(self).children[idx as int],
            Self::child_replaced(*old(self), *final(self), idx as int),
    {
        &mut self.children[idx]
    }
}

impl<K: Ord, V> Node<K, V> {
    /// `by` is `sub` with another value at position `idx`.
    pub open spec fn revalued(sub: Self, by: Self, idx: int) -> bool {
        &&& 0 <= idx < sub.keys.len() == sub.vals.len()
        &&& by.keys@ == sub.keys@
        &&& by.vals@ == sub.vals@.update(idx, by.vals[idx])
        &&& by.children@ == sub.children@
    }

    /// Value `idx` of the node, for a change.
    pub fn value_mut(&mut self, idx: usize) -> (value: &mut V)
        requires
            idx < old(self).keys.len() == old(self).vals.len(),
        ensures
            *value == old(self).vals[idx as int],
            *final(value) == final(self).vals[idx as int],
            Self::revalued(*old(self), *final(self), idx as int),
    {
        &mut self.vals[idx]
    }

    /// Where the node that holds a key was given another value for it, the
    /// key is rebound in the map of the whole and nothing else has changed.
    pub proof fn lemma_grafted_value(
        pre: Self,
        post: Self,
        sub: Self,
        by: Self,
        idx: int,
        degree: usize,
    )
        requires
            total_order::<K>(),
            Self::grafted(pre, post, sub, by),
            Self::revalued(sub, by, idx),
            pre.well_shaped(),
            pre.balanced(degree),
            pre.ordered(),
        ensures
            post.well_shaped(),
            post.balanced(degree),
            post.ordered(),
            post.height() == pre.height(),
            post.keys.len() == pre.keys.len(),
            post.children.len() == pre.children.len(),
            post.entries().len() == pre.entries().len(),
            post.as_map() == pre.as_map().insert(sub.keys[idx], by.vals[idx]),
    {
        let around = Self::lemma_grafted_entries(pre, post, sub, by);
        lemma_ascending_concat(around.0 + sub.entries(), around.1);
        lemma_ascending_concat(around.0, sub.entries());
        Self::lemma_value_replaced(sub, by, idx);
        Self::lemma_grafted_shape(pre, post, sub, by, degree);
        let p = place(sub.items(), sub.kids(), idx);
        let x = (sub.keys[idx], by.vals[idx]);
        assert(post.entries() =~= pre.entries().update(around.0.len() + p, x));
        assert(pre.entries()[around.0.len() + p] == sub.entries()[p]);
        lemma_update_at(pre.entries(), around.0.len() + p, by.vals[idx]);
    }

    /// Looks `k` up in the subtree for a change: the node that holds it and
    /// its position there.
    pub fn get_mut(&mut self, k: &K) -> (found: Option<(usize, &mut Node<K, V>)>)
        requires
            total_order::<K>(),
            old(self).well_shaped(),
            old(self).ordered(),
        ensures
            match found {
                Some((idx, node)) => {
                    &&& idx < node.keys.len() == node.vals.len()
                    &&& node.keys[idx as int] == *k
                    &&& old(self).as_map().contains_key(*k)
                    &&& node.vals[idx as int] == old(self).as_map()[*k]
                    &&& Self::grafted(*old(self), *final(self), *node, *final(node))
                },
                None => !old(self).as_map().contains_key(*k) && old(self).alike(*final(self)),
            },
        decreases *old(self),
    {
        proof {
            lemma_items_ascending(self.items(), self.kids());
        }
        let idx = self.find_index(k);
        if idx < self.len() {
            if let Rank::Same = compare(&self.keys[idx], k) {
                proof {
                    self.lemma_own_key(idx as int);
                }
                return Some((idx, self));
            }
        }
        proof {
            self.lemma_route(idx as int, *k);
            self.lemma_alike_self();
            assert forall|j: int| 0 <= j < self.children.len() implies (
            #[trigger] self.children[j]).alike(self.children[j]) by {
                self.children[j].lemma_alike_self();
            }
        }
        if self.is_leaf() {
            return None;
        }
        self.child_mut(idx).get_mut(k)
    }
}

} // verus!
