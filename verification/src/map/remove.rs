//! Removal from a subtree: of its first entry, of its last, and of the
//! entry of a key.

use crate::map::flat::{
    flat_from, flat_upto, kid, lemma_flat_item_update, lemma_flat_replace_kid, lemma_flat_split,
    lemma_flat_window, lemma_flat_window_update, lemma_take_after, lemma_take_before, place,
};
use crate::map::node::{valid_degree, Node};
use crate::map::rebalance::Fix;
use crate::map::route::lemma_items_ascending;
use crate::map::sorted::{above, below, lemma_remove_at, lemma_to_map_at};
use crate::order::{compare, lemma_lt_transitive, lemma_trichotomy, lt, total_order, Rank};
use vstd::prelude::*;

verus! {

impl<K, V> Node<K, V> {
    /// Taking the last entry out of the last child takes it out of the node.
    pub proof fn lemma_last_child_popped(pre: Self, post: Self, last: (K, V))
        requires
            pre.children.len() == pre.keys.len() + 1,
            pre.keys.len() == pre.vals.len(),
            Self::child_replaced(pre, post, pre.keys.len() as int),
            pre.children[pre.keys.len() as int].entries() == post.children[pre.keys.len() as int].entries().push(
                last,
            ),
        ensures
            pre.entries() == post.entries().push(last),
    {
        let n = pre.keys.len() as int;
        assert(post.items() =~= pre.items());
        assert(post.kids() =~= pre.kids().update(n, post.children[n].entries()));
        lemma_flat_replace_kid(pre.items(), pre.kids(), n, post.children[n].entries());
        lemma_flat_split(pre.items(), pre.kids(), n);
        assert(pre.entries() =~= post.entries().push(last));
    }

    /// Taking the first entry out of the first child takes it out of the
    /// node.
    pub proof fn lemma_first_child_popped(pre: Self, post: Self, first: (K, V))
        requires
            pre.children.len() == pre.keys.len() + 1,
            pre.keys.len() == pre.vals.len(),
            Self::child_replaced(pre, post, 0),
            pre.children[0].entries() == seq![first] + post.children[0].entries(),
        ensures
            pre.entries() == seq![first] + post.entries(),
    {
        assert(post.items() =~= pre.items());
        assert(post.kids() =~= pre.kids().update(0, post.children[0].entries()));
        lemma_flat_replace_kid(pre.items(), pre.kids(), 0, post.children[0].entries());
        lemma_flat_split(pre.items(), pre.kids(), 0);
        assert(pre.entries() =~= seq![first] + post.entries());
    }

    /// Takes the last entry out of the subtree.
    pub fn pop_last(&mut self, degree: usize) -> (last: (K, V))
        requires
            valid_degree(degree),
            old(self).well_shaped(),
            old(self).balanced(degree),
            old(self).keys.len() >= 1,
        ensures
            final(self).well_shaped(),
            final(self).balanced(degree),
            final(self).height() == old(self).height(),
            final(self).keys.len() + 1 >= old(self).keys.len(),
            old(self).entries() == final(self).entries().push(last),
            Self::popped_last(*old(self), *final(self), last, degree, old(self).height()),
        decreases old(self).height(),
    {
        if self.is_leaf() {
            let key = self.keys.pop().unwrap();
            let val = self.vals.pop().unwrap();
            proof {
                old(self).lemma_leaf_entries();
                self.lemma_leaf_entries();
                assert(old(self).items() =~= self.items().push((key, val)));
                assert(self.keys@ =~= old(self).keys@.drop_last());
                assert(self.vals@ =~= old(self).vals@.drop_last());
            }
            return (key, val);
        }
        let last = self.children.len() - 1;
        let at = self.fix_child(last, degree);
        let ghost mid = *self;
        assert(mid.children[at as int].well_shaped());
        assert(mid.children[at as int].balanced(degree));
        assert(mid.children[at as int].height() + 1 == mid.height());
        let entry = self.children[at].pop_last(degree);
        proof {
            Self::lemma_child_replaced_shape(mid, *self, at as int, degree);
            Self::lemma_last_child_popped(mid, *self, entry);
            assert(Self::is_fixed(*old(self), mid, old(self).children.len() - 1, degree, at as int));
            assert(Self::child_replaced(mid, *self, at as int));
        }
        entry
    }

    /// Takes the first entry out of the subtree.
    pub fn pop_first(&mut self, degree: usize) -> (first: (K, V))
        requires
            valid_degree(degree),
            old(self).well_shaped(),
            old(self).balanced(degree),
            old(self).keys.len() >= 1,
        ensures
            final(self).well_shaped(),
            final(self).balanced(degree),
            final(self).height() == old(self).height(),
            final(self).keys.len() + 1 >= old(self).keys.len(),
            old(self).entries() == seq![first] + final(self).entries(),
            Self::popped_first(*old(self), *final(self), first, degree, old(self).height()),
        decreases old(self).height(),
    {
        if self.is_leaf() {
            let key = self.keys.remove(0);
            let val = self.vals.remove(0);
            proof {
                old(self).lemma_leaf_entries();
                self.lemma_leaf_entries();
                assert(old(self).items() =~= seq![(key, val)] + self.items());
                assert(self.keys@ =~= old(self).keys@.drop_first());
                assert(self.vals@ =~= old(self).vals@.drop_first());
            }
            return (key, val);
        }
        let at = self.fix_child(0, degree);
        let ghost mid = *self;
        assert(mid.children[0].well_shaped());
        assert(mid.children[0].balanced(degree));
        assert(mid.children[0].height() + 1 == mid.height());
        let entry = self.children[at].pop_first(degree);
        proof {
            Self::lemma_child_replaced_shape(mid, *self, 0, degree);
            Self::lemma_first_child_popped(mid, *self, entry);
            assert(Self::is_fixed(*old(self), mid, 0, degree, at as int));
            assert(Self::child_replaced(mid, *self, at as int));
        }
        entry
    }
}

impl<K: Ord, V> Node<K, V> {
    /// What child `i` holds lies between key `i - 1` and key `i` of the
    /// node.
    pub proof fn lemma_child_between(self, i: int)
        requires
            self.keys.len() == self.vals.len(),
            self.children.len() == self.keys.len() + 1,
            self.ordered(),
            0 <= i < self.children.len(),
        ensures
            i < self.keys.len() ==> below(self.children[i].entries(), self.keys[i]),
            i > 0 ==> above(self.children[i].entries(), self.keys[i - 1]),
    {
        let e = self.entries();
        let c = self.children[i].entries();
        if i < self.keys.len() {
            lemma_flat_window(self.items(), self.kids(), i);
            let u = flat_upto(self.items(), self.kids(), i);
            assert forall|j: int| 0 <= j < c.len() implies lt((#[trigger] c[j]).0, self.keys[i]) by {
                assert(e[u.len() + j] == c[j]);
                assert(e[(u.len() + c.len()) as int] == self.items()[i]);
            }
        }
        if i > 0 {
            lemma_flat_window(self.items(), self.kids(), i - 1);
            let u = flat_upto(self.items(), self.kids(), i - 1);
            let b = kid(self.kids(), i - 1);
            assert forall|j: int| 0 <= j < c.len() implies lt(self.keys[i - 1], (#[trigger] c[j]).0) by {
                assert(e[(u.len() + b.len()) as int] == self.items()[i - 1]);
                assert(e[u.len() + b.len() + 1 + j] == c[j]);
            }
        }
    }

    /// A key of the node itself is among the node's entries.
    pub proof fn lemma_own_entry(self, i: int) -> (p: int)
        requires
            self.keys.len() == self.vals.len(),
            0 <= i < self.keys.len(),
        ensures
            0 <= p < self.entries().len(),
            self.entries()[p] == (self.keys[i], self.vals[i]),
    {
        lemma_flat_item_update(self.items(), self.kids(), i, self.items()[i]);
        place(self.items(), self.kids(), i)
    }

    /// A key that was routed to child `idx` is routed, once that child has
    /// been made ready for the descent, to where the child then stands.
    pub proof fn lemma_fix_routes(pre: Self, post: Self, idx: int, degree: usize, at: int, k: K)
        requires
            total_order::<K>(),
            valid_degree(degree),
            pre.well_shaped(),
            pre.balanced(degree),
            pre.ordered(),
            pre.children.len() >= 2,
            0 <= idx < pre.children.len(),
            pre.routes(idx, k),
            Self::is_fixed(pre, post, idx, degree, at),
        ensures
            post.routes(at, k),
    {
        lemma_items_ascending(pre.items(), pre.kids());
        let s = pre.items();
        match pre.fix_case(idx, degree) {
            Fix::Keep => {},
            Fix::RotateRight => {
                let left = pre.children[idx - 1];
                assert(left.well_shaped());
                pre.lemma_child_between(idx - 1);
                let p = left.lemma_own_entry(left.keys.len() - 1);
                assert(lt(left.entries()[p].0, pre.keys[idx - 1]));
                lemma_lt_transitive(left.keys@.last(), pre.keys[idx - 1], k);
                if idx < pre.keys.len() {
                    assert(post.keys[idx] == pre.keys[idx]);
                }
            },
            Fix::RotateLeft => {
                let right = pre.children[idx + 1];
                assert(right.well_shaped());
                pre.lemma_child_between(idx + 1);
                let p = right.lemma_own_entry(0);
                assert(lt(pre.keys[idx], right.entries()[p].0));
                lemma_lt_transitive(k, pre.keys[idx], right.keys@.first());
                if idx > 0 {
                    assert(post.keys[idx - 1] == pre.keys[idx - 1]);
                }
            },
            Fix::MergeLeft => {
                if idx - 1 > 0 {
                    assert(post.keys[idx - 2] == pre.keys[idx - 2]);
                    assert(lt(s[idx - 2].0, s[idx - 1].0));
                    lemma_lt_transitive(pre.keys[idx - 2], pre.keys[idx - 1], k);
                }
                if idx - 1 < post.keys.len() {
                    assert(post.keys[idx - 1] == pre.keys[idx]);
                }
            },
            Fix::MergeRight => {
                if idx > 0 {
                    assert(post.keys[idx - 1] == pre.keys[idx - 1]);
                }
                if idx < post.keys.len() {
                    assert(post.keys[idx] == pre.keys[idx + 1]);
                    assert(lt(s[idx].0, s[idx + 1].0));
                    lemma_lt_transitive(k, pre.keys[idx], pre.keys[idx + 1]);
                }
            },
        }
    }

    /// After children `idx` and `idx + 1` were joined around key `idx`, that
    /// key is routed to the joined child.
    pub proof fn lemma_merge_routes(pre: Self, post: Self, idx: int)
        requires
            total_order::<K>(),
            pre.can_merge(idx),
            pre.ordered(),
            Self::is_merged(pre, post, idx),
        ensures
            post.routes(idx, pre.keys[idx]),
    {
        lemma_items_ascending(pre.items(), pre.kids());
        let s = pre.items();
        if idx > 0 {
            assert(post.keys[idx - 1] == pre.keys[idx - 1]);
            assert(lt(s[idx - 1].0, s[idx].0));
        }
        if idx < post.keys.len() {
            assert(post.keys[idx] == pre.keys[idx + 1]);
            assert(lt(s[idx].0, s[idx + 1].0));
        }
    }

    /// Taking entry `idx` out of a leaf takes its key out of the map.
    pub proof fn lemma_leaf_remove(pre: Self, post: Self, idx: int)
        requires
            total_order::<K>(),
            pre.keys.len() == pre.vals.len(),
            pre.children.len() == 0,
            pre.ordered(),
            0 <= idx < pre.keys.len(),
            post.keys@ == pre.keys@.remove(idx),
            post.vals@ == pre.vals@.remove(idx),
            post.children@ == pre.children@,
        ensures
            post.ordered(),
            post.as_map() == pre.as_map().remove(pre.keys[idx]),
            pre.as_map().contains_key(pre.keys[idx]),
            pre.as_map()[pre.keys[idx]] == pre.vals[idx],
    {
        pre.lemma_leaf_entries();
        post.lemma_leaf_entries();
        assert(post.items() =~= pre.items().remove(idx));
        lemma_remove_at(pre.items(), idx);
        lemma_to_map_at(pre.items(), idx);
    }

    /// Where the last entry of child `idx` has taken the place of entry
    /// `idx` of the node, the key of that entry is gone from the map and
    /// nothing else has changed.
    pub proof fn lemma_pred_swapped(pre: Self, post: Self, idx: int)
        requires
            total_order::<K>(),
            pre.keys.len() == pre.vals.len(),
            pre.children.len() == pre.keys.len() + 1,
            pre.ordered(),
            0 <= idx < pre.keys.len(),
            post.keys@ == pre.keys@.update(idx, post.keys[idx]),
            post.vals@ == pre.vals@.update(idx, post.vals[idx]),
            post.children@ == pre.children@.update(idx, post.children[idx]),
            pre.children[idx].entries() == post.children[idx].entries().push(
                (post.keys[idx], post.vals[idx]),
            ),
        ensures
            post.ordered(),
            post.as_map() == pre.as_map().remove(pre.keys[idx]),
            pre.as_map().contains_key(pre.keys[idx]),
            pre.as_map()[pre.keys[idx]] == pre.vals[idx],
    {
        let x = (post.keys[idx], post.vals[idx]);
        let gone = pre.items()[idx];
        let c = post.children[idx].entries();
        let k = pre.kids()[idx + 1];
        let u = flat_upto(pre.items(), pre.kids(), idx);
        let f = flat_from(pre.items(), pre.kids(), idx + 1);
        let p = place(pre.items(), pre.kids(), idx);
        assert(post.entries() == u + c + seq![x] + k + f) by {
            assert(post.items() =~= pre.items().update(idx, x));
            assert(post.kids() =~= pre.kids().update(idx, c).update(idx + 1, k));
            lemma_flat_window_update(pre.items(), pre.kids(), idx, c, x, k);
        }
        assert(pre.entries() == u + c.push(x) + seq![gone] + k + f) by {
            lemma_flat_window(pre.items(), pre.kids(), idx);
        }
        lemma_take_after(u, c, x, gone, k, f);
        lemma_flat_item_update(pre.items(), pre.kids(), idx, gone);
        assert(p == u.len() + c.len() + 1);
        lemma_remove_at(pre.entries(), p);
        lemma_to_map_at(pre.entries(), p);
    }

    /// Where the first entry of child `idx + 1` has taken the place of entry
    /// `idx` of the node, the key of that entry is gone from the map and
    /// nothing else has changed.
    pub proof fn lemma_succ_swapped(pre: Self, post: Self, idx: int)
        requires
            total_order::<K>(),
            pre.keys.len() == pre.vals.len(),
            pre.children.len() == pre.keys.len() + 1,
            pre.ordered(),
            0 <= idx < pre.keys.len(),
            post.keys@ == pre.keys@.update(idx, post.keys[idx]),
            post.vals@ == pre.vals@.update(idx, post.vals[idx]),
            post.children@ == pre.children@.update(idx + 1, post.children[idx + 1]),
            pre.children[idx + 1].entries() == seq![(post.keys[idx], post.vals[idx])]
                + post.children[idx + 1].entries(),
        ensures
            post.ordered(),
            post.as_map() == pre.as_map().remove(pre.keys[idx]),
            pre.as_map().contains_key(pre.keys[idx]),
            pre.as_map()[pre.keys[idx]] == pre.vals[idx],
    {
        let x = (post.keys[idx], post.vals[idx]);
        let gone = pre.items()[idx];
        let c = post.children[idx + 1].entries();
        let k = pre.kids()[idx];
        let u = flat_upto(pre.items(), pre.kids(), idx);
        let f = flat_from(pre.items(), pre.kids(), idx + 1);
        let p = place(pre.items(), pre.kids(), idx);
        assert(post.entries() == u + k + seq![x] + c + f) by {
            assert(post.items() =~= pre.items().update(idx, x));
            assert(post.kids() =~= pre.kids().update(idx, k).update(idx + 1, c));
            lemma_flat_window_update(pre.items(), pre.kids(), idx, k, x, c);
        }
        assert(pre.entries() == u + k + seq![gone] + (seq![x] + c) + f) by {
            lemma_flat_window(pre.items(), pre.kids(), idx);
        }
        lemma_take_before(u, k, gone, x, c, f);
        lemma_flat_item_update(pre.items(), pre.kids(), idx, gone);
        assert(p == u.len() + k.len());
        lemma_remove_at(pre.entries(), p);
        lemma_to_map_at(pre.entries(), p);
    }

    /// Takes `k` out of the subtree and returns the entry that held it.
    /// Each child on the way down is first given keys to spare, from a
    /// sibling or by joining it to one.
    pub fn remove(&mut self, k: &K, degree: usize) -> (entry: Option<(K, V)>)
        requires
            total_order::<K>(),
            valid_degree(degree),
            old(self).well_shaped(),
            old(self).balanced(degree),
            old(self).ordered(),
            old(self).children.len() > 0 ==> old(self).keys.len() >= 1,
        ensures
            final(self).well_shaped(),
            final(self).balanced(degree),
            final(self).ordered(),
            final(self).height() == old(self).height(),
            final(self).keys.len() + 1 >= old(self).keys.len(),
            final(self).as_map() == old(self).as_map().remove(*k),
            match entry {
                Some((key, val)) => old(self).as_map().contains_key(*k) && key == *k && val == old(
                    self,
                ).as_map()[*k],
                None => !old(self).as_map().contains_key(*k),
            },
            Self::removed(*old(self), *final(self), *k, degree, old(self).height()),
        decreases old(self).height(),
    {
        proof {
            lemma_items_ascending(self.items(), self.kids());
        }
        let idx = self.find_index(k);
        let ghost place = idx as int;
        assert(old(self).points(place, *k));
        let mut found = false;
        if idx < self.len() {
            if let Rank::Same = compare(&self.keys[idx], k) {
                found = true;
            }
        }
        proof {
            if !found && idx < self.keys.len() {
                lemma_trichotomy(self.keys[place], *k);
            }
            assert(found == old(self).holds(place, *k));
        }
        if self.is_leaf() {
            if found {
                let key = self.keys.remove(idx);
                let val = self.vals.remove(idx);
                proof {
                    Self::lemma_leaf_remove(*old(self), *self, idx as int);
                }
                return Some((key, val));
            } else {
                proof {
                    old(self).lemma_route(idx as int, *k);
                    assert(self.as_map() =~= old(self).as_map().remove(*k));
                }
                return None;
            }
        }
        assert(self.children[idx as int].well_shaped());
        assert(self.children[idx as int].balanced(degree));
        assert(self.children[idx as int].height() + 1 == self.height());
        if found {
            assert(self.children[idx + 1].well_shaped());
            assert(self.children[idx + 1].balanced(degree));
            assert(self.children[idx + 1].height() + 1 == self.height());
            if self.children[idx].len() >= degree {
                let (mut key, mut val) = self.children[idx].pop_last(degree);
                std::mem::swap(&mut self.keys[idx], &mut key);
                std::mem::swap(&mut self.vals[idx], &mut val);
                proof {
                    Self::lemma_child_replaced_shape(*old(self), *self, idx as int, degree);
                    Self::lemma_pred_swapped(*old(self), *self, idx as int);
                }
                return Some((key, val));
            } else if self.children[idx + 1].len() >= degree {
                let (mut key, mut val) = self.children[idx + 1].pop_first(degree);
                std::mem::swap(&mut self.keys[idx], &mut key);
                std::mem::swap(&mut self.vals[idx], &mut val);
                proof {
                    Self::lemma_child_replaced_shape(*old(self), *self, idx + 1, degree);
                    Self::lemma_succ_swapped(*old(self), *self, idx as int);
                }
                return Some((key, val));
            } else {
                self.merge_children(idx);
                let ghost mid = *self;
                proof {
                    Self::lemma_merge(*old(self), mid, idx as int, degree);
                    Self::lemma_merge_routes(*old(self), mid, idx as int);
                    mid.lemma_route(idx as int, *k);
                    old(self).lemma_own_key(idx as int);
                }
                let entry = self.children[idx].remove(k, degree);
                proof {
                    Self::lemma_child_replaced_shape(mid, *self, idx as int, degree);
                    Self::lemma_child_removed(mid, *self, idx as int, *k);
                    assert(Self::is_merged(*old(self), mid, place));
                    assert(Self::child_replaced(mid, *self, place));
                }
                return entry;
            }
        }
        proof {
            old(self).lemma_route(idx as int, *k);
        }
        let at = self.fix_child(idx, degree);
        let ghost mid = *self;
        proof {
            Self::lemma_fix_routes(*old(self), mid, idx as int, degree, at as int, *k);
            mid.lemma_route(at as int, *k);
            assert(mid.children[at as int].well_shaped());
            assert(mid.children[at as int].balanced(degree));
            assert(mid.children[at as int].height() + 1 == mid.height());
        }
        let entry = self.children[at].remove(k, degree);
        proof {
            Self::lemma_child_replaced_shape(mid, *self, at as int, degree);
            Self::lemma_child_removed(mid, *self, at as int, *k);
            assert(Self::is_fixed(*old(self), mid, place, degree, at as int));
            assert(Self::child_replaced(mid, *self, at as int));
        }
        entry
    }
}

} // verus!
