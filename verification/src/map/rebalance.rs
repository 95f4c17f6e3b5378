//! Moving entries between the children of a node: taking one from a
//! sibling, joining two siblings, and the choice between them before a
//! descent that removes a key.

use crate::map::flat::{
    flat, flat_from, flat_upto, lemma_flat_join, lemma_flat_merge_kids, lemma_flat_window,
    lemma_flat_window_update, lemma_regroup,
};
use crate::map::node::{valid_degree, Node};
use vstd::prelude::*;

verus! {

/// What is done to a child before the descent into it so that it can lose a
/// key.
pub enum Fix {
    /// Nothing: the child has keys to spare.
    Keep,
    /// It takes an entry from its left sibling.
    RotateRight,
    /// It takes an entry from its right sibling.
    RotateLeft,
    /// It is joined to its left sibling.
    MergeLeft,
    /// Its right sibling is joined to it.
    MergeRight,
}

impl<K, V> Node<K, V> {
    /// Children `idx` and `idx + 1` of the node can be joined around key
    /// `idx`.
    pub open spec fn can_merge(self, idx: int) -> bool {
        let a = self.children[idx];
        let b = self.children[idx + 1];
        &&& self.keys.len() == self.vals.len()
        &&& self.children.len() == self.keys.len() + 1
        &&& 0 <= idx < self.keys.len()
        &&& a.keys.len() == a.vals.len()
        &&& b.keys.len() == b.vals.len()
        &&& a.children.len() == a.keys.len() + 1 || (a.children.len() == 0 && b.children.len()
            == 0)
    }

    /// `post` is `pre` after its children `idx` and `idx + 1` were joined:
    /// child `idx` of `post` holds what child `idx` held, then entry `idx` of
    /// `pre`, then what child `idx + 1` held.
    pub open spec fn is_merged(pre: Self, post: Self, idx: int) -> bool {
        let a = pre.children[idx];
        let b = pre.children[idx + 1];
        let m = post.children[idx];
        &&& post.keys@ == pre.keys@.remove(idx)
        &&& post.vals@ == pre.vals@.remove(idx)
        &&& post.children@ == pre.children@.update(idx, m).remove(idx + 1)
        &&& m.keys@ == a.keys@.push(pre.keys[idx]) + b.keys@
        &&& m.vals@ == a.vals@.push(pre.vals[idx]) + b.vals@
        &&& m.children@ == a.children@ + b.children@
    }

    /// Joining two children keeps the entries; between two children of the
    /// least size it keeps the shape and the height.
    pub proof fn lemma_merge(pre: Self, post: Self, idx: int, degree: usize)
        requires
            pre.can_merge(idx),
            Self::is_merged(pre, post, idx),
        ensures
            post.entries() == pre.entries(),
            post.keys.len() + 1 == pre.keys.len(),
            post.children.len() + 1 == pre.children.len(),
            post.children[idx].keys.len() == pre.children[idx].keys.len() + 1 + pre.children[idx
                + 1].keys.len(),
            pre.well_shaped() && pre.balanced(degree) ==> post.well_shaped() && post.height()
                == pre.height() && post.children[idx].height() == pre.children[idx].height(),
            pre.well_shaped() && pre.balanced(degree) && valid_degree(degree) && pre.children[idx].keys.len()
                == degree - 1 && pre.children[idx + 1].keys.len() == degree - 1
                ==> post.balanced(degree),
    {
        let a = pre.children[idx];
        let b = pre.children[idx + 1];
        let m = post.children[idx];
        let x = (pre.keys[idx], pre.vals[idx]);
        assert(m.items() =~= a.items() + seq![x] + b.items());
        assert(m.kids() =~= a.kids() + b.kids());
        lemma_flat_join(a.items(), a.kids(), x, b.items(), b.kids());
        assert(post.items() =~= pre.items().remove(idx));
        assert(post.kids() =~= pre.kids().update(
            idx,
            pre.kids()[idx] + seq![pre.items()[idx]] + pre.kids()[idx + 1],
        ).remove(idx + 1));
        lemma_flat_merge_kids(pre.items(), pre.kids(), idx);
        if pre.well_shaped() && pre.balanced(degree) {
            assert(a.well_shaped() && b.well_shaped());
            assert(a.height() + 1 == pre.height());
            assert(b.height() + 1 == pre.height());
            assert(pre.children[0].height() + 1 == pre.height());
            assert forall|j: int| 0 <= j < m.children.len() implies (#[trigger] m.children[j]).well_shaped() by {
                if j < a.children.len() {
                    assert(m.children[j] == a.children[j]);
                } else {
                    assert(m.children[j] == b.children[j - a.children.len()]);
                }
            }
            if a.children.len() > 0 {
                assert(m.children[0] == a.children[0]);
            }
            assert(m.height() == a.height());
            assert forall|j: int| 0 <= j < post.children.len() implies (
            #[trigger] post.children[j]).well_shaped() by {
                if j < idx {
                    assert(post.children[j] == pre.children[j]);
                } else if j > idx {
                    assert(post.children[j] == pre.children[j + 1]);
                }
            }
            if idx > 0 {
                assert(post.children[0] == pre.children[0]);
            }
            assert(post.height() == pre.height());
            if valid_degree(degree) && a.keys.len() == degree - 1 && b.keys.len() == degree - 1 {
                assert(a.balanced(degree) && b.balanced(degree));
                assert forall|j: int| 0 <= j < m.children.len() implies {
                    &&& (#[trigger] m.children[j]).balanced(degree)
                    &&& m.children[j].keys.len() >= degree - 1
                    &&& m.children[j].height() + 1 == m.height()
                } by {
                    if j < a.children.len() {
                        assert(m.children[j] == a.children[j]);
                    } else {
                        assert(m.children[j] == b.children[j - a.children.len()]);
                    }
                }
                assert forall|j: int| 0 <= j < post.children.len() implies {
                    &&& (#[trigger] post.children[j]).balanced(degree)
                    &&& post.children[j].keys.len() >= degree - 1
                    &&& post.children[j].height() + 1 == post.height()
                } by {
                    if j < idx {
                        assert(post.children[j] == pre.children[j]);
                    } else if j > idx {
                        assert(post.children[j] == pre.children[j + 1]);
                    }
                }
            }
        }
    }

    /// Joins children `idx` and `idx + 1` around entry `idx`, which moves
    /// down between them; the joined node is child `idx`.
    pub fn merge_children(&mut self, idx: usize)
        requires
            old(self).can_merge(idx as int),
        ensures
            Self::is_merged(*old(self), *final(self), idx as int),
            final(self).entries() == old(self).entries(),
    {
        let key = self.keys.remove(idx);
        let val = self.vals.remove(idx);
        let mut right = self.children.remove(idx + 1);
        let left = &mut self.children[idx];
        left.keys.push(key);
        left.vals.push(val);
        left.keys.append(&mut right.keys);
        left.vals.append(&mut right.vals);
        left.children.append(&mut right.children);
        proof {
            assert(self.children@ =~= old(self).children@.update(
                idx as int,
                self.children[idx as int],
            ).remove(idx + 1));
            Self::lemma_merge(*old(self), *self, idx as int, 2);
        }
    }

    /// Child `idx` of the node can take an entry from its left sibling.
    pub open spec fn can_rotate_right(self, idx: int) -> bool {
        let left = self.children[idx - 1];
        let mid = self.children[idx];
        &&& self.keys.len() == self.vals.len()
        &&& self.children.len() == self.keys.len() + 1
        &&& 0 < idx < self.children.len()
        &&& left.keys.len() == left.vals.len()
        &&& left.keys.len() >= 1
        &&& left.children.len() == 0 || left.children.len() == left.keys.len() + 1
        &&& mid.keys.len() == mid.vals.len()
        &&& left.children.len() == 0 ==> mid.children.len() == 0
    }

    /// `post` is `pre` after child `idx` took an entry from its left
    /// sibling: entry `idx - 1` of `pre` moved down to the front of the
    /// child, the last entry of the sibling moved up in its place, and the
    /// last child of the sibling, if it had any, became the first of the
    /// child.
    pub open spec fn is_rotated_right(pre: Self, post: Self, idx: int) -> bool {
        let left = pre.children[idx - 1];
        let mid = pre.children[idx];
        let l = post.children[idx - 1];
        let m = post.children[idx];
        &&& post.keys@ == pre.keys@.update(idx - 1, left.keys@.last())
        &&& post.vals@ == pre.vals@.update(idx - 1, left.vals@.last())
        &&& post.children@ == pre.children@.update(idx - 1, l).update(idx, m)
        &&& l.keys@ == left.keys@.drop_last()
        &&& l.vals@ == left.vals@.drop_last()
        &&& m.keys@ == seq![pre.keys[idx - 1]] + mid.keys@
        &&& m.vals@ == seq![pre.vals[idx - 1]] + mid.vals@
        &&& if left.children.len() == 0 {
            l.children@ == left.children@ && m.children@ == mid.children@
        } else {
            l.children@ == left.children@.drop_last() && m.children@ == seq![
                left.children@.last(),
            ] + mid.children@
        }
    }

    /// Moving an entry from the left sibling keeps the entries.
    pub proof fn lemma_rotate_right_entries(pre: Self, post: Self, idx: int)
        requires
            pre.can_rotate_right(idx),
            Self::is_rotated_right(pre, post, idx),
        ensures
            post.entries() == pre.entries(),
    {
        let left = pre.children[idx - 1];
        let mid = pre.children[idx];
        let l = post.children[idx - 1];
        let m = post.children[idx];
        let up = (left.keys@.last(), left.vals@.last());
        let down = (pre.keys[idx - 1], pre.vals[idx - 1]);
        let moved = if left.children.len() == 0 {
            Seq::<Seq<(K, V)>>::empty()
        } else {
            seq![left.children@.last().entries()]
        };
        let none = Seq::<(K, V)>::empty();
        let c = flat(none, moved);
        assert(left.entries() == l.entries() + seq![up] + c) by {
            assert(left.items() =~= l.items() + seq![up] + none);
            assert(left.kids() =~= l.kids() + moved);
            lemma_flat_join(l.items(), l.kids(), up, none, moved);
        }
        assert(m.entries() == c + seq![down] + mid.entries()) by {
            assert(m.items() =~= none + seq![down] + mid.items());
            assert(m.kids() =~= moved + mid.kids());
            lemma_flat_join(none, moved, down, mid.items(), mid.kids());
        }
        let u = flat_upto(pre.items(), pre.kids(), idx - 1);
        let f = flat_from(pre.items(), pre.kids(), idx);
        assert(post.entries() == u + l.entries() + seq![up] + m.entries() + f) by {
            assert(post.items() =~= pre.items().update(idx - 1, up));
            assert(post.kids() =~= pre.kids().update(idx - 1, l.entries()).update(
                idx,
                m.entries(),
            ));
            lemma_flat_window_update(pre.items(), pre.kids(), idx - 1, l.entries(), up, m.entries());
        }
        assert(pre.entries() == u + left.entries() + seq![down] + mid.entries() + f) by {
            lemma_flat_window(pre.items(), pre.kids(), idx - 1);
        }
        lemma_regroup(u, l.entries(), up, c, down, mid.entries(), f);
    }

    /// Moving an entry from the left sibling keeps the shape and the height
    /// where the sibling can spare an entry and the child has room for one.
    pub proof fn lemma_rotate_right_shape(pre: Self, post: Self, idx: int, degree: usize)
        requires
            pre.can_rotate_right(idx),
            Self::is_rotated_right(pre, post, idx),
            pre.well_shaped(),
            pre.balanced(degree),
            pre.children[idx - 1].keys.len() >= degree,
            pre.children[idx].keys.len() + 1 <= 2 * degree - 1,
        ensures
            post.well_shaped(),
            post.balanced(degree),
            post.height() == pre.height(),
            post.keys.len() == pre.keys.len(),
            post.children.len() == pre.children.len(),
            post.children[idx].keys.len() == pre.children[idx].keys.len() + 1,
    {
        let left = pre.children[idx - 1];
        let mid = pre.children[idx];
        let l = post.children[idx - 1];
        let m = post.children[idx];
        assert(left.well_shaped() && mid.well_shaped());
        assert(left.balanced(degree) && mid.balanced(degree));
        assert(left.height() + 1 == pre.height());
        assert(mid.height() + 1 == pre.height());
        assert(pre.children[0].height() + 1 == pre.height());
        if left.children.len() > 0 {
            assert(left.children[0].height() + 1 == left.height());
            assert(l.children[0] == left.children[0]);
            assert(m.children[0] == left.children@.last());
            assert(left.children[left.children.len() - 1].height() + 1 == left.height());
        }
        assert(l.height() == left.height());
        assert(m.height() == mid.height());
        assert forall|j: int| 0 <= j < l.children.len() implies {
            &&& (#[trigger] l.children[j]).well_shaped()
            &&& l.children[j].balanced(degree)
            &&& l.children[j].keys.len() >= degree - 1
            &&& l.children[j].height() + 1 == l.height()
        } by {
            assert(l.children[j] == left.children[j]);
        }
        assert forall|j: int| 0 <= j < m.children.len() implies {
            &&& (#[trigger] m.children[j]).well_shaped()
            &&& m.children[j].balanced(degree)
            &&& m.children[j].keys.len() >= degree - 1
            &&& m.children[j].height() + 1 == m.height()
        } by {
            if left.children.len() == 0 {
                assert(m.children[j] == mid.children[j]);
            } else if j == 0 {
                assert(m.children[j] == left.children[left.children.len() - 1]);
            } else {
                assert(m.children[j] == mid.children[j - 1]);
            }
        }
        assert(l.well_shaped() && l.balanced(degree));
        assert(m.well_shaped() && m.balanced(degree));
        assert(post.children[0].height() + 1 == pre.height()) by {
            if idx - 1 > 0 {
                assert(post.children[0] == pre.children[0]);
            }
        }
        assert forall|j: int| 0 <= j < post.children.len() implies {
            &&& (#[trigger] post.children[j]).well_shaped()
            &&& post.children[j].balanced(degree)
            &&& post.children[j].keys.len() >= degree - 1
            &&& post.children[j].height() + 1 == post.height()
        } by {
            if j != idx - 1 && j != idx {
                assert(post.children[j] == pre.children[j]);
            }
        }
    }

    /// Moves the last entry of child `idx - 1` up into the node and entry
    /// `idx - 1` of the node down to the front of child `idx`.
    pub fn rotate_right(&mut self, idx: usize)
        requires
            old(self).can_rotate_right(idx as int),
        ensures
            Self::is_rotated_right(*old(self), *final(self), idx as int),
            final(self).entries() == old(self).entries(),
    {
        let parent_key = self.keys.remove(idx - 1);
        let parent_val = self.vals.remove(idx - 1);
        let mid = &mut self.children[idx];
        mid.keys.insert(0, parent_key);
        mid.vals.insert(0, parent_val);
        let left = &mut self.children[idx - 1];
        let left_key = left.keys.pop().unwrap();
        let left_val = left.vals.pop().unwrap();
        self.keys.insert(idx - 1, left_key);
        self.vals.insert(idx - 1, left_val);
        if !left.is_leaf() {
            let child = left.children.pop().unwrap();
            self.children[idx].children.insert(0, child);
        }
        proof {
            let i = idx as int;
            assert(self.keys@ =~= old(self).keys@.update(i - 1, left_key));
            assert(self.vals@ =~= old(self).vals@.update(i - 1, left_val));
            assert(self.children@ =~= old(self).children@.update(i - 1, self.children[i - 1]).update(
                i,
                self.children[i],
            ));
            assert(self.children[i - 1].keys@ =~= old(self).children[i - 1].keys@.drop_last());
            assert(self.children[i - 1].vals@ =~= old(self).children[i - 1].vals@.drop_last());
            assert(self.children[i].keys@ =~= seq![parent_key] + old(self).children[i].keys@);
            assert(self.children[i].vals@ =~= seq![parent_val] + old(self).children[i].vals@);
            if old(self).children[i - 1].children.len() > 0 {
                assert(self.children[i - 1].children@ =~= old(self).children[i
                    - 1].children@.drop_last());
                assert(self.children[i].children@ =~= seq![
                    old(self).children[i - 1].children@.last(),
                ] + old(self).children[i].children@);
            }
            Self::lemma_rotate_right_entries(*old(self), *self, i);
        }
    }

    /// Child `idx` of the node can take an entry from its right sibling.
    pub open spec fn can_rotate_left(self, idx: int) -> bool {
        let mid = self.children[idx];
        let right = self.children[idx + 1];
        &&& self.keys.len() == self.vals.len()
        &&& self.children.len() == self.keys.len() + 1
        &&& 0 <= idx < self.keys.len()
        &&& right.keys.len() == right.vals.len()
        &&& right.keys.len() >= 1
        &&& mid.keys.len() == mid.vals.len()
        &&& mid.children.len() == mid.keys.len() + 1 || (mid.children.len() == 0
            && right.children.len() == 0)
    }

    /// `post` is `pre` after child `idx` took an entry from its right
    /// sibling: entry `idx` of `pre` moved down to the end of the child, the
    /// first entry of the sibling moved up in its place, and the first child
    /// of the sibling, if it had any, became the last of the child.
    pub open spec fn is_rotated_left(pre: Self, post: Self, idx: int) -> bool {
        let mid = pre.children[idx];
        let right = pre.children[idx + 1];
        let m = post.children[idx];
        let r = post.children[idx + 1];
        &&& post.keys@ == pre.keys@.update(idx, right.keys@.first())
        &&& post.vals@ == pre.vals@.update(idx, right.vals@.first())
        &&& post.children@ == pre.children@.update(idx, m).update(idx + 1, r)
        &&& r.keys@ == right.keys@.drop_first()
        &&& r.vals@ == right.vals@.drop_first()
        &&& m.keys@ == mid.keys@.push(pre.keys[idx])
        &&& m.vals@ == mid.vals@.push(pre.vals[idx])
        &&& if right.children.len() == 0 {
            r.children@ == right.children@ && m.children@ == mid.children@
        } else {
            r.children@ == right.children@.drop_first() && m.children@ == mid.children@.push(
                right.children@.first(),
            )
        }
    }

    /// Moving an entry from the right sibling keeps the entries.
    pub proof fn lemma_rotate_left_entries(pre: Self, post: Self, idx: int)
        requires
            pre.can_rotate_left(idx),
            Self::is_rotated_left(pre, post, idx),
        ensures
            post.entries() == pre.entries(),
    {
        let mid = pre.children[idx];
        let right = pre.children[idx + 1];
        let m = post.children[idx];
        let r = post.children[idx + 1];
        let up = (right.keys@.first(), right.vals@.first());
        let down = (pre.keys[idx], pre.vals[idx]);
        let moved = if right.children.len() == 0 {
            Seq::<Seq<(K, V)>>::empty()
        } else {
            seq![right.children@.first().entries()]
        };
        let none = Seq::<(K, V)>::empty();
        let c = flat(none, moved);
        assert(right.entries() == c + seq![up] + r.entries()) by {
            assert(right.items() =~= none + seq![up] + r.items());
            assert(right.kids() =~= moved + r.kids());
            lemma_flat_join(none, moved, up, r.items(), r.kids());
        }
        assert(m.entries() == mid.entries() + seq![down] + c) by {
            assert(m.items() =~= mid.items() + seq![down] + none);
            assert(m.kids() =~= mid.kids() + moved);
            lemma_flat_join(mid.items(), mid.kids(), down, none, moved);
        }
        let u = flat_upto(pre.items(), pre.kids(), idx);
        let f = flat_from(pre.items(), pre.kids(), idx + 1);
        assert(post.entries() == u + m.entries() + seq![up] + r.entries() + f) by {
            assert(post.items() =~= pre.items().update(idx, up));
            assert(post.kids() =~= pre.kids().update(idx, m.entries()).update(
                idx + 1,
                r.entries(),
            ));
            lemma_flat_window_update(pre.items(), pre.kids(), idx, m.entries(), up, r.entries());
        }
        assert(pre.entries() == u + mid.entries() + seq![down] + right.entries() + f) by {
            lemma_flat_window(pre.items(), pre.kids(), idx);
        }
        lemma_regroup(u, mid.entries(), down, c, up, r.entries(), f);
    }

    /// Moving an entry from the right sibling keeps the shape and the height
    /// where the sibling can spare an entry and the child has room for one.
    pub proof fn lemma_rotate_left_shape(pre: Self, post: Self, idx: int, degree: usize)
        requires
            pre.can_rotate_left(idx),
            Self::is_rotated_left(pre, post, idx),
            pre.well_shaped(),
            pre.balanced(degree),
            pre.children[idx + 1].keys.len() >= degree,
            pre.children[idx].keys.len() + 1 <= 2 * degree - 1,
        ensures
            post.well_shaped(),
            post.balanced(degree),
            post.height() == pre.height(),
            post.keys.len() == pre.keys.len(),
            post.children.len() == pre.children.len(),
            post.children[idx].keys.len() == pre.children[idx].keys.len() + 1,
    {
        let mid = pre.children[idx];
        let right = pre.children[idx + 1];
        let m = post.children[idx];
        let r = post.children[idx + 1];
        assert(right.well_shaped() && mid.well_shaped());
        assert(right.balanced(degree) && mid.balanced(degree));
        assert(right.height() + 1 == pre.height());
        assert(mid.height() + 1 == pre.height());
        assert(pre.children[0].height() + 1 == pre.height());
        if right.children.len() > 0 {
            assert(right.children[0].height() + 1 == right.height());
            assert(right.children[1].height() + 1 == right.height());
            assert(r.children[0] == right.children[1]);
            assert(m.children[0] == mid.children[0]);
            assert(mid.children[0].height() + 1 == mid.height());
        }
        assert(r.height() == right.height());
        assert(m.height() == mid.height());
        assert forall|j: int| 0 <= j < r.children.len() implies {
            &&& (#[trigger] r.children[j]).well_shaped()
            &&& r.children[j].balanced(degree)
            &&& r.children[j].keys.len() >= degree - 1
            &&& r.children[j].height() + 1 == r.height()
        } by {
            assert(r.children[j] == right.children[j + 1]);
        }
        assert forall|j: int| 0 <= j < m.children.len() implies {
            &&& (#[trigger] m.children[j]).well_shaped()
            &&& m.children[j].balanced(degree)
            &&& m.children[j].keys.len() >= degree - 1
            &&& m.children[j].height() + 1 == m.height()
        } by {
            if j < mid.children.len() {
                assert(m.children[j] == mid.children[j]);
            } else {
                assert(m.children[j] == right.children[0]);
            }
        }
        assert(r.well_shaped() && r.balanced(degree));
        assert(m.well_shaped() && m.balanced(degree));
        assert(post.children[0].height() + 1 == pre.height()) by {
            if idx > 0 {
                assert(post.children[0] == pre.children[0]);
            }
        }
        assert forall|j: int| 0 <= j < post.children.len() implies {
            &&& (#[trigger] post.children[j]).well_shaped()
            &&& post.children[j].balanced(degree)
            &&& post.children[j].keys.len() >= degree - 1
            &&& post.children[j].height() + 1 == post.height()
        } by {
            if j != idx + 1 && j != idx {
                assert(post.children[j] == pre.children[j]);
            }
        }
    }

    /// Moves the first entry of child `idx + 1` up into the node and entry
    /// `idx` of the node down to the end of child `idx`.
    pub fn rotate_left(&mut self, idx: usize)
        requires
            old(self).can_rotate_left(idx as int),
        ensures
            Self::is_rotated_left(*old(self), *final(self), idx as int),
            final(self).entries() == old(self).entries(),
    {
        let parent_key = self.keys.remove(idx);
        let parent_val = self.vals.remove(idx);
        let mid = &mut self.children[idx];
        mid.keys.push(parent_key);
        mid.vals.push(parent_val);
        let right = &mut self.children[idx + 1];
        let right_key = right.keys.remove(0);
        let right_val = right.vals.remove(0);
        self.keys.insert(idx, right_key);
        self.vals.insert(idx, right_val);
        if !right.is_leaf() {
            let child = right.children.remove(0);
            self.children[idx].children.push(child);
        }
        proof {
            let i = idx as int;
            assert(self.keys@ =~= old(self).keys@.update(i, right_key));
            assert(self.vals@ =~= old(self).vals@.update(i, right_val));
            assert(self.children@ =~= old(self).children@.update(i, self.children[i]).update(
                i + 1,
                self.children[i + 1],
            ));
            assert(self.children[i + 1].keys@ =~= old(self).children[i + 1].keys@.drop_first());
            assert(self.children[i + 1].vals@ =~= old(self).children[i + 1].vals@.drop_first());
            if old(self).children[i + 1].children.len() > 0 {
                assert(self.children[i + 1].children@ =~= old(self).children[i
                    + 1].children@.drop_first());
            }
            Self::lemma_rotate_left_entries(*old(self), *self, i);
        }
    }

    /// What is done to child `idx` before the descent into it: nothing where
    /// it has more than the least number of keys; else it takes an entry from
    /// the left sibling if that can spare one, else from the right sibling if
    /// that can; else it is joined to the left sibling if there is one, else
    /// to the right one.
    pub open spec fn fix_case(self, idx: int, degree: usize) -> Fix {
        if self.children[idx].keys.len() + 1 != degree {
            Fix::Keep
        } else if idx > 0 && self.children[idx - 1].keys.len() >= degree {
            Fix::RotateRight
        } else if idx + 1 < self.children.len() && self.children[idx + 1].keys.len() >= degree {
            Fix::RotateLeft
        } else if idx > 0 {
            Fix::MergeLeft
        } else if idx + 1 < self.children.len() {
            Fix::MergeRight
        } else {
            Fix::Keep
        }
    }

    /// `post` is `pre` after child `idx` was made ready for the descent, and
    /// `at` is where that child then stands.
    pub open spec fn is_fixed(pre: Self, post: Self, idx: int, degree: usize, at: int) -> bool {
        match pre.fix_case(idx, degree) {
            Fix::Keep => post == pre && at == idx,
            Fix::RotateRight => Self::is_rotated_right(pre, post, idx) && at == idx,
            Fix::RotateLeft => Self::is_rotated_left(pre, post, idx) && at == idx,
            Fix::MergeLeft => Self::is_merged(pre, post, idx - 1) && at == idx - 1,
            Fix::MergeRight => Self::is_merged(pre, post, idx) && at == idx,
        }
    }

    /// Making a child ready for the descent keeps the entries, the shape and
    /// the height; the node loses at most one key, and the child then has
    /// keys to spare.
    pub proof fn lemma_fix(pre: Self, post: Self, idx: int, degree: usize, at: int)
        requires
            valid_degree(degree),
            pre.well_shaped(),
            pre.balanced(degree),
            0 <= idx < pre.children.len(),
            pre.children.len() >= 2,
            Self::is_fixed(pre, post, idx, degree, at),
        ensures
            post.entries() == pre.entries(),
            post.well_shaped(),
            post.balanced(degree),
            post.height() == pre.height(),
            post.keys.len() + 1 >= pre.keys.len(),
            0 <= at < post.children.len(),
            post.children[at].keys.len() >= degree,
            idx == 0 ==> at == 0,
            idx + 1 == pre.children.len() ==> at + 1 == post.children.len(),
    {
        assert(pre.children[idx].well_shaped());
        assert(pre.children[idx].balanced(degree));
        if idx > 0 {
            assert(pre.children[idx - 1].well_shaped());
            assert(pre.children[idx - 1].balanced(degree));
            assert(pre.children[idx - 1].height() + 1 == pre.height());
        }
        if idx + 1 < pre.children.len() {
            assert(pre.children[idx + 1].well_shaped());
            assert(pre.children[idx + 1].balanced(degree));
            assert(pre.children[idx + 1].height() + 1 == pre.height());
        }
        match pre.fix_case(idx, degree) {
            Fix::Keep => {},
            Fix::RotateRight => {
                Self::lemma_rotate_right_entries(pre, post, idx);
                Self::lemma_rotate_right_shape(pre, post, idx, degree);
            },
            Fix::RotateLeft => {
                Self::lemma_rotate_left_entries(pre, post, idx);
                Self::lemma_rotate_left_shape(pre, post, idx, degree);
            },
            Fix::MergeLeft => {
                Self::lemma_merge(pre, post, idx - 1, degree);
            },
            Fix::MergeRight => {
                Self::lemma_merge(pre, post, idx, degree);
            },
        }
    }

    /// Makes child `idx` ready for a descent that takes a key out of it, and
    /// returns where the child then stands.
    pub fn fix_child(&mut self, idx: usize, degree: usize) -> (at: usize)
        requires
            valid_degree(degree),
            old(self).well_shaped(),
            old(self).balanced(degree),
            idx < old(self).children.len(),
            old(self).children.len() >= 2,
        ensures
            Self::is_fixed(*old(self), *final(self), idx as int, degree, at as int),
            final(self).entries() == old(self).entries(),
            final(self).well_shaped(),
            final(self).balanced(degree),
            final(self).height() == old(self).height(),
            final(self).keys.len() + 1 >= old(self).keys.len(),
            at < final(self).children.len(),
            final(self).children[at as int].keys.len() >= degree,
            idx == 0 ==> at == 0,
            idx + 1 == old(self).children.len() ==> at + 1 == final(self).children.len(),
    {
        let mut at = idx;
        proof {
            let i = idx as int;
            assert(self.children[i].well_shaped());
            assert(self.children[i].balanced(degree));
            assert(self.children[i].height() + 1 == self.height());
            if i > 0 {
                assert(self.children[i - 1].well_shaped());
                assert(self.children[i - 1].balanced(degree));
                assert(self.children[i - 1].height() + 1 == self.height());
            }
            if i + 1 < self.children.len() {
                assert(self.children[i + 1].well_shaped());
                assert(self.children[i + 1].balanced(degree));
                assert(self.children[i + 1].height() + 1 == self.height());
            }
        }
        if self.children[idx].len() + 1 == degree {
            if idx > 0 && self.children[idx - 1].len() >= degree {
                self.rotate_right(idx);
            } else if idx + 1 < self.children.len() && self.children[idx + 1].len() >= degree {
                self.rotate_left(idx);
            } else if idx > 0 {
                self.merge_children(idx - 1);
                at = idx - 1;
            } else if idx + 1 < self.children.len() {
                self.merge_children(idx);
            }
        }
        proof {
            Self::lemma_fix(*old(self), *self, idx as int, degree, at as int);
        }
        at
    }
}

} // verus!
