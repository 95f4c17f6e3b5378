//! What the steps that move entries between stored nodes keep: the entries
//! below the node, in their order.

use crate::map::flat::{
    flat, flat_from, flat_upto, lemma_flat_join, lemma_flat_merge_kids, lemma_flat_split_kid,
    lemma_flat_window, lemma_flat_window_update, lemma_regroup,
};
use crate::map::node::valid_degree;
use crate::tree::node::Node;
use vstd::prelude::*;

verus! {

/// The first `n` of `kids`, or none where there are none.
pub open spec fn first_kids<T>(kids: Seq<Seq<T>>, n: int) -> Seq<Seq<T>> {
    if kids.len() == 0 {
        kids
    } else {
        kids.take(n)
    }
}

/// All but the first `n` of `kids`, or none where there are none.
pub open spec fn last_kids<T>(kids: Seq<Seq<T>>, n: int) -> Seq<Seq<T>> {
    if kids.len() == 0 {
        kids
    } else {
        kids.skip(n)
    }
}

impl<K, V> Node<K, V> {
    /// The entries of the subtree below the node, read in order, where
    /// `kids` gives for each child the entries of the subtree below it.
    pub open spec fn entries(self, kids: Seq<Seq<(K, V)>>) -> Seq<(K, V)> {
        flat(self.items(), kids)
    }

    /// Splitting a child changes nothing of what the subtree below the
    /// node holds, nor of its order.
    pub proof fn lemma_split_keeps_entries(
        pre: Self,
        post: Self,
        whole: Self,
        lower: Self,
        upper: Self,
        idx: int,
        degree: usize,
        kids: Seq<Seq<(K, V)>>,
        below: Seq<Seq<(K, V)>>,
    )
        requires
            valid_degree(degree),
            Self::is_split(pre, post, whole, lower, upper, idx, degree),
            pre.well_shaped(),
            whole.well_shaped(),
            whole.keys.len() == 2 * degree - 1,
            0 <= idx < pre.children.len(),
            kids.len() == pre.children.len(),
            below.len() == whole.children.len(),
            kids[idx] == whole.entries(below),
        ensures
            post.entries(
                kids.update(idx, lower.entries(first_kids(below, degree as int))).insert(
                    idx + 1,
                    upper.entries(last_kids(below, degree as int)),
                ),
            ) == pre.entries(kids),
    {
        let t = degree as int;
        let mid = (whole.keys[t - 1], whole.vals[t - 1]);
        let lk = first_kids(below, t);
        let uk = last_kids(below, t);
        assert(whole.items() =~= lower.items() + seq![mid] + upper.items());
        assert(below =~= lk + uk);
        lemma_flat_join(lower.items(), lk, mid, upper.items(), uk);
        assert(post.items() =~= pre.items().insert(idx, mid));
        lemma_flat_split_kid(pre.items(), kids, idx, lower.entries(lk), mid, upper.entries(uk));
    }

    /// Joining two children changes nothing of what the subtree below the
    /// node holds, nor of its order.
    pub proof fn lemma_merge_keeps_entries(
        pre: Self,
        post: Self,
        left: Self,
        right: Self,
        joined: Self,
        idx: int,
        kids: Seq<Seq<(K, V)>>,
        below_left: Seq<Seq<(K, V)>>,
        below_right: Seq<Seq<(K, V)>>,
    )
        requires
            Self::is_merged(pre, post, left, right, joined, idx),
            pre.well_shaped(),
            left.well_shaped(),
            right.well_shaped(),
            left.children.len() == 0 <==> right.children.len() == 0,
            0 <= idx < pre.keys.len(),
            kids.len() == pre.keys.len() + 1,
            below_left.len() == left.children.len(),
            below_right.len() == right.children.len(),
            kids[idx] == left.entries(below_left),
            kids[idx + 1] == right.entries(below_right),
        ensures
            post.entries(kids.update(idx, joined.entries(below_left + below_right)).remove(idx + 1))
                == pre.entries(kids),
    {
        let x = (pre.keys[idx], pre.vals[idx]);
        assert(joined.items() =~= left.items() + seq![x] + right.items());
        lemma_flat_join(left.items(), below_left, x, right.items(), below_right);
        assert(post.items() =~= pre.items().remove(idx));
        assert(pre.items()[idx] == x);
        lemma_flat_merge_kids(pre.items(), kids, idx);
    }

    /// Moving an entry from the left sibling changes nothing of what the
    /// subtree below the node holds, nor of its order.
    pub proof fn lemma_rotate_right_keeps_entries(
        pre: Self,
        post: Self,
        left: Self,
        mid: Self,
        lesser: Self,
        greater: Self,
        idx: int,
        kids: Seq<Seq<(K, V)>>,
        below_left: Seq<Seq<(K, V)>>,
        below_mid: Seq<Seq<(K, V)>>,
    )
        requires
            Self::is_rotated_right(pre, post, left, mid, lesser, greater, idx),
            pre.well_shaped(),
            left.well_shaped(),
            mid.well_shaped(),
            left.keys.len() >= 1,
            left.children.len() == 0 <==> mid.children.len() == 0,
            0 < idx <= pre.keys.len(),
            kids.len() == pre.keys.len() + 1,
            below_left.len() == left.children.len(),
            below_mid.len() == mid.children.len(),
            kids[idx - 1] == left.entries(below_left),
            kids[idx] == mid.entries(below_mid),
        ensures
            post.entries(
                kids.update(
                    idx - 1,
                    lesser.entries(first_kids(below_left, below_left.len() - 1)),
                ).update(
                    idx,
                    greater.entries(last_kids(below_left, below_left.len() - 1) + below_mid),
                ),
            ) == pre.entries(kids),
    {
        let up = (left.keys@.last(), left.vals@.last());
        let down = (pre.keys[idx - 1], pre.vals[idx - 1]);
        let kept = first_kids(below_left, below_left.len() - 1);
        let moved = last_kids(below_left, below_left.len() - 1);
        let none = Seq::<(K, V)>::empty();
        let c = flat(none, moved);
        assert(left.entries(below_left) == lesser.entries(kept) + seq![up] + c) by {
            assert(left.items() =~= lesser.items() + seq![up] + none);
            assert(below_left =~= kept + moved);
            lemma_flat_join(lesser.items(), kept, up, none, moved);
        }
        assert(greater.entries(moved + below_mid) == c + seq![down] + mid.entries(below_mid)) by {
            assert(greater.items() =~= none + seq![down] + mid.items());
            lemma_flat_join(none, moved, down, mid.items(), below_mid);
        }
        let u = flat_upto(pre.items(), kids, idx - 1);
        let f = flat_from(pre.items(), kids, idx);
        let l2 = lesser.entries(kept);
        let g2 = greater.entries(moved + below_mid);
        assert(post.entries(kids.update(idx - 1, l2).update(idx, g2)) == u + l2 + seq![up] + g2 + f) by {
            assert(post.items() =~= pre.items().update(idx - 1, up));
            lemma_flat_window_update(pre.items(), kids, idx - 1, l2, up, g2);
        }
        assert(pre.entries(kids) == u + left.entries(below_left) + seq![down] + mid.entries(
            below_mid,
        ) + f) by {
            assert(pre.items()[idx - 1] == down);
            lemma_flat_window(pre.items(), kids, idx - 1);
        }
        lemma_regroup(u, l2, up, c, down, mid.entries(below_mid), f);
    }

    /// Moving an entry from the right sibling changes nothing of what the
    /// subtree below the node holds, nor of its order.
    pub proof fn lemma_rotate_left_keeps_entries(
        pre: Self,
        post: Self,
        mid: Self,
        right: Self,
        lesser: Self,
        greater: Self,
        idx: int,
        kids: Seq<Seq<(K, V)>>,
        below_mid: Seq<Seq<(K, V)>>,
        below_right: Seq<Seq<(K, V)>>,
    )
        requires
            Self::is_rotated_left(pre, post, mid, right, lesser, greater, idx),
            pre.well_shaped(),
            mid.well_shaped(),
            right.well_shaped(),
            right.keys.len() >= 1,
            right.children.len() == 0 <==> mid.children.len() == 0,
            0 <= idx < pre.keys.len(),
            kids.len() == pre.keys.len() + 1,
            below_mid.len() == mid.children.len(),
            below_right.len() == right.children.len(),
            kids[idx] == mid.entries(below_mid),
            kids[idx + 1] == right.entries(below_right),
        ensures
            post.entries(
                kids.update(idx, lesser.entries(below_mid + first_kids(below_right, 1))).update(
                    idx + 1,
                    greater.entries(last_kids(below_right, 1)),
                ),
            ) == pre.entries(kids),
    {
        let up = (right.keys@.first(), right.vals@.first());
        let down = (pre.keys[idx], pre.vals[idx]);
        let moved = first_kids(below_right, 1);
        let kept = last_kids(below_right, 1);
        let none = Seq::<(K, V)>::empty();
        let c = flat(none, moved);
        assert(right.entries(below_right) == c + seq![up] + greater.entries(kept)) by {
            assert(right.items() =~= none + seq![up] + greater.items());
            assert(below_right =~= moved + kept);
            lemma_flat_join(none, moved, up, greater.items(), kept);
        }
        assert(lesser.entries(below_mid + moved) == mid.entries(below_mid) + seq![down] + c) by {
            assert(lesser.items() =~= mid.items() + seq![down] + none);
            lemma_flat_join(mid.items(), below_mid, down, none, moved);
        }
        let u = flat_upto(pre.items(), kids, idx);
        let f = flat_from(pre.items(), kids, idx + 1);
        let l2 = lesser.entries(below_mid + moved);
        let g2 = greater.entries(kept);
        assert(post.entries(kids.update(idx, l2).update(idx + 1, g2)) == u + l2 + seq![up] + g2 + f) by {
            assert(post.items() =~= pre.items().update(idx, up));
            lemma_flat_window_update(pre.items(), kids, idx, l2, up, g2);
        }
        assert(pre.entries(kids) == u + mid.entries(below_mid) + seq![down] + right.entries(
            below_right,
        ) + f) by {
            assert(pre.items()[idx] == down);
            lemma_flat_window(pre.items(), kids, idx);
        }
        lemma_regroup(u, mid.entries(below_mid), down, c, up, g2, f);
    }
}

} // verus!
