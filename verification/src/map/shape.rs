//! The shape that insertion and removal give a subtree, node for node.

use crate::map::node::Node;
use crate::order::lt;
use vstd::prelude::*;

verus! {

impl<K: Ord, V> Node<K, V> {
    /// Position `i` is where the node has `k`, or else where `k` belongs
    /// between its keys.
    pub open spec fn points(self, i: int, k: K) -> bool {
        &&& 0 <= i <= self.keys.len()
        &&& i > 0 ==> lt(self.keys[i - 1], k)
        &&& i < self.keys.len() ==> self.keys[i] == k || lt(k, self.keys[i])
    }

    /// The node has `k` at position `i`.
    pub open spec fn holds(self, i: int, k: K) -> bool {
        0 <= i < self.keys.len() && self.keys[i] == k
    }

    /// `post` is what binding `k` to `v` makes of `pre`, a subtree of
    /// `levels` levels below its top that is not full at the top. A node
    /// that has the key gets the value. A leaf that has it not gets the
    /// entry where the key belongs. Else the entry goes to the child where
    /// the key belongs; a full child is split first, upon which the median
    /// that has moved up gets the value if it has the key, and else the
    /// entry goes to the half on the key's side of the median.
    pub open spec fn inserted(pre: Self, post: Self, k: K, v: V, degree: usize, levels: nat) -> bool
        decreases levels,
    {
        exists|i: int|
            #![trigger pre.points(i, k)]
            pre.points(i, k) && if pre.holds(i, k) {
                Self::revalued(pre, post, i) && post.vals[i] == v
            } else if pre.children.len() == 0 {
                &&& post.keys@ == pre.keys@.insert(i, k)
                &&& post.vals@ == pre.vals@.insert(i, v)
                &&& post.children@ == pre.children@
            } else if levels == 0 {
                false
            } else if pre.children[i].keys.len() != 2 * degree - 1 {
                &&& Self::child_replaced(pre, post, i)
                &&& Self::inserted(
                    pre.children[i],
                    post.children[i],
                    k,
                    v,
                    degree,
                    (levels - 1) as nat,
                )
            } else {
                exists|mid: Self|
                    #![trigger Self::is_split(pre, mid, i, degree)]
                    Self::is_split(pre, mid, i, degree) && if mid.keys[i] == k {
                        Self::revalued(mid, post, i) && post.vals[i] == v
                    } else if lt(mid.keys[i], k) {
                        &&& Self::child_replaced(mid, post, i + 1)
                        &&& Self::inserted(
                            mid.children[i + 1],
                            post.children[i + 1],
                            k,
                            v,
                            degree,
                            (levels - 1) as nat,
                        )
                    } else {
                        &&& Self::child_replaced(mid, post, i)
                        &&& Self::inserted(
                            mid.children[i],
                            post.children[i],
                            k,
                            v,
                            degree,
                            (levels - 1) as nat,
                        )
                    }
            }
    }
}

impl<K, V> Node<K, V> {
    /// `post` is what taking the last entry, `last`, out makes of `pre`, a
    /// subtree of `levels` levels below its top. A leaf loses its last
    /// entry. Under any other node the last child is made ready for the
    /// descent and then loses its last entry.
    pub open spec fn popped_last(pre: Self, post: Self, last: (K, V), degree: usize, levels: nat) -> bool
        decreases levels,
    {
        if pre.children.len() == 0 {
            &&& pre.keys.len() >= 1
            &&& last == (pre.keys@.last(), pre.vals@.last())
            &&& post.keys@ == pre.keys@.drop_last()
            &&& post.vals@ == pre.vals@.drop_last()
            &&& post.children@ == pre.children@
        } else if levels == 0 {
            false
        } else {
            exists|mid: Self, at: int|
                #![trigger Self::is_fixed(pre, mid, pre.children.len() - 1, degree, at)]
                {
                    &&& Self::is_fixed(pre, mid, pre.children.len() - 1, degree, at)
                    &&& Self::child_replaced(mid, post, at)
                    &&& Self::popped_last(
                        mid.children[at],
                        post.children[at],
                        last,
                        degree,
                        (levels - 1) as nat,
                    )
                }
        }
    }

    /// `post` is what taking the first entry, `first`, out makes of `pre`,
    /// a subtree of `levels` levels below its top. A leaf loses its first
    /// entry. Under any other node the first child is made ready for the
    /// descent and then loses its first entry.
    pub open spec fn popped_first(pre: Self, post: Self, first: (K, V), degree: usize, levels: nat) -> bool
        decreases levels,
    {
        if pre.children.len() == 0 {
            &&& pre.keys.len() >= 1
            &&& first == (pre.keys@.first(), pre.vals@.first())
            &&& post.keys@ == pre.keys@.drop_first()
            &&& post.vals@ == pre.vals@.drop_first()
            &&& post.children@ == pre.children@
        } else if levels == 0 {
            false
        } else {
            exists|mid: Self, at: int|
                #![trigger Self::is_fixed(pre, mid, 0, degree, at)]
                {
                    &&& Self::is_fixed(pre, mid, 0, degree, at)
                    &&& Self::child_replaced(mid, post, at)
                    &&& Self::popped_first(
                        mid.children[at],
                        post.children[at],
                        first,
                        degree,
                        (levels - 1) as nat,
                    )
                }
        }
    }
}

impl<K: Ord, V> Node<K, V> {
    /// `post` is what taking `k` out makes of `pre`, a subtree of `levels`
    /// levels below its top. A leaf loses the entry if it has the key.
    /// Another node that has the key gets in its place the last entry below
    /// the child before it, if that child has a key to spare, else the first
    /// entry below the child after it, if that one has; else the two
    /// children are joined around the entry and the key is taken out of the
    /// joined child. Under a node that has not the key, the child where the
    /// key belongs is made ready for the descent, and the key is taken out
    /// of it.
    pub open spec fn removed(pre: Self, post: Self, k: K, degree: usize, levels: nat) -> bool
        decreases levels,
    {
        exists|i: int|
            #![trigger pre.points(i, k)]
            pre.points(i, k) && if pre.children.len() == 0 {
                if pre.holds(i, k) {
                    &&& post.keys@ == pre.keys@.remove(i)
                    &&& post.vals@ == pre.vals@.remove(i)
                    &&& post.children@ == pre.children@
                } else {
                    post == pre
                }
            } else if levels == 0 {
                false
            } else if pre.holds(i, k) {
                if pre.children[i].keys.len() >= degree {
                    &&& post.keys@ == pre.keys@.update(i, post.keys[i])
                    &&& post.vals@ == pre.vals@.update(i, post.vals[i])
                    &&& post.children@ == pre.children@.update(i, post.children[i])
                    &&& Self::popped_last(
                        pre.children[i],
                        post.children[i],
                        (post.keys[i], post.vals[i]),
                        degree,
                        (levels - 1) as nat,
                    )
                } else if pre.children[i + 1].keys.len() >= degree {
                    &&& post.keys@ == pre.keys@.update(i, post.keys[i])
                    &&& post.vals@ == pre.vals@.update(i, post.vals[i])
                    &&& post.children@ == pre.children@.update(i + 1, post.children[i + 1])
                    &&& Self::popped_first(
                        pre.children[i + 1],
                        post.children[i + 1],
                        (post.keys[i], post.vals[i]),
                        degree,
                        (levels - 1) as nat,
                    )
                } else {
                    exists|mid: Self|
                        #![trigger Self::is_merged(pre, mid, i)]
                        {
                            &&& Self::is_merged(pre, mid, i)
                            &&& Self::child_replaced(mid, post, i)
                            &&& Self::removed(
                                mid.children[i],
                                post.children[i],
                                k,
                                degree,
                                (levels - 1) as nat,
                            )
                        }
                }
            } else {
                exists|mid: Self, at: int|
                    #![trigger Self::is_fixed(pre, mid, i, degree, at)]
                    {
                        &&& Self::is_fixed(pre, mid, i, degree, at)
                        &&& Self::child_replaced(mid, post, at)
                        &&& Self::removed(
                            mid.children[at],
                            post.children[at],
                            k,
                            degree,
                            (levels - 1) as nat,
                        )
                    }
            }
    }
}

} // verus!
