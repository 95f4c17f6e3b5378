//! What holds of every well-formed map, and of maps that one operation or
//! several have made of one another.

use crate::map::flat::lemma_upto_len;
use crate::map::node::{valid_degree, Node};
use crate::map::sorted::{ascending, lemma_ascending_unique, lemma_to_map_len, to_map};
use crate::map::BTreeMap;
use crate::order::total_order;
use vstd::arithmetic::power::{lemma_pow_positive, pow};
use vstd::prelude::*;

verus! {

/// A change to a map.
pub enum Change<K, V> {
    /// The key is bound to the value.
    Insert(K, V),
    /// The key is unbound.
    Remove(K),
}

impl<K, V> Change<K, V> {
    /// The key that the change is about.
    pub open spec fn key(self) -> K {
        match self {
            Change::Insert(k, _) => k,
            Change::Remove(k) => k,
        }
    }
}

/// The map that `start` becomes under `changes`, made one after another.
pub open spec fn replay<K, V>(start: Map<K, V>, changes: Seq<Change<K, V>>) -> Map<K, V>
    decreases changes.len(),
{
    if changes.len() == 0 {
        start
    } else {
        let before = replay(start, changes.drop_last());
        match changes.last() {
            Change::Insert(k, v) => before.insert(k, v),
            Change::Remove(k) => before.remove(k),
        }
    }
}

/// The map that `start` becomes when the entries of `entries` are put into
/// it one after another.
pub open spec fn insert_all<K, V>(start: Map<K, V>, entries: Seq<(K, V)>) -> Map<K, V>
    decreases entries.len(),
{
    if entries.len() == 0 {
        start
    } else {
        insert_all(start, entries.drop_last()).insert(entries.last().0, entries.last().1)
    }
}

/// No two entries of `entries` have the same key.
pub open spec fn distinct_keys<K, V>(entries: Seq<(K, V)>) -> bool {
    forall|i: int, j: int|
        0 <= i < j < entries.len() ==> (#[trigger] entries[i]).0 != (#[trigger] entries[j]).0
}

/// The node reached from `node` by going to child `path[0]`, from there to
/// child `path[1]`, and so on.
pub open spec fn descendant<K, V>(node: Node<K, V>, path: Seq<int>) -> Node<K, V>
    decreases path.len(),
{
    if path.len() == 0 {
        node
    } else {
        descendant(node.children[path[0]], path.drop_first())
    }
}

/// `path` leads from `node` to a node of its subtree.
pub open spec fn is_path<K, V>(node: Node<K, V>, path: Seq<int>) -> bool
    decreases path.len(),
{
    path.len() == 0 || (0 <= path[0] < node.children.len() && is_path(
        node.children[path[0]],
        path.drop_first(),
    ))
}

/// A path that is extended by one step leads to the child at that step of
/// the node that it led to.
pub proof fn lemma_path_extend<K, V>(node: Node<K, V>, path: Seq<int>, i: int)
    requires
        is_path(node, path),
        0 <= i < descendant(node, path).children.len(),
    ensures
        is_path(node, path.push(i)),
        descendant(node, path.push(i)) == descendant(node, path).children[i],
    decreases path.len(),
{
    let longer = path.push(i);
    if path.len() == 0 {
        let none = Seq::<int>::empty();
        assert(longer.drop_first() =~= none);
        assert(longer[0] == i);
        assert(is_path(node.children[i], none));
        assert(descendant(node.children[i], none) == node.children[i]);
        assert(descendant(node, path) == node);
    } else {
        lemma_path_extend(node.children[path[0]], path.drop_first(), i);
        assert(longer.drop_first() =~= path.drop_first().push(i));
        assert(longer[0] == path[0]);
    }
}

/// In a well-shaped, balanced subtree every node has a value for each key
/// and no children or one more than keys, no node has more than
/// `2 * degree - 1` keys, none below the top has fewer than `degree - 1`, and
/// the leaves, and they alone, lie at the depth that is the subtree's height.
pub proof fn lemma_nodes_in_bounds<K, V>(node: Node<K, V>, degree: usize, path: Seq<int>)
    requires
        node.well_shaped(),
        node.balanced(degree),
        is_path(node, path),
    ensures
        descendant(node, path).keys.len() == descendant(node, path).vals.len(),
        descendant(node, path).children.len() == 0 || descendant(node, path).children.len()
            == descendant(node, path).keys.len() + 1,
        descendant(node, path).keys.len() <= 2 * degree - 1,
        path.len() > 0 ==> descendant(node, path).keys.len() >= degree - 1,
        path.len() <= node.height(),
        descendant(node, path).children.len() == 0 <==> path.len() == node.height(),
    decreases path.len(),
{
    if path.len() > 0 {
        let child = node.children[path[0]];
        assert(child.well_shaped());
        assert(child.balanced(degree));
        assert(child.height() + 1 == node.height());
        lemma_nodes_in_bounds(child, degree, path.drop_first());
        if path.len() == 1 {
            assert(path.drop_first().len() == 0);
        }
    }
}

/// A balanced subtree of `height` levels below its top, whose top is no
/// smaller than a node below the root may be, holds at least
/// `degree ^ (height + 1) - 1` entries.
pub proof fn lemma_least_entries<K, V>(node: Node<K, V>, degree: usize)
    requires
        valid_degree(degree),
        node.well_shaped(),
        node.balanced(degree),
        node.keys.len() >= degree - 1,
    ensures
        node.entries().len() + 1 >= pow(degree as int, node.height() + 1),
    decreases node,
{
    let t = degree as int;
    let h = node.height();
    reveal(pow);
    if node.children.len() == 0 {
        node.lemma_leaf_entries();
        assert(pow(t, 1) == t * pow(t, 0));
    } else {
        let n = node.keys.len() as int;
        let least = pow(t, h) - 1;
        lemma_pow_positive(t, h);
        assert forall|j: int| 0 <= j < node.children.len() implies (#[trigger] node.kids()[j]).len()
            >= least by {
            assert(node.children[j].well_shaped());
            assert(node.children[j].balanced(degree));
            assert(node.children[j].height() + 1 == h);
            lemma_least_entries(node.children[j], degree);
        }
        lemma_upto_len(node.items(), node.kids(), n, least);
        assert(node.kids()[n].len() >= least);
        assert(node.entries().len() >= n + n * least + least);
        assert(pow(t, h + 1) == t * pow(t, h));
        assert(n + n * least + least + 1 >= t * (least + 1)) by (nonlinear_arith)
            requires
                n >= t - 1,
                least >= 0,
                t >= 2,
        ;
    }
}

/// What was put into a map with distinct keys is what the map holds.
pub proof fn lemma_insert_all<K, V>(entries: Seq<(K, V)>)
    requires
        distinct_keys(entries),
    ensures
        forall|k: K|
            insert_all(Map::<K, V>::empty(), entries).contains_key(k) <==> exists|i: int|
                0 <= i < entries.len() && (#[trigger] entries[i]).0 == k,
        forall|i: int|
            0 <= i < entries.len() ==> insert_all(Map::<K, V>::empty(), entries)[(
            #[trigger] entries[i]).0] == entries[i].1,
    decreases entries.len(),
{
    let m = insert_all(Map::<K, V>::empty(), entries);
    if entries.len() > 0 {
        let n = entries.len() - 1;
        let rest = entries.drop_last();
        assert forall|i: int, j: int| 0 <= i < j < rest.len() implies (#[trigger] rest[i]).0 != (
        #[trigger] rest[j]).0 by {
            assert(rest[i] == entries[i] && rest[j] == entries[j]);
        }
        lemma_insert_all(rest);
        let before = insert_all(Map::<K, V>::empty(), rest);
        assert forall|k: K| m.contains_key(k) <==> exists|i: int|
            0 <= i < entries.len() && (#[trigger] entries[i]).0 == k by {
            if m.contains_key(k) {
                if k == entries[n].0 {
                } else {
                    assert(before.contains_key(k));
                    let i = choose|i: int| 0 <= i < rest.len() && (#[trigger] rest[i]).0 == k;
                    assert(entries[i].0 == k);
                }
            }
            if exists|i: int| 0 <= i < entries.len() && (#[trigger] entries[i]).0 == k {
                let i = choose|i: int| 0 <= i < entries.len() && (#[trigger] entries[i]).0 == k;
                if i < n {
                    assert(rest[i].0 == k);
                }
            }
        }
        assert forall|i: int| 0 <= i < entries.len() implies m[(#[trigger] entries[i]).0]
            == entries[i].1 by {
            if i < n {
                assert(rest[i] == entries[i]);
                assert(entries[i].0 != entries[n].0);
            }
        }
    }
}

impl<K: Ord, V> BTreeMap<K, V> {
    /// A walk through a well-formed map yields strictly ascending keys, as
    /// many entries as the map counts, and the bindings of the map; the
    /// tree keeps the bounds of its degree.
    pub proof fn lemma_invariants(self)
        requires
            total_order::<K>(),
            self.wf(),
        ensures
            ascending(self.entries()),
            self.count() == self.entries().len(),
            self@.dom().finite(),
            self@.len() == self.count(),
            self@ == to_map(self.entries()),
            self.root_node().well_shaped(),
            self.root_node().balanced(self.min_degree()),
            self.root_node().children.len() > 0 ==> self.root_node().keys.len() >= 1,
    {
        lemma_to_map_len(self.entries());
    }

    /// Every node of a well-formed map's tree but the root has between
    /// `degree - 1` and `2 * degree - 1` keys, the root has no more; each has
    /// no children or one more than keys; and all leaves lie at one depth.
    pub proof fn lemma_degree_bounds(self, path: Seq<int>)
        requires
            self.wf(),
            is_path(self.root_node(), path),
        ensures
            descendant(self.root_node(), path).keys.len() <= 2 * self.min_degree() - 1,
            path.len() > 0 ==> descendant(self.root_node(), path).keys.len() >= self.min_degree()
                - 1,
            descendant(self.root_node(), path).children.len() == 0 || descendant(
                self.root_node(),
                path,
            ).children.len() == descendant(self.root_node(), path).keys.len() + 1,
            descendant(self.root_node(), path).children.len() == 0 <==> path.len()
                == self.root_node().height(),
    {
        lemma_nodes_in_bounds(self.root_node(), self.min_degree(), path);
    }

    /// A tree of `height` levels below its root holds at least
    /// `2 * degree ^ height - 1` entries: its height is at most the
    /// logarithm to the base `degree` of half the number of entries and one.
    pub proof fn lemma_height_bound(self)
        requires
            self.wf(),
        ensures
            self.root_node().height() >= 1 ==> self.count() + 1 >= 2 * pow(
                self.min_degree() as int,
                self.root_node().height(),
            ),
    {
        let root = self.root_node();
        let degree = self.min_degree();
        let t = degree as int;
        let h = root.height();
        if h >= 1 {
            let n = root.keys.len() as int;
            let least = pow(t, h) - 1;
            lemma_pow_positive(t, h);
            assert forall|j: int| 0 <= j < root.children.len() implies (
            #[trigger] root.kids()[j]).len() >= least by {
                assert(root.children[j].well_shaped());
                assert(root.children[j].balanced(degree));
                assert(root.children[j].height() + 1 == h);
                lemma_least_entries(root.children[j], degree);
            }
            lemma_upto_len(root.items(), root.kids(), n, least);
            assert(root.kids()[n].len() >= least);
            assert(root.entries().len() >= n + n * least + least);
            assert(n + n * least + least + 1 >= 2 * (least + 1)) by (nonlinear_arith)
                requires
                    n >= 1,
                    least >= 0,
            ;
        }
    }

    /// Two well-formed maps with the same bindings yield the same walk.
    pub proof fn lemma_same_bindings_same_walk(self, other: Self)
        requires
            total_order::<K>(),
            self.wf(),
            other.wf(),
            self@ == other@,
        ensures
            self.entries() == other.entries(),
            self.count() == other.count(),
    {
        lemma_ascending_unique(self.entries(), other.entries());
    }

    /// A map that came about by a row of changes binds a key to the value
    /// of the last insertion under that key, if no change after it was about
    /// the key; so that is the value a lookup finds.
    pub proof fn lemma_lookup_finds_last_insert(
        self,
        start: Map<K, V>,
        changes: Seq<Change<K, V>>,
        i: int,
    )
        requires
            self@ == replay(start, changes),
            0 <= i < changes.len(),
            changes[i] is Insert,
            forall|j: int| i < j < changes.len() ==> (#[trigger] changes[j]).key() != changes[i].key(),
        ensures
            self@.get(changes[i].key()) == Some(changes[i]->Insert_1),
    {
        lemma_replay_last_insert(start, changes, i);
    }

    /// Binding a key twice leaves the second value, returns the first the
    /// second time, and does not change the count the second time.
    pub proof fn lemma_insert_twice(
        self,
        once: Self,
        twice: Self,
        k: K,
        v1: V,
        v2: V,
        prior: Option<V>,
    )
        requires
            total_order::<K>(),
            self.wf(),
            once.wf(),
            twice.wf(),
            once@ == self@.insert(k, v1),
            twice@ == once@.insert(k, v2),
            prior == once@.get(k),
        ensures
            twice@.get(k) == Some(v2),
            prior == Some(v1),
            twice.count() == once.count(),
            twice.entries().len() == once.entries().len(),
    {
        lemma_to_map_len(once.entries());
        lemma_to_map_len(twice.entries());
        assert(twice@.dom() =~= once@.dom());
    }

    /// Binding a key that was not bound and unbinding it again restores the
    /// map: the same bindings, the same count, the same walk.
    pub proof fn lemma_insert_then_remove(self, inserted: Self, removed: Self, k: K, v: V)
        requires
            total_order::<K>(),
            self.wf(),
            inserted.wf(),
            removed.wf(),
            !self@.contains_key(k),
            inserted@ == self@.insert(k, v),
            removed@ == inserted@.remove(k),
        ensures
            removed@ == self@,
            removed.count() == self.count(),
            removed.entries() == self.entries(),
    {
        assert(removed@ =~= self@);
        self.lemma_same_bindings_same_walk(removed);
    }

    /// Unbinding a key that is not bound returns nothing and changes
    /// neither the bindings, nor the count, nor the walk.
    pub proof fn lemma_remove_absent(self, removed: Self, k: K, value: Option<V>)
        requires
            total_order::<K>(),
            self.wf(),
            removed.wf(),
            !self@.contains_key(k),
            removed@ == self@.remove(k),
            value == self@.get(k),
        ensures
            value is None,
            removed@ == self@,
            removed.count() == self.count(),
            removed.entries() == self.entries(),
    {
        assert(removed@ =~= self@);
        self.lemma_same_bindings_same_walk(removed);
    }

    /// Two maps into which the same entries with distinct keys were put,
    /// in whatever order, yield the same walk.
    pub proof fn lemma_insertion_order(self, other: Self, xs: Seq<(K, V)>, ys: Seq<(K, V)>)
        requires
            total_order::<K>(),
            self.wf(),
            other.wf(),
            distinct_keys(xs),
            distinct_keys(ys),
            xs.to_set() == ys.to_set(),
            self@ == insert_all(Map::<K, V>::empty(), xs),
            other@ == insert_all(Map::<K, V>::empty(), ys),
        ensures
            self.entries() == other.entries(),
            self@ == other@,
    {
        lemma_insert_all(xs);
        lemma_insert_all(ys);
        assert forall|k: K| self@.contains_key(k) implies other@.contains_key(k) && other@[k]
            == self@[k] by {
            let i = choose|i: int| 0 <= i < xs.len() && (#[trigger] xs[i]).0 == k;
            assert(xs.to_set().contains(xs[i]));
            assert(ys.contains(xs[i]));
            let j = choose|j: int| 0 <= j < ys.len() && ys[j] == xs[i];
            assert(ys[j].0 == k);
        }
        assert forall|k: K| other@.contains_key(k) implies self@.contains_key(k) by {
            let j = choose|j: int| 0 <= j < ys.len() && (#[trigger] ys[j]).0 == k;
            assert(ys.to_set().contains(ys[j]));
            assert(xs.contains(ys[j]));
            let i = choose|i: int| 0 <= i < xs.len() && xs[i] == ys[j];
            assert(xs[i].0 == k);
        }
        assert(self@ =~= other@);
        self.lemma_same_bindings_same_walk(other);
    }
}

/// After a row of changes a key is bound to the value of the last insertion
/// under it, if no later change was about the key.
pub proof fn lemma_replay_last_insert<K, V>(start: Map<K, V>, changes: Seq<Change<K, V>>, i: int)
    requires
        0 <= i < changes.len(),
        changes[i] is Insert,
        forall|j: int| i < j < changes.len() ==> (#[trigger] changes[j]).key() != changes[i].key(),
    ensures
        replay(start, changes).get(changes[i].key()) == Some(changes[i]->Insert_1),
    decreases changes.len(),
{
    let n = changes.len() - 1;
    if i < n {
        let rest = changes.drop_last();
        assert(rest[i] == changes[i]);
        assert forall|j: int| i < j < rest.len() implies (#[trigger] rest[j]).key()
            != rest[i].key() by {
            assert(rest[j] == changes[j]);
        }
        lemma_replay_last_insert(start, rest, i);
        assert(changes[n].key() != changes[i].key());
    }
}

} // verus!
