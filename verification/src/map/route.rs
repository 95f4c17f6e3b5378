//! Where a key lies in an ascending row of items and kids.

use crate::map::flat::{flat, flat_from, flat_upto, kid, lemma_flat_split, lemma_flat_window};
use crate::map::sorted::{
    above, ascending, below, has_key, index_of, lemma_ascending_concat, lemma_has_key_concat,
    lemma_to_map_at, to_map,
};
use crate::order::{lemma_lt_transitive, lemma_trichotomy, lt, total_order};
use vstd::prelude::*;

verus! {

/// Item `a` stands left of kid `b` where `a < b`: a position of it there.
pub proof fn lemma_upto_has_item<T>(items: Seq<T>, kids: Seq<Seq<T>>, a: int, b: int) -> (p: int)
    requires
        0 <= a < b <= items.len(),
    ensures
        0 <= p < flat_upto(items, kids, b).len(),
        flat_upto(items, kids, b)[p] == items[a],
    decreases b,
{
    if a == b - 1 {
        flat_upto(items, kids, b).len() - 1
    } else {
        lemma_upto_has_item(items, kids, a, b - 1)
    }
}

/// In an ascending row the items themselves ascend.
pub proof fn lemma_items_ascending<K: Ord, V>(items: Seq<(K, V)>, kids: Seq<Seq<(K, V)>>)
    requires
        ascending(flat(items, kids)),
    ensures
        ascending(items),
{
    let f = flat(items, kids);
    assert forall|a: int, b: int| 0 <= a < b < items.len() implies lt(
        (#[trigger] items[a]).0,
        (#[trigger] items[b]).0,
    ) by {
        lemma_flat_window(items, kids, b);
        let p = lemma_upto_has_item(items, kids, a, b);
        let q = (flat_upto(items, kids, b).len() + kid(kids, b).len()) as int;
        assert(f[p] == items[a]);
        assert(f[q] == items[b]);
    }
}

/// An item of an ascending row is bound in the row's map to its value.
pub proof fn lemma_item_bound<K: Ord, V>(items: Seq<(K, V)>, kids: Seq<Seq<(K, V)>>, i: int)
    requires
        total_order::<K>(),
        ascending(flat(items, kids)),
        0 <= i < items.len(),
    ensures
        has_key(flat(items, kids), items[i].0),
        to_map(flat(items, kids))[items[i].0] == items[i].1,
{
    let f = flat(items, kids);
    lemma_flat_window(items, kids, i);
    let q = (flat_upto(items, kids, i).len() + kid(kids, i).len()) as int;
    assert(f[q] == items[i]);
    lemma_to_map_at(f, q);
}

/// A key that belongs between item `i - 1` and item `i` of an ascending row
/// is above all that lies left of kid `i` and below all that lies right of it:
/// the row has it exactly if kid `i` has it, and with the same value.
pub proof fn lemma_descend<K: Ord, V>(
    items: Seq<(K, V)>,
    kids: Seq<Seq<(K, V)>>,
    i: int,
    k: K,
)
    requires
        total_order::<K>(),
        ascending(flat(items, kids)),
        0 <= i <= items.len(),
        i > 0 ==> lt(items[i - 1].0, k),
        i < items.len() ==> lt(k, items[i].0),
    ensures
        below(flat_upto(items, kids, i), k),
        above(flat_from(items, kids, i), k),
        ascending(kid(kids, i)),
        has_key(flat(items, kids), k) <==> has_key(kid(kids, i), k),
        has_key(kid(kids, i), k) ==> to_map(flat(items, kids))[k] == to_map(kid(kids, i))[k],
{
    let f = flat(items, kids);
    let u = flat_upto(items, kids, i);
    let c = kid(kids, i);
    let r = flat_from(items, kids, i);
    lemma_flat_split(items, kids, i);
    lemma_ascending_concat(u + c, r);
    lemma_ascending_concat(u, c);
    assert forall|p: int| 0 <= p < u.len() implies lt((#[trigger] u[p]).0, k) by {
        let last = u.len() - 1;
        assert(u[last] == items[i - 1]);
        if p < last {
            lemma_lt_transitive(u[p].0, u[last].0, k);
        }
    }
    assert forall|p: int| 0 <= p < r.len() implies lt(k, (#[trigger] r[p]).0) by {
        assert(r[0] == items[i]);
        if p > 0 {
            lemma_lt_transitive(k, r[0].0, r[p].0);
        }
    }
    lemma_has_key_concat(u + c, r, k);
    lemma_has_key_concat(u, c, k);
    if has_key(u, k) {
        lemma_trichotomy(u[index_of(u, k)].0, k);
    }
    if has_key(r, k) {
        lemma_trichotomy(r[index_of(r, k)].0, k);
    }
    if has_key(c, k) {
        let j = index_of(c, k);
        assert(f[u.len() + j] == c[j]);
        lemma_to_map_at(f, u.len() + j);
        lemma_to_map_at(c, j);
    }
}

} // verus!
