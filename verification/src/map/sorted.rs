//! Sequences of entries with ascending keys, and the maps they stand for.

use crate::order::{lemma_lt_transitive, lemma_trichotomy, lt, total_order};
use vstd::prelude::*;

verus! {

/// The keys of `s` are strictly ascending.
pub open spec fn ascending<K: Ord, V>(s: Seq<(K, V)>) -> bool {
    forall|i: int, j: int| 0 <= i < j < s.len() ==> lt((#[trigger] s[i]).0, (#[trigger] s[j]).0)
}

/// Some entry of `s` has the key `k`.
pub open spec fn has_key<K, V>(s: Seq<(K, V)>, k: K) -> bool {
    exists|i: int| 0 <= i < s.len() && (#[trigger] s[i]).0 == k
}

/// A position at which `s` holds the key `k`, if it holds it at all.
pub open spec fn index_of<K, V>(s: Seq<(K, V)>, k: K) -> int {
    choose|i: int| 0 <= i < s.len() && (#[trigger] s[i]).0 == k
}

/// The map that a sequence of entries stands for.
pub open spec fn to_map<K, V>(s: Seq<(K, V)>) -> Map<K, V> {
    Map::new(|k: K| has_key(s, k), |k: K| s[index_of(s, k)].1)
}

/// Every key of `s` is below `k`.
pub open spec fn below<K: Ord, V>(s: Seq<(K, V)>, k: K) -> bool {
    forall|i: int| 0 <= i < s.len() ==> lt((#[trigger] s[i]).0, k)
}

/// Every key of `s` is above `k`.
pub open spec fn above<K: Ord, V>(s: Seq<(K, V)>, k: K) -> bool {
    forall|i: int| 0 <= i < s.len() ==> lt(k, (#[trigger] s[i]).0)
}

/// In an ascending sequence a key stands at one position only.
pub proof fn lemma_ascending_distinct<K: Ord, V>(s: Seq<(K, V)>, i: int, j: int)
    requires
        total_order::<K>(),
        ascending(s),
        0 <= i < s.len(),
        0 <= j < s.len(),
        s[i].0 == s[j].0,
    ensures
        i == j,
{
    lemma_trichotomy(s[i].0, s[j].0);
}

/// The map of an ascending sequence binds each key to the value beside it.
pub proof fn lemma_to_map_at<K: Ord, V>(s: Seq<(K, V)>, i: int)
    requires
        total_order::<K>(),
        ascending(s),
        0 <= i < s.len(),
    ensures
        has_key(s, s[i].0),
        to_map(s).contains_key(s[i].0),
        to_map(s)[s[i].0] == s[i].1,
{
    let k = s[i].0;
    assert(has_key(s, k));
    lemma_ascending_distinct(s, i, index_of(s, k));
}

/// A concatenation is ascending exactly if both parts are and the first lies
/// wholly below the second.
pub proof fn lemma_ascending_concat<K: Ord, V>(a: Seq<(K, V)>, b: Seq<(K, V)>)
    ensures
        ascending(a + b) <==> {
            &&& ascending(a)
            &&& ascending(b)
            &&& forall|i: int, j: int|
                0 <= i < a.len() && 0 <= j < b.len() ==> lt(
                    (#[trigger] a[i]).0,
                    (#[trigger] b[j]).0,
                )
        },
{
    let c = a + b;
    if ascending(c) {
        assert forall|i: int, j: int| 0 <= i < j < a.len() implies lt(
            (#[trigger] a[i]).0,
            (#[trigger] a[j]).0,
        ) by {
            assert(c[i] == a[i] && c[j] == a[j]);
        }
        assert forall|i: int, j: int| 0 <= i < j < b.len() implies lt(
            (#[trigger] b[i]).0,
            (#[trigger] b[j]).0,
        ) by {
            assert(c[a.len() + i] == b[i] && c[a.len() + j] == b[j]);
        }
        assert forall|i: int, j: int| 0 <= i < a.len() && 0 <= j < b.len() implies lt(
            (#[trigger] a[i]).0,
            (#[trigger] b[j]).0,
        ) by {
            assert(c[i] == a[i] && c[a.len() + j] == b[j]);
        }
    }
    if ascending(a) && ascending(b) && (forall|i: int, j: int|
        0 <= i < a.len() && 0 <= j < b.len() ==> lt((#[trigger] a[i]).0, (#[trigger] b[j]).0)) {
        assert forall|i: int, j: int| 0 <= i < j < c.len() implies lt(
            (#[trigger] c[i]).0,
            (#[trigger] c[j]).0,
        ) by {
            if j < a.len() {
                assert(c[i] == a[i] && c[j] == a[j]);
            } else if i < a.len() {
                assert(c[i] == a[i] && c[j] == b[j - a.len()]);
            } else {
                assert(c[i] == b[i - a.len()] && c[j] == b[j - a.len()]);
            }
        }
    }
}

/// A key is in a concatenation exactly if it is in one of the parts.
pub proof fn lemma_has_key_concat<K, V>(a: Seq<(K, V)>, b: Seq<(K, V)>, k: K)
    ensures
        has_key(a + b, k) <==> has_key(a, k) || has_key(b, k),
{
    let c = a + b;
    if has_key(c, k) {
        let i = index_of(c, k);
        if i < a.len() {
            assert(a[i].0 == k);
        } else {
            assert(b[i - a.len()].0 == k);
        }
    }
    if has_key(a, k) {
        let i = index_of(a, k);
        assert(c[i].0 == k);
    }
    if has_key(b, k) {
        let i = index_of(b, k);
        assert(c[a.len() + i].0 == k);
    }
}

/// The map of an ascending concatenation is the union of the maps of its
/// parts, which share no key.
pub proof fn lemma_to_map_concat<K: Ord, V>(a: Seq<(K, V)>, b: Seq<(K, V)>)
    requires
        total_order::<K>(),
        ascending(a + b),
    ensures
        ascending(a),
        ascending(b),
        to_map(a + b) == to_map(a).union_prefer_right(to_map(b)),
        to_map(a).dom().disjoint(to_map(b).dom()),
{
    let c = a + b;
    lemma_ascending_concat(a, b);
    let m = to_map(a).union_prefer_right(to_map(b));
    assert forall|k: K| to_map(c).contains_key(k) <==> m.contains_key(k) by {
        lemma_has_key_concat(a, b, k);
    }
    assert forall|k: K| #[trigger] to_map(c).contains_key(k) implies to_map(c)[k] == m[k] by {
        lemma_has_key_concat(a, b, k);
        if has_key(b, k) {
            let j = index_of(b, k);
            assert(c[a.len() + j] == b[j]);
            lemma_to_map_at(c, a.len() + j);
            lemma_to_map_at(b, j);
        } else {
            let i = index_of(a, k);
            assert(c[i] == a[i]);
            lemma_to_map_at(c, i);
            lemma_to_map_at(a, i);
        }
    }
    assert(to_map(c) =~= m);
    assert forall|k: K| !(to_map(a).contains_key(k) && to_map(b).contains_key(k)) by {
        if has_key(a, k) && has_key(b, k) {
            let i = index_of(a, k);
            let j = index_of(b, k);
            lemma_trichotomy(a[i].0, b[j].0);
        }
    }
}

/// The map of the empty sequence is empty.
pub proof fn lemma_to_map_empty<K, V>()
    ensures
        to_map(Seq::<(K, V)>::empty()) == Map::<K, V>::empty(),
{
    assert(to_map(Seq::<(K, V)>::empty()) =~= Map::<K, V>::empty());
}

/// Putting an entry between the keys below it and the keys above it keeps the
/// order and adds the binding to the map.
pub proof fn lemma_insert_at<K: Ord, V>(s: Seq<(K, V)>, i: int, k: K, v: V)
    requires
        total_order::<K>(),
        ascending(s),
        0 <= i <= s.len(),
        forall|j: int| 0 <= j < i ==> lt((#[trigger] s[j]).0, k),
        forall|j: int| i <= j < s.len() ==> lt(k, (#[trigger] s[j]).0),
    ensures
        !has_key(s, k),
        ascending(s.insert(i, (k, v))),
        to_map(s.insert(i, (k, v))) == to_map(s).insert(k, v),
{
    let t = s.insert(i, (k, v));
    if has_key(s, k) {
        let j = index_of(s, k);
        lemma_trichotomy(s[j].0, k);
    }
    assert forall|a: int, b: int| 0 <= a < b < t.len() implies lt(
        (#[trigger] t[a]).0,
        (#[trigger] t[b]).0,
    ) by {
        let a0 = if a < i { a } else { a - 1 };
        let b0 = if b < i { b } else { b - 1 };
        if a != i {
            assert(t[a] == s[a0]);
        }
        if b != i {
            assert(t[b] == s[b0]);
        }
    }
    assert forall|x: K| to_map(t).contains_key(x) <==> to_map(s).insert(k, v).contains_key(
        x,
    ) by {
        if has_key(t, x) {
            let a = index_of(t, x);
            if a < i {
                assert(s[a].0 == x);
            } else if a > i {
                assert(s[a - 1].0 == x);
            }
        }
        if has_key(s, x) {
            let a = index_of(s, x);
            if a < i {
                assert(t[a].0 == x);
            } else {
                assert(t[a + 1].0 == x);
            }
        }
        assert(t[i].0 == k);
    }
    assert forall|x: K| #[trigger] to_map(t).contains_key(x) implies to_map(t)[x] == to_map(
        s,
    ).insert(k, v)[x] by {
        if x == k {
            lemma_to_map_at(t, i);
        } else {
            let a = index_of(s, x);
            lemma_to_map_at(s, a);
            if a < i {
                assert(t[a] == s[a]);
                lemma_to_map_at(t, a);
            } else {
                assert(t[a + 1] == s[a]);
                lemma_to_map_at(t, a + 1);
            }
        }
    }
    assert(to_map(t) =~= to_map(s).insert(k, v));
}

/// Giving a key another value keeps the order and rebinds the key in the map.
pub proof fn lemma_update_at<K: Ord, V>(s: Seq<(K, V)>, i: int, v: V)
    requires
        total_order::<K>(),
        ascending(s),
        0 <= i < s.len(),
    ensures
        ascending(s.update(i, (s[i].0, v))),
        to_map(s.update(i, (s[i].0, v))) == to_map(s).insert(s[i].0, v),
{
    let k = s[i].0;
    let t = s.update(i, (k, v));
    assert forall|a: int, b: int| 0 <= a < b < t.len() implies lt(
        (#[trigger] t[a]).0,
        (#[trigger] t[b]).0,
    ) by {
        assert(t.len() == s.len());
        assert(t[a].0 == s[a].0 && t[b].0 == s[b].0);
    }
    assert forall|x: K| to_map(t).contains_key(x) <==> to_map(s).insert(k, v).contains_key(
        x,
    ) by {
        if has_key(t, x) {
            let a = index_of(t, x);
            assert(s[a].0 == x);
        }
        if has_key(s, x) {
            let a = index_of(s, x);
            assert(t[a].0 == x);
        }
        assert(t[i].0 == k && s[i].0 == k);
    }
    assert forall|x: K| #[trigger] to_map(t).contains_key(x) implies to_map(t)[x] == to_map(
        s,
    ).insert(k, v)[x] by {
        let a = index_of(t, x);
        lemma_to_map_at(t, a);
        if a != i {
            assert(t[a] == s[a]);
            lemma_to_map_at(s, a);
            if x == k {
                lemma_ascending_distinct(s, a, i);
            }
        }
    }
    assert(to_map(t) =~= to_map(s).insert(k, v));
}

/// Taking an entry out keeps the order and removes its key from the map.
pub proof fn lemma_remove_at<K: Ord, V>(s: Seq<(K, V)>, i: int)
    requires
        total_order::<K>(),
        ascending(s),
        0 <= i < s.len(),
    ensures
        ascending(s.remove(i)),
        to_map(s.remove(i)) == to_map(s).remove(s[i].0),
{
    let k = s[i].0;
    let t = s.remove(i);
    assert forall|a: int, b: int| 0 <= a < b < t.len() implies lt(
        (#[trigger] t[a]).0,
        (#[trigger] t[b]).0,
    ) by {
        let a0 = if a < i { a } else { a + 1 };
        let b0 = if b < i { b } else { b + 1 };
        assert(t[a] == s[a0] && t[b] == s[b0]);
    }
    assert forall|x: K| to_map(t).contains_key(x) <==> to_map(s).remove(k).contains_key(x) by {
        if has_key(t, x) {
            let a = index_of(t, x);
            let a0 = if a < i { a } else { a + 1 };
            assert(s[a0].0 == x);
            if x == k {
                lemma_ascending_distinct(s, a0, i);
            }
        }
        if has_key(s, x) && x != k {
            let a = index_of(s, x);
            if a < i {
                assert(t[a].0 == x);
            } else {
                assert(t[a - 1].0 == x);
            }
        }
    }
    assert forall|x: K| #[trigger] to_map(t).contains_key(x) implies to_map(t)[x] == to_map(
        s,
    ).remove(k)[x] by {
        let a = index_of(t, x);
        let a0 = if a < i { a } else { a + 1 };
        assert(t[a] == s[a0]);
        lemma_to_map_at(t, a);
        lemma_to_map_at(s, a0);
    }
    assert(to_map(t) =~= to_map(s).remove(k));
}

/// Replacing the middle part of an ascending sequence by another ascending
/// part, whose keys are those of the old part and possibly `k`, where `k` lies
/// between the outer parts: the whole stays ascending, and its map is the union
/// of the three parts' maps.
pub proof fn lemma_replace_middle<K: Ord, V>(
    u: Seq<(K, V)>,
    s: Seq<(K, V)>,
    s2: Seq<(K, V)>,
    f: Seq<(K, V)>,
    k: K,
)
    requires
        total_order::<K>(),
        ascending(u + s + f),
        ascending(s2),
        below(u, k),
        above(f, k),
        forall|x: K| has_key(s2, x) ==> has_key(s, x) || x == k,
    ensures
        ascending(s),
        ascending(u + s2 + f),
        to_map(u + s + f) == to_map(u).union_prefer_right(to_map(s)).union_prefer_right(
            to_map(f),
        ),
        to_map(u + s2 + f) == to_map(u).union_prefer_right(to_map(s2)).union_prefer_right(
            to_map(f),
        ),
        !to_map(u).contains_key(k),
        !to_map(f).contains_key(k),
        to_map(u).dom().disjoint(to_map(f).dom()),
        to_map(u).dom().disjoint(to_map(s).dom()),
        to_map(s).dom().disjoint(to_map(f).dom()),
{
    lemma_ascending_concat(u + s, f);
    lemma_ascending_concat(u, s);
    lemma_to_map_concat(u + s, f);
    lemma_to_map_concat(u, s);
    assert forall|i: int, j: int| 0 <= i < u.len() && 0 <= j < f.len() implies lt(
        (#[trigger] u[i]).0,
        (#[trigger] f[j]).0,
    ) by {
        assert((u + s)[i] == u[i]);
    }
    assert forall|i: int, j: int| 0 <= i < u.len() && 0 <= j < s2.len() implies lt(
        (#[trigger] u[i]).0,
        (#[trigger] s2[j]).0,
    ) by {
        let x = s2[j].0;
        assert(has_key(s2, x));
        if x != k {
            let a = index_of(s, x);
            assert(lt(u[i].0, s[a].0));
        }
    }
    assert forall|i: int, j: int| 0 <= i < (u + s2).len() && 0 <= j < f.len() implies lt(
        (#[trigger] (u + s2)[i]).0,
        (#[trigger] f[j]).0,
    ) by {
        if i < u.len() {
            assert((u + s2)[i] == u[i]);
        } else {
            let x = s2[i - u.len()].0;
            assert((u + s2)[i] == s2[i - u.len()]);
            assert(has_key(s2, x));
            if x != k {
                let a = index_of(s, x);
                assert((u + s)[u.len() + a] == s[a]);
            }
        }
    }
    lemma_ascending_concat(u, s2);
    lemma_ascending_concat(u + s2, f);
    lemma_to_map_concat(u + s2, f);
    lemma_to_map_concat(u, s2);
    if has_key(u, k) {
        lemma_trichotomy(u[index_of(u, k)].0, k);
    }
    if has_key(f, k) {
        lemma_trichotomy(f[index_of(f, k)].0, k);
    }
    assert forall|x: K| !(to_map(u).contains_key(x) && to_map(f).contains_key(x)) by {
        if has_key(u, x) && has_key(f, x) {
            lemma_trichotomy(u[index_of(u, x)].0, f[index_of(f, x)].0);
        }
    }
    assert forall|x: K| !(to_map(s).contains_key(x) && to_map(f).contains_key(x)) by {
        if has_key(s, x) && has_key(f, x) {
            let a = index_of(s, x);
            assert((u + s)[u.len() + a] == s[a]);
            lemma_trichotomy(s[a].0, f[index_of(f, x)].0);
        }
    }
}

/// An ascending sequence is determined by the map it stands for.
pub proof fn lemma_ascending_unique<K: Ord, V>(a: Seq<(K, V)>, b: Seq<(K, V)>)
    requires
        total_order::<K>(),
        ascending(a),
        ascending(b),
        to_map(a) == to_map(b),
    ensures
        a == b,
    decreases a.len(),
{
    if a.len() == 0 {
        if b.len() > 0 {
            lemma_to_map_at(b, 0);
            let i = index_of(a, b[0].0);
        }
        assert(a =~= b);
    } else {
        let n = a.len() - 1;
        let k = a[n].0;
        lemma_to_map_at(a, n);
        let j = index_of(b, k);
        lemma_to_map_at(b, j);
        let m = b.len() - 1;
        if j != m {
            lemma_to_map_at(b, m);
            let i = index_of(a, b[m].0);
            if i != n {
                lemma_lt_transitive(a[i].0, a[n].0, b[m].0);
            }
            lemma_trichotomy(a[i].0, b[m].0);
        }
        lemma_remove_at(a, n);
        lemma_remove_at(b, m);
        lemma_ascending_unique(a.remove(n), b.remove(m));
        assert(a =~= a.remove(n).push(a[n]));
        assert(b =~= b.remove(m).push(b[m]));
    }
}

/// The map of an ascending sequence has as many keys as the sequence has
/// entries.
pub proof fn lemma_to_map_len<K: Ord, V>(s: Seq<(K, V)>)
    requires
        total_order::<K>(),
        ascending(s),
    ensures
        to_map(s).dom().finite(),
        to_map(s).dom().len() == s.len(),
    decreases s.len(),
{
    if s.len() == 0 {
        lemma_to_map_empty::<K, V>();
        assert(to_map(s).dom() =~= Set::<K>::empty());
    } else {
        let n = s.len() - 1;
        let rest = to_map(s.remove(n)).dom();
        lemma_remove_at(s, n);
        lemma_to_map_len(s.remove(n));
        lemma_to_map_at(s, n);
        assert(!rest.contains(s[n].0));
        assert(to_map(s).dom() =~= rest.insert(s[n].0));
        assert(rest.insert(s[n].0).len() == rest.len() + 1);
    }
}

} // verus!
