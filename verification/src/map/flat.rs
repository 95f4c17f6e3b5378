//! A row of items with kids between them, read from left to right, and how
//! the reading changes when the row does.

use vstd::prelude::*;

verus! {

/// The `i`-th of `kids`, or nothing where there is none.
pub open spec fn kid<T>(kids: Seq<Seq<T>>, i: int) -> Seq<T> {
    if 0 <= i < kids.len() {
        kids[i]
    } else {
        Seq::empty()
    }
}

/// The first `i` items, each after the kid to its left.
pub open spec fn flat_upto<T>(items: Seq<T>, kids: Seq<Seq<T>>, i: int) -> Seq<T>
    decreases i,
{
    if i <= 0 {
        Seq::empty()
    } else {
        flat_upto(items, kids, i - 1) + kid(kids, i - 1) + seq![items[i - 1]]
    }
}

/// The items from the `i`-th on, each before the kid to its right.
pub open spec fn flat_from<T>(items: Seq<T>, kids: Seq<Seq<T>>, i: int) -> Seq<T>
    decreases items.len() - i,
{
    if i < 0 || i >= items.len() {
        Seq::empty()
    } else {
        seq![items[i]] + kid(kids, i + 1) + flat_from(items, kids, i + 1)
    }
}

/// The items and the kids between them, read from left to right: kid 0,
/// item 0, kid 1, item 1, and so on to the last kid.
pub open spec fn flat<T>(items: Seq<T>, kids: Seq<Seq<T>>) -> Seq<T> {
    flat_upto(items, kids, items.len() as int) + kid(kids, items.len() as int)
}

/// The whole, cut at kid `i`.
pub proof fn lemma_flat_split<T>(items: Seq<T>, kids: Seq<Seq<T>>, i: int)
    requires
        0 <= i <= items.len(),
    ensures
        flat(items, kids) == flat_upto(items, kids, i) + kid(kids, i) + flat_from(items, kids, i),
    decreases items.len() - i,
{
    if i == items.len() {
        assert(flat(items, kids) =~= flat_upto(items, kids, i) + kid(kids, i) + flat_from(
            items,
            kids,
            i,
        ));
    } else {
        lemma_flat_split(items, kids, i + 1);
        assert(flat_upto(items, kids, i + 1) + kid(kids, i + 1) + flat_from(items, kids, i + 1)
            =~= flat_upto(items, kids, i) + kid(kids, i) + flat_from(items, kids, i));
    }
}

/// The whole, cut around item `i`.
pub proof fn lemma_flat_window<T>(items: Seq<T>, kids: Seq<Seq<T>>, i: int)
    requires
        0 <= i < items.len(),
    ensures
        flat(items, kids) == flat_upto(items, kids, i) + kid(kids, i) + seq![items[i]] + kid(
            kids,
            i + 1,
        ) + flat_from(items, kids, i + 1),
{
    lemma_flat_split(items, kids, i);
    assert(flat_upto(items, kids, i) + kid(kids, i) + flat_from(items, kids, i) =~= flat_upto(
        items,
        kids,
        i,
    ) + kid(kids, i) + seq![items[i]] + kid(kids, i + 1) + flat_from(items, kids, i + 1));
}

/// What lies left of kid `i` depends on the items and kids left of it only.
pub proof fn lemma_upto_agree<T>(
    items1: Seq<T>,
    kids1: Seq<Seq<T>>,
    items2: Seq<T>,
    kids2: Seq<Seq<T>>,
    i: int,
)
    requires
        0 <= i <= items1.len(),
        i <= items2.len(),
        forall|j: int| 0 <= j < i ==> #[trigger] items1[j] == items2[j],
        forall|j: int| 0 <= j < i ==> #[trigger] kid(kids1, j) == kid(kids2, j),
    ensures
        flat_upto(items1, kids1, i) == flat_upto(items2, kids2, i),
    decreases i,
{
    if i > 0 {
        lemma_upto_agree(items1, kids1, items2, kids2, i - 1);
        assert(items1[i - 1] == items2[i - 1]);
        assert(kid(kids1, i - 1) == kid(kids2, i - 1));
    }
}

/// What lies right of kid `i` depends on the items and kids right of it only,
/// wherever they stand.
pub proof fn lemma_from_agree<T>(
    items1: Seq<T>,
    kids1: Seq<Seq<T>>,
    i1: int,
    items2: Seq<T>,
    kids2: Seq<Seq<T>>,
    i2: int,
)
    requires
        0 <= i1 <= items1.len(),
        0 <= i2 <= items2.len(),
        items1.len() - i1 == items2.len() - i2,
        forall|j: int| i1 <= j < items1.len() ==> #[trigger] items1[j] == items2[j + (i2 - i1)],
        forall|j: int| i1 < j <= items1.len() ==> #[trigger] kid(kids1, j) == kid(kids2, j + (i2 - i1)),
    ensures
        flat_from(items1, kids1, i1) == flat_from(items2, kids2, i2),
    decreases items1.len() - i1,
{
    if i1 < items1.len() {
        lemma_from_agree(items1, kids1, i1 + 1, items2, kids2, i2 + 1);
        assert(items1[i1] == items2[i1 + (i2 - i1)]);
        assert(kid(kids1, i1 + 1) == kid(kids2, i1 + 1 + (i2 - i1)));
    }
}

/// Replacing kid `i` leaves what lies on either side of it.
pub proof fn lemma_flat_replace_kid<T>(items: Seq<T>, kids: Seq<Seq<T>>, i: int, k: Seq<T>)
    requires
        0 <= i <= items.len(),
        i < kids.len(),
    ensures
        flat(items, kids.update(i, k)) == flat_upto(items, kids, i) + k + flat_from(items, kids, i),
{
    let kids2 = kids.update(i, k);
    lemma_flat_split(items, kids2, i);
    lemma_upto_agree(items, kids, items, kids2, i);
    lemma_from_agree(items, kids, i, items, kids2, i);
}

/// Replacing item `i` and the kids on either side of it leaves the rest.
pub proof fn lemma_flat_window_update<T>(
    items: Seq<T>,
    kids: Seq<Seq<T>>,
    i: int,
    a: Seq<T>,
    x: T,
    b: Seq<T>,
)
    requires
        0 <= i < items.len(),
        i + 1 < kids.len(),
    ensures
        flat(items.update(i, x), kids.update(i, a).update(i + 1, b)) == flat_upto(items, kids, i)
            + a + seq![x] + b + flat_from(items, kids, i + 1),
{
    let items2 = items.update(i, x);
    let kids2 = kids.update(i, a).update(i + 1, b);
    lemma_flat_window(items2, kids2, i);
    lemma_upto_agree(items, kids, items2, kids2, i);
    lemma_from_agree(items, kids, i + 1, items2, kids2, i + 1);
}

/// The place of item `i` in the whole.
pub open spec fn place<T>(items: Seq<T>, kids: Seq<Seq<T>>, i: int) -> int {
    (flat_upto(items, kids, i).len() + kid(kids, i).len()) as int
}

/// Replacing item `i` changes the whole at that item's place only.
pub proof fn lemma_flat_item_update<T>(items: Seq<T>, kids: Seq<Seq<T>>, i: int, x: T)
    requires
        0 <= i < items.len(),
    ensures
        0 <= place(items, kids, i) < flat(items, kids).len(),
        flat(items, kids)[place(items, kids, i)] == items[i],
        flat(items.update(i, x), kids) == flat(items, kids).update(place(items, kids, i), x),
{
    let items2 = items.update(i, x);
    lemma_flat_window(items, kids, i);
    lemma_flat_window(items2, kids, i);
    lemma_upto_agree(items, kids, items2, kids, i);
    lemma_from_agree(items, kids, i + 1, items2, kids, i + 1);
    assert(flat(items2, kids) =~= flat(items, kids).update(place(items, kids, i), x));
}

/// Cutting kid `i` in two around an item that moves up between them changes
/// nothing of the whole.
pub proof fn lemma_flat_split_kid<T>(
    items: Seq<T>,
    kids: Seq<Seq<T>>,
    i: int,
    l: Seq<T>,
    m: T,
    r: Seq<T>,
)
    requires
        0 <= i <= items.len(),
        i < kids.len(),
        kids[i] == l + seq![m] + r,
    ensures
        flat(items.insert(i, m), kids.update(i, l).insert(i + 1, r)) == flat(items, kids),
{
    let items2 = items.insert(i, m);
    let kids2 = kids.update(i, l).insert(i + 1, r);
    lemma_flat_split(items, kids, i);
    lemma_flat_window(items2, kids2, i);
    lemma_upto_agree(items, kids, items2, kids2, i);
    lemma_from_agree(items, kids, i, items2, kids2, i + 1);
    assert(flat_upto(items, kids, i) + l + seq![m] + r + flat_from(items, kids, i) =~= flat_upto(
        items,
        kids,
        i,
    ) + (l + seq![m] + r) + flat_from(items, kids, i));
}

/// Joining kids `i` and `i + 1` around the item between them, which moves
/// down, changes nothing of the whole.
pub proof fn lemma_flat_merge_kids<T>(items: Seq<T>, kids: Seq<Seq<T>>, i: int)
    requires
        0 <= i < items.len(),
        i + 1 < kids.len(),
    ensures
        flat(items.remove(i), kids.update(i, kids[i] + seq![items[i]] + kids[i + 1]).remove(i + 1))
            == flat(items, kids),
{
    let items2 = items.remove(i);
    let kids2 = kids.update(i, kids[i] + seq![items[i]] + kids[i + 1]).remove(i + 1);
    lemma_flat_window(items, kids, i);
    lemma_flat_split(items2, kids2, i);
    lemma_upto_agree(items, kids, items2, kids2, i);
    lemma_from_agree(items, kids, i + 1, items2, kids2, i);
    assert(flat_upto(items, kids, i) + kids[i] + seq![items[i]] + kids[i + 1] + flat_from(
        items,
        kids,
        i + 1,
    ) =~= flat_upto(items, kids, i) + (kids[i] + seq![items[i]] + kids[i + 1]) + flat_from(
        items,
        kids,
        i + 1,
    ));
}

/// Two rows joined around an item read as the first, the item, the second.
/// The first row has a kid on either side of each item, or neither row has
/// kids.
pub proof fn lemma_flat_join<T>(
    items1: Seq<T>,
    kids1: Seq<Seq<T>>,
    m: T,
    items2: Seq<T>,
    kids2: Seq<Seq<T>>,
)
    requires
        kids1.len() == items1.len() + 1 || (kids1.len() == 0 && kids2.len() == 0),
    ensures
        flat(items1 + seq![m] + items2, kids1 + kids2) == flat(items1, kids1) + seq![m] + flat(
            items2,
            kids2,
        ),
{
    let items = items1 + seq![m] + items2;
    let kids = kids1 + kids2;
    let i = items1.len() as int;
    lemma_flat_window(items, kids, i);
    lemma_upto_agree(items, kids, items1, kids1, i);
    lemma_flat_split(items2, kids2, 0);
    assert forall|j: int| i + 1 < j <= items.len() implies #[trigger] kid(kids, j) == kid(
        kids2,
        j + (0 - (i + 1)),
    ) by {}
    lemma_from_agree(items, kids, i + 1, items2, kids2, 0);
    assert(kid(kids, i) == kid(kids1, i));
    assert(kid(kids, i + 1) == kid(kids2, 0));
    assert(items[i] == m);
    assert(flat_upto(items2, kids2, 0) =~= Seq::<T>::empty());
    assert(flat(items, kids) =~= flat(items1, kids1) + seq![m] + flat(items2, kids2));
}

/// A part in the middle of a part in the middle is a part in the middle of
/// the whole.
pub proof fn lemma_nest<T>(u: Seq<T>, before: Seq<T>, mid: Seq<T>, after: Seq<T>, f: Seq<T>)
    ensures
        u + (before + mid + after) + f == (u + before) + mid + (after + f),
{
    assert(u + (before + mid + after) + f =~= (u + before) + mid + (after + f));
}

/// Taking out the item that follows the last item of the kid before it
/// leaves that last item in its place.
pub proof fn lemma_take_after<T>(u: Seq<T>, c: Seq<T>, y: T, x: T, k: Seq<T>, f: Seq<T>)
    ensures
        (u + c.push(y) + seq![x] + k + f).remove((u.len() + c.len() + 1) as int) == u + c + seq![
            y,
        ] + k + f,
{
    assert((u + c.push(y) + seq![x] + k + f).remove((u.len() + c.len() + 1) as int) =~= u + c
        + seq![y] + k + f);
}

/// Taking out the item that precedes the first item of the kid after it
/// leaves that first item in its place.
pub proof fn lemma_take_before<T>(u: Seq<T>, k: Seq<T>, x: T, y: T, c: Seq<T>, f: Seq<T>)
    ensures
        (u + k + seq![x] + (seq![y] + c) + f).remove((u.len() + k.len()) as int) == u + k + seq![
            y,
        ] + c + f,
{
    assert((u + k + seq![x] + (seq![y] + c) + f).remove((u.len() + k.len()) as int) =~= u + k
        + seq![y] + c + f);
}

/// A kid read before an item and another after it, at the seam of two
/// readings, can be counted to either.
pub proof fn lemma_regroup<T>(u: Seq<T>, a: Seq<T>, x: T, c: Seq<T>, y: T, b: Seq<T>, f: Seq<T>)
    ensures
        u + a + seq![x] + (c + seq![y] + b) + f == u + (a + seq![x] + c) + seq![y] + b + f,
{
    assert(u + a + seq![x] + (c + seq![y] + b) + f =~= u + (a + seq![x] + c) + seq![y] + b + f);
}

/// Where each of the first `i` kids holds at least `least` items, what lies
/// left of kid `i` holds at least `i` items more than `i` times as many.
pub proof fn lemma_upto_len<T>(items: Seq<T>, kids: Seq<Seq<T>>, i: int, least: int)
    requires
        0 <= i <= items.len(),
        i <= kids.len(),
        0 <= least,
        forall|j: int| 0 <= j < i ==> (#[trigger] kids[j]).len() >= least,
    ensures
        flat_upto(items, kids, i).len() >= i + i * least,
    decreases i,
{
    if i > 0 {
        lemma_upto_len(items, kids, i - 1, least);
        assert(kids[i - 1].len() >= least);
        assert(i + i * least == (i - 1) + (i - 1) * least + least + 1) by (nonlinear_arith);
    } else {
        assert(i * least == 0) by (nonlinear_arith)
            requires
                i == 0,
        ;
    }
}

/// A row without kids reads as its items.
pub proof fn lemma_flat_leaf<T>(items: Seq<T>)
    ensures
        flat(items, Seq::<Seq<T>>::empty()) == items,
{
    lemma_upto_leaf(items, items.len() as int);
    assert(flat(items, Seq::<Seq<T>>::empty()) =~= items);
}

/// Without kids, what lies left of position `i` is the first `i` items.
pub proof fn lemma_upto_leaf<T>(items: Seq<T>, i: int)
    requires
        0 <= i <= items.len(),
    ensures
        flat_upto(items, Seq::<Seq<T>>::empty(), i) == items.take(i),
    decreases i,
{
    if i > 0 {
        lemma_upto_leaf(items, i - 1);
    }
    assert(flat_upto(items, Seq::<Seq<T>>::empty(), i) =~= items.take(i));
}

} // verus!
