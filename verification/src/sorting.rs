//! Stable sorting, as a mathematical function.

use vstd::prelude::*;

verus! {

/// `sorted` with `x` put in behind every item that `x` does not sort
/// before: the place that a stable sort gives to an item that came last.
pub open spec fn insert_sorted<T>(sorted: Seq<T>, x: T, before: spec_fn(T, T) -> bool) -> Seq<T>
    decreases sorted.len(),
{
    if sorted.len() > 0 && before(x, sorted.last()) {
        insert_sorted(sorted.drop_last(), x, before).push(sorted.last())
    } else {
        sorted.push(x)
    }
}

/// The items of `items` in ascending order of `before`; items of which
/// neither sorts before the other keep the order they came in.
pub open spec fn stable_sort_by<T>(items: Seq<T>, before: spec_fn(T, T) -> bool) -> Seq<T>
    decreases items.len(),
{
    if items.len() == 0 {
        items
    } else {
        insert_sorted(stable_sort_by(items.drop_last(), before), items.last(), before)
    }
}

/// No item sorts before an item that stands earlier.
pub open spec fn sorted_by<T>(items: Seq<T>, before: spec_fn(T, T) -> bool) -> bool {
    forall|i: int, j: int| 0 <= i < j < items.len() ==> !before(#[trigger] items[j], #[trigger] items[i])
}

/// `before` is a strict weak order: nothing sorts before itself, it is
/// transitive, and so is "neither sorts before the other".
pub open spec fn strict_weak_order<T>(before: spec_fn(T, T) -> bool) -> bool {
    &&& forall|a: T| !#[trigger] before(a, a)
    &&& forall|a: T, b: T, c: T| #[trigger] before(a, b) && #[trigger] before(b, c) ==> before(a, c)
    &&& forall|a: T, b: T, c: T|
        !#[trigger] before(a, b) && !#[trigger] before(b, c) ==> !before(a, c)
}

/// `before` is a strict weak order among the items of `items`: none of
/// them sorts before itself, and among them `before` is transitive, and so
/// is "neither sorts before the other".
pub open spec fn strict_weak_order_on<T>(items: Seq<T>, before: spec_fn(T, T) -> bool) -> bool {
    &&& forall|i: int| 0 <= i < items.len() ==> !#[trigger] before(items[i], items[i])
    &&& forall|i: int, j: int, k: int|
        #![trigger before(items[i], items[j]), before(items[j], items[k])]
        0 <= i < items.len() && 0 <= j < items.len() && 0 <= k < items.len() && before(
            items[i],
            items[j],
        ) && before(items[j], items[k]) ==> before(items[i], items[k])
    &&& forall|i: int, j: int, k: int|
        #![trigger before(items[i], items[j]), before(items[j], items[k])]
        0 <= i < items.len() && 0 <= j < items.len() && 0 <= k < items.len() && !before(
            items[i],
            items[j],
        ) && !before(items[j], items[k]) ==> !before(items[i], items[k])
}

/// Putting an item in keeps the items: the result holds what was there and
/// the new item, and nothing else.
pub proof fn lemma_insert_sorted_items<T>(sorted: Seq<T>, x: T, before: spec_fn(T, T) -> bool)
    ensures
        insert_sorted(sorted, x, before).to_multiset() == sorted.to_multiset().insert(x),
        insert_sorted(sorted, x, before).len() == sorted.len() + 1,
    decreases sorted.len(),
{
    broadcast use vstd::seq_lib::group_to_multiset_ensures;

    if sorted.len() > 0 && before(x, sorted.last()) {
        lemma_insert_sorted_items(sorted.drop_last(), x, before);
        assert(sorted.drop_last().push(sorted.last()) =~= sorted);
        assert(insert_sorted(sorted, x, before).to_multiset() =~= sorted.to_multiset().insert(x));
    }
}

/// Sorting keeps the items: the result is a rearrangement of what was given.
pub proof fn lemma_stable_sort_items<T>(items: Seq<T>, before: spec_fn(T, T) -> bool)
    ensures
        stable_sort_by(items, before).to_multiset() == items.to_multiset(),
        stable_sort_by(items, before).len() == items.len(),
    decreases items.len(),
{
    broadcast use vstd::seq_lib::group_to_multiset_ensures;

    if items.len() > 0 {
        lemma_stable_sort_items(items.drop_last(), before);
        lemma_insert_sorted_items(stable_sort_by(items.drop_last(), before), items.last(), before);
        assert(items.drop_last().push(items.last()) =~= items);
    }
}

/// Putting an item into a sorted sequence leaves it sorted.
pub proof fn lemma_insert_sorted_sorted<T>(sorted: Seq<T>, x: T, before: spec_fn(T, T) -> bool)
    requires
        strict_weak_order(before),
        sorted_by(sorted, before),
    ensures
        sorted_by(insert_sorted(sorted, x, before), before),
    decreases sorted.len(),
{
    let out = insert_sorted(sorted, x, before);
    if sorted.len() > 0 && before(x, sorted.last()) {
        let rest = sorted.drop_last();
        assert forall|i: int, j: int| 0 <= i < j < rest.len() implies !before(
            #[trigger] rest[j],
            #[trigger] rest[i],
        ) by {
            assert(rest[i] == sorted[i] && rest[j] == sorted[j]);
        }
        lemma_insert_sorted_sorted(rest, x, before);
        lemma_insert_sorted_items(rest, x, before);
        let inner = insert_sorted(rest, x, before);
        assert forall|i: int, j: int| 0 <= i < j < out.len() implies !before(
            #[trigger] out[j],
            #[trigger] out[i],
        ) by {
            if j < out.len() - 1 {
                assert(out[i] == inner[i] && out[j] == inner[j]);
            } else {
                assert(out[j] == sorted.last());
                assert(out[i] == inner[i]);
                broadcast use vstd::seq_lib::group_to_multiset_ensures;

                assert(inner.to_multiset().count(inner[i]) > 0);
                assert(rest.to_multiset().insert(x).count(inner[i]) > 0);
                if inner[i] == x {
                } else {
                    assert(rest.to_multiset().count(inner[i]) > 0);
                    assert(rest.contains(inner[i]));
                    let k = choose|k: int| 0 <= k < rest.len() && rest[k] == inner[i];
                    assert(sorted[k] == inner[i]);
                    assert(!before(sorted[sorted.len() - 1], sorted[k]));
                }
            }
        }
    } else {
        assert forall|i: int, j: int| 0 <= i < j < out.len() implies !before(
            #[trigger] out[j],
            #[trigger] out[i],
        ) by {
            if j < out.len() - 1 {
                assert(out[i] == sorted[i] && out[j] == sorted[j]);
            } else {
                assert(out[j] == x);
                assert(out[i] == sorted[i]);
                if sorted.len() > 0 {
                    if i < sorted.len() - 1 {
                        assert(!before(sorted[sorted.len() - 1], sorted[i]));
                    }
                }
            }
        }
    }
}

/// The result of sorting is sorted.
pub proof fn lemma_stable_sort_sorted<T>(items: Seq<T>, before: spec_fn(T, T) -> bool)
    requires
        strict_weak_order(before),
    ensures
        sorted_by(stable_sort_by(items, before), before),
    decreases items.len(),
{
    if items.len() > 0 {
        lemma_stable_sort_sorted(items.drop_last(), before);
        lemma_insert_sorted_sorted(stable_sort_by(items.drop_last(), before), items.last(), before);
    }
}


/// Of any two different items of `items`, one sorts before the other.
pub open spec fn decided_by<T>(items: Seq<T>, before: spec_fn(T, T) -> bool) -> bool {
    forall|i: int, j: int|
        0 <= i < items.len() && 0 <= j < items.len() && items[i] != items[j] ==> before(
            #[trigger] items[i],
            #[trigger] items[j],
        ) || before(items[j], items[i])
}

/// Two sorted arrangements of the same items are the same arrangement,
/// where the order decides between any two different items.
pub proof fn lemma_sorted_arrangement_unique<T>(a: Seq<T>, b: Seq<T>, before: spec_fn(T, T) -> bool)
    requires
        sorted_by(a, before),
        sorted_by(b, before),
        a.to_multiset() == b.to_multiset(),
        decided_by(a, before),
    ensures
        a == b,
    decreases a.len(),
{
    broadcast use vstd::seq_lib::group_to_multiset_ensures;

    assert(a.to_multiset().len() == a.len());
    assert(b.to_multiset().len() == b.len());
    if a.len() == 0 {
        assert(a =~= b);
    } else {
        let x = a.last();
        let y = b.last();
        assert(a.to_multiset().count(x) > 0);
        assert(b.contains(x));
        let j = choose|j: int| 0 <= j < b.len() && b[j] == x;
        assert(b.to_multiset().count(y) > 0);
        assert(a.contains(y));
        let i = choose|i: int| 0 <= i < a.len() && a[i] == y;
        if x != y {
            assert(!before(b[b.len() - 1], b[j]));
            assert(!before(a[a.len() - 1], a[i]));
            assert(before(a[a.len() - 1], a[i]) || before(a[i], a[a.len() - 1]));
            assert(false);
        }
        let a0 = a.drop_last();
        let b0 = b.drop_last();
        assert(a0 =~= a.remove(a.len() - 1));
        assert(b0 =~= b.remove(b.len() - 1));
        assert(a0.to_multiset() =~= b0.to_multiset());
        assert forall|i: int, j: int| 0 <= i < j < a0.len() implies !before(
            #[trigger] a0[j],
            #[trigger] a0[i],
        ) by {
            assert(a0[i] == a[i] && a0[j] == a[j]);
        }
        assert forall|i: int, j: int| 0 <= i < j < b0.len() implies !before(
            #[trigger] b0[j],
            #[trigger] b0[i],
        ) by {
            assert(b0[i] == b[i] && b0[j] == b[j]);
        }
        assert forall|i: int, j: int|
            0 <= i < a0.len() && 0 <= j < a0.len() && a0[i] != a0[j] implies before(
            #[trigger] a0[i],
            #[trigger] a0[j],
        ) || before(a0[j], a0[i]) by {
            assert(a0[i] == a[i] && a0[j] == a[j]);
        }
        lemma_sorted_arrangement_unique(a0, b0, before);
        assert(a =~= a0.push(x));
        assert(b =~= b0.push(y));
    }
}

/// Sorting gives the same result for any two arrangements of the same
/// items, where the order is a strict weak order that decides between any
/// two different items.
pub proof fn lemma_sort_ignores_arrangement<T>(a: Seq<T>, b: Seq<T>, before: spec_fn(T, T) -> bool)
    requires
        strict_weak_order(before),
        a.to_multiset() == b.to_multiset(),
        decided_by(a, before),
    ensures
        stable_sort_by(a, before) == stable_sort_by(b, before),
{
    broadcast use vstd::seq_lib::group_to_multiset_ensures;

    let sa = stable_sort_by(a, before);
    let sb = stable_sort_by(b, before);
    lemma_stable_sort_items(a, before);
    lemma_stable_sort_items(b, before);
    lemma_stable_sort_sorted(a, before);
    lemma_stable_sort_sorted(b, before);
    assert forall|i: int, j: int|
        0 <= i < sa.len() && 0 <= j < sa.len() && sa[i] != sa[j] implies before(
        #[trigger] sa[i],
        #[trigger] sa[j],
    ) || before(sa[j], sa[i]) by {
        assert(sa.to_multiset().count(sa[i]) > 0);
        assert(sa.to_multiset().count(sa[j]) > 0);
        assert(a.contains(sa[i]));
        assert(a.contains(sa[j]));
        let k = choose|k: int| 0 <= k < a.len() && a[k] == sa[i];
        let l = choose|l: int| 0 <= l < a.len() && a[l] == sa[j];
        assert(before(a[k], a[l]) || before(a[l], a[k]));
    }
    lemma_sorted_arrangement_unique(sa, sb, before);
}

} // verus!
