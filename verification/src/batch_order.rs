//! The order of a sorted batch.

use crate::bytes::{bytes_before, bytes_less};
use crate::client_state::ClientState;
use crate::dir_entry::{DirEntry, DirEntryView};
use crate::error::{Error, ErrorView};
use crate::listing::{result_view, results_view};
use crate::sorting::{insert_sorted, stable_sort_by};
use vstd::prelude::*;

verus! {

/// The order of a sorted batch: entries by name, bytewise, and every entry
/// before every error.
pub open spec fn sorts_before(
    a: Result<DirEntryView, ErrorView>,
    b: Result<DirEntryView, ErrorView>,
) -> bool {
    match (a, b) {
        (Ok(a), Ok(b)) => bytes_before(a.file_name, b.file_name),
        (Ok(_), Err(_)) => true,
        _ => false,
    }
}

/// The order of a sorted batch, on the entries and errors themselves.
pub open spec fn entry_sorts_before<C: ClientState>(
    a: Result<DirEntry<C>, Error>,
    b: Result<DirEntry<C>, Error>,
) -> bool {
    sorts_before(result_view(a), result_view(b))
}

/// The order of a sorted batch, as a relation on mathematical values.
pub open spec fn view_order() -> spec_fn(
    Result<DirEntryView, ErrorView>,
    Result<DirEntryView, ErrorView>,
) -> bool {
    |a: Result<DirEntryView, ErrorView>, b: Result<DirEntryView, ErrorView>| sorts_before(a, b)
}

/// The order of a sorted batch, as a relation on entries and errors.
pub open spec fn entry_order<C: ClientState>() -> spec_fn(
    Result<DirEntry<C>, Error>,
    Result<DirEntry<C>, Error>,
) -> bool {
    |a: Result<DirEntry<C>, Error>, b: Result<DirEntry<C>, Error>| entry_sorts_before(a, b)
}

/// Whether `a` belongs before `b` in a sorted batch.
pub fn entry_precedes<C: ClientState>(
    a: &Result<DirEntry<C>, Error>,
    b: &Result<DirEntry<C>, Error>,
) -> (before: bool)
    ensures
        before == entry_sorts_before(*a, *b),
{
    match (a, b) {
        (Ok(a), Ok(b)) => bytes_less(&a.file_name, &b.file_name),
        (Ok(_), Err(_)) => true,
        _ => false,
    }
}

/// How `a` stands to `b` in a sorted batch: before it, behind it, or
/// neither.
pub fn entry_order_between<C: ClientState>(
    a: &Result<DirEntry<C>, Error>,
    b: &Result<DirEntry<C>, Error>,
) -> (order: core::cmp::Ordering)
    ensures
        order == if entry_sorts_before(*a, *b) {
            core::cmp::Ordering::Less
        } else if entry_sorts_before(*b, *a) {
            core::cmp::Ordering::Greater
        } else {
            core::cmp::Ordering::Equal
        },
{
    if entry_precedes(a, b) {
        core::cmp::Ordering::Less
    } else if entry_precedes(b, a) {
        core::cmp::Ordering::Greater
    } else {
        core::cmp::Ordering::Equal
    }
}

/// `slice::sort_by`, with `entry_order_between` deciding the order: a
/// stable sort, so the result is the one arrangement in ascending order
/// that keeps items of which neither sorts before the other in the order
/// they had. The order is a strict weak order, as
/// `lemma_view_order_is_strict_weak` shows, which is what the sort asks of
/// it.
#[verifier::external_body]
fn sort_results<C: ClientState>(results: &mut Vec<Result<DirEntry<C>, Error>>)
    ensures
        final(results)@ == stable_sort_by(old(results)@, entry_order::<C>()),
{
    results.sort_by(|a, b| entry_order_between(a, b))
}

/// Sorts a batch: entries by name, bytewise, then the errors; entries of
/// one name and the errors keep the order they had.
pub fn sort_entries<C: ClientState>(results: &mut Vec<Result<DirEntry<C>, Error>>)
    ensures
        final(results)@ == stable_sort_by(old(results)@, entry_order::<C>()),
{
    sort_results(results);
}

/// Putting an entry into a sorted batch and taking mathematical values can
/// be done in either order.
proof fn lemma_insert_view<C: ClientState>(
    sorted: Seq<Result<DirEntry<C>, Error>>,
    x: Result<DirEntry<C>, Error>,
)
    ensures
        results_view(insert_sorted(sorted, x, entry_order::<C>())) == insert_sorted(
            results_view(sorted),
            result_view(x),
            view_order(),
        ),
    decreases sorted.len(),
{
    if sorted.len() > 0 && entry_order::<C>()(x, sorted.last()) {
        lemma_insert_view(sorted.drop_last(), x);
        assert(results_view(sorted).drop_last() =~= results_view(sorted.drop_last()));
        assert(results_view(insert_sorted(sorted, x, entry_order::<C>())) =~= insert_sorted(
            results_view(sorted),
            result_view(x),
            view_order(),
        ));
    } else {
        assert(results_view(sorted.push(x)) =~= results_view(sorted).push(result_view(x)));
    }
}

/// Sorting a batch and taking mathematical values can be done in either
/// order.
pub proof fn lemma_sort_view<C: ClientState>(results: Seq<Result<DirEntry<C>, Error>>)
    ensures
        results_view(stable_sort_by(results, entry_order::<C>())) == stable_sort_by(
            results_view(results),
            view_order(),
        ),
    decreases results.len(),
{
    if results.len() == 0 {
        assert(results_view(results) =~= Seq::empty());
    } else {
        lemma_sort_view(results.drop_last());
        lemma_insert_view(stable_sort_by(results.drop_last(), entry_order::<C>()), results.last());
        assert(results_view(results).drop_last() =~= results_view(results.drop_last()));
    }
}

/// The order of a sorted batch is a strict weak order.
pub proof fn lemma_view_order_is_strict_weak()
    ensures
        crate::sorting::strict_weak_order(view_order()),
{
    let before = view_order();
    assert forall|a: Result<DirEntryView, ErrorView>| !#[trigger] before(a, a) by {
        if let Ok(entry) = a {
            crate::bytes::lemma_bytes_before_irreflexive(entry.file_name);
        }
    }
    assert forall|
        a: Result<DirEntryView, ErrorView>,
        b: Result<DirEntryView, ErrorView>,
        c: Result<DirEntryView, ErrorView>,
    | #[trigger] before(a, b) && #[trigger] before(b, c) implies before(a, c) by {
        if let (Ok(x), Ok(y), Ok(z)) = (a, b, c) {
            crate::bytes::lemma_bytes_before_transitive(x.file_name, y.file_name, z.file_name);
        }
    }
    assert forall|
        a: Result<DirEntryView, ErrorView>,
        b: Result<DirEntryView, ErrorView>,
        c: Result<DirEntryView, ErrorView>,
    | !#[trigger] before(a, b) && !#[trigger] before(b, c) implies !before(a, c) by {
        if let (Ok(x), Ok(y), Ok(z)) = (a, b, c) {
            crate::bytes::lemma_bytes_before_total(x.file_name, y.file_name);
            crate::bytes::lemma_bytes_before_total(y.file_name, z.file_name);
            if bytes_before(x.file_name, z.file_name) {
                if x.file_name == y.file_name {
                } else if y.file_name == z.file_name {
                } else {
                    crate::bytes::lemma_bytes_before_transitive(
                        z.file_name,
                        y.file_name,
                        x.file_name,
                    );
                    crate::bytes::lemma_bytes_before_transitive(
                        x.file_name,
                        z.file_name,
                        x.file_name,
                    );
                    crate::bytes::lemma_bytes_before_irreflexive(x.file_name);
                }
            }
        }
    }
}

/// Every item of `results` is an entry, and no two of them have the same
/// name.
pub open spec fn distinct_entries(results: Seq<Result<DirEntryView, ErrorView>>) -> bool {
    &&& forall|i: int| 0 <= i < results.len() ==> (#[trigger] results[i]) is Ok
    &&& forall|i: int, j: int|
        0 <= i < j < results.len() ==> (#[trigger] results[i])->Ok_0.file_name != (
        #[trigger] results[j])->Ok_0.file_name
}

/// A sorted batch does not depend on the order in which the entries were
/// found: two batches that hold the same entries, all under different
/// names, are the same once they are sorted.
pub proof fn lemma_sorted_batch_ignores_order(
    a: Seq<Result<DirEntryView, ErrorView>>,
    b: Seq<Result<DirEntryView, ErrorView>>,
)
    requires
        a.to_multiset() == b.to_multiset(),
        distinct_entries(a),
    ensures
        stable_sort_by(a, view_order()) == stable_sort_by(b, view_order()),
{
    lemma_view_order_is_strict_weak();
    let before = view_order();
    assert forall|i: int, j: int|
        0 <= i < a.len() && 0 <= j < a.len() && a[i] != a[j] implies before(
        #[trigger] a[i],
        #[trigger] a[j],
    ) || before(a[j], a[i]) by {
        assert(a[i] is Ok && a[j] is Ok);
        if i < j {
            assert(a[i]->Ok_0.file_name != a[j]->Ok_0.file_name);
        } else if j < i {
            assert(a[j]->Ok_0.file_name != a[i]->Ok_0.file_name);
        }
        crate::bytes::lemma_bytes_before_total(a[i]->Ok_0.file_name, a[j]->Ok_0.file_name);
    }
    crate::sorting::lemma_sort_ignores_arrangement(a, b, before);
}

/// A sorted batch is in order: no item stands behind one that it sorts
/// before. And it holds what was found, no more and no less.
pub proof fn lemma_sorted_batch_is_sorted(results: Seq<Result<DirEntryView, ErrorView>>)
    ensures
        crate::sorting::sorted_by(stable_sort_by(results, view_order()), view_order()),
        stable_sort_by(results, view_order()).to_multiset() == results.to_multiset(),
{
    lemma_view_order_is_strict_weak();
    crate::sorting::lemma_stable_sort_sorted(results, view_order());
    crate::sorting::lemma_stable_sort_items(results, view_order());
}

} // verus!
