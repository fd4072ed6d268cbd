//! Sorting a batch the way people read names: `file2` before `file10`.
//!
//! A client that wants this order for a directory sorts the batch with
//! `sort_entries_alphanumeric` when it looks at it.

use crate::bytes::{bytes_before, bytes_less};
use crate::client_state::ClientState;
use crate::dir_entry::DirEntry;
use crate::error::Error;
use crate::sorting::{stable_sort_by, strict_weak_order_on};
use vstd::string::*;
use vstd::prelude::*;

verus! {

/// The text that `core::str::from_utf8` makes of `bytes`, if it makes one.
pub uninterp spec fn utf8_text(bytes: Seq<u8>) -> Option<Seq<char>>;

/// What `alphanumeric_sort::compare_str` says of two texts: a negative
/// number where the first sorts before the second, zero where neither sorts
/// before the other, a positive number where the second sorts before the
/// first.
pub uninterp spec fn alphanumeric_order(a: Seq<char>, b: Seq<char>) -> int;

/// `core::str::from_utf8`: the bytes as text, where they are UTF-8. The
/// text is made of the very bytes that were given.
#[verifier::external_body]
fn text_of(bytes: &[u8]) -> (text: Option<&str>)
    ensures
        match text {
            Some(t) => utf8_text(bytes@) == Some(t@) && t.spec_bytes() == bytes@,
            None => utf8_text(bytes@).is_none(),
        },
{
    core::str::from_utf8(bytes).ok()
}

/// `alphanumeric_sort::compare_str`: the order of two texts, as -1, 0 or 1.
#[verifier::external_body]
fn compare_text(a: &str, b: &str) -> (order: i8)
    ensures
        order == alphanumeric_order(a@, b@),
{
    match alphanumeric_sort::compare_str(a, b) {
        core::cmp::Ordering::Less => -1,
        core::cmp::Ordering::Equal => 0,
        core::cmp::Ordering::Greater => 1,
    }
}

/// The alphanumeric order of names: that of their texts, where both names
/// are text; else the order of their bytes.
pub open spec fn alphanumeric_before(a: Seq<u8>, b: Seq<u8>) -> bool {
    match (utf8_text(a), utf8_text(b)) {
        (Some(x), Some(y)) => alphanumeric_order(x, y) < 0,
        _ => bytes_before(a, b),
    }
}

/// Whether the name `a` comes before the name `b` in alphanumeric order.
pub fn alphanumeric_less(a: &Vec<u8>, b: &Vec<u8>) -> (less: bool)
    ensures
        less == alphanumeric_before(a@, b@),
{
    match (text_of(a.as_slice()), text_of(b.as_slice())) {
        (Some(x), Some(y)) => compare_text(x, y) < 0,
        _ => bytes_less(a, b),
    }
}

/// The alphanumeric order of a batch: entries by name, and every entry
/// before every error.
pub open spec fn entry_alphanumeric_before<C: ClientState>(
    a: Result<DirEntry<C>, Error>,
    b: Result<DirEntry<C>, Error>,
) -> bool {
    match (a, b) {
        (Ok(a), Ok(b)) => alphanumeric_before(a.file_name@, b.file_name@),
        (Ok(_), Err(_)) => true,
        _ => false,
    }
}

/// The alphanumeric order of a batch, as a relation.
pub open spec fn alphanumeric_entry_order<C: ClientState>() -> spec_fn(
    Result<DirEntry<C>, Error>,
    Result<DirEntry<C>, Error>,
) -> bool {
    |a: Result<DirEntry<C>, Error>, b: Result<DirEntry<C>, Error>| entry_alphanumeric_before(a, b)
}

/// Whether `a` belongs before `b` in a batch in alphanumeric order.
pub fn entry_alphanumeric_precedes<C: ClientState>(
    a: &Result<DirEntry<C>, Error>,
    b: &Result<DirEntry<C>, Error>,
) -> (before: bool)
    ensures
        before == entry_alphanumeric_before(*a, *b),
{
    match (a, b) {
        (Ok(a), Ok(b)) => alphanumeric_less(&a.file_name, &b.file_name),
        (Ok(_), Err(_)) => true,
        _ => false,
    }
}

/// How `a` stands to `b` in a batch in alphanumeric order: before it,
/// behind it, or neither.
pub fn entry_alphanumeric_order_between<C: ClientState>(
    a: &Result<DirEntry<C>, Error>,
    b: &Result<DirEntry<C>, Error>,
) -> (order: core::cmp::Ordering)
    ensures
        order == if entry_alphanumeric_before(*a, *b) {
            core::cmp::Ordering::Less
        } else if entry_alphanumeric_before(*b, *a) {
            core::cmp::Ordering::Greater
        } else {
            core::cmp::Ordering::Equal
        },
{
    if entry_alphanumeric_precedes(a, b) {
        core::cmp::Ordering::Less
    } else if entry_alphanumeric_precedes(b, a) {
        core::cmp::Ordering::Greater
    } else {
        core::cmp::Ordering::Equal
    }
}

/// `rayon`'s `par_sort_by`, with `entry_alphanumeric_order_between`
/// deciding the order: the batch is rearranged, and where the order is a
/// strict weak order among the items of the batch the result is the
/// stable sort of the batch.
#[verifier::external_body]
fn par_sort_alphanumeric<C: ClientState>(results: &mut Vec<Result<DirEntry<C>, Error>>)
    ensures
        final(results)@.to_multiset() == old(results)@.to_multiset(),
        strict_weak_order_on(old(results)@, alphanumeric_entry_order::<C>()) ==> final(results)@
            == stable_sort_by(old(results)@, alphanumeric_entry_order::<C>()),
{
    rayon::slice::ParallelSliceMut::par_sort_by(
        results.as_mut_slice(),
        |a, b| entry_alphanumeric_order_between(a, b),
    )
}

/// Sorts a batch in alphanumeric order, on the threads of the pool that
/// the caller runs in: entries by name, then the errors.
///
/// The batch is rearranged. It is the stable sort of the batch where the
/// alphanumeric order is a strict weak order among its items. That is not
/// so of every batch: the order of texts and the order of bytes need not
/// agree, so that among names of which some are text and some are not, one
/// may sort before a second, the second before a third and the third
/// before the first. Of such a batch only the rearrangement is promised.
pub fn sort_entries_alphanumeric<C: ClientState>(results: &mut Vec<Result<DirEntry<C>, Error>>)
    ensures
        final(results)@.to_multiset() == old(results)@.to_multiset(),
        strict_weak_order_on(old(results)@, alphanumeric_entry_order::<C>()) ==> final(results)@
            == stable_sort_by(old(results)@, alphanumeric_entry_order::<C>()),
{
    par_sort_alphanumeric(results);
}

/// No entry of `results` has a name that is text.
pub open spec fn without_text<C: ClientState>(results: Seq<Result<DirEntry<C>, Error>>) -> bool {
    forall|i: int|
        0 <= i < results.len() ==> (#[trigger] results[i] matches Ok(entry) ==> utf8_text(
            entry.file_name@,
        ).is_none())
}

/// Among entries whose names are not text the alphanumeric order is the
/// order of bytes, and so a strict weak order: such a batch is sorted
/// stably.
pub proof fn lemma_alphanumeric_order_without_text<C: ClientState>(
    results: Seq<Result<DirEntry<C>, Error>>,
)
    requires
        without_text(results),
    ensures
        strict_weak_order_on(results, alphanumeric_entry_order::<C>()),
{
    let before = alphanumeric_entry_order::<C>();
    assert forall|i: int| 0 <= i < results.len() implies !#[trigger] before(
        results[i],
        results[i],
    ) by {
        if let Ok(entry) = results[i] {
            crate::bytes::lemma_bytes_before_irreflexive(entry.file_name@);
        }
    }
    assert forall|i: int, j: int, k: int|
        #![trigger before(results[i], results[j]), before(results[j], results[k])]
        0 <= i < results.len() && 0 <= j < results.len() && 0 <= k < results.len() && before(
            results[i],
            results[j],
        ) && before(results[j], results[k]) implies before(results[i], results[k]) by {
        if let (Ok(x), Ok(y), Ok(z)) = (results[i], results[j], results[k]) {
            crate::bytes::lemma_bytes_before_transitive(x.file_name@, y.file_name@, z.file_name@);
        }
    }
    assert forall|i: int, j: int, k: int|
        #![trigger before(results[i], results[j]), before(results[j], results[k])]
        0 <= i < results.len() && 0 <= j < results.len() && 0 <= k < results.len() && !before(
            results[i],
            results[j],
        ) && !before(results[j], results[k]) implies !before(results[i], results[k]) by {
        if let (Ok(x), Ok(y), Ok(z)) = (results[i], results[j], results[k]) {
            let (a, b, c) = (x.file_name@, y.file_name@, z.file_name@);
            crate::bytes::lemma_bytes_before_total(a, b);
            crate::bytes::lemma_bytes_before_total(b, c);
            if bytes_before(a, c) {
                if a == b {
                } else if b == c {
                } else {
                    crate::bytes::lemma_bytes_before_transitive(c, b, a);
                    crate::bytes::lemma_bytes_before_transitive(a, c, a);
                    crate::bytes::lemma_bytes_before_irreflexive(a);
                }
            }
        }
    }
}

} // verus!
