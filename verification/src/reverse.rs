//! Turning a vector round.

use vstd::prelude::*;

verus! {

/// The items of `items` in reverse order.
pub fn reversed<T>(items: Vec<T>) -> (reversed: Vec<T>)
    ensures
        reversed@ == items@.reverse(),
        reversed@.reverse() == items@,
{
    let mut items = items;
    let ghost all = items@;
    let mut reversed: Vec<T> = Vec::new();
    while items.len() > 0
        invariant
            items@.len() + reversed@.len() == all.len(),
            items@ == all.subrange(0, items@.len() as int),
            forall|k: int| 0 <= k < reversed@.len() ==> reversed@[k] == all[all.len() - 1 - k],
        decreases items.len(),
    {
        let item = items.pop().unwrap();
        reversed.push(item);
        assert(items@ =~= all.subrange(0, items@.len() as int));
    }
    assert(reversed@ =~= all.reverse());
    assert(reversed@.reverse() =~= all);
    reversed
}

} // verus!
