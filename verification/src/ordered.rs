//! The envelope that carries a value through the ordered queues.

use crate::index_path::IndexPath;
use vstd::prelude::*;

verus! {

/// A value together with its place in the tree of a walk and the number of
/// direct children of that place that will follow it through the queue.
pub struct Ordered<T> {
    pub value: T,
    pub index_path: IndexPath,
    pub child_count: usize,
}

/// An `Ordered` as a mathematical value.
pub struct OrderedView<T> {
    pub value: T,
    pub index_path: Seq<usize>,
    pub child_count: usize,
}

impl<T> View for Ordered<T> {
    type V = OrderedView<T>;

    open spec fn view(&self) -> OrderedView<T> {
        OrderedView {
            value: self.value,
            index_path: self.index_path@,
            child_count: self.child_count,
        }
    }
}

impl<T> Ordered<T> {
    /// Wraps `value` for the place `index_path`, announcing `child_count`
    /// children.
    pub fn new(value: T, index_path: IndexPath, child_count: usize) -> (ordered: Ordered<T>)
        ensures
            ordered@ == (OrderedView { value, index_path: index_path@, child_count }),
    {
        Ordered { value, index_path, child_count }
    }
}

impl<T> PartialEq for Ordered<T> {
    fn eq(&self, other: &Ordered<T>) -> (same: bool) {
        self.index_path == other.index_path
    }
}

impl<T> vstd::std_specs::cmp::PartialEqSpecImpl for Ordered<T> {
    open spec fn obeys_eq_spec() -> bool {
        true
    }

    open spec fn eq_spec(&self, other: &Ordered<T>) -> bool {
        self.index_path@ == other.index_path@
    }
}

} // verus!
