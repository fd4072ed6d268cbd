//! The two kinds of state that a client carries through a walk.

use vstd::prelude::*;

verus! {

/// The state that a client of the walk carries along: one value with every
/// directory that is read, handed down from parent to child, and one value
/// with every entry.
pub trait ClientState: Send + Default + core::fmt::Debug + 'static {
    /// Travels with each request to read a directory.
    type ReadDirState: Clone + Send + Default + core::fmt::Debug + 'static;

    /// Travels with each entry.
    type DirEntryState: Clone + Send + Default + core::fmt::Debug + 'static;
}

impl<B, E> ClientState for (B, E) where
    B: Clone + Send + Default + core::fmt::Debug + 'static,
    E: Clone + Send + Default + core::fmt::Debug + 'static,
 {
    type ReadDirState = B;

    type DirEntryState = E;
}

} // verus!
