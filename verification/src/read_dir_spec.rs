//! The request to read one directory.

use crate::client_state::ClientState;
use crate::dir_entry::Ancestor;
use std::sync::Arc;
use vstd::prelude::*;

verus! {

/// A request to read one directory. The walk makes one for every directory
/// that it finds and is to descend into.
#[derive(Debug)]
pub struct ReadDirSpec<C: ClientState> {
    /// Depth of the directory to read; the root of the walk is at 0.
    pub depth: usize,
    /// Path of the directory to read.
    pub path: Arc<Vec<u8>>,
    /// State of the client as it was left when the parent of this directory
    /// was read.
    pub client_read_state: C::ReadDirState,
    /// The directories between the root and this one.
    pub follow_link_ancestors: Arc<Vec<Ancestor>>,
}

} // verus!
