//! What lies below a directory entry.

use crate::error::{Error, ErrorView};
use std::sync::Arc;
use vstd::prelude::*;

verus! {

/// How the walk goes on below a directory entry: where the children are
/// read from, and what became of reading them.
pub struct ReadChildren {
    /// Path to read the children from.
    pub path: Arc<Vec<u8>>,
    /// The error of reading the children, if that was tried and failed.
    pub error: Option<Error>,
}

impl ReadChildren {
    /// The children are to be read from `path`; nothing was tried yet.
    pub fn new(path: &Arc<Vec<u8>>) -> (children: ReadChildren)
        ensures
            children.path == *path,
            children.error.is_none(),
    {
        ReadChildren { path: crate::shared::share(path), error: None }
    }

    /// The error of reading the children as a mathematical value.
    pub open spec fn error_view(&self) -> Option<ErrorView> {
        match self.error {
            Some(e) => Some(e@),
            None => None,
        }
    }

    /// The error of reading the children, if that was tried and failed.
    pub fn error(&self) -> (error: Option<&Error>)
        ensures
            error.is_some() == self.error.is_some(),
            error.is_some() ==> *error.unwrap() == self.error.unwrap(),
    {
        self.error.as_ref()
    }
}

impl Clone for ReadChildren {
    fn clone(&self) -> (copy: ReadChildren)
        ensures
            copy.path == self.path,
            copy.error_view() == self.error_view(),
    {
        ReadChildren {
            path: crate::shared::share(&self.path),
            error: match &self.error {
                Some(error) => Some(error.clone()),
                None => None,
            },
        }
    }
}

} // verus!
