//! What the operating system said, as plain values.
//!
//! The caller asks the operating system and writes the answers down in
//! these types; the rules of the walk then work on the answers alone.

use crate::dir_entry::FileType;
use crate::error::IoError;
use vstd::prelude::*;

verus! {

/// What the operating system said about one child of a directory.
#[derive(Debug)]
pub struct RawDirEntry {
    /// The name of the child.
    pub file_name: Vec<u8>,
    /// The type of the child itself, links not followed, or why it could
    /// not be found out.
    pub file_type: Result<FileType, IoError>,
    /// The type of what the child leads to, links followed, or why it could
    /// not be found out. Asked for a symbolic link when links are followed;
    /// `None` where it was not asked.
    pub target_type: Option<Result<FileType, IoError>>,
    /// The canonical path of the child, or why it could not be resolved.
    /// Asked for a directory, reached through a link or not, when links are
    /// followed; `None` where it was not asked.
    pub canonical: Option<Result<Vec<u8>, IoError>>,
}

/// What the operating system said about the root path of a walk.
#[derive(Debug)]
pub struct RawRoot {
    /// The root path as it was given.
    pub path: Vec<u8>,
    /// The last component of the root path, or the whole path where it has
    /// none.
    pub file_name: Vec<u8>,
    /// The root path without its last component; empty where there is none.
    pub parent_path: Vec<u8>,
    /// The type of the root itself, links not followed, or why it could not
    /// be found out.
    pub file_type: Result<FileType, IoError>,
    /// The type of what the root leads to, links followed, or why it could
    /// not be found out. Asked when the root is a symbolic link; `None`
    /// where it was not asked.
    pub target_type: Option<Result<FileType, IoError>>,
    /// The canonical path of the root, where it was asked for and could be
    /// resolved.
    pub canonical: Option<Vec<u8>>,
}

} // verus!
