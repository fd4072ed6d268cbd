//! Entries of a walk.

use crate::bytes::{clone_bytes, join_path, spec_join};
use crate::client_state::ClientState;
use crate::error::{Error, ErrorView};
use crate::read_children::ReadChildren;
use crate::read_dir_spec::ReadDirSpec;
use crate::shared::share;
use std::sync::Arc;
use vstd::prelude::*;

verus! {

/// What kind of thing a path names.
#[derive(Clone, Copy, Debug, PartialEq, Eq, Structural)]
pub enum FileType {
    File,
    Dir,
    Symlink,
    Other,
}

impl FileType {
    /// Whether this is a directory.
    pub fn is_dir(&self) -> (dir: bool)
        ensures
            dir == (*self == FileType::Dir),
    {
        match self {
            FileType::Dir => true,
            _ => false,
        }
    }

    /// Whether this is a regular file.
    pub fn is_file(&self) -> (file: bool)
        ensures
            file == (*self == FileType::File),
    {
        match self {
            FileType::File => true,
            _ => false,
        }
    }

    /// Whether this is a symbolic link.
    pub fn is_symlink(&self) -> (symlink: bool)
        ensures
            symlink == (*self == FileType::Symlink),
    {
        match self {
            FileType::Symlink => true,
            _ => false,
        }
    }
}

/// A directory on the way from the root to an entry, kept to find cycles
/// when symbolic links are followed: the path by which the walk reached it
/// and, where it could be resolved, its canonical path.
#[derive(Debug)]
pub struct Ancestor {
    pub path: Vec<u8>,
    pub canonical: Option<Vec<u8>>,
}

/// An `Ancestor` as a mathematical value.
pub struct AncestorView {
    pub path: Seq<u8>,
    pub canonical: Option<Seq<u8>>,
}

impl View for Ancestor {
    type V = AncestorView;

    open spec fn view(&self) -> AncestorView {
        AncestorView {
            path: self.path@,
            canonical: match self.canonical {
                Some(c) => Some(c@),
                None => None,
            },
        }
    }
}

impl Clone for Ancestor {
    fn clone(&self) -> (copy: Ancestor)
        ensures
            copy@ == self@,
    {
        Ancestor {
            path: clone_bytes(&self.path),
            canonical: match &self.canonical {
                Some(c) => Some(clone_bytes(c)),
                None => None,
            },
        }
    }
}

/// The ancestors of a chain as mathematical values.
pub open spec fn ancestors_view(chain: Seq<Ancestor>) -> Seq<AncestorView> {
    chain.map_values(|a: Ancestor| a@)
}

/// One entry of the file system as the walk saw it.
#[derive(Debug)]
pub struct DirEntry<C: ClientState> {
    /// Depth of the entry; the root of the walk is at 0.
    pub depth: usize,
    /// Name of the entry without its directory.
    pub file_name: Vec<u8>,
    /// Type of the entry; of the target, where a symbolic link was followed.
    pub file_type: FileType,
    /// State that the client attached to the entry.
    pub client_state: C::DirEntryState,
    /// Path of the directory that holds the entry, shared by its siblings.
    pub parent_path: Arc<Vec<u8>>,
    /// Path to read the children from. Set for a directory that is to be
    /// descended into; a client sets it to `None` to prune the subtree.
    pub read_children_path: Option<Arc<Vec<u8>>>,
    /// The error of reading the children, if that was tried and failed.
    pub read_children_error: Option<Error>,
    /// Whether the entry was made by following a symbolic link.
    pub follow_link: bool,
    /// The directories between the root and this entry.
    pub follow_link_ancestors: Arc<Vec<Ancestor>>,
}

/// A `DirEntry` as a mathematical value, without the state of the client.
pub struct DirEntryView {
    pub depth: usize,
    pub file_name: Seq<u8>,
    pub file_type: FileType,
    pub parent_path: Seq<u8>,
    pub read_children_path: Option<Seq<u8>>,
    pub read_children_error: Option<ErrorView>,
    pub follow_link: bool,
    pub follow_link_ancestors: Seq<AncestorView>,
}

impl DirEntryView {
    /// The path of the entry: its name inside its parent directory.
    pub open spec fn path(self) -> Seq<u8> {
        spec_join(self.parent_path, self.file_name)
    }

    /// Whether the path of the entry is a symbolic link, followed or not.
    pub open spec fn path_is_symlink(self) -> bool {
        self.file_type == FileType::Symlink || self.follow_link
    }
}

impl<C: ClientState> View for DirEntry<C> {
    type V = DirEntryView;

    open spec fn view(&self) -> DirEntryView {
        DirEntryView {
            depth: self.depth,
            file_name: self.file_name@,
            file_type: self.file_type,
            parent_path: self.parent_path@,
            read_children_path: match self.read_children_path {
                Some(p) => Some(p@),
                None => None,
            },
            read_children_error: match self.read_children_error {
                Some(e) => Some(e@),
                None => None,
            },
            follow_link: self.follow_link,
            follow_link_ancestors: ancestors_view(self.follow_link_ancestors@),
        }
    }
}

impl<C: ClientState> DirEntry<C> {
    /// The type of the entry. Where the walk follows links and the entry is
    /// a symbolic link, this is the type of the target.
    pub fn file_type(&self) -> (file_type: FileType)
        ensures
            file_type == self@.file_type,
    {
        self.file_type
    }

    /// The name of the entry.
    pub fn file_name(&self) -> (name: &Vec<u8>)
        ensures
            name@ == self@.file_name,
    {
        &self.file_name
    }

    /// The depth of the entry; the root of the walk is at 0.
    pub fn depth(&self) -> (depth: usize)
        ensures
            depth == self@.depth,
    {
        self.depth
    }

    /// The path of the entry: its name joined to the path of its parent.
    pub fn path(&self) -> (path: Vec<u8>)
        ensures
            path@ == self@.path(),
    {
        join_path(&self.parent_path, &self.file_name)
    }

    /// Whether the entry was made from a symbolic link, whether or not the
    /// walk follows links.
    pub fn path_is_symlink(&self) -> (symlink: bool)
        ensures
            symlink == self@.path_is_symlink(),
    {
        self.file_type.is_symlink() || self.follow_link
    }

    /// The path of the directory that holds the entry.
    pub fn parent_path(&self) -> (parent: &Vec<u8>)
        ensures
            parent@ == self@.parent_path,
    {
        &self.parent_path
    }

    /// The request to read the children of the entry, with the given state
    /// of the client; `None` where the entry is not to be descended into.
    pub fn read_children_spec(&self, client_read_state: C::ReadDirState) -> (spec: Option<
        ReadDirSpec<C>,
    >)
        ensures
            spec.is_some() == self.read_children_path.is_some(),
            spec.is_some() ==> spec.unwrap() == (ReadDirSpec::<C> {
                depth: self.depth,
                path: self.read_children_path.unwrap(),
                client_read_state,
                follow_link_ancestors: self.follow_link_ancestors,
            }),
    {
        match &self.read_children_path {
            Some(path) => Some(
                ReadDirSpec {
                    depth: self.depth,
                    client_read_state,
                    path: share(path),
                    follow_link_ancestors: share(&self.follow_link_ancestors),
                },
            ),
            None => None,
        }
    }

    /// How the walk goes on below the entry: the path to read and the error
    /// of reading it, if any; `None` where the entry is not to be descended
    /// into.
    pub fn read_children(&self) -> (children: Option<ReadChildren>)
        ensures
            children.is_some() == self@.read_children_path.is_some(),
            children.is_some() ==> {
                &&& children.unwrap().path@ == self@.read_children_path.unwrap()
                &&& children.unwrap().error_view() == self@.read_children_error
            },
    {
        match &self.read_children_path {
            Some(path) => {
                let mut children = ReadChildren::new(path);
                children.error = match &self.read_children_error {
                    Some(e) => Some(e.clone()),
                    None => None,
                };
                Some(children)
            },
            None => None,
        }
    }
}


impl<C: ClientState> Clone for DirEntry<C> {
    fn clone(&self) -> (copy: DirEntry<C>)
        ensures
            copy@ == self@,
            cloned::<C::DirEntryState>(self.client_state, copy.client_state),
    {
        DirEntry {
            depth: self.depth,
            file_name: clone_bytes(&self.file_name),
            file_type: self.file_type,
            client_state: self.client_state.clone(),
            parent_path: share(&self.parent_path),
            read_children_path: match &self.read_children_path {
                Some(path) => Some(share(path)),
                None => None,
            },
            read_children_error: match &self.read_children_error {
                Some(error) => Some(error.clone()),
                None => None,
            },
            follow_link: self.follow_link,
            follow_link_ancestors: share(&self.follow_link_ancestors),
        }
    }
}

} // verus!
