//! The entry for the root of a walk.

use crate::bytes::clone_bytes;
use crate::client_state::ClientState;
use crate::dir_entry::{ancestors_view, Ancestor, AncestorView, DirEntry, DirEntryView, FileType};
use crate::error::{Error, ErrorView};
use crate::listing::{option_view, path_error, result_view};
use crate::raw::RawRoot;
use crate::walk_dir::WalkDirOptions;
use std::sync::Arc;
use vstd::prelude::*;

verus! {

/// What the root of a walk becomes: the entry at depth 0, or the error that
/// is yielded in its place.
///
/// A root whose type cannot be found out becomes an error. A root that is a
/// symbolic link takes the type of what it leads to where links are
/// followed, is then marked as followed, and becomes an error if what it
/// leads to cannot be found out. A root that
/// is a directory, or a link that leads to one, is to be descended into
/// unless the maximum depth is 0. Where links are followed and the root is
/// a directory, it starts the chain of ancestors.
pub open spec fn root_view(raw: RawRoot, follow_links: bool, max_depth: usize) -> Result<
    DirEntryView,
    ErrorView,
> {
    match raw.file_type {
        Err(e) => Err(path_error(0, raw.path@, e)),
        Ok(link_type) => {
            let is_symlink = link_type == FileType::Symlink;
            match raw.target_type {
                Some(Err(e)) if is_symlink && follow_links => Err(path_error(0, raw.path@, e)),
                _ => {
                    let file_type = match raw.target_type {
                        Some(Ok(target)) if is_symlink && follow_links => target,
                        _ => link_type,
                    };
                    let leads_to_dir = file_type == FileType::Dir || (is_symlink
                        && raw.target_type matches Some(Ok(FileType::Dir)));
                    Ok(
                        DirEntryView {
                            depth: 0,
                            file_name: raw.file_name@,
                            file_type,
                            parent_path: raw.parent_path@,
                            read_children_path: if leads_to_dir && 0 < max_depth {
                                Some(raw.path@)
                            } else {
                                None
                            },
                            read_children_error: None,
                            follow_link: is_symlink && follow_links,
                            follow_link_ancestors: if follow_links && file_type == FileType::Dir {
                                seq![
                                    AncestorView {
                                        path: raw.path@,
                                        canonical: option_view(raw.canonical),
                                    },
                                ]
                            } else {
                                Seq::empty()
                            },
                        },
                    )
                },
            }
        },
    }
}

/// The entry for the root of a walk, from what the operating system said
/// about the root path, with the default state of the client.
pub fn create_root_entry<C: ClientState>(raw: &RawRoot, options: &WalkDirOptions<C>) -> (result:
    Result<DirEntry<C>, Error>)
    ensures
        result_view(result) == root_view(*raw, options.follow_links, options.max_depth),
        result is Ok ==> C::DirEntryState::default.ensures((), result->Ok_0.client_state),
{
    let link_type = match &raw.file_type {
        Err(e) => {
            return Err(Error::from_path(0, clone_bytes(&raw.path), e.clone()));
        },
        Ok(link_type) => *link_type,
    };
    let is_symlink = link_type.is_symlink();
    let mut file_type = link_type;
    let mut target_is_dir = false;
    match &raw.target_type {
        Some(Err(e)) => {
            if is_symlink && options.follow_links {
                return Err(Error::from_path(0, clone_bytes(&raw.path), e.clone()));
            }
        },
        Some(Ok(target)) => {
            target_is_dir = target.is_dir();
            if is_symlink && options.follow_links {
                file_type = *target;
            }
        },
        None => {},
    }
    let leads_to_dir = file_type.is_dir() || (is_symlink && target_is_dir);
    let read_children_path = if leads_to_dir && 0 < options.max_depth {
        Some(Arc::new(clone_bytes(&raw.path)))
    } else {
        None
    };
    let mut chain: Vec<Ancestor> = Vec::new();
    assert(ancestors_view(chain@) =~= Seq::empty());
    if options.follow_links && file_type.is_dir() {
        let ancestor = Ancestor {
            path: clone_bytes(&raw.path),
            canonical: match &raw.canonical {
                Some(c) => Some(clone_bytes(c)),
                None => None,
            },
        };
        chain.push(ancestor);
        assert(ancestors_view(chain@) =~= seq![ancestor@]);
    }
    Ok(
        DirEntry {
            depth: 0,
            file_name: clone_bytes(&raw.file_name),
            file_type,
            client_state: C::DirEntryState::default(),
            parent_path: Arc::new(clone_bytes(&raw.parent_path)),
            read_children_path,
            read_children_error: None,
            follow_link: is_symlink && options.follow_links,
            follow_link_ancestors: Arc::new(chain),
        },
    )
}

} // verus!
