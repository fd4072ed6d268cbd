//! A directory walker that reads directories in any order and still yields
//! entries as one depth-first, pre-order stream.
//!
//! Everything that touches the operating system is left to the caller: this
//! crate holds the ordering machinery, the per-directory rules and the entry
//! iterator, each with a contract over a mathematical model.
//!
//! A walk goes like this. The caller asks the operating system about the
//! root path and hands the answers to [`create_root_entry`]. The entry
//! iterator, [`DirEntryIter`], is then stepped: it yields entries and, when
//! it meets a directory that is to be descended into, asks for the next
//! batch. The caller lists that directory, hands the listing to
//! [`read_dir`], lets the client look at the batch, and hands the batch to
//! the iterator. In a serial walk the requests come off the stack of a
//! [`ReadDirIter`]; in a parallel walk workers take them from a relaxed
//! [`OrderedQueueIter`] and the consumer takes the batches from a strict
//! one, which puts them back into pre-order.

pub mod alphanumeric;
pub mod batch_order;
pub mod bytes;
pub mod client_state;
pub mod dir_entry;
pub mod dir_entry_iter;
pub mod error;
pub mod index_path;
pub mod listing;
pub mod ordered;
pub mod ordered_matcher;
pub mod ordered_queue;
pub mod preorder;
pub mod raw;
pub mod read_children;
pub mod read_dir;
pub mod read_dir_iter;
pub mod read_dir_spec;
pub mod reverse;
pub mod root;
pub mod run_context;
pub mod shared;
pub mod sorting;
pub mod strict_order;
pub mod walk_dir;
pub mod whole_walk;

pub use crate::client_state::ClientState;
pub use crate::dir_entry::{DirEntry, FileType};
pub use crate::dir_entry_iter::{DirEntryIter, Step};
pub use crate::error::{Error, IoError, IoErrorKind};
pub use crate::index_path::IndexPath;
pub use crate::ordered::Ordered;
pub use crate::ordered_matcher::OrderedMatcher;
pub use crate::ordered_queue::{
    new_ordered_queue, OrderedQueue, OrderedQueueIter, QueueOrdering, TryNextError,
};
pub use crate::raw::{RawDirEntry, RawRoot};
pub use crate::read_children::ReadChildren;
pub use crate::read_dir::{
    read_children_specs_of, read_dir, read_dir_with, ProcessReadDir, ReadDir, Untouched,
};
pub use crate::root::create_root_entry;
pub use crate::read_dir_iter::{multi_threaded_walk_dir, start_parallel, ReadDirIter};
pub use crate::read_dir_spec::ReadDirSpec;
pub use crate::run_context::RunContext;
pub use crate::walk_dir::{Parallelism, WalkDir, WalkDirGeneric, WalkDirOptions};
