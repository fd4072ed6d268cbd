//! The options of a walk and the builder that collects them.

use crate::client_state::ClientState;
use crate::shared::share;
use std::sync::Arc;
use std::time::Duration;
use vstd::prelude::*;

verus! {

/// `rayon::ThreadPool`, a pool of worker threads.
#[verifier::external_type_specification]
#[verifier::external_body]
pub struct ExThreadPool(rayon::ThreadPool);

/// `Duration::from_secs`: a span of that many whole seconds.
pub assume_specification[ Duration::from_secs ](secs: u64) -> (span: Duration);

/// Where the directories of a walk are read.
#[allow(inconsistent_fields)]
pub enum Parallelism {
    /// On the thread that consumes the walk.
    Serial,
    /// In the default thread pool. The walk fails as busy when the pool
    /// does not start it within `busy_timeout`.
    RayonDefaultPool { busy_timeout: Duration },
    /// In a thread pool that exists already. With a `busy_timeout` the walk
    /// fails as busy when the pool does not start it within that time.
    RayonExistingPool { pool: Arc<rayon::ThreadPool>, busy_timeout: Option<Duration> },
    /// In a new thread pool with this many threads.
    RayonNewPool(usize),
}

impl Parallelism {
    /// Whether directories are read on the consuming thread.
    pub fn is_serial(&self) -> (serial: bool)
        ensures
            serial == (*self is Serial),
    {
        match self {
            Parallelism::Serial => true,
            _ => false,
        }
    }

    /// How long the walk waits for its pool to start it, if it waits at
    /// all.
    pub fn timeout(&self) -> (timeout: Option<Duration>)
        ensures
            timeout == match *self {
                Parallelism::Serial => None::<Duration>,
                Parallelism::RayonDefaultPool { busy_timeout } => Some(busy_timeout),
                Parallelism::RayonExistingPool { busy_timeout, .. } => busy_timeout,
                Parallelism::RayonNewPool(_) => None::<Duration>,
            },
    {
        match self {
            Parallelism::Serial => None,
            Parallelism::RayonDefaultPool { busy_timeout } => Some(*busy_timeout),
            Parallelism::RayonExistingPool { busy_timeout, .. } => *busy_timeout,
            Parallelism::RayonNewPool(_) => None,
        }
    }
}

impl Clone for Parallelism {
    fn clone(&self) -> (copy: Parallelism)
        ensures
            copy == *self,
    {
        match self {
            Parallelism::Serial => Parallelism::Serial,
            Parallelism::RayonDefaultPool { busy_timeout } => Parallelism::RayonDefaultPool {
                busy_timeout: *busy_timeout,
            },
            Parallelism::RayonExistingPool { pool, busy_timeout } => Parallelism::RayonExistingPool {
                pool: share(pool),
                busy_timeout: *busy_timeout,
            },
            Parallelism::RayonNewPool(threads) => Parallelism::RayonNewPool(*threads),
        }
    }
}

/// A builder for a walk of a client that carries no state.
pub type WalkDir = WalkDirGeneric<((), ())>;

/// The options of a walk.
pub struct WalkDirOptions<C: ClientState> {
    /// Sort the entries of each directory by name.
    pub sort: bool,
    /// Entries above this depth are read but not yielded.
    pub min_depth: usize,
    /// Directories at or below this depth are not descended into.
    pub max_depth: usize,
    /// Leave out entries whose name starts with a dot.
    pub skip_hidden: bool,
    /// Follow symbolic links and watch for cycles.
    pub follow_links: bool,
    /// Where the directories are read.
    pub parallelism: Parallelism,
    /// The state of the client for the read of the root.
    pub root_read_dir_state: C::ReadDirState,
}

/// A builder for a walk below a root path, for a client that carries state
/// of type `C`.
pub struct WalkDirGeneric<C: ClientState> {
    root: Vec<u8>,
    options: WalkDirOptions<C>,
}

impl<C: ClientState> WalkDirGeneric<C> {
    /// The root path of the walk, as a mathematical value.
    pub closed spec fn spec_root(&self) -> Seq<u8> {
        self.root@
    }

    /// The options of the walk, as a mathematical value.
    pub closed spec fn spec_options(&self) -> WalkDirOptions<C> {
        self.options
    }

    /// A walk below `root` with the default options: nothing sorted, every
    /// depth yielded and descended, hidden entries skipped, links not
    /// followed, the default thread pool, which gets one second to start
    /// the walk, and the default state of the client.
    pub fn new(root: Vec<u8>) -> (walk: WalkDirGeneric<C>)
        ensures
            walk.spec_root() == root@,
            !walk.spec_options().sort,
            walk.spec_options().min_depth == 0,
            walk.spec_options().max_depth == usize::MAX,
            walk.spec_options().skip_hidden,
            !walk.spec_options().follow_links,
            walk.spec_options().parallelism is RayonDefaultPool,
            C::ReadDirState::default.ensures((), walk.spec_options().root_read_dir_state),
    {
        WalkDirGeneric {
            root,
            options: WalkDirOptions {
                sort: false,
                min_depth: 0,
                max_depth: usize::MAX,
                skip_hidden: true,
                follow_links: false,
                parallelism: Parallelism::RayonDefaultPool { busy_timeout: Duration::from_secs(1) },
                root_read_dir_state: C::ReadDirState::default(),
            },
        }
    }

    /// The root path of the walk.
    pub fn root(&self) -> (root: &Vec<u8>)
        ensures
            root@ == self.spec_root(),
    {
        &self.root
    }

    /// The options of the walk.
    pub fn options(&self) -> (options: &WalkDirOptions<C>)
        ensures
            *options == self.spec_options(),
    {
        &self.options
    }

    /// Gives up the builder for its root path and its options.
    pub fn into_parts(self) -> (parts: (Vec<u8>, WalkDirOptions<C>))
        ensures
            parts.0@ == self.spec_root(),
            parts.1 == self.spec_options(),
    {
        (self.root, self.options)
    }

    /// Sets whether the entries of each directory are sorted by name.
    pub fn sort(self, sort: bool) -> (walk: WalkDirGeneric<C>)
        ensures
            walk.spec_root() == self.spec_root(),
            walk.spec_options() == (WalkDirOptions { sort, ..self.spec_options() }),
    {
        let mut walk = self;
        walk.options.sort = sort;
        walk
    }

    /// Sets the depth above which entries are read but not yielded.
    pub fn min_depth(self, depth: usize) -> (walk: WalkDirGeneric<C>)
        ensures
            walk.spec_root() == self.spec_root(),
            walk.spec_options() == (WalkDirOptions { min_depth: depth, ..self.spec_options() }),
    {
        let mut walk = self;
        walk.options.min_depth = depth;
        walk
    }

    /// Sets the depth at and below which directories are not descended
    /// into. With a depth of 1 only the root is read, and the walk becomes
    /// serial.
    pub fn max_depth(self, depth: usize) -> (walk: WalkDirGeneric<C>)
        ensures
            walk.spec_root() == self.spec_root(),
            walk.spec_options() == (WalkDirOptions {
                max_depth: depth,
                parallelism: if depth == 1 {
                    Parallelism::Serial
                } else {
                    self.spec_options().parallelism
                },
                ..self.spec_options()
            }),
    {
        let mut walk = self;
        walk.options.max_depth = depth;
        if depth == 1 {
            walk.options.parallelism = Parallelism::Serial;
        }
        walk
    }

    /// Sets whether entries whose name starts with a dot are left out.
    pub fn skip_hidden(self, skip_hidden: bool) -> (walk: WalkDirGeneric<C>)
        ensures
            walk.spec_root() == self.spec_root(),
            walk.spec_options() == (WalkDirOptions { skip_hidden, ..self.spec_options() }),
    {
        let mut walk = self;
        walk.options.skip_hidden = skip_hidden;
        walk
    }

    /// Sets whether symbolic links are followed.
    pub fn follow_links(self, follow_links: bool) -> (walk: WalkDirGeneric<C>)
        ensures
            walk.spec_root() == self.spec_root(),
            walk.spec_options() == (WalkDirOptions { follow_links, ..self.spec_options() }),
    {
        let mut walk = self;
        walk.options.follow_links = follow_links;
        walk
    }

    /// Sets where the directories are read.
    pub fn parallelism(self, parallelism: Parallelism) -> (walk: WalkDirGeneric<C>)
        ensures
            walk.spec_root() == self.spec_root(),
            walk.spec_options() == (WalkDirOptions { parallelism, ..self.spec_options() }),
    {
        let mut walk = self;
        walk.options.parallelism = parallelism;
        walk
    }

    /// Sets the state of the client for the read of the root.
    pub fn root_read_dir_state(self, state: C::ReadDirState) -> (walk: WalkDirGeneric<C>)
        ensures
            walk.spec_root() == self.spec_root(),
            walk.spec_options() == (WalkDirOptions {
                root_read_dir_state: state,
                ..self.spec_options()
            }),
    {
        let mut walk = self;
        walk.options.root_read_dir_state = state;
        walk
    }
}

impl<C: ClientState> Clone for WalkDirOptions<C> {
    fn clone(&self) -> (copy: WalkDirOptions<C>)
        ensures
            copy.sort == self.sort,
            copy.min_depth == self.min_depth,
            copy.max_depth == self.max_depth,
            copy.skip_hidden == self.skip_hidden,
            copy.follow_links == self.follow_links,
            copy.parallelism == self.parallelism,
            cloned::<C::ReadDirState>(self.root_read_dir_state, copy.root_read_dir_state),
    {
        WalkDirOptions {
            sort: self.sort,
            min_depth: self.min_depth,
            max_depth: self.max_depth,
            skip_hidden: self.skip_hidden,
            follow_links: self.follow_links,
            parallelism: self.parallelism.clone(),
            root_read_dir_state: self.root_read_dir_state.clone(),
        }
    }
}

} // verus!
