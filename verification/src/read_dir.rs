//! Reading one directory: from what the operating system listed to the
//! batch of entries that the walk yields for it.

use crate::batch_order::{
    distinct_entries, entry_order, lemma_sort_view, lemma_sorted_batch_ignores_order, sort_entries,
    view_order,
};
use crate::bytes::clone_bytes;
use crate::client_state::ClientState;
use crate::dir_entry::{ancestors_view, AncestorView, DirEntry, DirEntryView, FileType};
use crate::error::{Error, ErrorView, IoError};
use crate::index_path::IndexPath;
use crate::listing::{
    collect, lemma_collect_depth, lemma_collect_rearranged, path_error, read_dir_entries, resolve,
    result_depth, results_view, rules_of, ReadRules,
};
use crate::ordered::Ordered;
use crate::raw::{RawDirEntry, RawRoot};
use crate::read_dir_spec::ReadDirSpec;
use crate::root::root_view;
use crate::shared::share;
use crate::sorting::stable_sort_by;
use crate::walk_dir::WalkDirOptions;
use vstd::prelude::*;

verus! {

/// The result of reading one directory: the state of the client as the
/// read left it and, in the order in which they are to be yielded, the
/// entries that were found, each an entry or the error met in its place.
#[derive(Debug)]
pub struct ReadDir<C: ClientState> {
    pub read_dir_state: C::ReadDirState,
    pub results_list: Vec<Result<DirEntry<C>, Error>>,
}

/// The entries of a batch that the walk descends into, in the order of the
/// batch.
pub open spec fn descended<C: ClientState>(results: Seq<Result<DirEntry<C>, Error>>) -> Seq<
    DirEntry<C>,
>
    decreases results.len(),
{
    if results.len() == 0 {
        Seq::empty()
    } else {
        let rest = descended(results.drop_last());
        match results.last() {
            Ok(entry) => if entry.read_children_path.is_some() {
                rest.push(entry)
            } else {
                rest
            },
            Err(_) => rest,
        }
    }
}

/// The request to read below `entry` is `spec`, with a copy of `state`.
pub open spec fn requests<C: ClientState>(
    spec: ReadDirSpec<C>,
    entry: DirEntry<C>,
    state: C::ReadDirState,
) -> bool {
    &&& entry.read_children_path.is_some()
    &&& spec.depth == entry.depth
    &&& spec.path == entry.read_children_path.unwrap()
    &&& spec.follow_link_ancestors == entry.follow_link_ancestors
    &&& cloned::<C::ReadDirState>(state, spec.client_read_state)
}

/// The requests to read below the batch `results`: one for every entry
/// that is to be descended into, in the order of the batch, each with a
/// copy of `state`.
pub fn read_children_specs_of<C: ClientState>(
    results: &Vec<Result<DirEntry<C>, Error>>,
    state: &C::ReadDirState,
) -> (specs: Vec<ReadDirSpec<C>>)
    ensures
        specs@.len() == descended(results@).len(),
        forall|i: int|
            0 <= i < specs@.len() ==> requests(#[trigger] specs@[i], descended(results@)[i], *state),
{
    let mut specs: Vec<ReadDirSpec<C>> = Vec::new();
    let mut i: usize = 0;
    assert(results@.subrange(0, 0) =~= Seq::empty());
    while i < results.len()
        invariant
            i <= results.len(),
            specs@.len() == descended(results@.subrange(0, i as int)).len(),
            forall|k: int|
                0 <= k < specs@.len() ==> requests(
                    #[trigger] specs@[k],
                    descended(results@.subrange(0, i as int))[k],
                    *state,
                ),
        decreases results.len() - i,
    {
        assert(results@.subrange(0, i + 1).drop_last() =~= results@.subrange(0, i as int));
        match &results[i] {
            Ok(entry) => {
                match entry.read_children_spec(state.clone()) {
                    Some(spec) => {
                        specs.push(spec);
                    },
                    None => {},
                }
            },
            Err(_) => {},
        }
        i = i + 1;
    }
    assert(results@.subrange(0, i as int) =~= results@);
    specs
}

impl<C: ClientState> ReadDir<C> {
    /// The result of a read that left `read_dir_state` and found
    /// `results_list`.
    pub fn new(read_dir_state: C::ReadDirState, results_list: Vec<Result<DirEntry<C>, Error>>) -> (read_dir: ReadDir<C>)
        ensures
            read_dir.read_dir_state == read_dir_state,
            read_dir.results_list == results_list,
    {
        ReadDir { read_dir_state, results_list }
    }

    /// The requests to read below this batch: one for every entry that is
    /// to be descended into, in the order of the batch, each with a copy of
    /// the state that this read left.
    pub fn read_children_specs(&self) -> (specs: Vec<ReadDirSpec<C>>)
        ensures
            specs@.len() == descended(self.results_list@).len(),
            forall|i: int|
                0 <= i < specs@.len() ==> requests(
                    #[trigger] specs@[i],
                    descended(self.results_list@)[i],
                    self.read_dir_state,
                ),
    {
        read_children_specs_of(&self.results_list, &self.read_dir_state)
    }

    /// The requests to read below this batch, each in an envelope that
    /// places it below `index_path` at its position among the requests.
    pub fn ordered_read_children_specs(&self, index_path: &IndexPath) -> (ordered: Vec<
        Ordered<ReadDirSpec<C>>,
    >)
        ensures
            ordered@.len() == descended(self.results_list@).len(),
            forall|i: int|
                0 <= i < ordered@.len() ==> {
                    &&& requests(
                        (#[trigger] ordered@[i]).value,
                        descended(self.results_list@)[i],
                        self.read_dir_state,
                    )
                    &&& ordered@[i].index_path@ == index_path@.push(i as usize)
                    &&& ordered@[i].child_count == 0
                },
    {
        let mut specs = self.read_children_specs();
        let ghost all = specs@;
        let mut ordered: Vec<Ordered<ReadDirSpec<C>>> = Vec::new();
        // Envelopes are made back to front, so that each request can be
        // moved out of the end of `specs`.
        let mut reversed: Vec<Ordered<ReadDirSpec<C>>> = Vec::new();
        while specs.len() > 0
            invariant
                specs@.len() + reversed@.len() == all.len(),
                specs@ == all.subrange(0, specs@.len() as int),
                forall|k: int|
                    0 <= k < reversed@.len() ==> {
                        &&& (#[trigger] reversed@[k]).value == all[all.len() - 1 - k]
                        &&& reversed@[k].index_path@ == index_path@.push(
                            (all.len() - 1 - k) as usize,
                        )
                        &&& reversed@[k].child_count == 0
                    },
            decreases specs.len(),
        {
            let position: usize = specs.len() - 1;
            let spec = specs.pop().unwrap();
            reversed.push(Ordered::new(spec, index_path.adding(position), 0));
            assert(specs@ =~= all.subrange(0, specs@.len() as int));
        }
        while reversed.len() > 0
            invariant
                ordered@.len() + reversed@.len() == all.len(),
                forall|k: int|
                    0 <= k < reversed@.len() ==> {
                        &&& (#[trigger] reversed@[k]).value == all[all.len() - 1 - k]
                        &&& reversed@[k].index_path@ == index_path@.push(
                            (all.len() - 1 - k) as usize,
                        )
                        &&& reversed@[k].child_count == 0
                    },
                forall|k: int|
                    0 <= k < ordered@.len() ==> {
                        &&& (#[trigger] ordered@[k]).value == all[k]
                        &&& ordered@[k].index_path@ == index_path@.push(k as usize)
                        &&& ordered@[k].child_count == 0
                    },
            decreases reversed.len(),
        {
            let envelope = reversed.pop().unwrap();
            ordered.push(envelope);
        }
        ordered
    }
}

/// The batch that a read yields for a listing: what becomes of its items,
/// sorted if the walk sorts.
pub open spec fn batch(
    parent_path: Seq<u8>,
    depth: usize,
    chain: Seq<AncestorView>,
    listing: Seq<Result<RawDirEntry, IoError>>,
    rules: ReadRules,
    sort: bool,
) -> Seq<Result<DirEntryView, ErrorView>> {
    let collected = collect(parent_path, depth, chain, listing, rules);
    if sort {
        stable_sort_by(collected, view_order())
    } else {
        collected
    }
}

/// Reads the directory that `read_dir_spec` asks for, from what the
/// operating system listed.
///
/// Where the directory could not be opened, the result is the error of
/// that, with the path and the depth of the request. Otherwise it is the
/// batch of the listing, with the state of the client as the request
/// brought it and a default state in every entry.
pub fn read_dir<C: ClientState>(
    read_dir_spec: ReadDirSpec<C>,
    listing: &Result<Vec<Result<RawDirEntry, IoError>>, IoError>,
    options: &WalkDirOptions<C>,
) -> (result: Result<ReadDir<C>, Error>)
    requires
        read_dir_spec.depth < usize::MAX,
    ensures
        match *listing {
            Err(e) => result is Err && result->Err_0@ == path_error(
                read_dir_spec.depth,
                read_dir_spec.path@,
                e,
            ),
            Ok(items) => {
                &&& result is Ok
                &&& result->Ok_0.read_dir_state == read_dir_spec.client_read_state
                &&& results_view(result->Ok_0.results_list@) == batch(
                    read_dir_spec.path@,
                    (read_dir_spec.depth + 1) as usize,
                    ancestors_view(read_dir_spec.follow_link_ancestors@),
                    items@,
                    rules_of(*options),
                    options.sort,
                )
                &&& forall|i: int|
                    0 <= i < result->Ok_0.results_list@.len() ==> (
                    #[trigger] result->Ok_0.results_list@[i] matches Ok(entry)
                        ==> C::DirEntryState::default.ensures((), entry.client_state))
            },
        },
{
    match listing {
        Err(e) => Err(
            Error::from_path(read_dir_spec.depth, clone_bytes(&read_dir_spec.path), e.clone()),
        ),
        Ok(items) => {
            let mut results = read_dir_entries(&read_dir_spec, items, options);
            if options.sort {
                let ghost collected = results@;
                sort_entries(&mut results);
                proof {
                    lemma_sort_view(collected);
                    crate::sorting::lemma_stable_sort_items(collected, entry_order::<C>());
                    assert forall|i: int| 0 <= i < results@.len() implies (
                    #[trigger] results@[i] matches Ok(entry) ==> C::DirEntryState::default.ensures(
                        (),
                        entry.client_state,
                    )) by {
                        broadcast use vstd::seq_lib::group_to_multiset_ensures;

                        assert(results@.to_multiset().count(results@[i]) > 0);
                        assert(collected.contains(results@[i]));
                        let k = choose|k: int| 0 <= k < collected.len() && collected[k] == results@[i];
                        assert(collected[k] == results@[i]);
                    }
                }
            }
            Ok(ReadDir::new(read_dir_spec.client_read_state, results))
        },
    }
}

/// Every entry and every error of the batch of a directory is one level
/// below the directory: at the depth that the read was made for. And the
/// root of a walk is at depth 0.
pub proof fn lemma_batch_depth(
    parent_path: Seq<u8>,
    depth: usize,
    chain: Seq<AncestorView>,
    listing: Seq<Result<RawDirEntry, IoError>>,
    rules: ReadRules,
    sort: bool,
    raw_root: RawRoot,
)
    ensures
        forall|i: int|
            0 <= i < batch(parent_path, depth, chain, listing, rules, sort).len() ==> result_depth(
                #[trigger] batch(parent_path, depth, chain, listing, rules, sort)[i],
            ) == depth,
        result_depth(root_view(raw_root, rules.follow_links, rules.max_depth)) == 0,
{
    broadcast use vstd::seq_lib::group_to_multiset_ensures;

    let collected = collect(parent_path, depth, chain, listing, rules);
    lemma_collect_depth(parent_path, depth, chain, listing, rules);
    if sort {
        let sorted = stable_sort_by(collected, view_order());
        crate::sorting::lemma_stable_sort_items(collected, view_order());
        assert forall|i: int| 0 <= i < sorted.len() implies result_depth(#[trigger] sorted[i])
            == depth by {
            assert(sorted.to_multiset().count(sorted[i]) > 0);
            assert(collected.contains(sorted[i]));
            let k = choose|k: int| 0 <= k < collected.len() && collected[k] == sorted[i];
            assert(result_depth(collected[k]) == depth);
        }
    }
}

/// Every entry of a listing lies in the directory that was listed, and is
/// to be descended into only if it is a directory above the maximum depth,
/// and then by its own path.
pub proof fn lemma_collect_places(
    parent_path: Seq<u8>,
    depth: usize,
    chain: Seq<AncestorView>,
    listing: Seq<Result<RawDirEntry, IoError>>,
    rules: ReadRules,
)
    ensures
        forall|i: int|
            0 <= i < collect(parent_path, depth, chain, listing, rules).len() ==> well_placed(
                #[trigger] collect(parent_path, depth, chain, listing, rules)[i],
                parent_path,
                rules.max_depth,
            ),
    decreases listing.len(),
{
    if listing.len() > 0 {
        lemma_collect_places(parent_path, depth, chain, listing.drop_last(), rules);
        let rest = collect(parent_path, depth, chain, listing.drop_last(), rules);
        let all = collect(parent_path, depth, chain, listing, rules);
        match resolve(parent_path, depth, chain, listing.last(), rules) {
            Some(result) => {
                assert(well_placed(result, parent_path, rules.max_depth));
                assert forall|i: int| 0 <= i < all.len() implies well_placed(
                    #[trigger] all[i],
                    parent_path,
                    rules.max_depth,
                ) by {
                    if i < rest.len() {
                        assert(all[i] == rest[i]);
                    }
                }
            },
            None => {},
        }
    }
}

/// An entry lies in the directory at `parent_path`, and is to be descended
/// into only if it is a directory above `max_depth`, and then by its own
/// path. Nothing is said of an error.
pub open spec fn well_placed(
    result: Result<DirEntryView, ErrorView>,
    parent_path: Seq<u8>,
    max_depth: usize,
) -> bool {
    match result {
        Ok(entry) => {
            &&& entry.parent_path == parent_path
            &&& entry.read_children_error.is_none()
            &&& entry.read_children_path.is_some() ==> entry.file_type == FileType::Dir
                && entry.depth < max_depth && entry.read_children_path == Some(entry.path())
        },
        Err(_) => true,
    }
}

/// Every entry of the batch of a directory lies in that directory, and is
/// to be descended into only if it is a directory above the maximum depth:
/// no directory at the maximum depth is read.
pub proof fn lemma_batch_places(
    parent_path: Seq<u8>,
    depth: usize,
    chain: Seq<AncestorView>,
    listing: Seq<Result<RawDirEntry, IoError>>,
    rules: ReadRules,
    sort: bool,
)
    ensures
        forall|i: int|
            0 <= i < batch(parent_path, depth, chain, listing, rules, sort).len() ==> well_placed(
                #[trigger] batch(parent_path, depth, chain, listing, rules, sort)[i],
                parent_path,
                rules.max_depth,
            ),
{
    broadcast use vstd::seq_lib::group_to_multiset_ensures;

    let collected = collect(parent_path, depth, chain, listing, rules);
    lemma_collect_places(parent_path, depth, chain, listing, rules);
    if sort {
        let sorted = stable_sort_by(collected, view_order());
        crate::sorting::lemma_stable_sort_items(collected, view_order());
        assert forall|i: int| 0 <= i < sorted.len() implies well_placed(
            #[trigger] sorted[i],
            parent_path,
            rules.max_depth,
        ) by {
            assert(sorted.to_multiset().count(sorted[i]) > 0);
            assert(collected.contains(sorted[i]));
            let k = choose|k: int| 0 <= k < collected.len() && collected[k] == sorted[i];
            assert(well_placed(collected[k], parent_path, rules.max_depth));
        }
    }
}

/// What a client does with the batch of a directory before the walk uses
/// it: it may sort the batch, take entries out, set `read_children_path`
/// of an entry to `None` to keep the walk out of a directory, attach state
/// to entries, and change the state that is handed down to the reads
/// below. Nothing is assumed of what it does. A parallel walk calls it on
/// its worker threads, for different directories at the same time.
pub trait ProcessReadDir<C: ClientState> {
    /// Looks at the batch of the directory at `path` and at the state that
    /// the read found, and hands both back as the walk is to use them. The
    /// walk gives the depth of the directory as `depth`; the root is at 0.
    fn process_read_dir(
        &self,
        depth: Option<usize>,
        path: &Vec<u8>,
        read_dir_state: C::ReadDirState,
        children: Vec<Result<DirEntry<C>, Error>>,
    ) -> (processed: (C::ReadDirState, Vec<Result<DirEntry<C>, Error>>));
}

/// The client that leaves every batch as it is.
pub struct Untouched;

impl<C: ClientState> ProcessReadDir<C> for Untouched {
    fn process_read_dir(
        &self,
        depth: Option<usize>,
        path: &Vec<u8>,
        read_dir_state: C::ReadDirState,
        children: Vec<Result<DirEntry<C>, Error>>,
    ) -> (processed: (C::ReadDirState, Vec<Result<DirEntry<C>, Error>>))
        ensures
            processed == (read_dir_state, children),
    {
        (read_dir_state, children)
    }
}

/// `found` is what `read_dir` gives for the request and the listing.
pub open spec fn reads<C: ClientState>(
    read_dir_spec: ReadDirSpec<C>,
    items: Seq<Result<RawDirEntry, IoError>>,
    options: WalkDirOptions<C>,
    found: ReadDir<C>,
) -> bool {
    &&& found.read_dir_state == read_dir_spec.client_read_state
    &&& results_view(found.results_list@) == batch(
        read_dir_spec.path@,
        (read_dir_spec.depth + 1) as usize,
        ancestors_view(read_dir_spec.follow_link_ancestors@),
        items,
        rules_of(options),
        options.sort,
    )
    &&& forall|i: int|
        0 <= i < found.results_list@.len() ==> (#[trigger] found.results_list@[i] matches Ok(entry)
            ==> C::DirEntryState::default.ensures((), entry.client_state))
}

/// Reads the directory that `read_dir_spec` asks for, from what the
/// operating system listed, and lets the client look at the batch.
///
/// Where the directory could not be opened, the result is the error of
/// that, with the path and the depth of the request, and the client is not
/// asked. Otherwise the result is what the client makes of the batch and
/// the state that `read_dir` gives, asked once, with the depth and the path
/// of the request.
pub fn read_dir_with<C: ClientState, P: ProcessReadDir<C>>(
    read_dir_spec: ReadDirSpec<C>,
    listing: &Result<Vec<Result<RawDirEntry, IoError>>, IoError>,
    options: &WalkDirOptions<C>,
    process: &P,
) -> (result: Result<ReadDir<C>, Error>)
    requires
        read_dir_spec.depth < usize::MAX,
    ensures
        match *listing {
            Err(e) => result is Err && result->Err_0@ == path_error(
                read_dir_spec.depth,
                read_dir_spec.path@,
                e,
            ),
            Ok(items) => result is Ok && exists|found: ReadDir<C>|
                {
                    &&& #[trigger] reads(read_dir_spec, items@, *options, found)
                    &&& call_ensures(
                        P::process_read_dir,
                        (
                            process,
                            Some(read_dir_spec.depth),
                            &*read_dir_spec.path,
                            found.read_dir_state,
                            found.results_list,
                        ),
                        (result->Ok_0.read_dir_state, result->Ok_0.results_list),
                    )
                },
        },
{
    let depth: usize = read_dir_spec.depth;
    let path = share(&read_dir_spec.path);
    match read_dir(read_dir_spec, listing, options) {
        Err(error) => Err(error),
        Ok(found) => {
            assert(reads(read_dir_spec, listing->Ok_0@, *options, found));
            let ReadDir { read_dir_state, results_list } = found;
            let (read_dir_state, results_list) = process.process_read_dir(
                Some(depth),
                &path,
                read_dir_state,
                results_list,
            );
            Ok(ReadDir::new(read_dir_state, results_list))
        },
    }
}

/// A walk that sorts does not depend on the order in which the operating
/// system lists a directory: two listings that hold the same items give the
/// same sorted batch, where every item becomes an entry and no two entries
/// have the same name.
pub proof fn lemma_sorted_batch_ignores_listing_order(
    parent_path: Seq<u8>,
    depth: usize,
    chain: Seq<AncestorView>,
    one: Seq<Result<RawDirEntry, IoError>>,
    other: Seq<Result<RawDirEntry, IoError>>,
    rules: ReadRules,
)
    requires
        one.to_multiset() == other.to_multiset(),
        distinct_entries(collect(parent_path, depth, chain, one, rules)),
    ensures
        batch(parent_path, depth, chain, one, rules, true) == batch(
            parent_path,
            depth,
            chain,
            other,
            rules,
            true,
        ),
{
    lemma_collect_rearranged(parent_path, depth, chain, one, other, rules);
    lemma_sorted_batch_ignores_order(
        collect(parent_path, depth, chain, one, rules),
        collect(parent_path, depth, chain, other, rules),
    );
}

} // verus!
