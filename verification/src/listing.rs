//! From a listing to entries: what becomes of each child that the
//! operating system lists in a directory.

use crate::bytes::{bytes_equal, clone_bytes, is_hidden, join_path, spec_is_hidden, spec_join};
use crate::client_state::ClientState;
use crate::dir_entry::{ancestors_view, Ancestor, AncestorView, DirEntry, DirEntryView, FileType};
use crate::error::{Error, ErrorInnerView, ErrorView, IoError};
use crate::raw::RawDirEntry;
use crate::read_dir_spec::ReadDirSpec;
use crate::shared::share;
use crate::walk_dir::WalkDirOptions;
use std::sync::Arc;
use vstd::multiset::Multiset;
use vstd::prelude::*;

verus! {

/// An entry or an error as a mathematical value.
pub open spec fn result_view<C: ClientState>(result: Result<DirEntry<C>, Error>) -> Result<
    DirEntryView,
    ErrorView,
> {
    match result {
        Ok(entry) => Ok(entry@),
        Err(error) => Err(error@),
    }
}

/// A batch as a mathematical value.
pub open spec fn results_view<C: ClientState>(results: Seq<Result<DirEntry<C>, Error>>) -> Seq<
    Result<DirEntryView, ErrorView>,
> {
    results.map_values(|result: Result<DirEntry<C>, Error>| result_view(result))
}

/// The rules of a read that decide what becomes of a listed child.
pub struct ReadRules {
    pub skip_hidden: bool,
    pub follow_links: bool,
    pub max_depth: usize,
}

/// The rules of a read under the given options.
pub open spec fn rules_of<C: ClientState>(options: WalkDirOptions<C>) -> ReadRules {
    ReadRules {
        skip_hidden: options.skip_hidden,
        follow_links: options.follow_links,
        max_depth: options.max_depth,
    }
}

/// `i` is the place of the first ancestor in `chain` whose canonical path
/// is `canonical`.
pub open spec fn first_cycle(chain: Seq<AncestorView>, canonical: Seq<u8>, i: int) -> bool {
    &&& 0 <= i < chain.len()
    &&& chain[i].canonical == Some(canonical)
    &&& forall|j: int| 0 <= j < i ==> (#[trigger] chain[j]).canonical != Some(canonical)
}

/// The place of the first ancestor in `chain` whose canonical path is
/// `canonical`, if there is one.
pub open spec fn cycle_index(chain: Seq<AncestorView>, canonical: Seq<u8>) -> Option<int> {
    if exists|i: int| first_cycle(chain, canonical, i) {
        Some(choose|i: int| first_cycle(chain, canonical, i))
    } else {
        None
    }
}

/// The error of an operating-system call that concerned `path`.
pub open spec fn path_error(depth: usize, path: Seq<u8>, err: IoError) -> ErrorView {
    ErrorView { depth, inner: ErrorInnerView::Io { path: Some(path), err: err@ } }
}

/// The view of an optional byte string.
pub open spec fn option_view(bytes: Option<Vec<u8>>) -> Option<Seq<u8>> {
    match bytes {
        Some(b) => Some(b@),
        None => None,
    }
}

/// The canonical path that was resolved, if one was.
pub open spec fn resolved(canonical: Option<Result<Vec<u8>, IoError>>) -> Option<Seq<u8>> {
    match canonical {
        Some(Ok(c)) => Some(c@),
        _ => None,
    }
}

/// The entry for a child named `file_name` of the directory `parent_path`.
pub open spec fn entry_view(
    parent_path: Seq<u8>,
    depth: usize,
    file_name: Seq<u8>,
    file_type: FileType,
    follow_link: bool,
    chain: Seq<AncestorView>,
    rules: ReadRules,
) -> DirEntryView {
    DirEntryView {
        depth,
        file_name,
        file_type,
        parent_path,
        read_children_path: if file_type == FileType::Dir && depth < rules.max_depth {
            Some(spec_join(parent_path, file_name))
        } else {
            None
        },
        read_children_error: None,
        follow_link,
        follow_link_ancestors: chain,
    }
}

/// What becomes of a listed child that is not hidden: an entry, or the
/// error that is yielded in its place.
///
/// A child whose type could not be found out becomes an error. A symbolic
/// link, where links are followed, takes the type of what it leads to and
/// is marked as followed; if what it leads to cannot be found out, it
/// becomes an error; if it leads to a directory whose canonical path is
/// that of an ancestor, it becomes the error of a cycle, naming the first
/// such ancestor. A link that is not followed, or whose target was not
/// asked for, stays a link. Under a directory, where links are followed,
/// the chain of ancestors grows by the directory. A directory above the
/// maximum depth is to be descended into.
pub open spec fn resolve_visible(
    parent_path: Seq<u8>,
    depth: usize,
    chain: Seq<AncestorView>,
    raw: RawDirEntry,
    rules: ReadRules,
) -> Result<DirEntryView, ErrorView> {
    let name = raw.file_name@;
    let path = spec_join(parent_path, name);
    let grown = chain.push(AncestorView { path, canonical: resolved(raw.canonical) });
    match raw.file_type {
        Err(e) => Err(path_error(depth, path, e)),
        Ok(FileType::Symlink) => if rules.follow_links {
            match raw.target_type {
                Some(Err(e)) => Err(path_error(depth, path, e)),
                Some(Ok(FileType::Dir)) => match raw.canonical {
                    Some(Err(e)) => Err(path_error(depth, path, e)),
                    Some(Ok(c)) => match cycle_index(chain, c@) {
                        Some(i) => Err(
                            ErrorView {
                                depth,
                                inner: ErrorInnerView::Loop { ancestor: chain[i].path, child: path },
                            },
                        ),
                        None => Ok(
                            entry_view(parent_path, depth, name, FileType::Dir, true, grown, rules),
                        ),
                    },
                    None => Ok(
                        entry_view(parent_path, depth, name, FileType::Dir, true, grown, rules),
                    ),
                },
                Some(Ok(target)) => Ok(
                    entry_view(parent_path, depth, name, target, true, chain, rules),
                ),
                None => Ok(
                    entry_view(parent_path, depth, name, FileType::Symlink, false, chain, rules),
                ),
            }
        } else {
            Ok(entry_view(parent_path, depth, name, FileType::Symlink, false, chain, rules))
        },
        Ok(FileType::Dir) => Ok(
            entry_view(
                parent_path,
                depth,
                name,
                FileType::Dir,
                false,
                if rules.follow_links {
                    grown
                } else {
                    chain
                },
                rules,
            ),
        ),
        Ok(file_type) => Ok(entry_view(parent_path, depth, name, file_type, false, chain, rules)),
    }
}

/// What becomes of one item of a listing: nothing for a hidden child where
/// those are skipped; an error without a path for an item that the listing
/// itself failed on; else what `resolve_visible` says.
pub open spec fn resolve(
    parent_path: Seq<u8>,
    depth: usize,
    chain: Seq<AncestorView>,
    raw: Result<RawDirEntry, IoError>,
    rules: ReadRules,
) -> Option<Result<DirEntryView, ErrorView>> {
    match raw {
        Err(e) => Some(Err(ErrorView { depth, inner: ErrorInnerView::Io { path: None, err: e@ } })),
        Ok(raw) => if rules.skip_hidden && spec_is_hidden(raw.file_name@) {
            None
        } else {
            Some(resolve_visible(parent_path, depth, chain, raw, rules))
        },
    }
}

/// What becomes of a listing: what becomes of its items, in their order.
pub open spec fn collect(
    parent_path: Seq<u8>,
    depth: usize,
    chain: Seq<AncestorView>,
    listing: Seq<Result<RawDirEntry, IoError>>,
    rules: ReadRules,
) -> Seq<Result<DirEntryView, ErrorView>>
    decreases listing.len(),
{
    if listing.len() == 0 {
        Seq::empty()
    } else {
        let rest = collect(parent_path, depth, chain, listing.drop_last(), rules);
        match resolve(parent_path, depth, chain, listing.last(), rules) {
            Some(result) => rest.push(result),
            None => rest,
        }
    }
}

/// The place of the first ancestor in `chain` whose canonical path is
/// `canonical`, if there is one.
pub fn find_cycle(chain: &Vec<Ancestor>, canonical: &Vec<u8>) -> (found: Option<usize>)
    ensures
        match found {
            Some(i) => cycle_index(ancestors_view(chain@), canonical@) == Some(i as int) && i
                < chain@.len(),
            None => cycle_index(ancestors_view(chain@), canonical@).is_none(),
        },
{
    let ghost views = ancestors_view(chain@);
    let mut i: usize = 0;
    while i < chain.len()
        invariant
            i <= chain.len(),
            views == ancestors_view(chain@),
            forall|j: int| 0 <= j < i ==> (#[trigger] views[j]).canonical != Some(canonical@),
        decreases chain.len() - i,
    {
        let same = match &chain[i].canonical {
            Some(c) => bytes_equal(c, canonical),
            None => false,
        };
        assert(same == (views[i as int].canonical == Some(canonical@)));
        if same {
            assert(first_cycle(views, canonical@, i as int));
            assert forall|k: int| first_cycle(views, canonical@, k) implies k == i by {
                if k < i {
                    assert(views[k].canonical != Some(canonical@));
                } else if k > i {
                    assert(views[i as int].canonical != Some(canonical@));
                }
            }
            return Some(i);
        }
        i = i + 1;
    }
    assert forall|k: int| !first_cycle(views, canonical@, k) by {
        if 0 <= k < views.len() {
            assert(views[k].canonical != Some(canonical@));
        }
    }
    None
}

/// The chain of ancestors below the directory at `path`: `chain` and that
/// directory.
pub fn grow_chain(chain: &Vec<Ancestor>, path: Vec<u8>, canonical: Option<Vec<u8>>) -> (grown:
    Arc<Vec<Ancestor>>)
    ensures
        ancestors_view(grown@) == ancestors_view(chain@).push(
            AncestorView { path: path@, canonical: option_view(canonical) },
        ),
{
    let mut grown: Vec<Ancestor> = Vec::with_capacity(chain.len());
    let mut i: usize = 0;
    assert(ancestors_view(grown@) =~= ancestors_view(chain@).subrange(0, 0));
    while i < chain.len()
        invariant
            i <= chain.len(),
            ancestors_view(grown@) == ancestors_view(chain@).subrange(0, i as int),
        decreases chain.len() - i,
    {
        let ghost before = grown@;
        let ancestor = chain[i].clone();
        grown.push(ancestor);
        assert(ancestors_view(grown@) =~= ancestors_view(before).push(ancestor@));
        i = i + 1;
        assert(ancestors_view(grown@) =~= ancestors_view(chain@).subrange(0, i as int));
    }
    assert(ancestors_view(chain@).subrange(0, i as int) =~= ancestors_view(chain@));
    let ghost before = grown@;
    let ancestor = Ancestor { path, canonical };
    let ghost added = ancestor@;
    grown.push(ancestor);
    assert(ancestors_view(grown@) =~= ancestors_view(before).push(added));
    Arc::new(grown)
}

/// The canonical path that was resolved, if one was.
fn resolved_canonical(canonical: &Option<Result<Vec<u8>, IoError>>) -> (path: Option<Vec<u8>>)
    ensures
        option_view(path) == resolved(*canonical),
{
    match canonical {
        Some(Ok(c)) => Some(clone_bytes(c)),
        _ => None,
    }
}

/// The entry for the child named `file_name` of the directory that
/// `read_dir_spec` asks to read, with the default state of the client.
fn make_entry<C: ClientState>(
    read_dir_spec: &ReadDirSpec<C>,
    file_name: &Vec<u8>,
    file_type: FileType,
    follow_link: bool,
    chain: Arc<Vec<Ancestor>>,
    max_depth: usize,
) -> (entry: DirEntry<C>)
    requires
        read_dir_spec.depth < usize::MAX,
    ensures
        entry@ == entry_view(
            read_dir_spec.path@,
            (read_dir_spec.depth + 1) as usize,
            file_name@,
            file_type,
            follow_link,
            ancestors_view(chain@),
            ReadRules { skip_hidden: false, follow_links: false, max_depth },
        ),
        C::DirEntryState::default.ensures((), entry.client_state),
{
    let depth: usize = read_dir_spec.depth + 1;
    let read_children_path = if file_type.is_dir() && depth < max_depth {
        Some(Arc::new(join_path(&read_dir_spec.path, file_name)))
    } else {
        None
    };
    DirEntry {
        depth,
        file_name: clone_bytes(file_name),
        file_type,
        client_state: C::DirEntryState::default(),
        parent_path: share(&read_dir_spec.path),
        read_children_path,
        read_children_error: None,
        follow_link,
        follow_link_ancestors: chain,
    }
}

/// What becomes of one listed child that is not hidden.
pub fn resolve_visible_entry<C: ClientState>(
    read_dir_spec: &ReadDirSpec<C>,
    raw: &RawDirEntry,
    options: &WalkDirOptions<C>,
) -> (result: Result<DirEntry<C>, Error>)
    requires
        read_dir_spec.depth < usize::MAX,
    ensures
        result_view(result) == resolve_visible(
            read_dir_spec.path@,
            (read_dir_spec.depth + 1) as usize,
            ancestors_view(read_dir_spec.follow_link_ancestors@),
            *raw,
            rules_of(*options),
        ),
        result is Ok ==> C::DirEntryState::default.ensures((), result->Ok_0.client_state),
{
    let depth: usize = read_dir_spec.depth + 1;
    let chain = &read_dir_spec.follow_link_ancestors;
    let max_depth: usize = options.max_depth;
    match &raw.file_type {
        Err(e) => Err(Error::from_path(depth, join_path(&read_dir_spec.path, &raw.file_name), e.clone())),
        Ok(FileType::Symlink) => {
            if !options.follow_links {
                return Ok(
                    make_entry(
                        read_dir_spec,
                        &raw.file_name,
                        FileType::Symlink,
                        false,
                        share(chain),
                        max_depth,
                    ),
                );
            }
            match &raw.target_type {
                Some(Err(e)) => Err(
                    Error::from_path(depth, join_path(&read_dir_spec.path, &raw.file_name), e.clone()),
                ),
                Some(Ok(FileType::Dir)) => {
                    let path = join_path(&read_dir_spec.path, &raw.file_name);
                    match &raw.canonical {
                        Some(Err(e)) => Err(Error::from_path(depth, path, e.clone())),
                        Some(Ok(c)) => match find_cycle(chain, c) {
                            Some(i) => {
                                assert(ancestors_view(chain@)[i as int] == chain@[i as int]@);
                                Err(Error::from_loop(depth, clone_bytes(&chain[i].path), path))
                            },
                            None => {
                                let grown = grow_chain(chain, path, Some(clone_bytes(c)));
                                Ok(
                                    make_entry(
                                        read_dir_spec,
                                        &raw.file_name,
                                        FileType::Dir,
                                        true,
                                        grown,
                                        max_depth,
                                    ),
                                )
                            },
                        },
                        None => {
                            let grown = grow_chain(chain, path, None);
                            Ok(
                                make_entry(
                                    read_dir_spec,
                                    &raw.file_name,
                                    FileType::Dir,
                                    true,
                                    grown,
                                    max_depth,
                                ),
                            )
                        },
                    }
                },
                Some(Ok(target)) => Ok(
                    make_entry(
                        read_dir_spec,
                        &raw.file_name,
                        *target,
                        true,
                        share(chain),
                        max_depth,
                    ),
                ),
                None => Ok(
                    make_entry(
                        read_dir_spec,
                        &raw.file_name,
                        FileType::Symlink,
                        false,
                        share(chain),
                        max_depth,
                    ),
                ),
            }
        },
        Ok(FileType::Dir) => {
            let grown = if options.follow_links {
                grow_chain(
                    chain,
                    join_path(&read_dir_spec.path, &raw.file_name),
                    resolved_canonical(&raw.canonical),
                )
            } else {
                share(chain)
            };
            Ok(make_entry(read_dir_spec, &raw.file_name, FileType::Dir, false, grown, max_depth))
        },
        Ok(file_type) => Ok(
            make_entry(
                read_dir_spec,
                &raw.file_name,
                *file_type,
                false,
                share(chain),
                max_depth,
            ),
        ),
    }
}

/// What becomes of one item of a listing; `None` for a hidden child where
/// those are skipped.
pub fn resolve_entry<C: ClientState>(
    read_dir_spec: &ReadDirSpec<C>,
    raw: &Result<RawDirEntry, IoError>,
    options: &WalkDirOptions<C>,
) -> (result: Option<Result<DirEntry<C>, Error>>)
    requires
        read_dir_spec.depth < usize::MAX,
    ensures
        match result {
            Some(r) => Some(result_view(r)),
            None => None,
        } == resolve(
            read_dir_spec.path@,
            (read_dir_spec.depth + 1) as usize,
            ancestors_view(read_dir_spec.follow_link_ancestors@),
            *raw,
            rules_of(*options),
        ),
        result matches Some(Ok(entry)) ==> C::DirEntryState::default.ensures(
            (),
            entry.client_state,
        ),
{
    match raw {
        Err(e) => Some(Err(Error::from_io(read_dir_spec.depth + 1, e.clone()))),
        Ok(raw) => {
            if options.skip_hidden && is_hidden(&raw.file_name) {
                None
            } else {
                Some(resolve_visible_entry(read_dir_spec, raw, options))
            }
        },
    }
}

/// The entries of the directory that `read_dir_spec` asks to read, in the
/// order of the listing.
pub fn read_dir_entries<C: ClientState>(
    read_dir_spec: &ReadDirSpec<C>,
    listing: &Vec<Result<RawDirEntry, IoError>>,
    options: &WalkDirOptions<C>,
) -> (results: Vec<Result<DirEntry<C>, Error>>)
    requires
        read_dir_spec.depth < usize::MAX,
    ensures
        results_view(results@) == collect(
            read_dir_spec.path@,
            (read_dir_spec.depth + 1) as usize,
            ancestors_view(read_dir_spec.follow_link_ancestors@),
            listing@,
            rules_of(*options),
        ),
        forall|i: int|
            0 <= i < results@.len() ==> (#[trigger] results@[i] matches Ok(entry)
                ==> C::DirEntryState::default.ensures((), entry.client_state)),
{
    let mut results: Vec<Result<DirEntry<C>, Error>> = Vec::new();
    let mut i: usize = 0;
    assert(listing@.subrange(0, 0) =~= Seq::empty());
    assert(results_view(results@) =~= Seq::empty());
    while i < listing.len()
        invariant
            i <= listing.len(),
            read_dir_spec.depth < usize::MAX,
            results_view(results@) == collect(
                read_dir_spec.path@,
                (read_dir_spec.depth + 1) as usize,
                ancestors_view(read_dir_spec.follow_link_ancestors@),
                listing@.subrange(0, i as int),
                rules_of(*options),
            ),
            forall|k: int|
                0 <= k < results@.len() ==> (#[trigger] results@[k] matches Ok(entry)
                    ==> C::DirEntryState::default.ensures((), entry.client_state)),
        decreases listing.len() - i,
    {
        assert(listing@.subrange(0, i + 1).drop_last() =~= listing@.subrange(0, i as int));
        let ghost before = results@;
        match resolve_entry(read_dir_spec, &listing[i], options) {
            Some(result) => {
                results.push(result);
                assert(results_view(results@) =~= results_view(before).push(result_view(result)));
            },
            None => {},
        }
        i = i + 1;
    }
    assert(listing@.subrange(0, i as int) =~= listing@);
    results
}

/// Every entry and every error that a listing gives is at the depth of the
/// listing.
pub proof fn lemma_collect_depth(
    parent_path: Seq<u8>,
    depth: usize,
    chain: Seq<AncestorView>,
    listing: Seq<Result<RawDirEntry, IoError>>,
    rules: ReadRules,
)
    ensures
        forall|i: int|
            0 <= i < collect(parent_path, depth, chain, listing, rules).len() ==> result_depth(
                #[trigger] collect(parent_path, depth, chain, listing, rules)[i],
            ) == depth,
    decreases listing.len(),
{
    if listing.len() > 0 {
        lemma_collect_depth(parent_path, depth, chain, listing.drop_last(), rules);
        let rest = collect(parent_path, depth, chain, listing.drop_last(), rules);
        let all = collect(parent_path, depth, chain, listing, rules);
        match resolve(parent_path, depth, chain, listing.last(), rules) {
            Some(result) => {
                assert(result_depth(result) == depth);
                assert forall|i: int| 0 <= i < all.len() implies result_depth(#[trigger] all[i])
                    == depth by {
                    if i < rest.len() {
                        assert(all[i] == rest[i]);
                    }
                }
            },
            None => {},
        }
    }
}

/// The depth of an entry or of an error.
pub open spec fn result_depth(result: Result<DirEntryView, ErrorView>) -> usize {
    match result {
        Ok(entry) => entry.depth,
        Err(error) => error.depth,
    }
}

/// What one item of a listing adds to the batch: itself once, or nothing.
pub open spec fn added(result: Option<Result<DirEntryView, ErrorView>>) -> Multiset<
    Result<DirEntryView, ErrorView>,
> {
    match result {
        Some(r) => Multiset::singleton(r),
        None => Multiset::empty(),
    }
}

/// Taking one item out of a listing takes out of the batch what that item
/// added, and nothing else.
proof fn lemma_collect_remove(
    parent_path: Seq<u8>,
    depth: usize,
    chain: Seq<AncestorView>,
    listing: Seq<Result<RawDirEntry, IoError>>,
    rules: ReadRules,
    i: int,
)
    requires
        0 <= i < listing.len(),
    ensures
        collect(parent_path, depth, chain, listing, rules).to_multiset() == collect(
            parent_path,
            depth,
            chain,
            listing.remove(i),
            rules,
        ).to_multiset().add(added(resolve(parent_path, depth, chain, listing[i], rules))),
    decreases listing.len(),
{
    broadcast use vstd::seq_lib::group_to_multiset_ensures;

    let all = collect(parent_path, depth, chain, listing, rules);
    let front = listing.drop_last();
    let front_batch = collect(parent_path, depth, chain, front, rules);
    let last = resolve(parent_path, depth, chain, listing.last(), rules);
    assert(all.to_multiset() =~= front_batch.to_multiset().add(added(last))) by {
        match last {
            Some(r) => {
                assert(all == front_batch.push(r));
            },
            None => {},
        }
    }
    if i == listing.len() - 1 {
        assert(listing.remove(i) =~= front);
    } else {
        let without = listing.remove(i);
        assert(without.drop_last() =~= front.remove(i));
        assert(without.last() == listing.last());
        assert(front[i] == listing[i]);
        lemma_collect_remove(parent_path, depth, chain, front, rules, i);
        let without_batch = collect(parent_path, depth, chain, without, rules);
        let without_front = collect(parent_path, depth, chain, front.remove(i), rules);
        assert(without_batch.to_multiset() =~= without_front.to_multiset().add(added(last))) by {
            match last {
                Some(r) => {
                    assert(without_batch == without_front.push(r));
                },
                None => {},
            }
        }
        assert(all.to_multiset() =~= without_batch.to_multiset().add(
            added(resolve(parent_path, depth, chain, listing[i], rules)),
        ));
    }
}

/// Two listings that hold the same items give batches that hold the same
/// entries and errors, whatever the order of the listings.
pub proof fn lemma_collect_rearranged(
    parent_path: Seq<u8>,
    depth: usize,
    chain: Seq<AncestorView>,
    one: Seq<Result<RawDirEntry, IoError>>,
    other: Seq<Result<RawDirEntry, IoError>>,
    rules: ReadRules,
)
    requires
        one.to_multiset() == other.to_multiset(),
    ensures
        collect(parent_path, depth, chain, one, rules).to_multiset() == collect(
            parent_path,
            depth,
            chain,
            other,
            rules,
        ).to_multiset(),
    decreases one.len(),
{
    broadcast use vstd::seq_lib::group_to_multiset_ensures;

    assert(one.to_multiset().len() == one.len());
    assert(other.to_multiset().len() == other.len());
    if one.len() == 0 {
        assert(one =~= other);
    } else {
        let x = one.last();
        assert(one.to_multiset().count(x) > 0);
        assert(other.contains(x));
        let j = choose|j: int| 0 <= j < other.len() && other[j] == x;
        let i = one.len() - 1;
        assert(one.remove(i).to_multiset() =~= one.to_multiset().remove(x));
        assert(other.remove(j).to_multiset() =~= other.to_multiset().remove(x));
        lemma_collect_rearranged(parent_path, depth, chain, one.remove(i), other.remove(j), rules);
        lemma_collect_remove(parent_path, depth, chain, one, rules, i);
        lemma_collect_remove(parent_path, depth, chain, other, rules, j);
    }
}

} // verus!
