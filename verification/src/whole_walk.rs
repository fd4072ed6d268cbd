//! The whole walk of a file-system tree, as mathematics: what a walk that
//! meets no error, follows no link, skips nothing and has no client looking
//! at its batches yields for a tree of files and directories.

use crate::batch_order::{sorts_before, view_order};
use crate::bytes::{bytes_before, spec_join, SEPARATOR};
use crate::client_state::ClientState;
use crate::dir_entry::{AncestorView, DirEntry, DirEntryView, FileType};
use crate::error::{Error, ErrorView, IoError};
use crate::listing::{collect, entry_view, resolve, results_view, ReadRules};
use crate::preorder::{shown, yields, ReadTree};
use crate::raw::RawDirEntry;
use crate::read_dir::batch;
use crate::sorting::{insert_sorted, lemma_stable_sort_items, stable_sort_by};
use vstd::prelude::*;

verus! {

/// A file, a directory or a link of the file system, with all that lies
/// below it: its name, its type and, for a directory, its children in the
/// order in which the operating system lists them.
pub struct FsTree {
    pub name: Seq<u8>,
    pub file_type: FileType,
    pub children: Seq<FsTree>,
}

/// The rules of a walk that skips nothing and follows no link, down to
/// `max_depth`.
pub open spec fn plain_rules(max_depth: usize) -> ReadRules {
    ReadRules { skip_hidden: false, follow_links: false, max_depth }
}

/// `listing` is what the operating system lists for a directory with the
/// children `children`: one item for each child, in their order, with its
/// name and its type, and no item that failed.
pub open spec fn lists(listing: Seq<Result<RawDirEntry, IoError>>, children: Seq<FsTree>) -> bool {
    &&& listing.len() == children.len()
    &&& forall|i: int|
        0 <= i < listing.len() ==> match #[trigger] listing[i] {
            Ok(raw) => raw.file_name@ == children[i].name && raw.file_type == Ok::<
                FileType,
                IoError,
            >(children[i].file_type),
            Err(_) => false,
        }
}

/// The entry that a walk makes for the child `child` of the directory at
/// `path`, at `depth`.
pub open spec fn entry_of(child: FsTree, path: Seq<u8>, depth: usize, max_depth: usize) -> Result<
    DirEntryView,
    ErrorView,
> {
    Ok(
        entry_view(
            path,
            depth,
            child.name,
            child.file_type,
            false,
            Seq::<AncestorView>::empty(),
            plain_rules(max_depth),
        ),
    )
}

/// The entries that a walk makes for `children`, in their order.
pub open spec fn entries_of(children: Seq<FsTree>, path: Seq<u8>, depth: usize, max_depth: usize) -> Seq<
    Result<DirEntryView, ErrorView>,
> {
    children.map_values(|child: FsTree| entry_of(child, path, depth, max_depth))
}

/// The order of children by name, bytewise.
pub open spec fn by_name() -> spec_fn(FsTree, FsTree) -> bool {
    |a: FsTree, b: FsTree| bytes_before(a.name, b.name)
}

/// The children of a directory in the order in which a walk yields them:
/// sorted by name if the walk sorts, else as they are listed.
pub open spec fn arranged(children: Seq<FsTree>, sort: bool) -> Seq<FsTree> {
    if sort {
        stable_sort_by(children, by_name())
    } else {
        children
    }
}

/// A listing without failed items becomes one entry for each child, in
/// the order of the listing.
pub proof fn lemma_collect_lists(
    listing: Seq<Result<RawDirEntry, IoError>>,
    children: Seq<FsTree>,
    path: Seq<u8>,
    depth: usize,
    max_depth: usize,
)
    requires
        lists(listing, children),
    ensures
        collect(path, depth, Seq::<AncestorView>::empty(), listing, plain_rules(max_depth))
            == entries_of(children, path, depth, max_depth),
    decreases listing.len(),
{
    let chain = Seq::<AncestorView>::empty();
    let rules = plain_rules(max_depth);
    if listing.len() == 0 {
        assert(entries_of(children, path, depth, max_depth) =~= Seq::empty());
    } else {
        let front = listing.drop_last();
        let first = children.drop_last();
        assert forall|i: int| 0 <= i < front.len() implies match #[trigger] front[i] {
            Ok(raw) => raw.file_name@ == first[i].name && raw.file_type == Ok::<FileType, IoError>(
                first[i].file_type,
            ),
            Err(_) => false,
        } by {
            assert(front[i] == listing[i]);
        }
        lemma_collect_lists(front, first, path, depth, max_depth);
        let last = listing.last();
        assert(last == listing[listing.len() - 1]);
        assert(resolve(path, depth, chain, last, rules) == Some(
            entry_of(children.last(), path, depth, max_depth),
        ));
        assert(entries_of(children, path, depth, max_depth) =~= entries_of(
            first,
            path,
            depth,
            max_depth,
        ).push(entry_of(children.last(), path, depth, max_depth)));
    }
}

/// Putting a child into sorted children and making entries can be done in
/// either order.
proof fn lemma_insert_entries(
    sorted: Seq<FsTree>,
    x: FsTree,
    path: Seq<u8>,
    depth: usize,
    max_depth: usize,
)
    ensures
        entries_of(insert_sorted(sorted, x, by_name()), path, depth, max_depth) == insert_sorted(
            entries_of(sorted, path, depth, max_depth),
            entry_of(x, path, depth, max_depth),
            view_order(),
        ),
    decreases sorted.len(),
{
    let made = entries_of(sorted, path, depth, max_depth);
    if sorted.len() > 0 && by_name()(x, sorted.last()) {
        lemma_insert_entries(sorted.drop_last(), x, path, depth, max_depth);
        assert(made.drop_last() =~= entries_of(sorted.drop_last(), path, depth, max_depth));
        assert(made.last() == entry_of(sorted.last(), path, depth, max_depth));
        assert(view_order()(entry_of(x, path, depth, max_depth), made.last()));
        assert(entries_of(insert_sorted(sorted, x, by_name()), path, depth, max_depth)
            =~= insert_sorted(made, entry_of(x, path, depth, max_depth), view_order()));
    } else {
        if sorted.len() > 0 {
            assert(made.last() == entry_of(sorted.last(), path, depth, max_depth));
            assert(!view_order()(entry_of(x, path, depth, max_depth), made.last()));
        }
        assert(entries_of(sorted.push(x), path, depth, max_depth) =~= made.push(
            entry_of(x, path, depth, max_depth),
        ));
    }
}

/// Sorting the children by name and making entries can be done in either
/// order.
pub proof fn lemma_sort_entries(children: Seq<FsTree>, path: Seq<u8>, depth: usize, max_depth: usize)
    ensures
        entries_of(stable_sort_by(children, by_name()), path, depth, max_depth) == stable_sort_by(
            entries_of(children, path, depth, max_depth),
            view_order(),
        ),
    decreases children.len(),
{
    if children.len() == 0 {
        assert(entries_of(children, path, depth, max_depth) =~= Seq::empty());
    } else {
        lemma_sort_entries(children.drop_last(), path, depth, max_depth);
        lemma_insert_entries(
            stable_sort_by(children.drop_last(), by_name()),
            children.last(),
            path,
            depth,
            max_depth,
        );
        assert(entries_of(children, path, depth, max_depth).drop_last() =~= entries_of(
            children.drop_last(),
            path,
            depth,
            max_depth,
        ));
    }
}

/// The batch of a directory whose listing holds no failed item, read by a
/// walk that skips nothing and follows no link: one entry for each child
/// of the directory, in the order in which the walk arranges them.
pub proof fn lemma_batch_of_directory(
    listing: Seq<Result<RawDirEntry, IoError>>,
    children: Seq<FsTree>,
    path: Seq<u8>,
    depth: usize,
    max_depth: usize,
    sort: bool,
)
    requires
        lists(listing, children),
    ensures
        batch(path, depth, Seq::<AncestorView>::empty(), listing, plain_rules(max_depth), sort)
            == entries_of(arranged(children, sort), path, depth, max_depth),
{
    lemma_collect_lists(listing, children, path, depth, max_depth);
    if sort {
        lemma_sort_entries(children, path, depth, max_depth);
    }
}


/// The reads `forest` are the reads of a walk below the children
/// `ordered` of the directory at `path`, which are at `depth`: for every
/// child that is a directory above the maximum depth there is one read, in
/// the order of the children; it succeeded and gave one entry for each
/// child of that directory, in the order in which the walk arranges them;
/// and the reads below it are the reads of a walk below those children.
pub open spec fn reads_below<C: ClientState>(
    ordered: Seq<FsTree>,
    forest: Seq<ReadTree<C>>,
    path: Seq<u8>,
    depth: usize,
    max_depth: usize,
    sort: bool,
) -> bool
    decreases forest, ordered.len(),
{
    if ordered.len() == 0 {
        forest.len() == 0
    } else if ordered[0].file_type == FileType::Dir && depth < max_depth {
        &&& forest.len() > 0
        &&& match forest[0].result {
            Ok(read_dir) => {
                &&& results_view(read_dir.results_list@) == entries_of(
                    arranged(ordered[0].children, sort),
                    spec_join(path, ordered[0].name),
                    (depth + 1) as usize,
                    max_depth,
                )
                &&& reads_below(
                    arranged(ordered[0].children, sort),
                    forest[0].children,
                    spec_join(path, ordered[0].name),
                    (depth + 1) as usize,
                    max_depth,
                    sort,
                )
            },
            Err(_) => false,
        }
        &&& reads_below(ordered.drop_first(), forest.drop_first(), path, depth, max_depth, sort)
    } else {
        reads_below(ordered.drop_first(), forest, path, depth, max_depth, sort)
    }
}

/// How many levels a walk may still descend from `depth`.
pub open spec fn levels_left(depth: usize, max_depth: usize) -> nat {
    if depth <= max_depth {
        (max_depth - depth) as nat
    } else {
        0
    }
}

/// What a walk yields below a directory, said of the file system alone:
/// the path and the depth of every entry, in depth-first pre-order.
/// `ordered` are the children of the directory at `path`, which are at
/// `depth`, in the order in which the walk arranges them. A child is
/// yielded if it is not above the minimum depth, and a walk descends into
/// it if it is a directory above the maximum depth.
pub open spec fn walk_of(
    ordered: Seq<FsTree>,
    path: Seq<u8>,
    depth: usize,
    max_depth: usize,
    min_depth: usize,
    sort: bool,
) -> Seq<(Seq<u8>, usize)>
    decreases levels_left(depth, max_depth), ordered.len(),
{
    if ordered.len() == 0 {
        Seq::empty()
    } else {
        let at = spec_join(path, ordered[0].name);
        let here = if depth >= min_depth {
            seq![(at, depth)]
        } else {
            Seq::empty()
        };
        let below = if ordered[0].file_type == FileType::Dir && depth < max_depth {
            walk_of(
                arranged(ordered[0].children, sort),
                at,
                (depth + 1) as usize,
                max_depth,
                min_depth,
                sort,
            )
        } else {
            Seq::empty()
        };
        here + below + walk_of(ordered.drop_first(), path, depth, max_depth, min_depth, sort)
    }
}

/// The path and the depth of an item that a walk yields.
pub open spec fn place_of<C: ClientState>(item: Result<DirEntry<C>, ErrorView>) -> (Seq<u8>, usize) {
    match item {
        Ok(entry) => (entry@.path(), entry.depth),
        Err(error) => (
            match error.path() {
                Some(path) => path,
                None => Seq::empty(),
            },
            error.depth,
        ),
    }
}

/// The paths and the depths of the items that a walk yields, in their
/// order.
pub open spec fn places_of<C: ClientState>(items: Seq<Result<DirEntry<C>, ErrorView>>) -> Seq<
    (Seq<u8>, usize),
> {
    items.map_values(|item: Result<DirEntry<C>, ErrorView>| place_of(item))
}

/// A walk yields the tree below a directory: where the batch `results` of
/// the directory holds one entry for each of its children `ordered`, and
/// the reads `forest` below it are the reads of a walk below those
/// children, what the walk yields is, path by path and depth by depth,
/// what `walk_of` says of the file system.
pub proof fn lemma_yields_walk_of<C: ClientState>(
    results: Seq<Result<DirEntry<C>, Error>>,
    ordered: Seq<FsTree>,
    forest: Seq<ReadTree<C>>,
    path: Seq<u8>,
    depth: usize,
    max_depth: usize,
    min_depth: usize,
    sort: bool,
)
    requires
        results_view(results) == entries_of(ordered, path, depth, max_depth),
        reads_below(ordered, forest, path, depth, max_depth, sort),
    ensures
        places_of(yields(results, forest, min_depth)) == walk_of(
            ordered,
            path,
            depth,
            max_depth,
            min_depth,
            sort,
        ),
    decreases forest, results.len(),
{
    let made = entries_of(ordered, path, depth, max_depth);
    assert(results.len() == results_view(results).len());
    assert(ordered.len() == made.len());
    if results.len() == 0 {
        assert(places_of(yields(results, forest, min_depth)) =~= Seq::empty());
    } else {
        let child = ordered[0];
        let at = spec_join(path, child.name);
        let rest = results.drop_first();
        assert(results_view(results)[0] == made[0]);
        assert(made[0] == entry_of(child, path, depth, max_depth));
        let entry = results[0]->Ok_0;
        assert(results[0] == Ok::<DirEntry<C>, Error>(entry));
        assert(entry@.path() == at);
        assert(entry.depth == depth);
        assert(results_view(rest) =~= entries_of(ordered.drop_first(), path, depth, max_depth)) by {
            assert forall|i: int| 0 <= i < rest.len() implies results_view(rest)[i] == entries_of(
                ordered.drop_first(),
                path,
                depth,
                max_depth,
            )[i] by {
                assert(rest[i] == results[i + 1]);
                assert(ordered.drop_first()[i] == ordered[i + 1]);
                assert(results_view(results)[i + 1] == made[i + 1]);
                assert(results_view(results)[i + 1] == crate::listing::result_view(results[i + 1]));
                assert(made[i + 1] == entry_of(ordered[i + 1], path, depth, max_depth));
            }
        }
        let here = if depth >= min_depth {
            seq![(at, depth)]
        } else {
            Seq::<(Seq<u8>, usize)>::empty()
        };
        assert(places_of(shown(entry, min_depth)) =~= here);
        if child.file_type == FileType::Dir && depth < max_depth {
            assert(entry.read_children_path.is_some());
            let read_dir = forest[0].result->Ok_0;
            let below = arranged(child.children, sort);
            lemma_yields_walk_of(
                read_dir.results_list@,
                below,
                forest[0].children,
                at,
                (depth + 1) as usize,
                max_depth,
                min_depth,
                sort,
            );
            lemma_yields_walk_of(
                rest,
                ordered.drop_first(),
                forest.drop_first(),
                path,
                depth,
                max_depth,
                min_depth,
                sort,
            );
            let inner = yields(read_dir.results_list@, forest[0].children, min_depth);
            let later = yields(rest, forest.drop_first(), min_depth);
            assert(yields(results, forest, min_depth) == shown(entry, min_depth) + inner + later);
            assert(places_of(shown(entry, min_depth) + inner + later) =~= places_of(
                shown(entry, min_depth),
            ) + places_of(inner) + places_of(later));
        } else {
            assert(entry.read_children_path.is_none());
            lemma_yields_walk_of(
                rest,
                ordered.drop_first(),
                forest,
                path,
                depth,
                max_depth,
                min_depth,
                sort,
            );
            let later = yields(rest, forest, min_depth);
            assert(yields(results, forest, min_depth) == shown(entry, min_depth) + later);
            assert(places_of(shown(entry, min_depth) + later) =~= places_of(
                shown(entry, min_depth),
            ) + places_of(later));
        }
    }
}


/// A walk yields nothing outside its depths: below a directory that is not
/// below the maximum depth itself, every entry that `walk_of` holds lies
/// between the minimum and the maximum depth.
pub proof fn lemma_walk_of_in_range(
    ordered: Seq<FsTree>,
    path: Seq<u8>,
    depth: usize,
    max_depth: usize,
    min_depth: usize,
    sort: bool,
)
    requires
        depth <= max_depth,
    ensures
        forall|i: int|
            0 <= i < walk_of(ordered, path, depth, max_depth, min_depth, sort).len() ==> min_depth
                <= (#[trigger] walk_of(ordered, path, depth, max_depth, min_depth, sort)[i]).1
                <= max_depth,
    decreases levels_left(depth, max_depth), ordered.len(),
{
    if ordered.len() > 0 {
        let all = walk_of(ordered, path, depth, max_depth, min_depth, sort);
        let at = spec_join(path, ordered[0].name);
        let here = if depth >= min_depth {
            seq![(at, depth)]
        } else {
            Seq::<(Seq<u8>, usize)>::empty()
        };
        let below = if ordered[0].file_type == FileType::Dir && depth < max_depth {
            walk_of(
                arranged(ordered[0].children, sort),
                at,
                (depth + 1) as usize,
                max_depth,
                min_depth,
                sort,
            )
        } else {
            Seq::<(Seq<u8>, usize)>::empty()
        };
        let later = walk_of(ordered.drop_first(), path, depth, max_depth, min_depth, sort);
        assert(all == here + below + later);
        lemma_walk_of_in_range(ordered.drop_first(), path, depth, max_depth, min_depth, sort);
        if ordered[0].file_type == FileType::Dir && depth < max_depth {
            lemma_walk_of_in_range(
                arranged(ordered[0].children, sort),
                at,
                (depth + 1) as usize,
                max_depth,
                min_depth,
                sort,
            );
        }
        assert forall|i: int| 0 <= i < all.len() implies min_depth <= (#[trigger] all[i]).1
            <= max_depth by {
            if i < here.len() {
                assert(all[i] == here[i]);
            } else if i < here.len() + below.len() {
                assert(all[i] == below[i - here.len()]);
            } else {
                assert(all[i] == later[i - here.len() - below.len()]);
            }
        }
    }
}

/// What a walk yields below a directory holds what it yields for each
/// child: the child itself, if it is not above the minimum depth, and, if
/// the child is a directory above the maximum depth, all that the walk
/// yields below the child.
pub proof fn lemma_walk_of_holds_child(
    ordered: Seq<FsTree>,
    k: int,
    path: Seq<u8>,
    depth: usize,
    max_depth: usize,
    min_depth: usize,
    sort: bool,
)
    requires
        0 <= k < ordered.len(),
    ensures
        depth >= min_depth ==> walk_of(ordered, path, depth, max_depth, min_depth, sort).contains(
            (spec_join(path, ordered[k].name), depth),
        ),
        ordered[k].file_type == FileType::Dir && depth < max_depth ==> forall|
            place: (Seq<u8>, usize),
        |
            #[trigger] walk_of(
                arranged(ordered[k].children, sort),
                spec_join(path, ordered[k].name),
                (depth + 1) as usize,
                max_depth,
                min_depth,
                sort,
            ).contains(place) ==> walk_of(ordered, path, depth, max_depth, min_depth, sort).contains(
                place,
            ),
    decreases ordered.len(),
{
    let all = walk_of(ordered, path, depth, max_depth, min_depth, sort);
    let at = spec_join(path, ordered[0].name);
    let here = if depth >= min_depth {
        seq![(at, depth)]
    } else {
        Seq::<(Seq<u8>, usize)>::empty()
    };
    let below = if ordered[0].file_type == FileType::Dir && depth < max_depth {
        walk_of(
            arranged(ordered[0].children, sort),
            at,
            (depth + 1) as usize,
            max_depth,
            min_depth,
            sort,
        )
    } else {
        Seq::<(Seq<u8>, usize)>::empty()
    };
    let later = walk_of(ordered.drop_first(), path, depth, max_depth, min_depth, sort);
    assert(all == here + below + later);
    if k == 0 {
        if depth >= min_depth {
            assert(all[0] == (at, depth));
        }
        if ordered[0].file_type == FileType::Dir && depth < max_depth {
            assert forall|place: (Seq<u8>, usize)| #[trigger] below.contains(place) implies all.contains(
                place,
            ) by {
                let i = choose|i: int| 0 <= i < below.len() && below[i] == place;
                assert(all[here.len() + i] == place);
            }
        }
    } else {
        lemma_walk_of_holds_child(
            ordered.drop_first(),
            k - 1,
            path,
            depth,
            max_depth,
            min_depth,
            sort,
        );
        assert(ordered.drop_first()[k - 1] == ordered[k]);
        assert forall|place: (Seq<u8>, usize)| #[trigger] later.contains(place) implies all.contains(
            place,
        ) by {
            let i = choose|i: int| 0 <= i < later.len() && later[i] == place;
            assert(all[here.len() + below.len() + i] == place);
        }
    }
}

/// The entry at `place` lies at `depth` below the directory at `path`
/// whose children are `children`: it is one of the children, at `depth`,
/// or it lies below one of them that is a directory.
pub open spec fn lies_below(
    children: Seq<FsTree>,
    path: Seq<u8>,
    depth: int,
    place: (Seq<u8>, usize),
) -> bool
    decreases children,
{
    exists|i: int|
        0 <= i < children.len() && ((spec_join(path, (#[trigger] children[i]).name) == place.0
            && depth == place.1) || (children[i].file_type == FileType::Dir && lies_below(
            children[i].children,
            spec_join(path, children[i].name),
            depth + 1,
            place,
        )))
}

/// An entry that lies below a directory is at least as deep as the
/// children of the directory.
pub proof fn lemma_lies_below_depth(
    children: Seq<FsTree>,
    path: Seq<u8>,
    depth: int,
    place: (Seq<u8>, usize),
)
    requires
        lies_below(children, path, depth, place),
    ensures
        depth <= place.1,
    decreases children,
{
    let i = choose|i: int|
        0 <= i < children.len() && ((spec_join(path, (#[trigger] children[i]).name) == place.0
            && depth == place.1) || (children[i].file_type == FileType::Dir && lies_below(
            children[i].children,
            spec_join(path, children[i].name),
            depth + 1,
            place,
        )));
    if !(spec_join(path, children[i].name) == place.0 && depth == place.1) {
        lemma_lies_below_depth(
            children[i].children,
            spec_join(path, children[i].name),
            depth + 1,
            place,
        );
    }
}

/// A walk yields every entry between its depths: every entry that lies
/// below a directory, at a depth between the minimum and the maximum
/// depth, is among what the walk yields below the directory, whether it
/// sorts or not.
pub proof fn lemma_walk_of_holds_every_entry(
    children: Seq<FsTree>,
    path: Seq<u8>,
    depth: usize,
    max_depth: usize,
    min_depth: usize,
    sort: bool,
    place: (Seq<u8>, usize),
)
    requires
        lies_below(children, path, depth as int, place),
        min_depth <= place.1 <= max_depth,
    ensures
        walk_of(arranged(children, sort), path, depth, max_depth, min_depth, sort).contains(place),
    decreases children,
{
    broadcast use vstd::seq_lib::group_to_multiset_ensures;

    let i = choose|i: int|
        0 <= i < children.len() && ((spec_join(path, (#[trigger] children[i]).name) == place.0
            && depth == place.1) || (children[i].file_type == FileType::Dir && lies_below(
            children[i].children,
            spec_join(path, children[i].name),
            depth + 1,
            place,
        )));
    let child = children[i];
    let ordered = arranged(children, sort);
    // The child is among the children as the walk arranges them.
    if sort {
        lemma_stable_sort_items(children, by_name());
        assert(children.to_multiset().count(child) > 0);
        assert(ordered.to_multiset().count(child) > 0);
    }
    assert(ordered.contains(child));
    let k = choose|k: int| 0 <= k < ordered.len() && ordered[k] == child;
    lemma_walk_of_holds_child(ordered, k, path, depth, max_depth, min_depth, sort);
    if !(spec_join(path, child.name) == place.0 && depth == place.1) {
        let at = spec_join(path, child.name);
        lemma_lies_below_depth(child.children, at, depth + 1, place);
        lemma_walk_of_holds_every_entry(
            child.children,
            at,
            (depth + 1) as usize,
            max_depth,
            min_depth,
            sort,
            place,
        );
    }
}


/// `place` is what a walk yields for the child at `k`, or below it.
pub open spec fn comes_from(
    ordered: Seq<FsTree>,
    k: int,
    path: Seq<u8>,
    depth: usize,
    max_depth: usize,
    min_depth: usize,
    sort: bool,
    place: (Seq<u8>, usize),
) -> bool {
    ||| place == (spec_join(path, ordered[k].name), depth)
    ||| (ordered[k].file_type == FileType::Dir && depth < max_depth && walk_of(
        arranged(ordered[k].children, sort),
        spec_join(path, ordered[k].name),
        (depth + 1) as usize,
        max_depth,
        min_depth,
        sort,
    ).contains(place))
}

/// Whatever a walk yields below a directory, it yields for one of the
/// children or below one of them.
pub proof fn lemma_walk_of_comes_from_child(
    ordered: Seq<FsTree>,
    path: Seq<u8>,
    depth: usize,
    max_depth: usize,
    min_depth: usize,
    sort: bool,
    place: (Seq<u8>, usize),
) -> (k: int)
    requires
        walk_of(ordered, path, depth, max_depth, min_depth, sort).contains(place),
    ensures
        0 <= k < ordered.len(),
        comes_from(ordered, k, path, depth, max_depth, min_depth, sort, place),
    decreases ordered.len(),
{
    let all = walk_of(ordered, path, depth, max_depth, min_depth, sort);
    let at = spec_join(path, ordered[0].name);
    let here = if depth >= min_depth {
        seq![(at, depth)]
    } else {
        Seq::<(Seq<u8>, usize)>::empty()
    };
    let below = if ordered[0].file_type == FileType::Dir && depth < max_depth {
        walk_of(
            arranged(ordered[0].children, sort),
            at,
            (depth + 1) as usize,
            max_depth,
            min_depth,
            sort,
        )
    } else {
        Seq::<(Seq<u8>, usize)>::empty()
    };
    let later = walk_of(ordered.drop_first(), path, depth, max_depth, min_depth, sort);
    assert(ordered.len() > 0);
    assert(all == here + below + later);
    let i = choose|i: int| 0 <= i < all.len() && all[i] == place;
    if i < here.len() {
        assert(all[i] == here[i]);
        0
    } else if i < here.len() + below.len() {
        assert(all[i] == below[i - here.len()]);
        0
    } else {
        assert(all[i] == later[i - here.len() - below.len()]);
        let k = lemma_walk_of_comes_from_child(
            ordered.drop_first(),
            path,
            depth,
            max_depth,
            min_depth,
            sort,
            place,
        );
        assert(ordered.drop_first()[k] == ordered[k + 1]);
        k + 1
    }
}

/// A walk yields nothing but entries of the tree: whatever it yields below
/// a directory lies below that directory.
pub proof fn lemma_walk_of_holds_only_entries(
    children: Seq<FsTree>,
    path: Seq<u8>,
    depth: usize,
    max_depth: usize,
    min_depth: usize,
    sort: bool,
    place: (Seq<u8>, usize),
)
    requires
        walk_of(arranged(children, sort), path, depth, max_depth, min_depth, sort).contains(place),
    ensures
        lies_below(children, path, depth as int, place),
    decreases children,
{
    broadcast use vstd::seq_lib::group_to_multiset_ensures;

    let ordered = arranged(children, sort);
    let k = lemma_walk_of_comes_from_child(ordered, path, depth, max_depth, min_depth, sort, place);
    let child = ordered[k];
    if sort {
        lemma_stable_sort_items(children, by_name());
        assert(ordered.to_multiset().count(child) > 0);
        assert(children.to_multiset().count(child) > 0);
    }
    assert(children.contains(child));
    let i = choose|i: int| 0 <= i < children.len() && children[i] == child;
    let at = spec_join(path, child.name);
    if place != (at, depth) {
        lemma_walk_of_holds_only_entries(
            child.children,
            at,
            (depth + 1) as usize,
            max_depth,
            min_depth,
            sort,
            place,
        );
    }
    assert(spec_join(path, children[i].name) == at);
}

/// The reads of a walk below the children of a directory fit the batch of
/// the directory: there is one read for every entry that is descended
/// into, and so on below.
pub proof fn lemma_reads_below_fit<C: ClientState>(
    results: Seq<Result<DirEntry<C>, Error>>,
    ordered: Seq<FsTree>,
    forest: Seq<ReadTree<C>>,
    path: Seq<u8>,
    depth: usize,
    max_depth: usize,
    sort: bool,
)
    requires
        results_view(results) == entries_of(ordered, path, depth, max_depth),
        reads_below(ordered, forest, path, depth, max_depth, sort),
    ensures
        crate::preorder::fits(results, forest),
    decreases forest, results.len(),
{
    let made = entries_of(ordered, path, depth, max_depth);
    assert(results.len() == results_view(results).len());
    assert(ordered.len() == made.len());
    if results.len() == 0 {
        assert(crate::read_dir::descended(results) =~= Seq::empty());
    } else {
        let child = ordered[0];
        let rest = results.drop_first();
        assert(results_view(results)[0] == made[0]);
        assert(made[0] == entry_of(child, path, depth, max_depth));
        let entry = results[0]->Ok_0;
        assert(results[0] == Ok::<DirEntry<C>, Error>(entry));
        assert(results_view(rest) =~= entries_of(ordered.drop_first(), path, depth, max_depth)) by {
            assert forall|i: int| 0 <= i < rest.len() implies results_view(rest)[i] == entries_of(
                ordered.drop_first(),
                path,
                depth,
                max_depth,
            )[i] by {
                assert(rest[i] == results[i + 1]);
                assert(ordered.drop_first()[i] == ordered[i + 1]);
                assert(results_view(results)[i + 1] == made[i + 1]);
                assert(results_view(results)[i + 1] == crate::listing::result_view(results[i + 1]));
                assert(made[i + 1] == entry_of(ordered[i + 1], path, depth, max_depth));
            }
        }
        crate::preorder::lemma_descended_front(results);
        if child.file_type == FileType::Dir && depth < max_depth {
            assert(entry.read_children_path.is_some());
            let read_dir = forest[0].result->Ok_0;
            lemma_reads_below_fit(
                read_dir.results_list@,
                arranged(child.children, sort),
                forest[0].children,
                spec_join(path, child.name),
                (depth + 1) as usize,
                max_depth,
                sort,
            );
            lemma_reads_below_fit(
                rest,
                ordered.drop_first(),
                forest.drop_first(),
                path,
                depth,
                max_depth,
                sort,
            );
            assert forall|i: int| 0 <= i < forest.len() implies match (#[trigger] forest[i]).result {
                Ok(read) => crate::preorder::fits(read.results_list@, forest[i].children),
                Err(_) => forest[i].children.len() == 0,
            } by {
                if i > 0 {
                    assert(forest[i] == forest.drop_first()[i - 1]);
                }
            }
        } else {
            assert(entry.read_children_path.is_none());
            lemma_reads_below_fit(rest, ordered.drop_first(), forest, path, depth, max_depth, sort);
        }
    }
}


/// The whole walk of a tree. The root is a directory with the children
/// `children`, read at `root_path`; the walk meets no error, follows no
/// link, skips nothing, and no client changes its batches; `tree` holds its
/// reads. Then the entry iterator, handed the batches in the order of the
/// reads, yields the root, if the minimum depth is 0, and below it what
/// `walk_of` says of the file system. So the walk yields every entry of
/// the tree that lies between the minimum and the maximum depth, it
/// yields nothing deeper than the maximum depth or above the minimum depth,
/// and it yields nothing that is not an entry of the tree. Where the tree
/// is well named (no name is empty or holds the separator, and no directory
/// holds a name twice), it yields no path below the root twice.
pub proof fn lemma_whole_walk<C: ClientState>(
    root: DirEntry<C>,
    tree: ReadTree<C>,
    children: Seq<FsTree>,
    root_path: Seq<u8>,
    max_depth: usize,
    min_depth: usize,
    sort: bool,
)
    requires
        root.depth == 0,
        root.read_children_path.is_some(),
        1 <= max_depth,
        tree.result is Ok,
        results_view(tree.result->Ok_0.results_list@) == entries_of(
            arranged(children, sort),
            root_path,
            1,
            max_depth,
        ),
        reads_below(arranged(children, sort), tree.children, root_path, 1, max_depth, sort),
    ensures
        places_of(
            crate::preorder::run(
                crate::dir_entry_iter::EntryIterView::initial(
                    seq![Ok::<DirEntry<C>, Error>(root)],
                    min_depth,
                    false,
                ),
                crate::preorder::reads_of(seq![tree]),
            ),
        ) == places_of(shown(root, min_depth)) + walk_of(
            arranged(children, sort),
            root_path,
            1,
            max_depth,
            min_depth,
            sort,
        ),
        forall|place: (Seq<u8>, usize)|
            #[trigger] lies_below(children, root_path, 1, place) && min_depth <= place.1
                <= max_depth ==> walk_of(
                arranged(children, sort),
                root_path,
                1,
                max_depth,
                min_depth,
                sort,
            ).contains(place),
        forall|place: (Seq<u8>, usize)|
            #[trigger] walk_of(
                arranged(children, sort),
                root_path,
                1,
                max_depth,
                min_depth,
                sort,
            ).contains(place) ==> lies_below(children, root_path, 1, place) && min_depth
                <= place.1 <= max_depth,
        well_named(children) ==> forall|a: int, b: int|
            0 <= a < b < walk_of(arranged(children, sort), root_path, 1, max_depth, min_depth, sort).len()
                ==> (#[trigger] walk_of(
                arranged(children, sort),
                root_path,
                1,
                max_depth,
                min_depth,
                sort,
            )[a]).0 != (#[trigger] walk_of(
                arranged(children, sort),
                root_path,
                1,
                max_depth,
                min_depth,
                sort,
            )[b]).0,
{
    if well_named(children) {
        lemma_arranged_named_apart(children, sort);
        lemma_walk_of_distinct(arranged(children, sort), root_path, 1, max_depth, min_depth, sort);
    }
    let ordered = arranged(children, sort);
    let below = walk_of(ordered, root_path, 1, max_depth, min_depth, sort);
    let root_results = seq![Ok::<DirEntry<C>, Error>(root)];
    let forest = seq![tree];
    let read_dir = tree.result->Ok_0;
    // The reads fit the batches, so the iterator yields in pre-order.
    lemma_reads_below_fit(
        read_dir.results_list@,
        ordered,
        tree.children,
        root_path,
        1,
        max_depth,
        sort,
    );
    crate::preorder::lemma_descended_front(root_results);
    assert(root_results.drop_first() =~= Seq::empty());
    assert(crate::read_dir::descended(root_results.drop_first()) =~= Seq::empty());
    assert(crate::preorder::fits(root_results, forest));
    crate::preorder::lemma_walk_yields_preorder(root_results, forest, min_depth);
    // What it yields is the root and the walk below it.
    lemma_yields_walk_of(
        read_dir.results_list@,
        ordered,
        tree.children,
        root_path,
        1,
        max_depth,
        min_depth,
        sort,
    );
    let inner = yields(read_dir.results_list@, tree.children, min_depth);
    assert(forest.drop_first() =~= Seq::empty());
    assert(yields(root_results.drop_first(), forest.drop_first(), min_depth) =~= Seq::empty());
    assert(yields(root_results, forest, min_depth) =~= shown(root, min_depth) + inner);
    assert(places_of(shown(root, min_depth) + inner) =~= places_of(shown(root, min_depth))
        + places_of(inner));
    // Every entry between the depths, and nothing else.
    assert forall|place: (Seq<u8>, usize)|
        #[trigger] lies_below(children, root_path, 1, place) && min_depth <= place.1
            <= max_depth implies below.contains(place) by {
        lemma_walk_of_holds_every_entry(
            children,
            root_path,
            1,
            max_depth,
            min_depth,
            sort,
            place,
        );
    }
    lemma_walk_of_in_range(ordered, root_path, 1, max_depth, min_depth, sort);
    assert forall|place: (Seq<u8>, usize)| #[trigger] below.contains(place) implies lies_below(
        children,
        root_path,
        1,
        place,
    ) && min_depth <= place.1 <= max_depth by {
        lemma_walk_of_holds_only_entries(
            children,
            root_path,
            1,
            max_depth,
            min_depth,
            sort,
            place,
        );
        let i = choose|i: int| 0 <= i < below.len() && below[i] == place;
        assert(min_depth <= below[i].1 <= max_depth);
    }
}


/// A name as a file system gives it: not empty, and without a separator.
pub open spec fn proper_name(name: Seq<u8>) -> bool {
    &&& name.len() > 0
    &&& forall|i: int| 0 <= i < name.len() ==> #[trigger] name[i] != SEPARATOR
}

/// What the paths of the children of the directory at `path` begin with:
/// the path and one separator, or nothing for the empty path.
pub open spec fn stem(path: Seq<u8>) -> Seq<u8> {
    if path.len() == 0 || path.last() == SEPARATOR {
        path
    } else {
        path + seq![SEPARATOR]
    }
}

/// `path` is `base` or lies below it: it begins with `base`, and goes on
/// with a separator if it goes on.
pub open spec fn at_or_under(path: Seq<u8>, base: Seq<u8>) -> bool {
    &&& path.len() >= base.len()
    &&& path.subrange(0, base.len() as int) == base
    &&& path.len() > base.len() ==> path[base.len() as int] == SEPARATOR
}

/// The path of a child with a proper name is the stem of its directory and
/// the name; it is not empty and does not end in a separator, so that its
/// own stem is the path and one separator.
pub proof fn lemma_join_proper(path: Seq<u8>, name: Seq<u8>)
    requires
        proper_name(name),
    ensures
        spec_join(path, name) == stem(path) + name,
        spec_join(path, name).len() > 0,
        spec_join(path, name).last() != SEPARATOR,
        stem(spec_join(path, name)) == spec_join(path, name) + seq![SEPARATOR],
        at_or_under(spec_join(path, name), spec_join(path, name)),
{
    assert(name[0] != SEPARATOR);
    let joined = spec_join(path, name);
    assert(joined =~= stem(path) + name);
    assert(joined.last() == name.last());
    assert(name[name.len() - 1] != SEPARATOR);
    assert(joined.subrange(0, joined.len() as int) =~= joined);
}

/// What lies at or under a child of a directory lies under the directory,
/// and is longer than the path of the directory.
pub proof fn lemma_under_child(path: Seq<u8>, base: Seq<u8>, name: Seq<u8>)
    requires
        proper_name(name),
        base.len() > 0,
        base.last() != SEPARATOR,
        at_or_under(path, spec_join(base, name)),
    ensures
        at_or_under(path, base),
        path.len() > base.len(),
{
    lemma_join_proper(base, name);
    let child = spec_join(base, name);
    assert(child == base + seq![SEPARATOR] + name);
    assert(path.subrange(0, child.len() as int)[base.len() as int] == child[base.len() as int]);
    assert(path.subrange(0, base.len() as int) =~= base) by {
        assert forall|i: int| 0 <= i < base.len() implies path[i] == base[i] by {
            assert(path.subrange(0, child.len() as int)[i] == child[i]);
        }
    }
}

/// Nothing lies at or under two children of one directory that have
/// different names: where a path lies at or under two children, the two
/// have one name.
pub proof fn lemma_children_apart(path: Seq<u8>, base: Seq<u8>, one: Seq<u8>, other: Seq<u8>)
    requires
        proper_name(one),
        proper_name(other),
        at_or_under(path, spec_join(base, one)),
        at_or_under(path, spec_join(base, other)),
    ensures
        one == other,
{
    lemma_join_proper(base, one);
    lemma_join_proper(base, other);
    let front = stem(base);
    let a = spec_join(base, one);
    let b = spec_join(base, other);
    if one.len() == other.len() {
        assert(one =~= other) by {
            assert forall|i: int| 0 <= i < one.len() implies one[i] == other[i] by {
                assert(path.subrange(0, a.len() as int)[front.len() + i] == a[front.len() + i]);
                assert(path.subrange(0, b.len() as int)[front.len() + i] == b[front.len() + i]);
            }
        }
    } else if one.len() < other.len() {
        // The longer name would hold a separator where the shorter ends.
        assert(path.len() > a.len());
        assert(path.subrange(0, b.len() as int)[a.len() as int] == b[a.len() as int]);
        assert(b[a.len() as int] == other[one.len() as int]);
    } else {
        assert(path.len() > b.len());
        assert(path.subrange(0, a.len() as int)[b.len() as int] == a[b.len() as int]);
        assert(a[b.len() as int] == one[other.len() as int]);
    }
}

/// The children `ordered` have proper names, no two of them the same, and
/// so has every directory below them.
pub open spec fn named_apart(ordered: Seq<FsTree>) -> bool {
    &&& forall|i: int|
        0 <= i < ordered.len() ==> proper_name((#[trigger] ordered[i]).name) && well_named(
            ordered[i].children,
        )
    &&& forall|i: int, j: int|
        0 <= i < j < ordered.len() ==> (#[trigger] ordered[i]).name != (#[trigger] ordered[j]).name
}

/// Every directory of the tree holds children with proper names, no two
/// of them the same.
pub open spec fn well_named(children: Seq<FsTree>) -> bool
    decreases children,
{
    &&& forall|i: int|
        0 <= i < children.len() ==> proper_name((#[trigger] children[i]).name) && well_named(
            children[i].children,
        )
    &&& forall|i: int, j: int|
        0 <= i < j < children.len() ==> (#[trigger] children[i]).name != (
        #[trigger] children[j]).name
}

/// The children of a well-named directory, arranged as the walk arranges
/// them, still have proper names, no two of them the same.
pub proof fn lemma_arranged_named_apart(children: Seq<FsTree>, sort: bool)
    requires
        well_named(children),
    ensures
        named_apart(arranged(children, sort)),
{
    broadcast use vstd::seq_lib::group_to_multiset_ensures;

    let ordered = arranged(children, sort);
    if sort {
        lemma_stable_sort_items(children, by_name());
        assert forall|i: int| 0 <= i < ordered.len() implies proper_name(
            (#[trigger] ordered[i]).name,
        ) && well_named(ordered[i].children) by {
            assert(ordered.to_multiset().count(ordered[i]) > 0);
            assert(children.contains(ordered[i]));
            let k = choose|k: int| 0 <= k < children.len() && children[k] == ordered[i];
            assert(proper_name(children[k].name));
        }
        assert forall|i: int, j: int| 0 <= i < j < ordered.len() implies (
        #[trigger] ordered[i]).name != (#[trigger] ordered[j]).name by {
            assert(ordered.to_multiset().count(ordered[i]) > 0);
            assert(ordered.to_multiset().count(ordered[j]) > 0);
            assert(children.contains(ordered[i]));
            assert(children.contains(ordered[j]));
            let a = choose|a: int| 0 <= a < children.len() && children[a] == ordered[i];
            let b = choose|b: int| 0 <= b < children.len() && children[b] == ordered[j];
            if a == b {
                // One child would stand twice among the arranged children.
                assert(children.no_duplicates()) by {
                    assert forall|x: int, y: int|
                        0 <= x < children.len() && 0 <= y < children.len() && x != y implies children[x]
                        != children[y] by {
                        if x < y {
                            assert(children[x].name != children[y].name);
                        } else {
                            assert(children[y].name != children[x].name);
                        }
                    }
                }
                children.lemma_multiset_has_no_duplicates();
                assert(children.to_multiset().count(ordered[i]) <= 1);
                lemma_twice(ordered, i, j);
                assert(false);
            } else if a < b {
                assert(children[a].name != children[b].name);
            } else {
                assert(children[b].name != children[a].name);
            }
        }
    } else {
        assert(named_apart(children));
    }
}

/// An item that stands at two places of a sequence is there at least
/// twice.
proof fn lemma_twice<T>(items: Seq<T>, i: int, j: int)
    requires
        0 <= i < j < items.len(),
        items[i] == items[j],
    ensures
        items.to_multiset().count(items[i]) >= 2,
    decreases items.len(),
{
    broadcast use vstd::seq_lib::group_to_multiset_ensures;

    let front = items.drop_last();
    assert(items =~= front.push(items.last()));
    if j == items.len() - 1 {
        assert(front[i] == items[i]);
        assert(front.to_multiset().count(items[i]) > 0);
        assert(items.to_multiset() =~= front.to_multiset().insert(items.last()));
    } else {
        assert(front[i] == items[i] && front[j] == items[j]);
        lemma_twice(front, i, j);
        assert(items.to_multiset() =~= front.to_multiset().insert(items.last()));
    }
}


/// Whatever a walk yields below a directory lies at or under one of the
/// children: it is the child itself, at the depth of the children, or its
/// path is longer than the path of the child.
pub proof fn lemma_walk_of_under(
    ordered: Seq<FsTree>,
    path: Seq<u8>,
    depth: usize,
    max_depth: usize,
    min_depth: usize,
    sort: bool,
    place: (Seq<u8>, usize),
) -> (k: int)
    requires
        named_apart(ordered),
        walk_of(ordered, path, depth, max_depth, min_depth, sort).contains(place),
    ensures
        0 <= k < ordered.len(),
        at_or_under(place.0, spec_join(path, ordered[k].name)),
        place == (spec_join(path, ordered[k].name), depth) || place.0.len() > spec_join(
            path,
            ordered[k].name,
        ).len(),
    decreases levels_left(depth, max_depth), ordered.len(),
{
    let k = lemma_walk_of_comes_from_child(ordered, path, depth, max_depth, min_depth, sort, place);
    let at = spec_join(path, ordered[k].name);
    lemma_join_proper(path, ordered[k].name);
    if place != (at, depth) {
        let below = arranged(ordered[k].children, sort);
        lemma_arranged_named_apart(ordered[k].children, sort);
        let inner = lemma_walk_of_under(
            below,
            at,
            (depth + 1) as usize,
            max_depth,
            min_depth,
            sort,
            place,
        );
        lemma_under_child(place.0, at, below[inner].name);
    }
    k
}

/// A walk yields no path twice: below a directory whose tree is well
/// named, the paths that `walk_of` holds are all different.
pub proof fn lemma_walk_of_distinct(
    ordered: Seq<FsTree>,
    path: Seq<u8>,
    depth: usize,
    max_depth: usize,
    min_depth: usize,
    sort: bool,
)
    requires
        named_apart(ordered),
    ensures
        forall|a: int, b: int|
            0 <= a < b < walk_of(ordered, path, depth, max_depth, min_depth, sort).len() ==> (
            #[trigger] walk_of(ordered, path, depth, max_depth, min_depth, sort)[a]).0 != (
            #[trigger] walk_of(ordered, path, depth, max_depth, min_depth, sort)[b]).0,
    decreases levels_left(depth, max_depth), ordered.len(),
{
    if ordered.len() > 0 {
        let all = walk_of(ordered, path, depth, max_depth, min_depth, sort);
        let at = spec_join(path, ordered[0].name);
        let descends = ordered[0].file_type == FileType::Dir && depth < max_depth;
        let children = arranged(ordered[0].children, sort);
        let here = if depth >= min_depth {
            seq![(at, depth)]
        } else {
            Seq::<(Seq<u8>, usize)>::empty()
        };
        let below = if descends {
            walk_of(children, at, (depth + 1) as usize, max_depth, min_depth, sort)
        } else {
            Seq::<(Seq<u8>, usize)>::empty()
        };
        let rest = ordered.drop_first();
        let later = walk_of(rest, path, depth, max_depth, min_depth, sort);
        assert(all == here + below + later);
        lemma_join_proper(path, ordered[0].name);
        assert(named_apart(rest)) by {
            assert forall|i: int| 0 <= i < rest.len() implies proper_name(
                (#[trigger] rest[i]).name,
            ) && well_named(rest[i].children) by {
                assert(rest[i] == ordered[i + 1]);
            }
            assert forall|i: int, j: int| 0 <= i < j < rest.len() implies (
            #[trigger] rest[i]).name != (#[trigger] rest[j]).name by {
                assert(rest[i] == ordered[i + 1] && rest[j] == ordered[j + 1]);
            }
        }
        lemma_walk_of_distinct(rest, path, depth, max_depth, min_depth, sort);
        if descends {
            lemma_arranged_named_apart(ordered[0].children, sort);
            lemma_walk_of_distinct(children, at, (depth + 1) as usize, max_depth, min_depth, sort);
        }
        assert forall|a: int, b: int| 0 <= a < b < all.len() implies (#[trigger] all[a]).0 != (
        #[trigger] all[b]).0 by {
            let first = here.len() + below.len();
            // Where the earlier of the two lies: at or under the first child.
            if a < first {
                if a < here.len() {
                    assert(all[a] == here[a]);
                } else {
                    assert(all[a] == below[a - here.len()]);
                    assert(below.contains(all[a]));
                    let inner = lemma_walk_of_under(
                        children,
                        at,
                        (depth + 1) as usize,
                        max_depth,
                        min_depth,
                        sort,
                        all[a],
                    );
                    lemma_under_child(all[a].0, at, children[inner].name);
                }
                assert(at_or_under(all[a].0, at));
            }
            if b < here.len() {
            } else if b < first {
                assert(all[b] == below[b - here.len()]);
                if a < here.len() {
                    assert(below.contains(all[b]));
                    let inner = lemma_walk_of_under(
                        children,
                        at,
                        (depth + 1) as usize,
                        max_depth,
                        min_depth,
                        sort,
                        all[b],
                    );
                    lemma_under_child(all[b].0, at, children[inner].name);
                    assert(all[b].0.len() > at.len());
                } else {
                    assert(all[a] == below[a - here.len()]);
                }
            } else {
                assert(all[b] == later[b - first]);
                if a >= first {
                    assert(all[a] == later[a - first]);
                } else {
                    assert(later.contains(all[b]));
                    let k = lemma_walk_of_under(
                        rest,
                        path,
                        depth,
                        max_depth,
                        min_depth,
                        sort,
                        all[b],
                    );
                    assert(rest[k] == ordered[k + 1]);
                    if all[a].0 == all[b].0 {
                        lemma_children_apart(all[a].0, path, ordered[0].name, ordered[k + 1].name);
                        assert(ordered[0].name != ordered[k + 1].name);
                    }
                }
            }
        }
    }
}

/// A walk yields every entry between its depths exactly once: an entry of
/// a well-named tree that lies between the minimum and the maximum depth
/// stands at one place of what the walk yields, and no other place holds
/// its path.
pub proof fn lemma_walk_of_holds_every_entry_once(
    children: Seq<FsTree>,
    path: Seq<u8>,
    depth: usize,
    max_depth: usize,
    min_depth: usize,
    sort: bool,
    place: (Seq<u8>, usize),
) -> (at: int)
    requires
        well_named(children),
        lies_below(children, path, depth as int, place),
        min_depth <= place.1 <= max_depth,
    ensures
        0 <= at < walk_of(arranged(children, sort), path, depth, max_depth, min_depth, sort).len(),
        walk_of(arranged(children, sort), path, depth, max_depth, min_depth, sort)[at] == place,
        forall|other: int|
            0 <= other < walk_of(
                arranged(children, sort),
                path,
                depth,
                max_depth,
                min_depth,
                sort,
            ).len() && (#[trigger] walk_of(
                arranged(children, sort),
                path,
                depth,
                max_depth,
                min_depth,
                sort,
            )[other]).0 == place.0 ==> other == at,
{
    let all = walk_of(arranged(children, sort), path, depth, max_depth, min_depth, sort);
    lemma_walk_of_holds_every_entry(children, path, depth, max_depth, min_depth, sort, place);
    lemma_arranged_named_apart(children, sort);
    lemma_walk_of_distinct(arranged(children, sort), path, depth, max_depth, min_depth, sort);
    let at = choose|at: int| 0 <= at < all.len() && all[at] == place;
    assert forall|other: int| 0 <= other < all.len() && (#[trigger] all[other]).0
        == place.0 implies other == at by {
        if other < at {
            assert(all[other].0 != all[at].0);
        } else if at < other {
            assert(all[at].0 != all[other].0);
        }
    }
    at
}

} // verus!
