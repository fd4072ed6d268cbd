use jwalk::dir_entry::Ancestor;
use jwalk::preorder::walk_batches;
use jwalk::batch_order::sort_entries;
use jwalk::listing::{find_cycle, read_dir_entries, resolve_entry};
use jwalk::read_dir_iter::order_read_dir_result;
use jwalk::{
    create_root_entry, read_children_specs_of, read_dir, DirEntry, Error, FileType, IndexPath,
    IoError, IoErrorKind, RawDirEntry, RawRoot, ReadDir, ReadDirIter, ReadDirSpec, WalkDir,
    WalkDirOptions,
};
use std::sync::Arc;

type Entry = DirEntry<((), ())>;
type Item = Result<Entry, Error>;

fn b(text: &str) -> Vec<u8> {
    text.as_bytes().to_vec()
}

fn text(bytes: &[u8]) -> String {
    String::from_utf8(bytes.to_vec()).unwrap()
}

fn options() -> WalkDirOptions<((), ())> {
    WalkDir::new(b("/r")).into_parts().1
}

fn spec_at(path: &str, depth: usize, chain: Vec<Ancestor>) -> ReadDirSpec<((), ())> {
    ReadDirSpec {
        depth,
        path: Arc::new(b(path)),
        client_read_state: (),
        follow_link_ancestors: Arc::new(chain),
    }
}

fn raw(name: &str, file_type: FileType) -> Result<RawDirEntry, IoError> {
    Ok(RawDirEntry { file_name: b(name), file_type: Ok(file_type), target_type: None, canonical: None })
}

fn denied() -> IoError {
    IoError::new(IoErrorKind::PermissionDenied, b("Permission denied"))
}

fn names(items: &[Item]) -> Vec<String> {
    items
        .iter()
        .map(|item| match item {
            Ok(entry) => text(&entry.file_name),
            Err(error) => format!("error: {}", text(&error.message())),
        })
        .collect()
}

#[test]
fn entries_keep_the_order_of_the_listing() {
    let listing = vec![raw("b", FileType::File), raw("a", FileType::Dir), raw("c", FileType::Other)];
    let items = read_dir_entries(&spec_at("/r", 0, vec![]), &listing, &options());
    assert_eq!(names(&items), vec!["b", "a", "c"]);
    let a = items[1].as_ref().unwrap();
    assert_eq!(a.depth, 1);
    assert_eq!(a.file_type, FileType::Dir);
    assert_eq!(*a.parent_path, b("/r"));
    assert_eq!(a.path(), b("/r/a"));
    assert_eq!(a.read_children_path.as_deref(), Some(&b("/r/a")));
    assert!(a.read_children_error.is_none());
    assert!(!a.follow_link);
    assert!(!a.path_is_symlink());
    let file = items[0].as_ref().unwrap();
    assert!(file.read_children_path.is_none());
    assert!(file.read_children().is_none());
    assert_eq!(items[2].as_ref().unwrap().file_type, FileType::Other);
}

#[test]
fn hidden_entries_are_skipped_unless_asked_for() {
    let listing = vec![raw(".git", FileType::Dir), raw("a", FileType::File), raw(".b", FileType::File)];
    let skip = options();
    assert_eq!(names(&read_dir_entries(&spec_at("/r", 0, vec![]), &listing, &skip)), vec!["a"]);
    let mut keep = options();
    keep.skip_hidden = false;
    assert_eq!(
        names(&read_dir_entries(&spec_at("/r", 0, vec![]), &listing, &keep)),
        vec![".git", "a", ".b"]
    );
    assert!(resolve_entry(&spec_at("/r", 0, vec![]), &listing[0], &skip).is_none());
    assert!(resolve_entry(&spec_at("/r", 0, vec![]), &listing[1], &skip).is_some());
}

#[test]
fn a_hidden_entry_is_skipped_before_its_type_is_looked_at() {
    let listing = vec![Ok(RawDirEntry {
        file_name: b(".x"),
        file_type: Err(denied()),
        target_type: None,
        canonical: None,
    })];
    assert!(read_dir_entries(&spec_at("/r", 0, vec![]), &listing, &options()).is_empty());
}

#[test]
fn an_entry_without_a_type_becomes_an_error_in_its_place() {
    let listing = vec![
        raw("a", FileType::File),
        Ok(RawDirEntry { file_name: b("b"), file_type: Err(denied()), target_type: None, canonical: None }),
        raw("c", FileType::File),
    ];
    let items = read_dir_entries(&spec_at("/r", 2, vec![]), &listing, &options());
    assert_eq!(items.len(), 3);
    let err = items[1].as_ref().err().unwrap();
    assert_eq!(err.path(), Some(&b("/r/b")));
    assert_eq!(err.depth(), 3);
    assert_eq!(err.io_error().unwrap().kind(), IoErrorKind::PermissionDenied);
    assert!(items[0].is_ok() && items[2].is_ok());
}

#[test]
fn a_failed_item_of_the_listing_becomes_an_error_without_a_path() {
    let listing = vec![Err(denied()), raw("a", FileType::File)];
    let items = read_dir_entries(&spec_at("/r", 0, vec![]), &listing, &options());
    assert_eq!(items.len(), 2);
    let err = items[0].as_ref().err().unwrap();
    assert!(err.path().is_none());
    assert_eq!(err.depth(), 1);
    assert!(err.io_error().is_some());
}

#[test]
fn a_directory_that_cannot_be_opened_gives_the_error_of_the_request() {
    let listing: Result<Vec<Result<RawDirEntry, IoError>>, IoError> = Err(denied());
    let err = read_dir(spec_at("/r/sub", 1, vec![]), &listing, &options()).err().unwrap();
    assert_eq!(err.path(), Some(&b("/r/sub")));
    assert_eq!(err.depth(), 1);
    assert_eq!(err.io_error().unwrap().kind(), IoErrorKind::PermissionDenied);
    assert_eq!(err.io_error().unwrap().message(), &b("Permission denied"));
}

#[test]
fn directories_at_the_maximum_depth_are_not_descended_into() {
    let listing = vec![raw("d", FileType::Dir)];
    let mut two = options();
    two.max_depth = 2;
    let at_one = read_dir_entries(&spec_at("/r", 0, vec![]), &listing, &two);
    assert!(at_one[0].as_ref().unwrap().read_children_path.is_some());
    let at_two = read_dir_entries(&spec_at("/r/x", 1, vec![]), &listing, &two);
    assert_eq!(at_two[0].as_ref().unwrap().depth, 2);
    assert!(at_two[0].as_ref().unwrap().read_children_path.is_none());
}

#[test]
fn a_link_that_is_not_followed_stays_a_link() {
    let listing = vec![Ok(RawDirEntry {
        file_name: b("l"),
        file_type: Ok(FileType::Symlink),
        target_type: Some(Ok(FileType::Dir)),
        canonical: Some(Ok(b("/r/d"))),
    })];
    let items = read_dir_entries(&spec_at("/r", 0, vec![]), &listing, &options());
    let link = items[0].as_ref().unwrap();
    assert_eq!(link.file_type, FileType::Symlink);
    assert!(link.path_is_symlink());
    assert!(!link.follow_link);
    assert!(link.read_children_path.is_none());
    assert!(link.follow_link_ancestors.is_empty());
}

#[test]
fn a_followed_link_takes_the_type_of_its_target() {
    let mut follow = options();
    follow.follow_links = true;
    let to_file = vec![Ok(RawDirEntry {
        file_name: b("l"),
        file_type: Ok(FileType::Symlink),
        target_type: Some(Ok(FileType::File)),
        canonical: None,
    })];
    let items = read_dir_entries(&spec_at("/r", 0, vec![]), &to_file, &follow);
    let link = items[0].as_ref().unwrap();
    assert_eq!(link.file_type, FileType::File);
    assert!(link.follow_link);
    assert!(link.path_is_symlink());
    assert!(link.read_children_path.is_none());

    let to_dir = vec![Ok(RawDirEntry {
        file_name: b("l"),
        file_type: Ok(FileType::Symlink),
        target_type: Some(Ok(FileType::Dir)),
        canonical: Some(Ok(b("/elsewhere"))),
    })];
    let chain = vec![Ancestor { path: b("/r"), canonical: Some(b("/r")) }];
    let items = read_dir_entries(&spec_at("/r", 0, chain), &to_dir, &follow);
    let link = items[0].as_ref().unwrap();
    assert_eq!(link.file_type, FileType::Dir);
    assert!(link.follow_link);
    assert_eq!(link.read_children_path.as_deref(), Some(&b("/r/l")));
    assert_eq!(link.follow_link_ancestors.len(), 2);
    assert_eq!(link.follow_link_ancestors[1].path, b("/r/l"));
    assert_eq!(link.follow_link_ancestors[1].canonical, Some(b("/elsewhere")));
}

#[test]
fn a_followed_link_whose_target_is_unknown_becomes_an_error() {
    let mut follow = options();
    follow.follow_links = true;
    let listing = vec![Ok(RawDirEntry {
        file_name: b("l"),
        file_type: Ok(FileType::Symlink),
        target_type: Some(Err(denied())),
        canonical: None,
    })];
    let items = read_dir_entries(&spec_at("/r", 0, vec![]), &listing, &follow);
    let err = items[0].as_ref().err().unwrap();
    assert_eq!(err.path(), Some(&b("/r/l")));
    assert_eq!(err.depth(), 1);
    assert!(err.loop_ancestor().is_none());

    let unresolved = vec![Ok(RawDirEntry {
        file_name: b("l"),
        file_type: Ok(FileType::Symlink),
        target_type: Some(Ok(FileType::Dir)),
        canonical: Some(Err(denied())),
    })];
    let items = read_dir_entries(&spec_at("/r", 0, vec![]), &unresolved, &follow);
    assert_eq!(items[0].as_ref().err().unwrap().path(), Some(&b("/r/l")));
}

#[test]
fn a_link_back_to_an_ancestor_becomes_the_error_of_a_cycle() {
    let mut follow = options();
    follow.follow_links = true;
    let chain = vec![
        Ancestor { path: b("root"), canonical: Some(b("/abs/root")) },
        Ancestor { path: b("root/a"), canonical: Some(b("/abs/root/a")) },
        Ancestor { path: b("root/a/b"), canonical: None },
        Ancestor { path: b("root/a/b/c"), canonical: Some(b("/abs/root/a/b/c")) },
    ];
    let listing = vec![Ok(RawDirEntry {
        file_name: b("loop"),
        file_type: Ok(FileType::Symlink),
        target_type: Some(Ok(FileType::Dir)),
        canonical: Some(Ok(b("/abs/root/a"))),
    })];
    let items = read_dir_entries(&spec_at("root/a/b/c", 3, chain), &listing, &follow);
    assert_eq!(items.len(), 1);
    let err = items[0].as_ref().err().unwrap();
    assert_eq!(err.loop_ancestor(), Some(&b("root/a")));
    assert_eq!(err.path(), Some(&b("root/a/b/c/loop")));
    assert_eq!(err.depth(), 4);
    assert!(err.io_error().is_none());
}

#[test]
fn the_first_of_several_matching_ancestors_is_named() {
    let chain = vec![
        Ancestor { path: b("x"), canonical: Some(b("/other")) },
        Ancestor { path: b("first"), canonical: Some(b("/same")) },
        Ancestor { path: b("second"), canonical: Some(b("/same")) },
    ];
    assert_eq!(find_cycle(&chain, &b("/same")), Some(1));
    assert_eq!(find_cycle(&chain, &b("/other")), Some(0));
    assert_eq!(find_cycle(&chain, &b("/none")), None);
    assert_eq!(find_cycle(&vec![], &b("/same")), None);
}

#[test]
fn directories_grow_the_chain_only_when_links_are_followed() {
    let listing = vec![Ok(RawDirEntry {
        file_name: b("d"),
        file_type: Ok(FileType::Dir),
        target_type: None,
        canonical: Some(Ok(b("/abs/r/d"))),
    })];
    let plain = read_dir_entries(&spec_at("/r", 0, vec![]), &listing, &options());
    assert!(plain[0].as_ref().unwrap().follow_link_ancestors.is_empty());
    let mut follow = options();
    follow.follow_links = true;
    let followed = read_dir_entries(&spec_at("/r", 0, vec![]), &listing, &follow);
    let chain = &followed[0].as_ref().unwrap().follow_link_ancestors;
    assert_eq!(chain.len(), 1);
    assert_eq!(chain[0].path, b("/r/d"));
    assert_eq!(chain[0].canonical, Some(b("/abs/r/d")));
}

#[test]
fn sorting_puts_entries_by_name_and_errors_last() {
    let listing = vec![
        Err(IoError::new(IoErrorKind::Other, b("first"))),
        raw("b", FileType::File),
        Err(IoError::new(IoErrorKind::Other, b("second"))),
        raw("a10", FileType::File),
        raw("a9", FileType::File),
        raw("B", FileType::File),
    ];
    let mut sorted = options();
    sorted.sort = true;
    let batch = read_dir(spec_at("/r", 0, vec![]), &Ok(listing), &sorted).ok().unwrap();
    assert_eq!(
        names(&batch.results_list),
        vec!["B", "a10", "a9", "b", "error: IO error: first", "error: IO error: second"]
    );
}

#[test]
fn sorting_is_stable() {
    let listing = vec![raw("same", FileType::File), raw("a", FileType::File), raw("same", FileType::Dir)];
    let mut items = read_dir_entries(&spec_at("/r", 0, vec![]), &listing, &options());
    sort_entries(&mut items);
    assert_eq!(names(&items), vec!["a", "same", "same"]);
    assert_eq!(items[1].as_ref().unwrap().file_type, FileType::File);
    assert_eq!(items[2].as_ref().unwrap().file_type, FileType::Dir);
    sort_entries(&mut items);
    assert_eq!(items[1].as_ref().unwrap().file_type, FileType::File);
}

#[test]
fn a_sorted_batch_does_not_depend_on_the_order_of_the_listing() {
    let mut sorted = options();
    sorted.sort = true;
    let one = vec![raw("c", FileType::File), raw("a", FileType::Dir), raw("b", FileType::File)];
    let other = vec![raw("b", FileType::File), raw("c", FileType::File), raw("a", FileType::Dir)];
    let first = read_dir(spec_at("/r", 0, vec![]), &Ok(one), &sorted).ok().unwrap();
    let second = read_dir(spec_at("/r", 0, vec![]), &Ok(other), &sorted).ok().unwrap();
    assert_eq!(names(&first.results_list), vec!["a", "b", "c"]);
    assert_eq!(names(&first.results_list), names(&second.results_list));
}

#[test]
fn requests_are_made_for_the_directories_to_descend_into() {
    let listing =
        vec![raw("f", FileType::File), raw("d1", FileType::Dir), Err(denied()), raw("d2", FileType::Dir)];
    let batch = read_dir(spec_at("/r", 4, vec![]), &Ok(listing), &options()).ok().unwrap();
    let specs = batch.read_children_specs();
    assert_eq!(specs.len(), 2);
    assert_eq!(*specs[0].path, b("/r/d1"));
    assert_eq!(specs[0].depth, 5);
    assert_eq!(*specs[1].path, b("/r/d2"));

    let ordered = batch.ordered_read_children_specs(&IndexPath::new(vec![0, 3]));
    assert_eq!(ordered.len(), 2);
    assert!(ordered[0].index_path == IndexPath::new(vec![0, 3, 0]));
    assert!(ordered[1].index_path == IndexPath::new(vec![0, 3, 1]));
    assert_eq!(ordered[0].child_count, 0);
    assert_eq!(*ordered[1].value.path, b("/r/d2"));

    let (envelope, children) = order_read_dir_result(IndexPath::new(vec![0, 3]), Ok(batch));
    assert_eq!(envelope.child_count, 2);
    assert!(envelope.index_path == IndexPath::new(vec![0, 3]));
    assert_eq!(children.len(), 2);
    assert!(children[1].index_path == IndexPath::new(vec![0, 3, 1]));
}

#[test]
fn a_failed_read_announces_no_children() {
    let failed: Result<ReadDir<((), ())>, Error> = Err(Error::from_path(1, b("/r/x"), denied()));
    let (envelope, children) = order_read_dir_result(IndexPath::new(vec![0, 1]), failed);
    assert_eq!(envelope.child_count, 0);
    assert!(children.is_empty());
    assert!(envelope.value.is_err());
}

#[test]
fn a_pruned_directory_gets_no_request() {
    let listing = vec![raw("d1", FileType::Dir), raw("d2", FileType::Dir)];
    let mut batch = read_dir(spec_at("/r", 0, vec![]), &Ok(listing), &options()).ok().unwrap();
    batch.results_list[0].as_mut().unwrap().read_children_path = None;
    let specs = batch.read_children_specs();
    assert_eq!(specs.len(), 1);
    assert_eq!(*specs[0].path, b("/r/d2"));
}

fn root(path: &str, name: &str, parent: &str, file_type: FileType) -> RawRoot {
    RawRoot {
        path: b(path),
        file_name: b(name),
        parent_path: b(parent),
        file_type: Ok(file_type),
        target_type: None,
        canonical: Some(b(path)),
    }
}

#[test]
fn the_root_is_at_depth_zero() {
    let entry: Entry = create_root_entry(&root("/a/r", "r", "/a", FileType::Dir), &options()).ok().unwrap();
    assert_eq!(entry.depth, 0);
    assert_eq!(entry.file_name, b("r"));
    assert_eq!(*entry.parent_path, b("/a"));
    assert_eq!(entry.path(), b("/a/r"));
    assert_eq!(entry.read_children_path.as_deref(), Some(&b("/a/r")));
    assert!(entry.follow_link_ancestors.is_empty());
    assert!(!entry.path_is_symlink());
}

#[test]
fn the_root_is_not_read_when_the_maximum_depth_is_zero() {
    let mut flat = options();
    flat.max_depth = 0;
    let entry: Entry = create_root_entry(&root("/r", "r", "/", FileType::Dir), &flat).ok().unwrap();
    assert!(entry.read_children_path.is_none());
    let file: Entry = create_root_entry(&root("/f", "f", "/", FileType::File), &options()).ok().unwrap();
    assert!(file.read_children_path.is_none());
}

#[test]
fn a_root_that_cannot_be_looked_at_becomes_an_error() {
    let missing = RawRoot {
        path: b("/gone"),
        file_name: b("gone"),
        parent_path: b("/"),
        file_type: Err(IoError::new(IoErrorKind::NotFound, b("No such file or directory"))),
        target_type: None,
        canonical: None,
    };
    let result: Item = create_root_entry(&missing, &options());
    let err = result.err().unwrap();
    assert_eq!(err.path(), Some(&b("/gone")));
    assert_eq!(err.depth(), 0);
    assert_eq!(err.io_error().unwrap().kind(), IoErrorKind::NotFound);
}

#[test]
fn a_root_that_is_a_link_to_a_directory_is_descended_into() {
    let mut link = root("/l", "l", "/", FileType::Symlink);
    link.target_type = Some(Ok(FileType::Dir));
    let plain: Entry = create_root_entry(&link, &options()).ok().unwrap();
    assert_eq!(plain.file_type, FileType::Symlink);
    assert!(plain.path_is_symlink());
    assert!(!plain.follow_link);
    assert!(plain.read_children_path.is_some());
    assert!(plain.follow_link_ancestors.is_empty());

    let mut follow = options();
    follow.follow_links = true;
    let followed: Entry = create_root_entry(&link, &follow).ok().unwrap();
    assert_eq!(followed.file_type, FileType::Dir);
    assert!(followed.follow_link);
    assert!(followed.path_is_symlink());
    assert_eq!(followed.follow_link_ancestors.len(), 1);
    assert_eq!(followed.follow_link_ancestors[0].path, b("/l"));

    link.target_type = Some(Err(denied()));
    let broken: Item = create_root_entry(&link, &follow);
    assert_eq!(broken.err().unwrap().path(), Some(&b("/l")));
    let kept: Entry = create_root_entry(&link, &options()).ok().unwrap();
    assert!(kept.read_children_path.is_none());
}

#[test]
fn a_serial_walk_reads_depth_first() {
    let root_listing = vec![raw("d1", FileType::Dir), raw("d2", FileType::Dir)];
    let batch = read_dir(spec_at("/r", 0, vec![]), &Ok(root_listing), &options());
    let mut source = ReadDirIter::new_serial(vec![spec_at("/r", 0, vec![])]);
    assert_eq!(*source.next_spec().unwrap().path, b("/r"));
    source.schedule_children(&batch);
    let d1 = source.next_spec().unwrap();
    assert_eq!(*d1.path, b("/r/d1"));
    let inner = read_dir(d1, &Ok(vec![raw("x", FileType::Dir), raw("y", FileType::Dir)]), &options());
    source.schedule_children(&inner);
    assert_eq!(*source.next_spec().unwrap().path, b("/r/d1/x"));
    assert_eq!(*source.next_spec().unwrap().path, b("/r/d1/y"));
    let failed: Result<ReadDir<((), ())>, Error> = Err(Error::busy());
    source.schedule_children(&failed);
    assert_eq!(*source.next_spec().unwrap().path, b("/r/d2"));
    assert!(source.next_spec().is_none());
    assert!(matches!(source.try_next_result(), Err(jwalk::TryNextError::Disconnected)));
}

#[test]
fn batches_at_hand_are_walked_in_pre_order() {
    let root_entry: Item = create_root_entry(&root("/r", "r", "/", FileType::Dir), &options());
    let root_batch = read_dir(
        spec_at("/r", 0, vec![]),
        &Ok(vec![raw("a", FileType::File), raw("d1", FileType::Dir), raw("d2", FileType::Dir), raw("z", FileType::File)]),
        &options(),
    );
    let d1 = read_dir(spec_at("/r/d1", 1, vec![]), &Ok(vec![raw("x", FileType::File)]), &options());
    let d2: Result<ReadDir<((), ())>, Error> = Err(Error::from_path(1, b("/r/d2"), denied()));
    let paths = |min_depth: usize, reads: Vec<Result<ReadDir<((), ())>, Error>>, root: Item| -> Vec<String> {
        walk_batches(vec![root], min_depth, reads)
            .into_iter()
            .map(|item| {
                let entry = item.unwrap();
                let failed = if entry.read_children_error.is_some() { " (unread)" } else { "" };
                format!("{}{}", text(&entry.path()), failed)
            })
            .collect()
    };
    assert_eq!(
        paths(0, vec![root_batch, d1, d2], root_entry),
        vec!["/r", "/r/a", "/r/d1", "/r/d1/x", "/r/d2 (unread)", "/r/z"]
    );

    // Entries above the minimum depth are passed over, but still descended into.
    let root_entry: Item = create_root_entry(&root("/r", "r", "/", FileType::Dir), &options());
    let root_batch = read_dir(
        spec_at("/r", 0, vec![]),
        &Ok(vec![raw("a", FileType::File), raw("d1", FileType::Dir)]),
        &options(),
    );
    let d1 = read_dir(spec_at("/r/d1", 1, vec![]), &Ok(vec![raw("x", FileType::File)]), &options());
    assert_eq!(paths(2, vec![root_batch, d1], root_entry), vec!["/r/d1/x"]);

    // A walk whose batches run out ends where it stands.
    let root_entry: Item = create_root_entry(&root("/r", "r", "/", FileType::Dir), &options());
    assert!(paths(0, vec![], root_entry).is_empty());
}

#[test]
fn requests_for_the_root_batch() {
    let root_entry: Item = create_root_entry(&root("/r", "r", "/", FileType::Dir), &options());
    let results = vec![root_entry];
    let specs = read_children_specs_of(&results, &());
    assert_eq!(specs.len(), 1);
    assert_eq!(specs[0].depth, 0);
    assert_eq!(*specs[0].path, b("/r"));
}

#[test]
fn workers_stop_when_the_consumer_is_gone() {
    let (source, mut requests, run_context) = jwalk::start_parallel(vec![spec_at("/r", 0, vec![])]);
    let seed = requests.try_next_relaxed().ok().unwrap();
    assert!(seed.index_path == IndexPath::new(vec![0]));
    assert_eq!(*seed.value.path, b("/r"));
    // The consumer goes away before the first result is sent.
    drop(source);
    let batch = read_dir(seed.value, &Ok(vec![raw("d", FileType::Dir)]), &options());
    let goes_on = jwalk::multi_threaded_walk_dir(seed.index_path, batch, &run_context);
    assert!(!goes_on);
    assert!(run_context.stop.load(std::sync::atomic::Ordering::SeqCst));
    // Nothing is handed out to workers any more.
    assert!(matches!(requests.try_next_relaxed(), Err(jwalk::TryNextError::Disconnected)));
}

#[test]
fn workers_send_results_and_schedule_the_reads_below() {
    let (mut source, mut requests, run_context) =
        jwalk::start_parallel(vec![spec_at("/r", 0, vec![])]);
    let seed = requests.try_next_relaxed().ok().unwrap();
    let batch =
        read_dir(seed.value, &Ok(vec![raw("d1", FileType::Dir), raw("d2", FileType::Dir)]), &options());
    assert!(jwalk::multi_threaded_walk_dir(seed.index_path, batch, &run_context));
    let first = requests.try_next_relaxed().ok().unwrap();
    assert!(first.index_path == IndexPath::new(vec![0, 0]));
    assert_eq!(*first.value.path, b("/r/d1"));
    assert_eq!(first.value.depth, 1);
    let second = requests.try_next_relaxed().ok().unwrap();
    assert!(second.index_path == IndexPath::new(vec![0, 1]));
    // Two reads are outstanding, so the workers are asked to wait.
    assert!(matches!(requests.try_next_relaxed(), Err(jwalk::TryNextError::Empty)));
    // The consumer gets the batch of the root and then waits for `d1`.
    let root_batch = source.try_next_result().ok().unwrap().ok().unwrap();
    assert_eq!(names(&root_batch.results_list), vec!["d1", "d2"]);
    assert!(matches!(source.try_next_result(), Err(jwalk::TryNextError::Empty)));
    // The results of `d2` and `d1` arrive in the wrong order.
    let d2 = read_dir(second.value, &Ok(vec![raw("y", FileType::File)]), &options());
    assert!(jwalk::multi_threaded_walk_dir(second.index_path, d2, &run_context));
    assert!(matches!(source.try_next_result(), Err(jwalk::TryNextError::Empty)));
    let d1 = read_dir(first.value, &Ok(vec![raw("x", FileType::File)]), &options());
    assert!(jwalk::multi_threaded_walk_dir(first.index_path, d1, &run_context));
    let next = source.try_next_result().ok().unwrap().ok().unwrap();
    assert_eq!(names(&next.results_list), vec!["x"]);
    let next = source.try_next_result().ok().unwrap().ok().unwrap();
    assert_eq!(names(&next.results_list), vec!["y"]);
    assert!(matches!(source.try_next_result(), Err(jwalk::TryNextError::Disconnected)));
    assert!(matches!(requests.try_next_relaxed(), Err(jwalk::TryNextError::Disconnected)));
}

#[test]
fn every_entry_of_a_batch_lies_in_the_directory_that_was_read() {
    let listing = vec![raw("f", FileType::File), raw("d", FileType::Dir)];
    let mut deep = options();
    deep.max_depth = 3;
    let items = read_dir_entries(&spec_at("/r/x", 1, vec![]), &listing, &deep);
    for item in &items {
        let entry = item.as_ref().unwrap();
        assert_eq!(*entry.parent_path, b("/r/x"));
        assert_eq!(entry.depth, 2);
    }
    assert_eq!(items[1].as_ref().unwrap().read_children_path.as_deref(), Some(&b("/r/x/d")));
    let at_limit = read_dir_entries(&spec_at("/r/x/d", 2, vec![]), &listing, &deep);
    assert!(at_limit.iter().all(|item| item.as_ref().unwrap().read_children_path.is_none()));
}

// The reads of the tree
//
//   /r ── a
//      ├─ d1 ── x
//      │     └─ e ── deep
//      └─ d2 ── y
//
// with their index paths, in pre-order.
fn reads_of_a_small_tree() -> Vec<(Vec<usize>, Result<ReadDir<((), ())>, Error>)> {
    let dir = |path: &str, depth: usize, names: Vec<(&str, FileType)>| {
        let listing = names.into_iter().map(|(name, file_type)| raw(name, file_type)).collect();
        read_dir(spec_at(path, depth, vec![]), &Ok(listing), &options())
    };
    vec![
        (
            vec![0],
            dir("/r", 0, vec![("a", FileType::File), ("d1", FileType::Dir), ("d2", FileType::Dir)]),
        ),
        (vec![0, 0], dir("/r/d1", 1, vec![("x", FileType::File), ("e", FileType::Dir)])),
        (vec![0, 0, 0], dir("/r/d1/e", 2, vec![("deep", FileType::File)])),
        (vec![0, 1], dir("/r/d2", 1, vec![("y", FileType::File)])),
    ]
}

#[test]
fn a_parallel_walk_yields_what_a_serial_walk_yields() {
    let walked = |reads: Vec<Result<ReadDir<((), ())>, Error>>| -> Vec<String> {
        let root_entry: Item = create_root_entry(&root("/r", "r", "/", FileType::Dir), &options());
        walk_batches(vec![root_entry], 0, reads)
            .into_iter()
            .map(|item| text(&item.unwrap().path()))
            .collect()
    };
    let serial = walked(reads_of_a_small_tree().into_iter().map(|(_, read)| read).collect());
    assert_eq!(
        serial,
        vec!["/r", "/r/a", "/r/d1", "/r/d1/x", "/r/d1/e", "/r/d1/e/deep", "/r/d2", "/r/d2/y"]
    );
    let orders: Vec<Vec<usize>> = vec![vec![3, 2, 1, 0], vec![2, 0, 3, 1], vec![1, 3, 2, 0]];
    for order in orders {
        let mut reads: Vec<Option<(Vec<usize>, Result<ReadDir<((), ())>, Error>)>> =
            reads_of_a_small_tree().into_iter().map(Some).collect();
        let arrivals = order
            .into_iter()
            .map(|position| {
                let (path, read) = reads[position].take().unwrap();
                order_read_dir_result(IndexPath::new(path), read).0
            })
            .collect();
        let stop = Arc::new(std::sync::atomic::AtomicBool::new(false));
        let (_queue, mut drain) = jwalk::new_ordered_queue(stop, jwalk::QueueOrdering::Strict);
        let delivered = jwalk::strict_order::drain_arrivals(&mut drain, arrivals);
        assert_eq!(drain.buffered(), 0);
        let parallel = walked(delivered.into_iter().map(|ordered| ordered.value).collect());
        assert_eq!(parallel, serial);
    }
}

#[test]
fn a_parallel_walk_starts_with_its_roots_scheduled_in_order() {
    let (_source, mut requests, run_context) = jwalk::start_parallel(vec![
        spec_at("/first", 0, vec![]),
        spec_at("/second", 0, vec![]),
        spec_at("/third", 0, vec![]),
    ]);
    let mut seen = Vec::new();
    while let Ok(seed) = requests.try_next_relaxed() {
        assert!(seed.index_path == IndexPath::new(vec![0]));
        seen.push((text(&seed.value.path), seed.child_count));
        run_context.read_dir_spec_queue.complete_item();
    }
    assert_eq!(
        seen,
        vec![("/first".to_string(), 0), ("/second".to_string(), 1), ("/third".to_string(), 2)]
    );
    // The queues and the drains share the stop flag of the walk.
    run_context.read_dir_result_queue.stop();
    assert!(run_context.stop.load(std::sync::atomic::Ordering::SeqCst));
    assert!(run_context.read_dir_spec_queue.push(jwalk::Ordered::new(
        spec_at("/late", 0, vec![]),
        IndexPath::new(vec![0]),
        0
    ))
    .is_err());
}
