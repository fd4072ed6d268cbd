use jwalk::alphanumeric::{alphanumeric_less, entry_alphanumeric_precedes, sort_entries_alphanumeric};
use jwalk::batch_order::sort_entries;
use jwalk::listing::read_dir_entries;
use jwalk::{DirEntry, Error, FileType, IoError, IoErrorKind, RawDirEntry, ReadDirSpec, WalkDir};
use std::sync::Arc;

type Item = Result<DirEntry<((), ())>, Error>;

fn b(text: &str) -> Vec<u8> {
    text.as_bytes().to_vec()
}

fn batch(names: &[&[u8]]) -> Vec<Item> {
    let spec: ReadDirSpec<((), ())> = ReadDirSpec {
        depth: 0,
        path: Arc::new(b("/r")),
        client_read_state: (),
        follow_link_ancestors: Arc::new(Vec::new()),
    };
    let listing: Vec<Result<RawDirEntry, IoError>> = names
        .iter()
        .map(|name| {
            if name.is_empty() {
                Err(IoError::new(IoErrorKind::Other, b("unreadable")))
            } else {
                Ok(RawDirEntry {
                    file_name: name.to_vec(),
                    file_type: Ok(FileType::File),
                    target_type: None,
                    canonical: None,
                })
            }
        })
        .collect();
    read_dir_entries(&spec, &listing, &WalkDir::new(b("/r")).into_parts().1)
}

fn names(items: &[Item]) -> Vec<Vec<u8>> {
    items
        .iter()
        .map(|item| match item {
            Ok(entry) => entry.file_name.clone(),
            Err(_) => b("<error>"),
        })
        .collect()
}

#[test]
fn numbers_in_names_count_as_numbers() {
    assert!(alphanumeric_less(&b("file2"), &b("file10")));
    assert!(!alphanumeric_less(&b("file10"), &b("file2")));
    assert!(alphanumeric_less(&b("a"), &b("b")));
    assert!(!alphanumeric_less(&b("same"), &b("same")));
}

#[test]
fn names_that_are_not_text_are_ordered_by_their_bytes() {
    let not_text = vec![0xff, b'2'];
    let text = b("10");
    // As bytes, "10" comes before 0xff '2'.
    assert!(alphanumeric_less(&text, &not_text));
    assert!(!alphanumeric_less(&not_text, &text));
    assert!(alphanumeric_less(&vec![0xff, b'1', b'0'], &vec![0xff, b'2']));
}

#[test]
fn a_batch_in_alphanumeric_order() {
    let mut items = batch(&[b"file10", b"", b"file2", b"file1", b"a"]);
    sort_entries_alphanumeric(&mut items);
    assert_eq!(names(&items), vec![b("a"), b("file1"), b("file2"), b("file10"), b("<error>")]);
}

#[test]
fn the_order_by_bytes_differs() {
    let mut items = batch(&[b"file10", b"file2", b"file1"]);
    sort_entries(&mut items);
    assert_eq!(names(&items), vec![b("file1"), b("file10"), b("file2")]);
    sort_entries_alphanumeric(&mut items);
    assert_eq!(names(&items), vec![b("file1"), b("file2"), b("file10")]);
}

#[test]
fn entries_come_before_errors() {
    let items = batch(&[b"", b"x"]);
    assert!(entry_alphanumeric_precedes(&items[1], &items[0]));
    assert!(!entry_alphanumeric_precedes(&items[0], &items[1]));
    assert!(!entry_alphanumeric_precedes(&items[0], &items[0]));
}

#[test]
fn sorting_keeps_every_item() {
    let mut items = batch(&[b"b", b"", b"a", b"", b"b"]);
    sort_entries_alphanumeric(&mut items);
    assert_eq!(names(&items), vec![b("a"), b("b"), b("b"), b("<error>"), b("<error>")]);
}
