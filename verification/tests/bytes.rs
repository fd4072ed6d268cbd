use jwalk::bytes::{append_bytes, bytes_equal, bytes_less, clone_bytes, is_hidden, join_path};

fn b(text: &str) -> Vec<u8> {
    text.as_bytes().to_vec()
}

#[test]
fn join_puts_one_separator_between_parent_and_name() {
    assert_eq!(join_path(&b("/a/b"), &b("c")), b("/a/b/c"));
    assert_eq!(join_path(&b("a"), &b("b")), b("a/b"));
    assert_eq!(join_path(&b("."), &b("a.txt")), b("./a.txt"));
}

#[test]
fn join_adds_no_separator_after_one() {
    assert_eq!(join_path(&b("/"), &b("etc")), b("/etc"));
    assert_eq!(join_path(&b("a/"), &b("b")), b("a/b"));
}

#[test]
fn join_with_an_empty_parent_is_the_name() {
    assert_eq!(join_path(&b(""), &b("a")), b("a"));
    assert_eq!(join_path(&b(""), &b("")), b(""));
}

#[test]
fn join_with_a_name_from_the_root_is_the_name() {
    assert_eq!(join_path(&b("/a/b"), &b("/c")), b("/c"));
    assert_eq!(join_path(&b(""), &b("/")), b("/"));
}

#[test]
fn join_with_an_empty_name_ends_in_a_separator() {
    assert_eq!(join_path(&b("a"), &b("")), b("a/"));
}

#[test]
fn hidden_names_start_with_a_dot() {
    assert!(is_hidden(&b(".git")));
    assert!(is_hidden(&b(".")));
    assert!(!is_hidden(&b("a.txt")));
    assert!(!is_hidden(&b("")));
    assert!(!is_hidden(&vec![0xff, b'.']));
}

#[test]
fn bytes_are_ordered_like_words_in_a_dictionary() {
    assert!(bytes_less(&b("a"), &b("b")));
    assert!(bytes_less(&b("a"), &b("ab")));
    assert!(bytes_less(&b(""), &b("a")));
    assert!(bytes_less(&b("Z"), &b("a")));
    assert!(bytes_less(&b("a10"), &b("a9")));
    assert!(!bytes_less(&b("b"), &b("a")));
    assert!(!bytes_less(&b("ab"), &b("a")));
    assert!(!bytes_less(&b("a"), &b("a")));
    assert!(!bytes_less(&b(""), &b("")));
    assert!(bytes_less(&vec![0x7f], &vec![0x80]));
}

#[test]
fn equal_bytes() {
    assert!(bytes_equal(&b("abc"), &b("abc")));
    assert!(bytes_equal(&b(""), &b("")));
    assert!(!bytes_equal(&b("abc"), &b("abd")));
    assert!(!bytes_equal(&b("abc"), &b("ab")));
}

#[test]
fn copies_and_appends() {
    let source = b("abc");
    let mut copy = clone_bytes(&source);
    assert_eq!(copy, source);
    append_bytes(&mut copy, b"def");
    assert_eq!(copy, b("abcdef"));
    assert_eq!(source, b("abc"));
    append_bytes(&mut copy, b"");
    assert_eq!(copy, b("abcdef"));
}
