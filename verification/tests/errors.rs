use jwalk::{Error, IoError, IoErrorKind};

fn denied() -> IoError {
    IoError::new(IoErrorKind::PermissionDenied, b"Permission denied".to_vec())
}

#[test]
fn io_error_with_a_path() {
    let err = Error::from_path(3, b"/a/b".to_vec(), denied());
    assert_eq!(err.path(), Some(&b"/a/b".to_vec()));
    assert_eq!(err.depth(), 3);
    assert!(err.loop_ancestor().is_none());
    assert!(!err.is_busy());
    let io = err.io_error().unwrap();
    assert_eq!(io.kind(), IoErrorKind::PermissionDenied);
    assert_eq!(io.message(), &b"Permission denied".to_vec());
    assert_eq!(err.message(), b"IO error for /a/b: Permission denied".to_vec());
}

#[test]
fn io_error_without_a_path() {
    let err = Error::from_io(1, denied());
    assert!(err.path().is_none());
    assert_eq!(err.depth(), 1);
    assert!(err.io_error().is_some());
    assert_eq!(err.message(), b"IO error: Permission denied".to_vec());
    let io = err.into_io_error().unwrap();
    assert_eq!(io.kind, IoErrorKind::PermissionDenied);
    assert_eq!(io.message, b"Permission denied".to_vec());
}

#[test]
fn loop_error() {
    let err = Error::from_loop(4, b"/r/a".to_vec(), b"/r/a/b/c/loop".to_vec());
    assert_eq!(err.path(), Some(&b"/r/a/b/c/loop".to_vec()));
    assert_eq!(err.loop_ancestor(), Some(&b"/r/a".to_vec()));
    assert_eq!(err.depth(), 4);
    assert!(err.io_error().is_none());
    assert!(!err.is_busy());
    assert_eq!(
        err.message(),
        b"filesystem loop found: /r/a/b/c/loop points to ancestor /r/a".to_vec()
    );
    assert!(err.clone().into_io_error().is_none());
    let io = err.into_io();
    assert_eq!(io.kind, IoErrorKind::Other);
    assert_eq!(io.message, b"filesystem loop found: /r/a/b/c/loop points to ancestor /r/a".to_vec());
}

#[test]
fn busy_error() {
    let err = Error::busy();
    assert!(err.is_busy());
    assert!(err.path().is_none());
    assert!(err.loop_ancestor().is_none());
    assert!(err.io_error().is_none());
    assert_eq!(err.depth(), 0);
    assert_eq!(err.message(), b"threadpool is busy".to_vec());
    let io = err.into_io();
    assert_eq!(io.kind, IoErrorKind::WouldBlock);
    assert_eq!(io.message, b"threadpool is busy".to_vec());
}

#[test]
fn into_io_keeps_the_original_cause() {
    let io = Error::from_path(2, b"x".to_vec(), denied()).into_io();
    assert_eq!(io.kind, IoErrorKind::PermissionDenied);
    assert_eq!(io.message, b"Permission denied".to_vec());
}

#[test]
fn a_clone_is_the_same_error() {
    let err = Error::from_path(9, b"/p".to_vec(), denied());
    let copy = err.clone();
    assert_eq!(copy.depth(), 9);
    assert_eq!(copy.path(), err.path());
    assert_eq!(copy.message(), err.message());
    let busy = Error::busy().clone();
    assert!(busy.is_busy());
    let looped = Error::from_loop(1, b"a".to_vec(), b"b".to_vec()).clone();
    assert_eq!(looped.loop_ancestor(), Some(&b"a".to_vec()));
    assert_eq!(looped.path(), Some(&b"b".to_vec()));
}
