//! Errors of a walk.

use crate::bytes::{append_bytes, clone_bytes};
use vstd::prelude::*;
use vstd::string::*;

verus! {

/// What went wrong in the operating system, as far as a walk tells causes
/// apart.
#[derive(Clone, Copy, Debug, PartialEq, Eq, Structural)]
pub enum IoErrorKind {
    NotFound,
    PermissionDenied,
    NotADirectory,
    InvalidInput,
    InvalidData,
    TimedOut,
    Interrupted,
    Unsupported,
    WouldBlock,
    Other,
}

/// The cause of a failed operating-system call: its kind and its message.
#[derive(Debug)]
pub struct IoError {
    pub kind: IoErrorKind,
    pub message: Vec<u8>,
}

/// An `IoError` as a mathematical value.
pub struct IoErrorView {
    pub kind: IoErrorKind,
    pub message: Seq<u8>,
}

impl View for IoError {
    type V = IoErrorView;

    open spec fn view(&self) -> IoErrorView {
        IoErrorView { kind: self.kind, message: self.message@ }
    }
}

impl IoError {
    /// An I/O cause of the given kind and message.
    pub fn new(kind: IoErrorKind, message: Vec<u8>) -> (err: IoError)
        ensures
            err@ == (IoErrorView { kind, message: message@ }),
    {
        IoError { kind, message }
    }

    /// The kind of the cause.
    pub fn kind(&self) -> (kind: IoErrorKind)
        ensures
            kind == self@.kind,
    {
        self.kind
    }

    /// The message of the cause.
    pub fn message(&self) -> (message: &Vec<u8>)
        ensures
            message@ == self@.message,
    {
        &self.message
    }
}

impl Clone for IoError {
    fn clone(&self) -> (copy: IoError)
        ensures
            copy@ == self@,
    {
        IoError { kind: self.kind, message: clone_bytes(&self.message) }
    }
}

/// What an `Error` holds besides its depth.
#[derive(Debug)]
pub enum ErrorInner {
    Io { path: Option<Vec<u8>>, err: IoError },
    Loop { ancestor: Vec<u8>, child: Vec<u8> },
    ThreadpoolBusy,
}

/// An `ErrorInner` as a mathematical value.
pub enum ErrorInnerView {
    Io { path: Option<Seq<u8>>, err: IoErrorView },
    Loop { ancestor: Seq<u8>, child: Seq<u8> },
    ThreadpoolBusy,
}

impl View for ErrorInner {
    type V = ErrorInnerView;

    open spec fn view(&self) -> ErrorInnerView {
        match self {
            ErrorInner::Io { path, err } => ErrorInnerView::Io {
                path: match path {
                    Some(p) => Some(p@),
                    None => None,
                },
                err: err@,
            },
            ErrorInner::Loop { ancestor, child } => ErrorInnerView::Loop {
                ancestor: ancestor@,
                child: child@,
            },
            ErrorInner::ThreadpoolBusy => ErrorInnerView::ThreadpoolBusy,
        }
    }
}

/// An error met while walking: the depth at which it occurred and either an
/// I/O cause with the path it concerns, a cycle of symbolic links, or a
/// thread pool too busy to start the walk.
#[derive(Debug)]
pub struct Error {
    depth: usize,
    inner: ErrorInner,
}

/// An `Error` as a mathematical value.
pub struct ErrorView {
    pub depth: usize,
    pub inner: ErrorInnerView,
}

impl View for Error {
    type V = ErrorView;

    closed spec fn view(&self) -> ErrorView {
        ErrorView { depth: self.depth, inner: self.inner@ }
    }
}

impl ErrorView {
    /// The path that the error concerns, if it has one.
    pub open spec fn path(self) -> Option<Seq<u8>> {
        match self.inner {
            ErrorInnerView::Io { path, .. } => path,
            ErrorInnerView::Loop { child, .. } => Some(child),
            ErrorInnerView::ThreadpoolBusy => None,
        }
    }

    /// The ancestor that a cycle leads back to, if the error is a cycle.
    pub open spec fn loop_ancestor(self) -> Option<Seq<u8>> {
        match self.inner {
            ErrorInnerView::Loop { ancestor, .. } => Some(ancestor),
            _ => None,
        }
    }

    /// The I/O cause, if the error has one.
    pub open spec fn io_error(self) -> Option<IoErrorView> {
        match self.inner {
            ErrorInnerView::Io { err, .. } => Some(err),
            _ => None,
        }
    }

    /// The text that describes the error.
    pub open spec fn message(self) -> Seq<u8> {
        match self.inner {
            ErrorInnerView::Io { path: Some(path), err } => "IO error for ".spec_bytes() + path
                + ": ".spec_bytes() + err.message,
            ErrorInnerView::Io { path: None, err } => "IO error: ".spec_bytes() + err.message,
            ErrorInnerView::Loop { ancestor, child } => "filesystem loop found: ".spec_bytes()
                + child + " points to ancestor ".spec_bytes() + ancestor,
            ErrorInnerView::ThreadpoolBusy => "threadpool is busy".spec_bytes(),
        }
    }

    /// The I/O error that stands for this error where only I/O errors travel:
    /// the underlying cause where there is one, else an error of kind `Other`
    /// for a cycle and of kind `WouldBlock` for a busy pool, with the
    /// describing text as its message.
    pub open spec fn into_io(self) -> IoErrorView {
        match self.inner {
            ErrorInnerView::Io { err, .. } => err,
            ErrorInnerView::Loop { .. } => IoErrorView {
                kind: IoErrorKind::Other,
                message: self.message(),
            },
            ErrorInnerView::ThreadpoolBusy => IoErrorView {
                kind: IoErrorKind::WouldBlock,
                message: self.message(),
            },
        }
    }
}

impl Error {
    /// An I/O error at `depth` that concerns the path `pb`.
    pub fn from_path(depth: usize, pb: Vec<u8>, err: IoError) -> (e: Error)
        ensures
            e@ == (ErrorView {
                depth,
                inner: ErrorInnerView::Io { path: Some(pb@), err: err@ },
            }),
    {
        Error { depth, inner: ErrorInner::Io { path: Some(pb), err } }
    }

    /// An I/O error at `depth` that concerns no path.
    pub fn from_io(depth: usize, err: IoError) -> (e: Error)
        ensures
            e@ == (ErrorView { depth, inner: ErrorInnerView::Io { path: None, err: err@ } }),
    {
        Error { depth, inner: ErrorInner::Io { path: None, err } }
    }

    /// A cycle found at `depth`: following `child` leads back to `ancestor`.
    pub fn from_loop(depth: usize, ancestor: Vec<u8>, child: Vec<u8>) -> (e: Error)
        ensures
            e@ == (ErrorView {
                depth,
                inner: ErrorInnerView::Loop { ancestor: ancestor@, child: child@ },
            }),
    {
        Error { depth, inner: ErrorInner::Loop { ancestor, child } }
    }

    /// The error of a thread pool too busy to start the walk, at depth 0.
    pub fn busy() -> (e: Error)
        ensures
            e@ == (ErrorView { depth: 0, inner: ErrorInnerView::ThreadpoolBusy }),
    {
        Error { depth: 0, inner: ErrorInner::ThreadpoolBusy }
    }

    /// The path that the error concerns: the path given with an I/O error, the
    /// child of a cycle, none for a busy pool.
    pub fn path(&self) -> (path: Option<&Vec<u8>>)
        ensures
            path.is_some() == self@.path().is_some(),
            path.is_some() ==> path.unwrap()@ == self@.path().unwrap(),
    {
        match &self.inner {
            ErrorInner::Io { path, .. } => path.as_ref(),
            ErrorInner::Loop { child, .. } => Some(child),
            ErrorInner::ThreadpoolBusy => None,
        }
    }

    /// The ancestor at which a cycle was found, `None` for any other error.
    pub fn loop_ancestor(&self) -> (ancestor: Option<&Vec<u8>>)
        ensures
            ancestor.is_some() == self@.loop_ancestor().is_some(),
            ancestor.is_some() ==> ancestor.unwrap()@ == self@.loop_ancestor().unwrap(),
    {
        match &self.inner {
            ErrorInner::Loop { ancestor, .. } => Some(ancestor),
            _ => None,
        }
    }

    /// The depth at which the error occurred; the root of the walk is at 0.
    pub fn depth(&self) -> (depth: usize)
        ensures
            depth == self@.depth,
    {
        self.depth
    }

    /// The I/O cause, `None` for a cycle and for a busy pool.
    pub fn io_error(&self) -> (err: Option<&IoError>)
        ensures
            err.is_some() == self@.io_error().is_some(),
            err.is_some() ==> err.unwrap()@ == self@.io_error().unwrap(),
    {
        match &self.inner {
            ErrorInner::Io { err, .. } => Some(err),
            _ => None,
        }
    }

    /// Whether the error says that the thread pool was too busy.
    pub fn is_busy(&self) -> (busy: bool)
        ensures
            busy == (self@.inner == ErrorInnerView::ThreadpoolBusy),
    {
        match &self.inner {
            ErrorInner::ThreadpoolBusy => true,
            _ => false,
        }
    }

    /// Gives up the error for its I/O cause, `None` for a cycle and for a busy
    /// pool.
    pub fn into_io_error(self) -> (err: Option<IoError>)
        ensures
            err.is_some() == self@.io_error().is_some(),
            err.is_some() ==> err.unwrap()@ == self@.io_error().unwrap(),
    {
        match self.inner {
            ErrorInner::Io { err, .. } => Some(err),
            _ => None,
        }
    }

    /// The text that describes the error.
    pub fn message(&self) -> (text: Vec<u8>)
        ensures
            text@ == self@.message(),
    {
        let mut text: Vec<u8> = Vec::new();
        match &self.inner {
            ErrorInner::Io { path: Some(path), err } => {
                append_bytes(&mut text, "IO error for ".as_bytes());
                append_bytes(&mut text, path.as_slice());
                append_bytes(&mut text, ": ".as_bytes());
                append_bytes(&mut text, err.message.as_slice());
                assert(text@ =~= self@.message());
            },
            ErrorInner::Io { path: None, err } => {
                append_bytes(&mut text, "IO error: ".as_bytes());
                append_bytes(&mut text, err.message.as_slice());
                assert(text@ =~= self@.message());
            },
            ErrorInner::Loop { ancestor, child } => {
                append_bytes(&mut text, "filesystem loop found: ".as_bytes());
                append_bytes(&mut text, child.as_slice());
                append_bytes(&mut text, " points to ancestor ".as_bytes());
                append_bytes(&mut text, ancestor.as_slice());
                assert(text@ =~= self@.message());
            },
            ErrorInner::ThreadpoolBusy => {
                append_bytes(&mut text, "threadpool is busy".as_bytes());
                assert(text@ =~= self@.message());
            },
        }
        text
    }

    /// Turns the error into an I/O error: the underlying cause where there is
    /// one; for a cycle an error of kind `Other`, for a busy pool one of kind
    /// `WouldBlock`, each with the describing text as its message.
    pub fn into_io(self) -> (err: IoError)
        ensures
            err@ == self@.into_io(),
    {
        let text = self.message();
        match self.inner {
            ErrorInner::Io { err, .. } => err,
            ErrorInner::Loop { .. } => IoError { kind: IoErrorKind::Other, message: text },
            ErrorInner::ThreadpoolBusy => IoError { kind: IoErrorKind::WouldBlock, message: text },
        }
    }
}

impl Clone for Error {
    fn clone(&self) -> (copy: Error)
        ensures
            copy@ == self@,
    {
        let inner = match &self.inner {
            ErrorInner::Io { path, err } => ErrorInner::Io {
                path: match path {
                    Some(p) => Some(clone_bytes(p)),
                    None => None,
                },
                err: err.clone(),
            },
            ErrorInner::Loop { ancestor, child } => ErrorInner::Loop {
                ancestor: clone_bytes(ancestor),
                child: clone_bytes(child),
            },
            ErrorInner::ThreadpoolBusy => ErrorInner::ThreadpoolBusy,
        };
        Error { depth: self.depth, inner }
    }
}

} // verus!
