//! Failure classification for the capture store.
//!
//! Every fallible operation returns one of three kinds: the OS refused the
//! operation, a file (or capture) could not be located, or some other I/O
//! failure happened, preserved as an opaque subcategory tag for diagnostics.

use vstd::prelude::*;
use vstd::string::StringExecFns;

verus! {

/// The subcategory tag carried by [`Error::IoError`].  The surrounding
/// application maps the host's I/O error categories onto these; the store
/// itself only ever constructs `InvalidData` (for content it cannot use),
/// `NotFound` and `Other`.
#[derive(Clone, Copy, Debug, PartialEq, Eq, Structural)]
pub enum IoKind {
    NotFound,
    PermissionDenied,
    InvalidData,
    Interrupted,
    UnexpectedEof,
    Other,
}

/// Error kind returned by every fallible capture-store operation.
#[derive(Clone, Copy, Debug, PartialEq, Eq, Structural)]
pub enum Error {
    /// The OS refused the requested file operation.
    PermissionDenied,
    /// A targeted file or directory, or a capture, does not exist or cannot
    /// be located.
    FileNotFound,
    /// Any other OS-level I/O failure category.
    IoError(IoKind),
}

pub open spec fn io_kind_text(k: IoKind) -> Seq<char> {
    match k {
        IoKind::NotFound => "NotFound"@,
        IoKind::PermissionDenied => "PermissionDenied"@,
        IoKind::InvalidData => "InvalidData"@,
        IoKind::Interrupted => "Interrupted"@,
        IoKind::UnexpectedEof => "UnexpectedEof"@,
        IoKind::Other => "Other"@,
    }
}

pub open spec fn error_text(e: Error) -> Seq<char> {
    match e {
        Error::PermissionDenied => "Permission Denied"@,
        Error::FileNotFound => "File Not Found"@,
        Error::IoError(k) => "IO Error: "@ + io_kind_text(k),
    }
}

/// Classifies an I/O failure category into the error taxonomy: a refused
/// operation and a missing file are promoted to their own kinds, every
/// other category is preserved as an opaque tag.
pub fn classify_io(kind: IoKind) -> (r: Error)
    ensures
        kind == IoKind::PermissionDenied ==> r == Error::PermissionDenied,
        kind == IoKind::NotFound ==> r == Error::FileNotFound,
        kind != IoKind::PermissionDenied && kind != IoKind::NotFound ==> r == Error::IoError(kind),
{
    match kind {
        IoKind::PermissionDenied => Error::PermissionDenied,
        IoKind::NotFound => Error::FileNotFound,
        _ => Error::IoError(kind),
    }
}

impl IoKind {
    /// The tag's name, for diagnostics.
    pub fn message(&self) -> (r: String)
        ensures
            r@ == io_kind_text(*self),
    {
        match self {
            IoKind::NotFound => "NotFound".to_owned(),
            IoKind::PermissionDenied => "PermissionDenied".to_owned(),
            IoKind::InvalidData => "InvalidData".to_owned(),
            IoKind::Interrupted => "Interrupted".to_owned(),
            IoKind::UnexpectedEof => "UnexpectedEof".to_owned(),
            IoKind::Other => "Other".to_owned(),
        }
    }
}

impl Error {
    /// Human-readable description of the error, in place of a `Display` impl.
    pub fn message(&self) -> (r: String)
        ensures
            r@ == error_text(*self),
    {
        match self {
            Error::PermissionDenied => "Permission Denied".to_owned(),
            Error::FileNotFound => "File Not Found".to_owned(),
            Error::IoError(k) => {
                let mut s = "IO Error: ".to_owned();
                let tag = k.message();
                s.append(tag.as_str());
                s
            },
        }
    }
}

} // verus!
