//! The closed set of failure categories that every operation reports.
//!
//! Each failure carries a machine-checkable kind together with a
//! human-readable message, so callers can branch on the kind instead of
//! parsing text.

use vstd::prelude::*;
use vstd::string::*;

verus! {

/// The category of an operation failure.
#[derive(Clone, Copy, PartialEq, Eq, Structural, Debug)]
pub enum FsErrorKind {
    /// The named file or directory does not exist.
    NotFound,
    /// The operating system denied access.
    PermissionDenied,
    /// Something already occupies the named location.
    AlreadyExists,
    /// The file's bytes are not valid text.
    InvalidEncoding,
    /// Any other failure; the message carries the detail.
    Other,
}

/// A failed operation: a kind to branch on, and a message to show.
#[derive(Debug)]
pub struct FsError {
    pub kind: FsErrorKind,
    pub message: String,
}

/// Message reported when a file or directory is missing.
pub open spec fn not_found_msg() -> Seq<char> {
    "no such file or directory"@
}

/// Message reported when a file operation hits a directory.
pub open spec fn is_directory_msg() -> Seq<char> {
    "is a directory"@
}

/// Message reported when a directory operation hits a file.
pub open spec fn not_directory_msg() -> Seq<char> {
    "not a directory"@
}

/// Message reported when a location is already occupied.
pub open spec fn already_exists_msg() -> Seq<char> {
    "file exists"@
}

impl FsError {
    /// Builds a failure value from its parts.
    pub fn new(kind: FsErrorKind, message: String) -> (r: FsError)
        ensures
            r.kind == kind,
            r.message@ == message@,
    {
        FsError { kind, message }
    }

    /// The message, as a fresh string a caller may display.
    pub fn describe(&self) -> (r: String)
        ensures
            r@ == self.message@,
    {
        self.message.clone()
    }

    /// The missing-file failure the model reports.
    pub fn not_found() -> (r: FsError)
        ensures
            r.kind == FsErrorKind::NotFound,
            r.message@ == not_found_msg(),
    {
        FsError { kind: FsErrorKind::NotFound, message: String::from_str("no such file or directory") }
    }

    /// The failure reported when a file operation names a directory.
    pub fn is_directory() -> (r: FsError)
        ensures
            r.kind == FsErrorKind::Other,
            r.message@ == is_directory_msg(),
    {
        FsError { kind: FsErrorKind::Other, message: String::from_str("is a directory") }
    }

    /// The failure reported when a directory operation names a file.
    pub fn not_directory() -> (r: FsError)
        ensures
            r.kind == FsErrorKind::Other,
            r.message@ == not_directory_msg(),
    {
        FsError { kind: FsErrorKind::Other, message: String::from_str("not a directory") }
    }

    /// The failure reported when a location is already occupied.
    pub fn already_exists() -> (r: FsError)
        ensures
            r.kind == FsErrorKind::AlreadyExists,
            r.message@ == already_exists_msg(),
    {
        FsError { kind: FsErrorKind::AlreadyExists, message: String::from_str("file exists") }
    }
}

} // verus!
