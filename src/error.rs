//! The library's error type.
use vstd::prelude::*;

verus! {

/// Why an operation on the tree failed. Paths are carried as strings; the
/// operating-system detail of an I/O failure is left to the caller that met it.
#[derive(Debug)]
pub enum Error {
    /// The directory to scan does not exist.
    DirectoryNotFound(String),
    /// The path to scan is not a directory.
    NotADirectory(String),
    /// A markdown file could not be read as text.
    ReadFile { path: String },
    /// An image could not be deleted.
    DeleteFile { path: String },
    /// An image could not be moved.
    MoveFile { from: String, to: String },
    /// The directory that images are moved to could not be created.
    CreateDirectory { path: String },
    /// A path could not be canonicalized.
    CanonicalizePath { path: String },
    /// An image could not be moved to the recycle bin.
    RecycleFile { path: String },
    /// A reference pattern did not compile; the message says why.
    InvalidRegex(String),
}

} // verus!
