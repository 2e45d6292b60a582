//! Error taxonomy shared by every core operation.

use vstd::prelude::*;

verus! {

/// Outcome kinds for the file-management core.
///
/// Every operation returns either a success value or exactly one of
/// these kinds; no core operation panics.
#[derive(Clone, Copy, Debug, PartialEq, Eq, Structural)]
pub enum FsError {
    /// A path or file was absent when its presence was required.
    NotFound,
    /// The source of a tree operation is a file, not a directory.
    NotADirectory,
    /// A file operation was aimed at a directory.
    NotAFile,
    /// A collision: the target of an extraction already exists.
    AlreadyExists,
    /// A read, write, copy or delete failed in the underlying storage.
    IoFailure,
    /// A persisted status record or an archive could not be decoded.
    ParseFailure,
    /// No usable folder name could be derived from an archive name.
    InvalidName,
}

impl FsError {
    /// A short human-readable description of the error kind.
    pub fn describe(&self) -> (r: &'static str)
        ensures
            r@.len() > 0,
    {
        proof {
            reveal_strlit("path not found");
            reveal_strlit("not a directory");
            reveal_strlit("not a file");
            reveal_strlit("target already exists");
            reveal_strlit("storage operation failed");
            reveal_strlit("malformed content");
            reveal_strlit("no usable name");
        }
        match self {
            FsError::NotFound => "path not found",
            FsError::NotADirectory => "not a directory",
            FsError::NotAFile => "not a file",
            FsError::AlreadyExists => "target already exists",
            FsError::IoFailure => "storage operation failed",
            FsError::ParseFailure => "malformed content",
            FsError::InvalidName => "no usable name",
        }
    }
}

} // verus!
