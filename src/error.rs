//! The errors that the filesystem reports.

use vstd::prelude::*;

verus! {

/// What went wrong with a filesystem request.
#[derive(Clone, Copy, Debug, PartialEq, Eq, Structural)]
pub enum FsError {
    /// The inode, the child or the remote resource does not exist.
    NotFound,
    /// A child of that name exists already.
    AlreadyExists,
    /// A directory was expected and a file was found.
    NotADirectory,
    /// A file was expected and a directory was found.
    IsADirectory,
    /// The requested kind of object is not supported.
    Unsupported,
    /// The read-only root cannot be changed.
    PermissionDenied,
    /// A directory that still has children cannot be removed.
    NotEmpty,
    /// The remote source could not be reached or answered with an error.
    Io,
    /// The file would grow past what memory can address.
    TooLarge,
}

} // verus!
