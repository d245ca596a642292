//! File-system errors and their POSIX error numbers.
use vstd::prelude::*;
use crate::fs::disk::IoError;

verus! {

/// File-system errors, each standing for a POSIX error number.
#[derive(Clone, Copy, Debug, PartialEq, Eq, Structural)]
pub enum FsError {
    /// A path component does not exist (ENOENT).
    NotFound,
    /// A path component is not a directory (ENOTDIR).
    NotDir,
    /// The target is a directory (EISDIR).
    IsDir,
    /// The target already exists (EEXIST).
    AlreadyExists,
    /// The directory is not empty (ENOTEMPTY).
    NotEmpty,
    /// Permission denied (EACCES).
    PermissionDenied,
    /// A name is too long (ENAMETOOLONG).
    NameTooLong,
    /// Too many symbolic links (ELOOP).
    TooManyLinks,
    /// Cross-device operation (EXDEV).
    CrossDevice,
    /// No space left on the device (ENOSPC).
    NoSpace,
    /// Invalid argument (EINVAL).
    Invalid,
    /// Device I/O error (EIO).
    Io,
    /// Out of memory (ENOMEM).
    OutOfMemory,
    /// Operation not supported (ENOTSUP).
    Unsupported,
}

/// The POSIX error number of an error.
pub open spec fn spec_fs_errno(e: FsError) -> int {
    match e {
        FsError::NotFound => 2,
        FsError::Io => 5,
        FsError::OutOfMemory => 12,
        FsError::PermissionDenied => 13,
        FsError::AlreadyExists => 17,
        FsError::CrossDevice => 18,
        FsError::NotDir => 20,
        FsError::IsDir => 21,
        FsError::Invalid => 22,
        FsError::NoSpace => 28,
        FsError::NameTooLong => 36,
        FsError::NotEmpty => 39,
        FsError::TooManyLinks => 40,
        FsError::Unsupported => 95,
    }
}

impl FsError {
    /// The POSIX error number, for system calls to return negated.
    pub fn errno(self) -> (r: isize)
        ensures
            r == spec_fs_errno(self),
            r > 0,
    {
        match self {
            FsError::NotFound => 2,
            FsError::Io => 5,
            FsError::OutOfMemory => 12,
            FsError::PermissionDenied => 13,
            FsError::AlreadyExists => 17,
            FsError::CrossDevice => 18,
            FsError::NotDir => 20,
            FsError::IsDir => 21,
            FsError::Invalid => 22,
            FsError::NoSpace => 28,
            FsError::NameTooLong => 36,
            FsError::NotEmpty => 39,
            FsError::TooManyLinks => 40,
            FsError::Unsupported => 95,
        }
    }

    /// Device errors are I/O errors.
    pub fn from_io(e: IoError) -> (r: FsError)
        ensures
            r == FsError::Io,
    {
        FsError::Io
    }
}

} // verus!
