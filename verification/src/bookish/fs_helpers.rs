//! `bookish`'s test for out-of-date files, which treats a missing derived
//! file as up to date.
use vstd::prelude::*;
use crate::fs_helpers::{FileStatus, NewerError};

verus! {

/// This is used when we generate a derivative file from a source file, where
/// we only want to regenerate the derivative if the source has changed.
pub trait IsNewerThan<T, E> {
    fn is_newer_than(&self, other: &T) -> Result<bool, E>;
}

/// Whether a file is newer than another, where a missing other file counts
/// as newer (so nothing is regenerated for it).
pub open spec fn newer_than(this: FileStatus, other: FileStatus) -> Result<bool, NewerError> {
    match (this, other) {
        (_, FileStatus::NoMetadata) => Ok(false),
        (FileStatus::NoMetadata, _) => Err(NewerError::Metadata),
        (FileStatus::NoModifiedTime, _) => Err(NewerError::ModifiedTime),
        (FileStatus::Modified(_), FileStatus::NoModifiedTime) => Err(NewerError::ModifiedTime),
        (FileStatus::Modified(a), FileStatus::Modified(b)) => Ok(a > b),
    }
}

impl IsNewerThan<FileStatus, NewerError> for FileStatus {
    fn is_newer_than(&self, other: &FileStatus) -> (r: Result<bool, NewerError>)
        ensures
            r == newer_than(*self, *other),
    {
        match (self, other) {
            (_, FileStatus::NoMetadata) => Ok(false),
            (FileStatus::NoMetadata, _) => Err(NewerError::Metadata),
            (FileStatus::NoModifiedTime, _) => Err(NewerError::ModifiedTime),
            (FileStatus::Modified(_), FileStatus::NoModifiedTime) => Err(
                NewerError::ModifiedTime,
            ),
            (FileStatus::Modified(a), FileStatus::Modified(b)) => Ok(*a > *b),
        }
    }
}

} // verus!
