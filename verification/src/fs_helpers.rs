//! Decisions about files: whether a derived file is out of date, and which
//! files a directory sync leaves alone.
use vstd::prelude::*;
use crate::strings::{chars_eq, chars_of};

verus! {

/// What could be learnt about a file: nothing (its metadata could not be
/// read, e.g. because it does not exist), its metadata but not its
/// modification time, or its modification time (in nanoseconds from an
/// arbitrary fixed instant).
#[derive(Debug, Clone, Copy, PartialEq, Eq, Structural)]
pub enum FileStatus {
    NoMetadata,
    NoModifiedTime,
    Modified(i128),
}

/// Which step of comparing two files failed.
#[derive(Debug, Clone, Copy, PartialEq, Eq, Structural)]
pub enum NewerError {
    Metadata,
    ModifiedTime,
}

/// This is used when we generate a derivative file from a source file, where
/// we only want to regenerate the derivative if the source has changed.
pub trait IsNewerThan<T, E> {
    fn is_newer_than(&self, other: &T) -> Result<bool, E>;
}

/// Whether a file is newer than another: a missing other file counts as
/// older; otherwise both modification times must be known, this file's
/// first.
pub open spec fn newer_than(this: FileStatus, other: FileStatus) -> Result<bool, NewerError> {
    match (this, other) {
        (_, FileStatus::NoMetadata) => Ok(true),
        (FileStatus::NoMetadata, _) => Err(NewerError::Metadata),
        (FileStatus::NoModifiedTime, _) => Err(NewerError::ModifiedTime),
        (FileStatus::Modified(_), FileStatus::NoModifiedTime) => Err(NewerError::ModifiedTime),
        (FileStatus::Modified(a), FileStatus::Modified(b)) => Ok(a > b),
    }
}

impl IsNewerThan<FileStatus, NewerError> for FileStatus {
    fn is_newer_than(&self, other: &FileStatus) -> (r: Result<bool, NewerError>)
        ensures
            r == newer_than(*self, *other),
    {
        match (self, other) {
            (_, FileStatus::NoMetadata) => Ok(true),
            (FileStatus::NoMetadata, _) => Err(NewerError::Metadata),
            (FileStatus::NoModifiedTime, _) => Err(NewerError::ModifiedTime),
            (FileStatus::Modified(_), FileStatus::NoModifiedTime) => Err(
                NewerError::ModifiedTime,
            ),
            (FileStatus::Modified(a), FileStatus::Modified(b)) => Ok(*a > *b),
        }
    }
}

/// Whether a file name is exactly `name`.
fn file_name_is(file_name: Option<&str>, name: &str) -> (r: bool)
    ensures
        r == (file_name matches Some(n) && n@ == name@),
{
    match file_name {
        Some(n) => {
            let a = chars_of(n);
            let b = chars_of(name);
            chars_eq(&a, &b)
        },
        None => false,
    }
}

/// Whether a path's file name is `.DS_Store` (the metadata files that macOS
/// leaves in folders).
pub fn is_ds_store(file_name: Option<&str>) -> (r: bool)
    ensures
        r == (file_name matches Some(n) && n@ == ".DS_Store"@),
{
    file_name_is(file_name, ".DS_Store")
}

/// Whether a directory sync leaves an entry alone: `.DS_Store` files and
/// the `tests` folder are not copied.
pub fn is_skipped_when_syncing(file_name: Option<&str>) -> (r: bool)
    ensures
        r == (file_name matches Some(n) && (n@ == ".DS_Store"@ || n@ == "tests"@)),
{
    is_ds_store(file_name) || file_name_is(file_name, "tests")
}

} // verus!
