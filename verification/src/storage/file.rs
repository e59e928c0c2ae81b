//! A metadata blob kept in one file.
//!
//! The file itself is read and written elsewhere; here stands what each answer of
//! the file system means for the storage.
use vstd::prelude::*;

use crate::error::{ErrorSource, XSecError, XSecResult};
use crate::metadata::MAX_METADATA_LENGTH;

verus! {

/// `std::path::PathBuf`, carried through as it is.
#[verifier::external_type_specification]
#[verifier::external_body]
pub struct ExPathBuf(std::path::PathBuf);

/// Keeps the blob in a file.
pub struct XSecFileStorage {
    path: std::path::PathBuf,
}

/// Why the file system refused.
pub enum FileFailure {
    NotFound,
    Other(ErrorSource),
}

/// What to do once the file was looked at.
pub enum LoadStep {
    /// Read the file.
    Read,
    /// Nothing is left to do.
    Done(XSecResult<Option<Vec<u8>>>),
}

/// The result that a refusal of the file system gives.
pub open spec fn storage_error(source: ErrorSource) -> XSecError {
    XSecError::Storage { source }
}

/// What follows when a file was looked at.
pub open spec fn load_step(inspected: Result<u64, FileFailure>) -> LoadStep {
    match inspected {
        Err(FileFailure::NotFound) => LoadStep::Done(Ok(None)),
        Err(FileFailure::Other(source)) => LoadStep::Done(Err(storage_error(source))),
        Ok(length) => if length > MAX_METADATA_LENGTH {
            LoadStep::Done(Err(XSecError::Corrupted))
        } else {
            LoadStep::Read
        },
    }
}

/// What a file that was read holds.
pub open spec fn loaded_from(read: Result<Vec<u8>, ErrorSource>) -> XSecResult<Option<Vec<u8>>> {
    match read {
        Err(source) => Err(storage_error(source)),
        Ok(blob) => if blob@.len() > MAX_METADATA_LENGTH {
            Err(XSecError::Corrupted)
        } else {
            Ok(Some(blob))
        },
    }
}

/// A blob that is not too long for metadata.
pub open spec fn may_save(data: Seq<u8>) -> bool {
    data.len() <= MAX_METADATA_LENGTH
}

impl XSecFileStorage {
    /// The file.
    pub closed spec fn view(&self) -> std::path::PathBuf {
        self.path
    }

    /// Keeps the blob in the file at `path`.
    pub fn new(path: std::path::PathBuf) -> (storage: Self)
        ensures
            storage@ == path,
    {
        XSecFileStorage { path }
    }

    /// The file.
    pub fn path(&self) -> (path: &std::path::PathBuf)
        ensures
            *path == self@,
    {
        &self.path
    }

    /// Whether the file exists, where the file system says so.
    pub fn check_exists(&self, found: Result<bool, ErrorSource>) -> (result: XSecResult<bool>)
        ensures
            result == match found {
                Ok(yes) => XSecResult::<bool>::Ok(yes),
                Err(source) => Err(storage_error(source)),
            },
    {
        match found {
            Ok(yes) => Ok(yes),
            Err(source) => Err(XSecError::storage(source)),
        }
    }

    /// What follows when the file was looked at and is `length` bytes long: no file is
    /// no blob, and a file that is too long for metadata is not read.
    pub fn after_inspect(&self, inspected: Result<u64, FileFailure>) -> (step: LoadStep)
        ensures
            step == load_step(inspected),
    {
        match inspected {
            Err(FileFailure::NotFound) => LoadStep::Done(Ok(None)),
            Err(FileFailure::Other(source)) => LoadStep::Done(Err(XSecError::storage(source))),
            Ok(length) => {
                if length > MAX_METADATA_LENGTH as u64 {
                    LoadStep::Done(Err(XSecError::Corrupted))
                } else {
                    LoadStep::Read
                }
            },
        }
    }

    /// What follows when the file was read.
    pub fn after_read(&self, read: Result<Vec<u8>, ErrorSource>) -> (loaded: XSecResult<
        Option<Vec<u8>>,
    >)
        ensures
            loaded == loaded_from(read),
    {
        match read {
            Err(source) => Err(XSecError::storage(source)),
            Ok(blob) => {
                if blob.len() > MAX_METADATA_LENGTH {
                    Err(XSecError::Corrupted)
                } else {
                    Ok(Some(blob))
                }
            },
        }
    }

    /// Whether a blob may be written: not where it is too long for metadata.
    pub fn check_save(&self, data: &[u8]) -> (result: XSecResult<()>)
        ensures
            result is Ok == may_save(data@),
            result matches Err(e) ==> e is Corrupted,
    {
        if data.len() > MAX_METADATA_LENGTH {
            return Err(XSecError::Corrupted);
        }
        Ok(())
    }

    /// What follows when the file was replaced.
    pub fn after_save(&self, written: Result<(), ErrorSource>) -> (saved: XSecResult<()>)
        ensures
            match written {
                Ok(_) => saved is Ok,
                Err(source) => saved == XSecResult::<()>::Err(storage_error(source)),
            },
    {
        match written {
            Ok(()) => Ok(()),
            Err(source) => Err(XSecError::storage(source)),
        }
    }

    /// What follows when the file was removed: no file is no error.
    pub fn after_delete(&self, removed: Result<(), FileFailure>) -> (deleted: XSecResult<()>)
        ensures
            match removed {
                Ok(_) => deleted is Ok,
                Err(FileFailure::NotFound) => deleted is Ok,
                Err(FileFailure::Other(source)) => deleted == XSecResult::<()>::Err(
                    storage_error(source),
                ),
            },
    {
        match removed {
            Ok(()) => Ok(()),
            Err(FileFailure::NotFound) => Ok(()),
            Err(FileFailure::Other(source)) => Err(XSecError::storage(source)),
        }
    }
}

/// The directory in which a file is replaced: its parent, or the current directory
/// where the path names none.
pub fn directory_of<T>(parent: Option<T>, parent_is_empty: bool, current: T) -> (directory: T)
    ensures
        directory == match parent {
            Some(parent) => if parent_is_empty {
                current
            } else {
                parent
            },
            None => current,
        },
{
    match parent {
        Some(parent) => {
            if parent_is_empty {
                current
            } else {
                parent
            }
        },
        None => current,
    }
}

/// What may be saved is given back when it is loaded: a file that holds it is read,
/// and its bytes are the blob.
pub proof fn law_saved_blob_is_loaded(blob: Vec<u8>)
    requires
        may_save(blob@),
    ensures
        load_step(Ok(blob@.len() as u64)) is Read,
        loaded_from(Ok(blob)) == XSecResult::<Option<Vec<u8>>>::Ok(Some(blob)),
{
}

} // verus!
