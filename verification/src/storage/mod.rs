//! Where the metadata blob is kept.
pub mod file;

use vstd::prelude::*;

use crate::error::XSecResult;

verus! {

/// Holds one metadata blob as opaque bytes.
pub trait XSecStorage: Send + Sync {
    /// The blob, or `None` where none was ever saved.
    fn load(&self) -> XSecResult<Option<Vec<u8>>>;

    /// Replaces the whole blob.
    fn save(&self, data: &[u8]) -> XSecResult<()>;

    /// Removes the blob; it is no error that there is none.
    fn delete(&self) -> XSecResult<()>;
}

} // verus!
