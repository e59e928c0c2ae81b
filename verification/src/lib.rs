//! XSec: a data key that is kept under one or more protectors, and what is encrypted
//! with it.
//!
//! `xsec` holds the life cycle of the key, `ciphertext` and `metadata` the formats,
//! `protector` what wraps the key, `storage` where its metadata is kept, `cli` the
//! rules of the command line tool, and `laws` what holds across the operations.
pub mod bytes;
pub mod ciphertext;
pub mod cli;
pub mod crypto;
pub mod error;
pub mod laws;
pub mod metadata;
pub mod protector;
pub mod secret;
pub mod storage;
pub mod xsec;

pub use crate::error::{XSecError, XSecResult};
pub use crate::protector::password::XSecPasswordProtector;
pub use crate::protector::XSecKeyProtector;
pub use crate::storage::file::XSecFileStorage;
pub use crate::storage::XSecStorage;
pub use crate::xsec::XSec;
