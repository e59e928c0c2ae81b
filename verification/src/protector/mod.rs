//! Key protectors: what wraps the data key and gives it back.
pub mod biometric;
pub mod password;
pub mod system;
pub mod wrapping;

use vstd::prelude::*;

use crate::error::XSecResult;
use crate::secret::SecretKey;

verus! {

/// Wraps and unwraps the data key. XSec stores the kind and the payload and does
/// not look into the payload.
pub trait XSecKeyProtector: Send + Sync {
    /// The name under which the protector's payload is stored. It never changes.
    open spec fn kind_name(&self) -> Seq<char> {
        arbitrary()
    }

    /// The kind of the protector.
    fn kind(&self) -> (kind: &'static str)
        ensures
            kind@ == self.kind_name(),
    ;

    /// Wraps the data key into a payload.
    fn wrap_key(&self, key: &SecretKey) -> XSecResult<Vec<u8>>;

    /// Takes the data key out of a payload.
    fn unwrap_key(&self, payload: &[u8]) -> XSecResult<SecretKey>;
}

} // verus!
