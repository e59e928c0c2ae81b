//! The biometric protector where there is no Windows Hello.
pub mod windows;

use vstd::prelude::*;

use crate::error::{XSecError, XSecResult};
use crate::protector::XSecKeyProtector;
use crate::secret::SecretKey;

verus! {

pub const KIND: &'static str = "biometric";

/// Can be made, and neither wraps nor unwraps a key.
pub struct XSecBiometricProtector {
    name: String,
}

impl XSecBiometricProtector {
    /// The name of the credential.
    pub closed spec fn view(&self) -> Seq<char> {
        self.name@
    }

    /// A protector under a name.
    pub fn new(name: String) -> (protector: Self)
        ensures
            protector@ == name@,
    {
        XSecBiometricProtector { name }
    }
}

impl XSecKeyProtector for XSecBiometricProtector {
    open spec fn kind_name(&self) -> Seq<char> {
        KIND@
    }

    fn kind(&self) -> (kind: &'static str) {
        KIND
    }

    fn wrap_key(&self, key: &SecretKey) -> (wrapped: XSecResult<Vec<u8>>)
        ensures
            wrapped == XSecResult::<Vec<u8>>::Err(XSecError::Crypto),
    {
        Err(XSecError::Crypto)
    }

    fn unwrap_key(&self, payload: &[u8]) -> (key: XSecResult<SecretKey>)
        ensures
            key == XSecResult::<SecretKey>::Err(XSecError::Crypto),
    {
        Err(XSecError::Crypto)
    }
}

} // verus!
