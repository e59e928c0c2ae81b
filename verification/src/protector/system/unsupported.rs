//! The system protector where the operating system offers none.
use vstd::prelude::*;

use crate::error::{XSecError, XSecResult};
use crate::protector::system;
use crate::protector::XSecKeyProtector;
use crate::secret::SecretKey;

verus! {

/// Can be made, and refuses everything.
pub struct XSecSystemProtector {
    identity: [u8; 32],
}

impl XSecSystemProtector {
    /// The hash of the identity.
    pub closed spec fn view(&self) -> Seq<u8> {
        self.identity@
    }

    /// Derives the identity hash; no system service is touched.
    pub fn new(identity: &str) -> (protector: Self)
        requires
            system::valid_identity(identity@),
        ensures
            protector@ == system::identity_hash(identity@),
    {
        XSecSystemProtector { identity: system::hash_identity(identity) }
    }

    /// There is nothing to protect with.
    pub fn check_availability(&self) -> (result: XSecResult<()>)
        ensures
            result == XSecResult::<()>::Err(XSecError::SystemProtectorUnavailable),
    {
        Err(XSecError::SystemProtectorUnavailable)
    }

    /// There is nothing to delete.
    pub fn delete(&self) -> (result: XSecResult<()>)
        ensures
            result == XSecResult::<()>::Err(XSecError::SystemProtectorUnavailable),
    {
        Err(XSecError::SystemProtectorUnavailable)
    }
}

impl XSecKeyProtector for XSecSystemProtector {
    open spec fn kind_name(&self) -> Seq<char> {
        system::KIND@
    }

    fn kind(&self) -> (kind: &'static str) {
        system::KIND
    }

    fn wrap_key(&self, key: &SecretKey) -> (wrapped: XSecResult<Vec<u8>>)
        ensures
            wrapped == XSecResult::<Vec<u8>>::Err(XSecError::SystemProtectorUnavailable),
    {
        Err(XSecError::SystemProtectorUnavailable)
    }

    fn unwrap_key(&self, payload: &[u8]) -> (key: XSecResult<SecretKey>)
        ensures
            key == XSecResult::<SecretKey>::Err(XSecError::SystemProtectorUnavailable),
    {
        Err(XSecError::SystemProtectorUnavailable)
    }
}

} // verus!
