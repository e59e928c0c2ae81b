//! Sealing the data key under a wrapping key, as every protector does it.
use vstd::prelude::*;

use crate::bytes;
use crate::crypto;
use crate::error::{XSecError, XSecResult};
use crate::secret::{SecretBytes, SecretKey};

verus! {

pub const KEY_LENGTH: usize = 32;

pub const NONCE_LENGTH: usize = 12;

/// The length of a sealed data key.
pub const SEALED_KEY_LENGTH: usize = 48;

/// The data key that a wrapping key finds, or that it does not fit.
pub open spec fn opened_key(kek: Seq<u8>, nonce: Seq<u8>, sealed: Seq<u8>, aad: Seq<u8>) -> XSecResult<
    Seq<u8>,
> {
    match crypto::aes256_gcm_open(kek, nonce, sealed, aad) {
        None => Err(XSecError::AuthenticationFailed),
        Some(key) => Ok(key),
    }
}

/// Seals the data key. What comes out opens to the key again.
pub fn seal_key(kek: &SecretKey, nonce: &[u8; 12], key: &SecretKey, aad: &[u8]) -> (sealed:
    XSecResult<Vec<u8>>)
    requires
        aad@.len() <= u32::MAX,
    ensures
        sealed matches Ok(s) && s@ == crypto::aes256_gcm_seal(kek@, nonce@, key@, aad@)
            && s@.len() == SEALED_KEY_LENGTH && key@.len() == KEY_LENGTH && opened_key(kek@, nonce@, s@, aad@) == XSecResult::<
            Seq<u8>,
        >::Ok(key@),
{
    match crypto::seal(kek.expose_secret(), nonce, key.expose_secret(), aad) {
        Err(_) => Err(XSecError::Crypto),
        Ok(sealed) => Ok(sealed),
    }
}

/// Opens a sealed data key.
pub fn open_key(kek: &SecretKey, nonce: &[u8], sealed: &[u8], aad: &[u8]) -> (key: XSecResult<
    SecretKey,
>)
    requires
        nonce@.len() == NONCE_LENGTH,
        sealed@.len() == SEALED_KEY_LENGTH,
    ensures
        key matches Ok(k) ==> opened_key(kek@, nonce@, sealed@, aad@) == XSecResult::<Seq<u8>>::Ok(
            k@,
        ),
        key matches Err(e) ==> opened_key(kek@, nonce@, sealed@, aad@) == XSecResult::<
            Seq<u8>,
        >::Err(e),
{
    let mut nonce_array: [u8; 12] = [0; 12];
    bytes::copy_into(&mut nonce_array, nonce);
    match crypto::open(kek.expose_secret(), &nonce_array, sealed, aad) {
        Err(_) => Err(XSecError::AuthenticationFailed),
        Ok(plaintext) => {
            let plaintext: SecretBytes = SecretBytes::new(plaintext);
            let mut key: [u8; 32] = [0; 32];
            bytes::copy_into(&mut key, plaintext.expose_secret());
            Ok(SecretKey::new(key))
        },
    }
}

} // verus!
