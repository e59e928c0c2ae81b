//! The cryptographic primitives, each a call into the crate that provides it.
use aes_gcm::aead::{Aead, Payload};
use aes_gcm::{Aes256Gcm, KeyInit};
use hmac::{Hmac, Mac};
use sha2::{Digest, Sha256};
use vstd::prelude::*;

use crate::secret::SecretKey;

verus! {

/// The longest message that AES-GCM encrypts, in bytes.
pub const MAX_MESSAGE_LENGTH: u64 = 0xF_FFFF_FFE0;

/// The longest associated data that AES-GCM authenticates, in bytes.
pub const MAX_AAD_LENGTH: u64 = 0x1FFF_FFFF_FFFF_FFFF;

/// The length of the authentication tag that AES-GCM appends.
pub const TAG_LENGTH: usize = 16;

/// The error of `getrandom`, opaque here.
#[verifier::external_type_specification]
#[verifier::external_body]
pub struct ExGetrandomError(getrandom::Error);

/// The error of `aes_gcm`, opaque here.
#[verifier::external_type_specification]
#[verifier::external_body]
pub struct ExAeadError(aes_gcm::aead::Error);

/// The error of `argon2`, opaque here.
#[verifier::external_type_specification]
#[verifier::external_body]
pub struct ExArgon2Error(argon2::Error);

/// The error of `Hkdf::expand`, opaque here.
#[verifier::external_type_specification]
#[verifier::external_body]
pub struct ExHkdfInvalidLength(hkdf::InvalidLength);

/// The error of `Hmac::new_from_slice`, opaque here.
#[verifier::external_type_specification]
#[verifier::external_body]
pub struct ExHmacInvalidLength(hmac::digest::InvalidLength);

/// What AES-256-GCM makes of a message: its ciphertext, then the 16-byte tag.
pub uninterp spec fn aes256_gcm_seal(
    key: Seq<u8>,
    nonce: Seq<u8>,
    message: Seq<u8>,
    aad: Seq<u8>,
) -> Seq<u8>;

/// What AES-256-GCM reads from a sealed message, `None` where the tag does not fit.
pub uninterp spec fn aes256_gcm_open(
    key: Seq<u8>,
    nonce: Seq<u8>,
    sealed: Seq<u8>,
    aad: Seq<u8>,
) -> Option<Seq<u8>>;

/// The first 32 bytes of HKDF-SHA256 output keying material.
pub uninterp spec fn hkdf_sha256(salt: Option<Seq<u8>>, ikm: Seq<u8>, info: Seq<u8>) -> Seq<u8>;

/// The HMAC-SHA256 tag of `data` under `key`.
pub uninterp spec fn hmac_sha256(key: Seq<u8>, data: Seq<u8>) -> Seq<u8>;

/// The SHA-256 digest of `data`.
pub uninterp spec fn sha256_digest(data: Seq<u8>) -> Seq<u8>;

/// The 32-byte Argon2id (version 0x13) key of a password.
pub uninterp spec fn argon2id_key(
    password: Seq<u8>,
    salt: Seq<u8>,
    memory: u32,
    time: u32,
    parallelism: u32,
) -> Seq<u8>;

/// `getrandom::fill` on an array. Nothing is claimed of the bytes, which the
/// operating system picks, nor of when the call fails.
#[verifier::external_body]
pub(crate) fn random_array<const N: usize>() -> (bytes: Result<[u8; N], getrandom::Error>) {
    let mut bytes = [0u8; N];
    getrandom::fill(&mut bytes).map(|_| bytes)
}

/// The system's source of randomness was asked for `N` bytes and gave these.
pub closed spec fn drawn<const N: usize>(raw: Seq<u8>) -> bool {
    exists|answer: [u8; N]|
        answer@ == raw && #[trigger] call_ensures(
            random_array::<N>,
            (),
            Result::<[u8; N], getrandom::Error>::Ok(answer),
        )
}

/// The system's source of randomness was asked for `N` bytes and gave none.
pub closed spec fn draw_failed<const N: usize>() -> bool {
    exists|reason: getrandom::Error| #[trigger]
        call_ensures(
            random_array::<N>,
            (),
            Result::<[u8; N], getrandom::Error>::Err(reason),
        )
}

/// Asks the system's source of randomness for bytes.
pub(crate) fn draw<const N: usize>() -> (answer: Result<[u8; N], getrandom::Error>)
    ensures
        match answer {
            Ok(raw) => drawn::<N>(raw@),
            Err(_) => draw_failed::<N>(),
        },
{
    let answer: Result<[u8; N], getrandom::Error> = random_array::<N>();
    match answer {
        Ok(raw) => {
            assert(call_ensures(
                random_array::<N>,
                (),
                Result::<[u8; N], getrandom::Error>::Ok(raw),
            ));
            Ok(raw)
        },
        Err(reason) => Err(reason),
    }
}

/// `Aead::encrypt` of `Aes256Gcm`. It fails exactly on a message or associated
/// data over the lengths that AES-GCM allows. Otherwise it returns the sealed
/// message, 16 bytes longer than the message, which opens to the message again.
#[verifier::external_body]
pub(crate) fn seal(key: &[u8; 32], nonce: &[u8; 12], message: &[u8], aad: &[u8]) -> (sealed: Result<
    Vec<u8>,
    aes_gcm::aead::Error,
>)
    requires
        message@.len() + TAG_LENGTH <= isize::MAX,
    ensures
        sealed is Ok == (message@.len() <= MAX_MESSAGE_LENGTH && aad@.len() <= MAX_AAD_LENGTH),
        sealed matches Ok(bytes) ==> bytes@ == aes256_gcm_seal(key@, nonce@, message@, aad@),
        sealed matches Ok(bytes) ==> bytes@.len() == message@.len() + TAG_LENGTH,
        sealed matches Ok(bytes) ==> aes256_gcm_open(key@, nonce@, bytes@, aad@) == Some(message@),
{
    Aes256Gcm::new(key.into()).encrypt(nonce.into(), Payload { msg: message, aad })
}

/// `Aead::decrypt` of `Aes256Gcm`: the message that was sealed, 16 bytes shorter
/// than its sealed form, or an error where the tag does not fit.
#[verifier::external_body]
pub(crate) fn open(key: &[u8; 32], nonce: &[u8; 12], sealed: &[u8], aad: &[u8]) -> (message: Result<
    Vec<u8>,
    aes_gcm::aead::Error,
>)
    ensures
        message matches Ok(bytes) ==> aes256_gcm_open(key@, nonce@, sealed@, aad@) == Some(bytes@),
        message is Err ==> aes256_gcm_open(key@, nonce@, sealed@, aad@) is None,
        message matches Ok(bytes) ==> bytes@.len() + TAG_LENGTH == sealed@.len(),
{
    Aes256Gcm::new(key.into()).decrypt(nonce.into(), Payload { msg: sealed, aad })
}

/// `Hkdf::<Sha256>::new` and `expand` to 32 bytes, a length that never fails.
#[verifier::external_body]
pub(crate) fn hkdf_key(salt: Option<&[u8]>, ikm: &[u8], info: &[u8]) -> (key: Result<
    SecretKey,
    hkdf::InvalidLength,
>)
    ensures
        key is Ok,
        key matches Ok(bytes) ==> bytes@ == hkdf_sha256(
            match salt {
                Some(salt) => Some(salt@),
                None => None,
            },
            ikm@,
            info@,
        ),
{
    let mut okm = zeroize::Zeroizing::new([0u8; 32]);
    hkdf::Hkdf::<Sha256>::new(salt, ikm).expand(info, okm.as_mut()).map(|_| SecretKey::new(*okm))
}

/// `Hmac::<Sha256>` keyed, updated with `data` and finalized: a 32-byte tag.
/// HMAC takes a key of any length.
#[verifier::external_body]
pub(crate) fn hmac_tag(key: &[u8], data: &[u8]) -> (tag: Result<[u8; 32], hmac::digest::InvalidLength>)
    ensures
        tag is Ok,
        tag matches Ok(bytes) ==> bytes@ == hmac_sha256(key@, data@),
{
    Hmac::<Sha256>::new_from_slice(key).map(|mac| mac.chain_update(data).finalize().into_bytes().into())
}

/// `Hmac::<Sha256>` keyed, updated with `data`, and `verify_slice`: whether `tag`
/// is the whole tag of `data`.
#[verifier::external_body]
pub(crate) fn hmac_verify(key: &[u8], data: &[u8], tag: &[u8]) -> (valid: Result<bool, hmac::digest::InvalidLength>)
    ensures
        valid is Ok,
        valid matches Ok(accepted) ==> accepted == (tag@ == hmac_sha256(key@, data@)),
{
    Hmac::<Sha256>::new_from_slice(key).map(|mac| mac.chain_update(data).verify_slice(tag).is_ok())
}

/// `Argon2::hash_password_into` of Argon2id, version 0x13, to 32 bytes. It fails on
/// a password over 4 GiB, and may fail for want of memory; the key that it does
/// return depends on the arguments alone.
#[verifier::external_body]
pub(crate) fn argon2id(password: &[u8], salt: &[u8], memory: u32, time: u32, parallelism: u32) -> (key: Result<
    SecretKey,
    argon2::Error,
>)
    requires
        8 <= salt@.len() <= u32::MAX,
        1 <= time,
        1 <= parallelism <= 0xFF_FFFF,
        8 * parallelism <= memory,
    ensures
        password@.len() > u32::MAX ==> key is Err,
        key matches Ok(bytes) ==> bytes@ == argon2id_key(password@, salt@, memory, time, parallelism),
{
    let params = argon2::Params::new(memory, time, parallelism, Some(32))?;
    let context = argon2::Argon2::new(argon2::Algorithm::Argon2id, argon2::Version::V0x13, params);
    let mut key = zeroize::Zeroizing::new([0u8; 32]);
    context.hash_password_into(password, salt, key.as_mut()).map(|_| SecretKey::new(*key))
}

/// Argon2id was asked for a key and gave none.
pub closed spec fn derivation_failed(
    password: Seq<u8>,
    salt: Seq<u8>,
    memory: u32,
    time: u32,
    parallelism: u32,
) -> bool {
    exists|p: &[u8], s: &[u8], reason: argon2::Error|
        p@ == password && s@ == salt && #[trigger] call_ensures(
            argon2id,
            (p, s, memory, time, parallelism),
            Result::<SecretKey, argon2::Error>::Err(reason),
        )
}

/// Asks Argon2id for a key.
pub(crate) fn derive(password: &[u8], salt: &[u8], memory: u32, time: u32, parallelism: u32) -> (key: Result<
    SecretKey,
    argon2::Error,
>)
    requires
        8 <= salt@.len() <= u32::MAX,
        1 <= time,
        1 <= parallelism <= 0xFF_FFFF,
        8 * parallelism <= memory,
    ensures
        match key {
            Ok(bytes) => password@.len() <= u32::MAX && bytes@ == argon2id_key(
                password@,
                salt@,
                memory,
                time,
                parallelism,
            ),
            Err(_) => derivation_failed(password@, salt@, memory, time, parallelism),
        },
{
    match argon2id(password, salt, memory, time, parallelism) {
        Ok(key) => Ok(key),
        Err(reason) => {
            assert(call_ensures(
                argon2id,
                (password, salt, memory, time, parallelism),
                Result::<SecretKey, argon2::Error>::Err(reason),
            ));
            Err(reason)
        },
    }
}

/// The text that `argon2::Error` displays. Nothing is claimed of it.
#[verifier::external_body]
pub(crate) fn argon2_error_text(error: argon2::Error) -> (text: String) {
    error.to_string()
}

/// `Sha256::digest`: the 32-byte digest.
#[verifier::external_body]
pub(crate) fn sha256(data: &[u8]) -> (digest: [u8; 32])
    ensures
        digest@ == sha256_digest(data@),
{
    Sha256::digest(data).into()
}

} // verus!
