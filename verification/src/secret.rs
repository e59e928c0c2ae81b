//! Values that are wiped from memory when they are dropped.
use secrecy::ExposeSecret;
use vstd::prelude::*;

use crate::bytes;

verus! {

/// A 32-byte key in a `secrecy::SecretBox`, which zeroizes it on drop.
#[verifier::external_body]
pub struct SecretKey {
    inner: secrecy::SecretBox<[u8; 32]>,
}

/// Secret bytes in a `secrecy::SecretBox`, which zeroizes them on drop.
#[verifier::external_body]
pub struct SecretBytes {
    inner: secrecy::SecretBox<Vec<u8>>,
}

/// Bytes in a `zeroize::Zeroizing`, which zeroizes them on drop.
#[verifier::external_body]
pub struct ZeroizingBytes {
    inner: zeroize::Zeroizing<Vec<u8>>,
}

/// The bytes that a `secrecy::SecretBox<[u8; 32]>` holds.
pub uninterp spec fn secret_key_bytes(key: SecretKey) -> Seq<u8>;

/// The bytes that a `secrecy::SecretBox<Vec<u8>>` holds.
pub uninterp spec fn secret_bytes(secret: SecretBytes) -> Seq<u8>;

/// The bytes that a `zeroize::Zeroizing<Vec<u8>>` holds.
pub uninterp spec fn zeroizing_bytes(bytes: ZeroizingBytes) -> Seq<u8>;

impl View for SecretKey {
    type V = Seq<u8>;

    open spec fn view(&self) -> Seq<u8> {
        secret_key_bytes(*self)
    }
}

impl View for SecretBytes {
    type V = Seq<u8>;

    open spec fn view(&self) -> Seq<u8> {
        secret_bytes(*self)
    }
}

impl View for ZeroizingBytes {
    type V = Seq<u8>;

    open spec fn view(&self) -> Seq<u8> {
        zeroizing_bytes(*self)
    }
}

/// `secrecy::SecretBox::new` on a boxed key: the box holds the key it was given.
#[verifier::external_body]
fn secret_box_key(key: [u8; 32]) -> (secret: SecretKey)
    ensures
        secret_key_bytes(secret) == key@,
{
    SecretKey { inner: secrecy::SecretBox::new(Box::new(key)) }
}

/// `secrecy::ExposeSecret::expose_secret`: a reference to the key in the box.
#[verifier::external_body]
fn expose_secret_key(secret: &SecretKey) -> (key: &[u8; 32])
    ensures
        key@ == secret_key_bytes(*secret),
{
    secret.inner.expose_secret()
}

/// `secrecy::SecretBox::new` on boxed bytes: the box holds the bytes it was given.
#[verifier::external_body]
fn secret_box_bytes(bytes: Vec<u8>) -> (secret: SecretBytes)
    ensures
        secret_bytes(secret) == bytes@,
{
    SecretBytes { inner: secrecy::SecretBox::new(Box::new(bytes)) }
}

/// `secrecy::ExposeSecret::expose_secret`: a reference to the bytes in the box.
#[verifier::external_body]
fn expose_secret_bytes(secret: &SecretBytes) -> (bytes: &[u8])
    ensures
        bytes@ == secret_bytes(*secret),
{
    secret.inner.expose_secret().as_slice()
}

/// `zeroize::Zeroizing::new`: the wrapper holds the bytes it was given.
#[verifier::external_body]
fn zeroizing_new(bytes: Vec<u8>) -> (wrapped: ZeroizingBytes)
    ensures
        zeroizing_bytes(wrapped) == bytes@,
{
    ZeroizingBytes { inner: zeroize::Zeroizing::new(bytes) }
}

/// `zeroize::Zeroizing` dereferenced: a reference to the wrapped bytes.
#[verifier::external_body]
fn zeroizing_deref(wrapped: &ZeroizingBytes) -> (bytes: &[u8])
    ensures
        bytes@ == zeroizing_bytes(*wrapped),
{
    wrapped.inner.as_slice()
}

impl SecretKey {
    /// Takes a key into protection.
    pub fn new(key: [u8; 32]) -> (secret: Self)
        ensures
            secret@ == key@,
    {
        secret_box_key(key)
    }

    /// Takes the bytes of a key into protection, where there are 32 of them.
    pub fn from_slice(bytes: &[u8]) -> (secret: Option<Self>)
        ensures
            secret is Some <==> bytes@.len() == 32,
            secret matches Some(s) ==> s@ == bytes@,
    {
        if bytes.len() != 32 {
            return None;
        }
        let mut key: [u8; 32] = [0; 32];
        bytes::copy_into(&mut key, bytes);
        Some(Self::new(key))
    }

    /// The key itself.
    pub fn expose_secret(&self) -> (key: &[u8; 32])
        ensures
            key@ == self@,
    {
        expose_secret_key(self)
    }
}

impl SecretBytes {
    /// Takes bytes into protection.
    pub fn new(bytes: Vec<u8>) -> (secret: Self)
        ensures
            secret@ == bytes@,
    {
        secret_box_bytes(bytes)
    }

    /// The bytes themselves.
    pub fn expose_secret(&self) -> (bytes: &[u8])
        ensures
            bytes@ == self@,
    {
        expose_secret_bytes(self)
    }
}

impl ZeroizingBytes {
    /// Takes bytes into protection.
    pub fn new(bytes: Vec<u8>) -> (wrapped: Self)
        ensures
            wrapped@ == bytes@,
    {
        zeroizing_new(bytes)
    }

    /// The bytes themselves.
    pub fn as_slice(&self) -> (bytes: &[u8])
        ensures
            bytes@ == self@,
    {
        zeroizing_deref(self)
    }
}

} // verus!
