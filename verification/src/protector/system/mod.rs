//! Key protectors that rest on what the operating system protects.
//!
//! Each platform has its own payload format; all of them store under the kind
//! "system" and know their storage by the hash of a stable identity.
pub mod linux;
pub mod macos;
pub mod unsupported;
pub mod windows;
pub mod windows_v1;

use vstd::prelude::*;
use vstd::utf8::*;

use crate::bytes;
use crate::crypto;

verus! {

pub const KIND: &'static str = "system";

pub const MAX_IDENTITY_SIZE: usize = 4096;

pub const IDENTITY_DOMAIN: &'static str = "xsec:system-protector:v1";

/// An identity that can be hashed: at most 4096 UTF-8 bytes.
pub open spec fn valid_identity(identity: Seq<char>) -> bool {
    encode_utf8(identity).len() <= MAX_IDENTITY_SIZE
}

/// What is hashed of an identity: a domain, the length, the identity.
pub open spec fn identity_preimage(domain: Seq<u8>, identity: Seq<char>) -> Seq<u8> {
    domain + bytes::be32(encode_utf8(identity).len() as u32) + encode_utf8(identity)
}

/// The hash that stands for an identity.
pub open spec fn identity_hash(identity: Seq<char>) -> Seq<u8> {
    crypto::sha256_digest(identity_preimage(bytes::text(IDENTITY_DOMAIN), identity))
}

/// Different identities are hashed as different bytes.
pub proof fn law_identity_preimage_injective(domain: Seq<u8>, a: Seq<char>, b: Seq<char>)
    requires
        identity_preimage(domain, a) == identity_preimage(domain, b),
    ensures
        a == b,
{
    let n = domain.len() as int + 4;
    assert(identity_preimage(domain, a).skip(n) =~= encode_utf8(a));
    assert(identity_preimage(domain, b).skip(n) =~= encode_utf8(b));
    bytes::lemma_text_injective(a, b);
}

/// Hashes an identity in a domain.
pub fn hash_identity_in(domain: &str, identity: &str) -> (hash: [u8; 32])
    requires
        valid_identity(identity@),
    ensures
        hash@ == crypto::sha256_digest(identity_preimage(encode_utf8(domain@), identity@)),
{
    let raw: &[u8] = identity.as_bytes();
    let mut input: Vec<u8> = Vec::new();
    input.extend_from_slice(domain.as_bytes());
    bytes::push_u32(&mut input, raw.len() as u32);
    input.extend_from_slice(raw);
    assert(input@ =~= identity_preimage(encode_utf8(domain@), identity@));
    crypto::sha256(input.as_slice())
}

/// The hash that stands for an identity.
pub fn hash_identity(identity: &str) -> (hash: [u8; 32])
    requires
        valid_identity(identity@),
    ensures
        hash@ == identity_hash(identity@),
{
    hash_identity_in(IDENTITY_DOMAIN, identity)
}

/// The lower-case hexadecimal digit of a number below 16.
pub open spec fn hex_digit(n: int) -> char {
    if n < 10 {
        (0x30 + n) as char
    } else {
        (0x57 + n) as char
    }
}

/// Two hexadecimal digits for each byte.
pub open spec fn hex_text(bytes: Seq<u8>) -> Seq<char> {
    Seq::new(
        2 * bytes.len(),
        |i: int|
            if i % 2 == 0 {
                hex_digit(bytes[i / 2] as int / 16)
            } else {
                hex_digit(bytes[i / 2] as int % 16)
            },
    )
}

/// Writes bytes in hexadecimal.
pub fn hex(raw: &[u8]) -> (text: String)
    requires
        2 * raw@.len() <= usize::MAX,
    ensures
        text@ == hex_text(raw@),
{
    let mut digits: Vec<u8> = Vec::new();
    let mut i: usize = 0;
    while i < raw.len()
        invariant
            i <= raw@.len(),
            digits@.len() == 2 * i,
            forall|k: int|
                0 <= k < digits@.len() ==> (#[trigger] digits@[k]) < 0x80 && digits@[k] as char
                    == hex_text(raw@)[k],
        decreases raw@.len() - i,
    {
        digits.push(hex_digit_byte(raw[i] / 16));
        digits.push(hex_digit_byte(raw[i] % 16));
        i = i + 1;
    }
    assert(bytes::ascii_chars(digits@) =~= hex_text(raw@));
    bytes::ascii_string(digits.as_slice())
}

fn hex_digit_byte(n: u8) -> (digit: u8)
    requires
        n < 16,
    ensures
        digit < 0x80,
        digit as char == hex_digit(n as int),
{
    if n < 10 {
        0x30 + n
    } else {
        0x57 + n
    }
}

} // verus!
