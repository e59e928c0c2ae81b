//! What goes into a value comes out of it again, and what the helpers on bytes tell.
use vstd::prelude::*;
use vstd::utf8::*;

use crate::bytes;
use crate::ciphertext::{Ciphertext, CiphertextHeader};
use crate::cli::error::{io_error, CliError, IoSource};
use crate::crypto;
use crate::error::{ErrorSource, XSecError, XSecResult};
use crate::laws::protectors;
use crate::metadata::{Metadata, ProtectorRecord};
use crate::protector::biometric::windows as hello;
use crate::protector::password::XSecPasswordProtector;
use crate::protector::system;
use crate::protector::system::linux;
use crate::protector::system::macos::crypto as enclave;
use crate::protector::system::windows::crypto as envelope;
use crate::protector::system::windows_v1;
use crate::secret::{SecretBytes, SecretKey, ZeroizingBytes};
use crate::storage::file::XSecFileStorage;
use crate::xsec::XSec;

verus! {

/// A secret is what it was made from; a data key is made from 32 bytes, and from no other
/// number of them.
pub proof fn law_secrets_kept(
    raw: [u8; 32],
    key: SecretKey,
    shown_key: &[u8; 32],
    slice: &[u8],
    taken: Option<SecretKey>,
    bytes: Vec<u8>,
    secret: SecretBytes,
    shown_secret: &[u8],
    wrapped: ZeroizingBytes,
    shown: &[u8],
)
    requires
        call_ensures(SecretKey::new, (raw,), key),
        call_ensures(SecretKey::expose_secret, (&key,), shown_key),
        call_ensures(SecretKey::from_slice, (slice,), taken),
        call_ensures(SecretBytes::new, (bytes,), secret),
        call_ensures(SecretBytes::expose_secret, (&secret,), shown_secret),
        call_ensures(ZeroizingBytes::new, (bytes,), wrapped),
        call_ensures(ZeroizingBytes::as_slice, (&wrapped,), shown),
    ensures
        shown_key@ == raw@,
        shown_secret@ == bytes@,
        shown@ == bytes@,
        slice@.len() == 32 ==> (taken matches Some(k) && k@ == slice@),
        slice@.len() != 32 ==> taken is None,
{
}

/// A ciphertext is made from a header and at least 16 bytes, and gives both back.
pub proof fn law_ciphertext_parts(
    header: CiphertextHeader,
    payload: Vec<u8>,
    made: XSecResult<Ciphertext>,
    shown_header: &CiphertextHeader,
    shown_payload: &[u8],
    nonce: &[u8; 12],
    again: &[u8; 12],
)
    requires
        header.wf(),
        call_ensures(Ciphertext::new, (header, payload), made),
        made matches Ok(c) ==> call_ensures(Ciphertext::header, (&c,), shown_header)
            && call_ensures(Ciphertext::encrypted_payload, (&c,), shown_payload),
        call_ensures(CiphertextHeader::nonce, (&header,), nonce),
        call_ensures(CiphertextHeader::nonce, (shown_header,), again),
    ensures
        made is Ok == (payload@.len() >= 16),
        made matches Err(e) ==> e is InvalidCiphertext,
        made is Ok ==> shown_payload@ == payload@ && again@ == nonce@,
{
}

/// A new header has a nonce that was drawn for it, and fails only for want of one.
pub proof fn law_header_drawn(made: XSecResult<CiphertextHeader>, nonce: &[u8; 12])
    requires
        call_ensures(CiphertextHeader::new, (), made),
        made matches Ok(h) ==> call_ensures(CiphertextHeader::nonce, (&h,), nonce),
    ensures
        made is Ok ==> crypto::drawn::<12>(nonce@),
        made matches Err(e) ==> e is Crypto && crypto::draw_failed::<12>(),
{
}

/// The fields of an envelope of Windows are told as they stand in its payload.
pub proof fn law_windows_fields(
    payload: &[u8],
    found: envelope::SystemEnvelope<'_>,
    identity: &[u8],
    challenge: &[u8],
)
    requires
        call_ensures(
            envelope::SystemEnvelope::parse_stored,
            (payload,),
            XSecResult::<envelope::SystemEnvelope<'_>>::Ok(found),
        ),
        call_ensures(envelope::SystemEnvelope::identity, (&found,), identity),
        call_ensures(envelope::SystemEnvelope::challenge, (&found,), challenge),
    ensures
        payload@.len() == 148,
        identity@ == payload@.subrange(8, 40),
        challenge@ == payload@.subrange(40, 56),
{
}

/// The fields of an envelope of macOS are told as they stand in its payload.
pub proof fn law_macos_fields(
    payload: &[u8],
    found: enclave::MacosEnvelope<'_>,
    identity: &[u8],
    recipient: &[u8],
    ephemeral: &[u8],
)
    requires
        call_ensures(
            enclave::MacosEnvelope::parse_stored,
            (payload,),
            XSecResult::<enclave::MacosEnvelope<'_>>::Ok(found),
        ),
        call_ensures(enclave::MacosEnvelope::identity, (&found,), identity),
        call_ensures(enclave::MacosEnvelope::recipient_key_hash, (&found,), recipient),
        call_ensures(enclave::MacosEnvelope::ephemeral_public_key, (&found,), ephemeral),
    ensures
        payload@.len() == 229,
        identity@ == payload@.subrange(8, 40),
        recipient@ == payload@.subrange(40, 72),
        ephemeral@ == payload@.subrange(72, 137),
{
}

/// The wrapping keys of Windows and macOS are derived by HKDF from the secret, the salt and what
/// the key is for.
pub proof fn law_wrapping_keys(
    signature: &[u8],
    prf: envelope::WindowsHelloPrf,
    salt: &[u8],
    identity: &[u8],
    a: XSecResult<SecretKey>,
    secret: &SecretKey,
    recipient: &[u8],
    b: XSecResult<SecretKey>,
    hash: &[u8; 32],
    c: XSecResult<SecretKey>,
)
    requires
        call_ensures(envelope::WindowsHelloPrf::from_signature, (signature,), prf),
        call_ensures(envelope::derive_kek, (&prf, salt, identity), a),
        call_ensures(enclave::derive_kek, (secret, salt, identity, recipient), b),
        call_ensures(windows_v1::XSecSystemProtector::derive_kek, (signature, hash), c),
    ensures
        a matches Ok(k) && k@ == crypto::hkdf_sha256(
            Some(salt@),
            crypto::sha256_digest(signature@),
            encode_utf8("xsec:windows-hello:kek"@) + identity@,
        ),
        b matches Ok(k) && k@ == crypto::hkdf_sha256(
            Some(salt@),
            secret@,
            encode_utf8("xsec:macos-secure-enclave:kek"@) + identity@ + recipient@,
        ),
        c matches Ok(k) && k@ == crypto::hkdf_sha256(
            Some(hash@),
            crypto::sha256_digest(signature@),
            encode_utf8("xsec:windows-hello:kek:v1"@),
        ),
{
}

/// A challenge is the bytes that it was made from or that were drawn for it.
pub proof fn law_challenges(
    raw: [u8; 16],
    made: envelope::Challenge,
    shown: &[u8],
    drawn: XSecResult<envelope::Challenge>,
    first: XSecResult<[u8; 16]>,
)
    requires
        call_ensures(envelope::Challenge::new, (raw,), made),
        call_ensures(envelope::Challenge::as_bytes, (&made,), shown),
        call_ensures(envelope::Challenge::random, (), drawn),
        call_ensures(windows_v1::random_challenge, (), first),
    ensures
        shown@ == raw@,
        drawn matches Ok(c) ==> c@.len() == 16 && crypto::drawn::<16>(c@),
        drawn matches Err(e) ==> e is Crypto && crypto::draw_failed::<16>(),
        first matches Ok(c) ==> crypto::drawn::<16>(c@),
        first matches Err(e) ==> e is Crypto && crypto::draw_failed::<16>(),
{
}

/// Protectors and a storage tell what they were made from.
pub proof fn law_names_kept(
    name: String,
    biometric: hello::XSecBiometricProtector,
    shown_name: &str,
    path: std::path::PathBuf,
    storage: XSecFileStorage,
    shown_path: &std::path::PathBuf,
    password: SecretBytes,
    protector: XSecPasswordProtector,
    linux: &linux::XSecSystemProtector,
    identity: &[u8; 32],
)
    requires
        call_ensures(hello::XSecBiometricProtector::new, (name,), biometric),
        call_ensures(hello::XSecBiometricProtector::name, (&biometric,), shown_name),
        call_ensures(XSecFileStorage::new, (path,), storage),
        call_ensures(XSecFileStorage::path, (&storage,), shown_path),
        call_ensures(XSecPasswordProtector::new, (password,), protector),
        call_ensures(linux::XSecSystemProtector::identity, (linux,), identity),
    ensures
        shown_name@ == name@,
        *shown_path == path,
        protector@ == password@,
        identity@ == linux@.identity,
{
}

/// An identity is hashed behind a domain and its length, in any domain.
pub proof fn law_identities_hashed(
    domain: &str,
    identity: &str,
    hash: [u8; 32],
    first: [u8; 32],
    length: Seq<u8>,
)
    requires
        encode_utf8(identity@).len() <= 4096,
        call_ensures(system::hash_identity_in, (domain, identity), hash),
        call_ensures(windows_v1::identity_hash, (identity,), first),
        length.len() == 4,
        protectors::word(length, 0) == encode_utf8(identity@).len(),
    ensures
        hash@ == crypto::sha256_digest(encode_utf8(domain@) + length + encode_utf8(identity@)),
        first@ == crypto::sha256_digest(
            encode_utf8("xsec:system-protector:v1"@) + length + encode_utf8(identity@),
        ),
{
    let n = encode_utf8(identity@).len() as u32;
    assert(length.subrange(0, 4) =~= length);
    protectors::lemma_four_at(length, 0, n);
}

/// Nothing is loaded at first, and metadata begins with the protectors that it is given and
/// without anything authenticated.
pub proof fn law_beginnings<S>(
    xsec: XSec<S>,
    protectors: Vec<ProtectorRecord>,
    metadata: Metadata,
    kinds: Vec<&str>,
)
    requires
        call_ensures(XSec::<S>::new, (), xsec),
        call_ensures(Metadata::new, (protectors,), metadata),
        call_ensures(Metadata::kinds, (&metadata,), kinds),
    ensures
        xsec@ is Empty,
        metadata@.protectors.len() == protectors@.len(),
        forall|i: int|
            0 <= i < protectors@.len() ==> (#[trigger] protectors@[i])@ == metadata@.protectors[i],
        forall|i: int|
            0 <= i < kinds@.len() ==> (#[trigger] kinds@[i])@ == protectors@[i]@.kind,
        metadata@.authenticated.len() == 0,
{
}

/// An error keeps the reason, the code and the context that it is given.
pub proof fn law_reasons_kept(
    message: String,
    code: i32,
    plain: ErrorSource,
    coded: ErrorSource,
    a: XSecError,
    b: XSecError,
    context: String,
    reason: IoSource,
    c: CliError,
)
    requires
        call_ensures(ErrorSource::new, (message,), plain),
        call_ensures(ErrorSource::with_code, (code, message), coded),
        call_ensures(XSecError::storage, (plain,), a),
        call_ensures(XSecError::protector, (coded,), b),
        call_ensures(io_error, (context, reason), c),
    ensures
        a matches XSecError::Storage { source } && source.message == message && source.code is None,
        b matches XSecError::Protector { source } && source.message == message && source.code
            == Some(code),
        c matches CliError::Io { context: x, source: y } && x == context && y == reason,
{
}

/// Bytes are the same if each is the same, and a byte, a text or a part of bytes is found where
/// it stands.
pub proof fn law_bytes_told(
    a: &[u8],
    b: &[u8],
    same: bool,
    begins: bool,
    byte: u8,
    found: bool,
    start: usize,
    end: usize,
    part: Vec<u8>,
    x: &str,
    y: &str,
    alike: bool,
)
    requires
        start <= end <= a@.len(),
        call_ensures(bytes::equal, (a, b), same),
        call_ensures(bytes::starts_with, (a, b), begins),
        call_ensures(bytes::contains, (a, byte), found),
        call_ensures(bytes::copy_range, (a, start, end), part),
        call_ensures(bytes::same_text, (x, y), alike),
    ensures
        same == (a@.len() == b@.len() && forall|i: int|
            0 <= i < a@.len() ==> #[trigger] a@[i] == b@[i]),
        begins == (b@.len() <= a@.len() && forall|i: int|
            0 <= i < b@.len() ==> a@[i] == #[trigger] b@[i]),
        found == exists|i: int| 0 <= i < a@.len() && #[trigger] a@[i] == byte,
        part@.len() == end - start,
        forall|i: int| 0 <= i < part@.len() ==> #[trigger] part@[i] == a@[start + i],
        alike == (x@.len() == y@.len() && forall|i: int|
            0 <= i < x@.len() ==> #[trigger] x@[i] == y@[i]),
{
    if a@.len() == b@.len() && forall|i: int| 0 <= i < a@.len() ==> #[trigger] a@[i] == b@[i] {
        assert(a@ =~= b@);
    }
    if b@.len() <= a@.len() {
        let head = a@.take(b@.len() as int);
        if forall|i: int| 0 <= i < b@.len() ==> a@[i] == #[trigger] b@[i] {
            assert(head =~= b@);
        }
        if begins {
            assert(head =~= b@);
            assert forall|i: int| 0 <= i < b@.len() implies a@[i] == #[trigger] b@[i] by {
                assert(head[i] == a@[i]);
            }
        }
    }
    if found {
        let i = a@.index_of(byte);
        assert(a@[i] == byte);
    }
    if x@.len() == y@.len() && forall|i: int| 0 <= i < x@.len() ==> #[trigger] x@[i] == y@[i] {
        assert(x@ =~= y@);
    }
}

} // verus!
