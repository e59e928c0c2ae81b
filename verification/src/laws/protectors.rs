//! What each protector writes and reads, byte for byte, and what the answers of the operating
//! system mean.
use vstd::prelude::*;
use vstd::utf8::*;

use crate::bytes;
use crate::crypto;
use crate::error::{ErrorSource, XSecError, XSecResult};
use crate::laws::formats;
use crate::protector::biometric;
use crate::protector::biometric::windows as hello;
use crate::protector::password;
use crate::protector::password::{derive_key, open_payload, seal_payload, validate_params};
use crate::protector::password::{PasswordPayload, XSecPasswordProtector};
use crate::protector::system;
use crate::protector::system::linux;
use crate::protector::system::macos;
use crate::protector::system::macos::crypto as enclave;
use crate::protector::system::unsupported;
use crate::protector::system::windows;
use crate::protector::system::windows::crypto as envelope;
use crate::protector::system::windows_v1;
use crate::protector::XSecKeyProtector;
use crate::secret::SecretKey;

verus! {

/// The number that two bytes hold, the greater weight first.
pub open spec fn half(raw: Seq<u8>, at: int) -> int {
    raw[at] * 256 + raw[at + 1]
}

/// The number that four bytes hold, the greatest weight first.
pub open spec fn word(raw: Seq<u8>, at: int) -> int {
    raw[at] * 0x100_0000 + raw[at + 1] * 0x1_0000 + raw[at + 2] * 0x100 + raw[at + 3]
}

proof fn lemma_half(raw: Seq<u8>, at: int)
    requires
        0 <= at,
        at + 2 <= raw.len(),
    ensures
        bytes::from_be16(raw.subrange(at, at + 2)) == half(raw, at),
        0 <= half(raw, at) <= 0xFFFF,
{
    let s = raw.subrange(at, at + 2);
    assert(s[0] == raw[at] && s[1] == raw[at + 1]);
}

proof fn lemma_word(raw: Seq<u8>, at: int)
    requires
        0 <= at,
        at + 4 <= raw.len(),
    ensures
        bytes::from_be32(raw.subrange(at, at + 4)) == word(raw, at),
        0 <= word(raw, at) <= 0xFFFF_FFFF,
{
    let s = raw.subrange(at, at + 4);
    assert(s[0] == raw[at] && s[1] == raw[at + 1] && s[2] == raw[at + 2] && s[3] == raw[at + 3]);
}

/// Parameters of the password derivation are taken from 19456 to 262144 KiB of memory, 2 to 10
/// passes, 1 to 8 lanes and 16 to 64 bytes of salt, and refused else.
pub proof fn law_parameters(
    memory: u32,
    time: u32,
    lanes: u32,
    salt: usize,
    result: XSecResult<()>,
)
    requires
        call_ensures(validate_params, (memory, time, lanes, salt), result),
    ensures
        result is Ok == (19_456 <= memory <= 262_144 && 2 <= time <= 10 && 1 <= lanes <= 8 && 16
            <= salt <= 64),
        result matches Err(e) ==> e is Corrupted,
{
}

/// A password payload: version 1, algorithm 1, memory, passes, lanes, a key length of 32, the
/// salt behind its length, a twelve and the nonce, and 48 bytes of sealed key.
pub open spec fn is_password_payload(raw: Seq<u8>) -> bool {
    let n = half(raw, 18);
    &&& 97 <= raw.len() <= 65_536
    &&& half(raw, 0) == 1
    &&& half(raw, 2) == 1
    &&& 19_456 <= word(raw, 4) <= 262_144
    &&& 2 <= word(raw, 8) <= 10
    &&& 1 <= word(raw, 12) <= 8
    &&& half(raw, 16) == 32
    &&& 16 <= n <= 64
    &&& raw.len() == 81 + n
    &&& raw[20 + n] == 12
}

/// A password payload is read if it is one, field for field; another version and another
/// algorithm have errors of their own.
pub proof fn law_password_payload_read(payload: &[u8], result: XSecResult<PasswordPayload<'_>>)
    requires
        call_ensures(PasswordPayload::parse, (payload,), result),
    ensures
        ({
            let raw = payload@;
            let n = half(raw, 18);
            match result {
                Ok(p) => {
                    &&& is_password_payload(raw)
                    &&& p@.memory_cost == word(raw, 4)
                    &&& p@.time_cost == word(raw, 8)
                    &&& p@.parallelism == word(raw, 12)
                    &&& p@.salt == raw.subrange(20, 20 + n)
                    &&& p@.nonce == raw.subrange(21 + n, 33 + n)
                    &&& p@.header == raw.take(33 + n)
                    &&& p@.ciphertext == raw.skip(33 + n)
                },
                Err(e) => !is_password_payload(raw) && e == if !(97 <= raw.len() <= 65_536) {
                    XSecError::Corrupted
                } else if half(raw, 0) != 1 {
                    XSecError::UnsupportedVersion
                } else if half(raw, 2) != 1 {
                    XSecError::UnsupportedAlgorithm
                } else {
                    XSecError::Corrupted
                },
            }
        }),
{
    let raw = payload@;
    if raw.len() >= 97 {
        formats::lemma_two_at(raw, 0, 1);
        formats::lemma_two_at(raw, 2, 1);
        formats::lemma_two_at(raw, 16, 32);
        lemma_half(raw, 18);
        lemma_word(raw, 4);
        lemma_word(raw, 8);
        lemma_word(raw, 12);
    }
}

/// The bytes of a new header.
proof fn lemma_password_header(salt: Seq<u8>, nonce: Seq<u8>)
    requires
        salt.len() == 16,
        nonce.len() == 12,
    ensures
        ({
            let head = password::new_header(salt, nonce);
            &&& head.len() == 49
            &&& half(head, 0) == 1
            &&& half(head, 2) == 1
            &&& word(head, 4) == 65_536
            &&& word(head, 8) == 3
            &&& word(head, 12) == 1
            &&& half(head, 16) == 32
            &&& half(head, 18) == 16
            &&& head.subrange(20, 36) == salt
            &&& head[36] == 12
            &&& head.subrange(37, 49) == nonce
        }),
{
    let head = password::new_header(salt, nonce);
    reveal(password::header_bytes);
    assert(head.subrange(0, 2) =~= bytes::be16(1));
    assert(head.subrange(2, 4) =~= bytes::be16(1));
    assert(head.subrange(4, 8) =~= bytes::be32(65_536));
    assert(head.subrange(8, 12) =~= bytes::be32(3));
    assert(head.subrange(12, 16) =~= bytes::be32(1));
    assert(head.subrange(16, 18) =~= bytes::be16(32));
    assert(head.subrange(18, 20) =~= bytes::be16(16));
    assert(head.subrange(20, 36) =~= salt);
    assert(head.subrange(37, 49) =~= nonce);
    formats::lemma_two_at(head, 0, 1);
    formats::lemma_two_at(head, 2, 1);
    formats::lemma_two_at(head, 16, 32);
    formats::lemma_two_at(head, 18, 16);
    lemma_four_at(head, 4, 65_536);
    lemma_four_at(head, 8, 3);
    lemma_four_at(head, 12, 1);
}

/// A new payload asks for 65536 KiB of memory, 3 passes and 1 lane, and holds the salt, the
/// nonce and the data key, sealed under the wrapping key with everything before it.
pub proof fn law_password_payload_written(
    kek: &SecretKey,
    salt: [u8; 16],
    nonce: [u8; 12],
    key: &SecretKey,
    result: XSecResult<Vec<u8>>,
)
    requires
        call_ensures(seal_payload, (kek, salt, nonce, key), result),
    ensures
        result matches Ok(p) && {
            &&& is_password_payload(p@)
            &&& word(p@, 4) == 65_536
            &&& word(p@, 8) == 3
            &&& word(p@, 12) == 1
            &&& half(p@, 18) == 16
            &&& p@.subrange(20, 36) == salt@
            &&& p@.subrange(37, 49) == nonce@
            &&& p@.skip(49) == crypto::aes256_gcm_seal(kek@, nonce@, key@, p@.take(49))
        },
{
    if let Ok(payload) = result {
        let p = payload@;
        let head = password::new_header(salt@, nonce@);
        lemma_password_header(salt@, nonce@);
        assert(password::read_payload(p) is Ok);
        assert(forall|i: int| 0 <= i < 49 ==> p[i] == head[i]);
        assert(p.subrange(18, 20) =~= head.subrange(18, 20));
        lemma_half(p, 18);
        assert(p.len() == 97);
        assert(p.take(49) =~= head);
        assert(p.skip(49) =~= crypto::aes256_gcm_seal(kek@, nonce@, key@, head));
        assert(p.subrange(20, 36) =~= head.subrange(20, 36));
        assert(p.subrange(37, 49) =~= head.subrange(37, 49));
    }
}

/// The wrapping key of a password is what Argon2id derives from it; parameters out of range
/// are refused before.
pub proof fn law_password_derived(
    secret: &[u8],
    salt: &[u8],
    memory: u32,
    time: u32,
    lanes: u32,
    result: XSecResult<SecretKey>,
)
    requires
        call_ensures(derive_key, (secret, salt, memory, time, lanes), result),
    ensures
        ({
            let fits = 19_456 <= memory <= 262_144 && 2 <= time <= 10 && 1 <= lanes <= 8 && 16
                <= salt@.len() <= 64;
            match result {
                Ok(key) => fits && key@ == crypto::argon2id_key(
                    secret@,
                    salt@,
                    memory,
                    time,
                    lanes,
                ),
                Err(e) => if fits {
                    e is Protector && crypto::derivation_failed(
                        secret@,
                        salt@,
                        memory,
                        time,
                        lanes,
                    )
                } else {
                    e is Corrupted
                },
            }
        }),
{
}

/// A password payload opens to what the cipher finds in it, or the password is wrong.
pub proof fn law_password_payload_opened(
    kek: &SecretKey,
    parsed: &PasswordPayload<'_>,
    result: XSecResult<SecretKey>,
)
    requires
        parsed@.nonce.len() == 12,
        parsed@.ciphertext.len() == 48,
        call_ensures(open_payload, (kek, parsed), result),
    ensures
        match crypto::aes256_gcm_open(kek@, parsed@.nonce, parsed@.ciphertext, parsed@.header) {
            Some(key) => result matches Ok(k) && k@ == key,
            None => result matches Err(e) && e is AuthenticationFailed,
        },
{
}

/// The kinds under which the protectors store what they wrap.
pub proof fn law_protector_kinds(
    a: &XSecPasswordProtector,
    x: &'static str,
    b: &linux::XSecSystemProtector,
    y: &'static str,
    c: &windows::XSecSystemProtector,
    z: &'static str,
    d: &macos::XSecSystemProtector,
    u: &'static str,
    e: &hello::XSecBiometricProtector,
    v: &'static str,
)
    requires
        call_ensures(<XSecPasswordProtector as XSecKeyProtector>::kind, (a,), x),
        call_ensures(linux::XSecSystemProtector::kind, (b,), y),
        call_ensures(windows::XSecSystemProtector::kind, (c,), z),
        call_ensures(macos::XSecSystemProtector::kind, (d,), u),
        call_ensures(hello::XSecBiometricProtector::kind, (e,), v),
    ensures
        x@ == "password"@,
        y@ == "system"@,
        z@ == "system"@,
        u@ == "system"@,
        v@ == "windows-hello"@,
{
}

/// The six bytes of the system formats: `XSec`, a letter for the system, `P`.
pub open spec fn marked_for(raw: Seq<u8>, system: u8) -> bool {
    raw.len() >= 6 && raw[0] == 0x58 && raw[1] == 0x53 && raw[2] == 0x65 && raw[3] == 0x63 && raw[4]
        == system && raw[5] == 0x50
}

proof fn lemma_marks(raw: Seq<u8>)
    ensures
        encode_utf8("XSecLP"@).is_prefix_of(raw) == marked_for(raw, 0x4C),
        encode_utf8("XSecMP"@).is_prefix_of(raw) == marked_for(raw, 0x4D),
        encode_utf8("XSecSP"@).is_prefix_of(raw) == marked_for(raw, 0x53),
        encode_utf8("XSecLP"@) == seq![0x58u8, 0x53u8, 0x65u8, 0x63u8, 0x4Cu8, 0x50u8],
        encode_utf8("XSecMP"@) == seq![0x58u8, 0x53u8, 0x65u8, 0x63u8, 0x4Du8, 0x50u8],
        encode_utf8("XSecSP"@) == seq![0x58u8, 0x53u8, 0x65u8, 0x63u8, 0x53u8, 0x50u8],
{
    reveal_strlit("XSecLP");
    reveal_strlit("XSecMP");
    reveal_strlit("XSecSP");
    formats::lemma_ascii("XSecLP"@, seq![0x58u8, 0x53u8, 0x65u8, 0x63u8, 0x4Cu8, 0x50u8]);
    formats::lemma_ascii("XSecMP"@, seq![0x58u8, 0x53u8, 0x65u8, 0x63u8, 0x4Du8, 0x50u8]);
    formats::lemma_ascii("XSecSP"@, seq![0x58u8, 0x53u8, 0x65u8, 0x63u8, 0x53u8, 0x50u8]);
    formats::lemma_six(raw, encode_utf8("XSecLP"@));
    formats::lemma_six(raw, encode_utf8("XSecMP"@));
    formats::lemma_six(raw, encode_utf8("XSecSP"@));
}

/// A Linux payload is `XSecLP`, version 1, the hash of the identity and 16 bytes that name the
/// key, 56 bytes in all. One of another system is told apart, and so is one of another version
/// or of another identity.
pub proof fn law_linux_payload_read(
    payload: &[u8],
    expected: Option<&[u8; 32]>,
    result: XSecResult<[u8; 16]>,
)
    requires
        call_ensures(linux::parse_payload, (payload, expected), result),
    ensures
        ({
            let raw = payload@;
            if marked_for(raw, 0x53) || marked_for(raw, 0x4D) {
                result matches Err(e) && e is IncompatibleSystemProtector
            } else if raw.len() != 56 || !marked_for(raw, 0x4C) {
                result matches Err(e) && e is Corrupted
            } else if half(raw, 6) != 1 {
                result matches Err(e) && e is UnsupportedVersion
            } else if expected is Some && raw.subrange(8, 40) != expected->Some_0@ {
                result matches Err(e) && e is SystemKeyInvalidated
            } else {
                result matches Ok(id) && id@ == raw.skip(40)
            }
        }),
{
    lemma_marks(payload@);
    if payload@.len() == 56 {
        formats::lemma_two_at(payload@, 6, 1);
    }
}

/// A key that is kept under Linux is handed out for its own payload to a user who is
/// authorized, and to no one else. A key that took its place, and a protector that keeps none,
/// refuse that payload.
pub proof fn law_linux_key_kept(
    protector: &mut linux::XSecSystemProtector,
    id: [u8; 16],
    key: &SecretKey,
    payload: Vec<u8>,
    later: &linux::XSecSystemProtector,
    shown: &[u8],
    authorized: XSecResult<()>,
    result: XSecResult<SecretKey>,
)
    requires
        call_ensures(
            linux::XSecSystemProtector::store_key,
            (protector, id, key),
            XSecResult::<Vec<u8>>::Ok(payload),
        ),
        shown@ == payload@,
        later@.identity == old(protector)@.identity,
        call_ensures(
            linux::XSecSystemProtector::finish_unwrap,
            (later, shown, authorized),
            result,
        ),
    ensures
        payload@.len() == 56,
        payload@.subrange(8, 40) == old(protector)@.identity,
        payload@.skip(40) == id@,
        authorized matches Err(reason) ==> (result matches Err(e) && e == reason),
        authorized is Ok ==> match later@.stored {
            None => result matches Err(e) && e is SystemKeyNotFound,
            Some((kept, raw)) => if kept == id@ {
                result matches Ok(k) && k@ == raw
            } else {
                result matches Err(e) && e is SystemKeyInvalidated
            },
        },
        final(protector)@.stored == Some((id@, key@)),
{
    let identity = old(protector)@.identity;
    linux::law_payload_round_trip(identity, id@);
    lemma_marks(payload@);
    assert(payload@.subrange(8, 40) =~= identity);
    assert(payload@.skip(40) =~= id@);
}

/// Polkit is set up if it lists the action `com.xsec.XSec.unlock`.
pub proof fn law_linux_available(actions: &Vec<String>, result: XSecResult<()>)
    requires
        call_ensures(linux::availability, (actions,), result),
    ensures
        result is Ok == exists|i: int|
            0 <= i < actions@.len() && (#[trigger] actions@[i])@ == "com.xsec.XSec.unlock"@,
        result matches Err(e) ==> e is SystemAuthenticationNotConfigured,
{
}

/// A user is authorized where polkit says so; a dialog that was dismissed is a cancellation.
pub proof fn law_linux_authorized(yes: bool, dismissed: Option<&str>, result: XSecResult<()>)
    requires
        call_ensures(linux::authorization, (yes, dismissed), result),
    ensures
        yes ==> result is Ok,
        !yes && (dismissed is None || dismissed->Some_0@.len() == 0) ==> (result matches Err(e) && e
            is AuthenticationFailed),
        !yes && (dismissed matches Some(detail) && detail@.len() > 0) ==> (result matches Err(e)
            && e is AuthenticationCancelled),
{
}

/// A Windows envelope is `XSecSP`, version 2, the hash of the identity, the challenge, the salt,
/// the nonce and 48 bytes of sealed key, 148 bytes in all.
pub proof fn law_windows_envelope_read(
    payload: &[u8],
    identity: &[u8; 32],
    result: XSecResult<envelope::SystemEnvelope<'_>>,
)
    requires
        call_ensures(envelope::SystemEnvelope::parse, (payload, identity), result),
    ensures
        ({
            let raw = payload@;
            if marked_for(raw, 0x4C) || marked_for(raw, 0x4D) {
                result matches Err(e) && e is IncompatibleSystemProtector
            } else if raw.len() != 148 || !marked_for(raw, 0x53) {
                result matches Err(e) && e is Corrupted
            } else if half(raw, 6) != 2 {
                result matches Err(e) && e is UnsupportedVersion
            } else if raw.subrange(8, 40) != identity@ {
                result matches Err(e) && e is SystemKeyInvalidated
            } else {
                result matches Ok(found) && found@.identity == raw.subrange(8, 40)
                    && found@.challenge == raw.subrange(40, 56) && found@.salt == raw.subrange(
                    56,
                    88,
                ) && found@.nonce == raw.subrange(88, 100) && found@.header == raw.take(100)
                    && found@.ciphertext == raw.skip(100)
            }
        }),
{
    lemma_marks(payload@);
    if payload@.len() == 148 {
        formats::lemma_two_at(payload@, 6, 2);
    }
}

/// A Windows envelope holds the data key, sealed with everything before it under a key that is
/// derived from the hash of the signature, the salt and the identity.
pub proof fn law_windows_envelope_written(
    key: &SecretKey,
    identity: &[u8; 32],
    challenge: &envelope::Challenge,
    prf: &envelope::WindowsHelloPrf,
    salt: [u8; 32],
    nonce: [u8; 12],
    result: XSecResult<Vec<u8>>,
)
    requires
        challenge@.len() == 16,
        call_ensures(envelope::seal_key_with, (key, identity, challenge, prf, salt, nonce), result),
    ensures
        result matches Ok(p) && {
            &&& p@.len() == 148
            &&& marked_for(p@, 0x53)
            &&& half(p@, 6) == 2
            &&& p@.subrange(8, 40) == identity@
            &&& p@.subrange(40, 56) == challenge@
            &&& p@.subrange(56, 88) == salt@
            &&& p@.subrange(88, 100) == nonce@
            &&& p@.skip(100) == crypto::aes256_gcm_seal(
                crypto::hkdf_sha256(
                    Some(salt@),
                    prf@,
                    encode_utf8("xsec:windows-hello:kek"@) + identity@,
                ),
                nonce@,
                key@,
                p@.take(100),
            )
        },
{
    if let Ok(payload) = result {
        let p = payload@;
        let head = envelope::header_bytes(identity@, challenge@, salt@, nonce@);
        lemma_marks(p);
        reveal(envelope::header_bytes);
        assert(head.len() == 100);
        formats::lemma_two_at(p, 6, 2);
        assert(p.take(100) =~= head);
        assert(p.skip(100) =~= crypto::aes256_gcm_seal(
            envelope::kek_of(prf@, salt@, identity@),
            nonce@,
            key@,
            head,
        ));
        assert(p.subrange(8, 40) =~= identity@);
        assert(p.subrange(40, 56) =~= challenge@);
        assert(p.subrange(56, 88) =~= salt@);
        assert(p.subrange(88, 100) =~= nonce@);
        let two = bytes::be16(2);
        formats::lemma_two(2);
        assert(p[6] == two[0] && p[7] == two[1]);
    }
}

/// A macOS envelope is `XSecMP`, version 1, the hash of the identity, the hash of the recipient's
/// public key, an uncompressed public key, the salt, the nonce and 48 bytes of sealed key, 229
/// bytes in all.
pub proof fn law_macos_envelope_read(
    payload: &[u8],
    identity: &[u8; 32],
    result: XSecResult<enclave::MacosEnvelope<'_>>,
)
    requires
        call_ensures(enclave::MacosEnvelope::parse, (payload, identity), result),
    ensures
        ({
            let raw = payload@;
            if marked_for(raw, 0x53) || marked_for(raw, 0x4C) {
                result matches Err(e) && e is IncompatibleSystemProtector
            } else if raw.len() != 229 || !marked_for(raw, 0x4D) {
                result matches Err(e) && e is Corrupted
            } else if half(raw, 6) != 1 {
                result matches Err(e) && e is UnsupportedVersion
            } else if raw.subrange(8, 40) != identity@ {
                result matches Err(e) && e is SystemKeyInvalidated
            } else if raw[72] != 4 {
                result matches Err(e) && e is Corrupted
            } else {
                result matches Ok(found) && found@.identity == raw.subrange(8, 40)
                    && found@.recipient_key_hash == raw.subrange(40, 72)
                    && found@.ephemeral_public_key == raw.subrange(72, 137) && found@.salt
                    == raw.subrange(137, 169) && found@.nonce == raw.subrange(169, 181)
                    && found@.header == raw.take(181) && found@.ciphertext == raw.skip(181)
            }
        }),
{
    lemma_marks(payload@);
    if payload@.len() == 229 {
        formats::lemma_two_at(payload@, 6, 1);
    }
}

/// A macOS envelope holds the data key, sealed with everything before it under a key that is
/// derived from the shared secret, the salt, the identity and the recipient.
pub proof fn law_macos_envelope_written(
    key: &SecretKey,
    identity: &[u8; 32],
    recipient: &[u8; 32],
    ephemeral: &[u8; 65],
    secret: &SecretKey,
    salt: [u8; 32],
    nonce: [u8; 12],
    result: XSecResult<Vec<u8>>,
)
    requires
        call_ensures(
            enclave::seal_key_with,
            (key, identity, recipient, ephemeral, secret, salt, nonce),
            result,
        ),
    ensures
        result matches Ok(p) && {
            &&& p@.len() == 229
            &&& marked_for(p@, 0x4D)
            &&& half(p@, 6) == 1
            &&& p@.subrange(8, 40) == identity@
            &&& p@.subrange(40, 72) == recipient@
            &&& p@.subrange(72, 137) == ephemeral@
            &&& p@.subrange(137, 169) == salt@
            &&& p@.subrange(169, 181) == nonce@
            &&& p@.skip(181) == crypto::aes256_gcm_seal(
                crypto::hkdf_sha256(
                    Some(salt@),
                    secret@,
                    encode_utf8("xsec:macos-secure-enclave:kek"@) + identity@ + recipient@,
                ),
                nonce@,
                key@,
                p@.take(181),
            )
        },
{
    if let Ok(payload) = result {
        let p = payload@;
        let head = enclave::header_bytes(identity@, recipient@, ephemeral@, salt@, nonce@);
        lemma_marks(p);
        reveal(enclave::header_bytes);
        assert(head.len() == 181);
        assert(p.take(181) =~= head);
        assert(p.skip(181) =~= crypto::aes256_gcm_seal(
            enclave::kek_of(secret@, salt@, identity@, recipient@),
            nonce@,
            key@,
            head,
        ));
        assert(p.subrange(8, 40) =~= identity@);
        assert(p.subrange(40, 72) =~= recipient@);
        assert(p.subrange(72, 137) =~= ephemeral@);
        assert(p.subrange(137, 169) =~= salt@);
        assert(p.subrange(169, 181) =~= nonce@);
        let two = bytes::be16(1);
        formats::lemma_two(1);
        assert(p[6] == two[0] && p[7] == two[1]);
    }
}

/// The two digits of a byte.
pub open spec fn in_hex(b: u8, high: char, low: char) -> bool {
    exists|x: int, y: int|
        0 <= x < 16 && 0 <= y < 16 && b == 16 * x + y && #[trigger] hex_digit(high, x)
            && #[trigger] hex_digit(low, y)
}

/// A hexadecimal digit, in lower case.
pub open spec fn hex_digit(c: char, n: int) -> bool {
    if n < 10 {
        c as int == '0' as int + n
    } else {
        c as int == 'a' as int + (n - 10)
    }
}

/// Bytes are written in hexadecimal, two digits each, the greater weight first.
pub proof fn law_hexadecimal(raw: &[u8], text: String)
    requires
        2 * raw@.len() <= usize::MAX,
        call_ensures(system::hex, (raw,), text),
    ensures
        text@.len() == 2 * raw@.len(),
        forall|i: int|
            0 <= i < raw@.len() ==> in_hex(#[trigger] raw@[i], text@[2 * i], text@[2 * i + 1]),
{
    assert forall|i: int| 0 <= i < raw@.len() implies in_hex(
        #[trigger] raw@[i],
        text@[2 * i],
        text@[2 * i + 1],
    ) by {
        let (x, y) = (raw@[i] as int / 16, raw@[i] as int % 16);
        assert((2 * i) / 2 == i && (2 * i) % 2 == 0);
        assert((2 * i + 1) / 2 == i && (2 * i + 1) % 2 == 1);
        assert(text@[2 * i] == system::hex_digit(x));
        assert(text@[2 * i + 1] == system::hex_digit(y));
        assert(hex_digit(text@[2 * i], x));
        assert(hex_digit(text@[2 * i + 1], y));
    }
}

/// An identity is known by the hash of `xsec:system-protector:v1`, its length in four bytes, and
/// its own bytes.
pub proof fn law_identity_hashed(identity: &str, hash: [u8; 32])
    requires
        encode_utf8(identity@).len() <= 4096,
        call_ensures(system::hash_identity, (identity,), hash),
    ensures
        exists|length: Seq<u8>|
            #[trigger] formats::in_four(encode_utf8(identity@).len() as int, length) && hash@
                == crypto::sha256_digest(
                encode_utf8("xsec:system-protector:v1"@) + length + encode_utf8(identity@),
            ),
{
    formats::lemma_four(encode_utf8(identity@).len() as u32);
}

/// The credential of an identity is named `xsec-system-` and the hash in hexadecimal, and its
/// Secure Enclave key likewise.
pub proof fn law_system_names(
    a: &windows::XSecSystemProtector,
    name: &str,
    b: &macos::XSecSystemProtector,
    tag: &[u8],
)
    requires
        a.wf() && b.wf(),
        call_ensures(windows::XSecSystemProtector::credential_name, (a,), name),
        call_ensures(macos::XSecSystemProtector::key_tag, (b,), tag),
    ensures
        name@ == "xsec-system-"@ + system::hex_text(a@),
        tag@ == encode_utf8("xsec-system-"@ + system::hex_text(b@)),
{
}

/// What the answers of Windows Hello mean.
pub proof fn law_windows_answers(
    status: windows::CredentialStatus,
    operation: windows::Operation,
    error: XSecError,
)
    requires
        call_ensures(windows::map_credential_status, (status, operation), error),
    ensures
        status is UserCanceled ==> error is AuthenticationCancelled,
        status is UserPrefersPassword ==> error is UserVerificationRequired,
        status is SecurityDeviceLocked ==> error is AuthenticationFailed,
        status is NotFound ==> error is SystemKeyNotFound,
        status is UnknownError ==> error is WindowsHelloNotConfigured,
        status is CredentialAlreadyExists && operation is Create ==> error is SystemKeyInvalidated,
        status is CredentialAlreadyExists && !(operation is Create) ==> error
            is WindowsHelloNotConfigured,
        status is Other || status is Success ==> error is Crypto,
{
}

/// A credential that could be made or opened is used, and one that exists is opened; there is no
/// way on else.
pub proof fn law_windows_credential(
    status: windows::CredentialStatus,
    created: windows::CredentialAction,
    opened: windows::CredentialAction,
)
    requires
        call_ensures(windows::after_create, (status,), created),
        call_ensures(windows::after_open, (status,), opened),
    ensures
        status is Success ==> created is Use && opened is Use,
        status is CredentialAlreadyExists ==> created is Open && opened is Fail,
        status is NotFound ==> created is Fail && (opened matches windows::CredentialAction::Fail(e)
            && e is SystemKeyNotFound),
        !(status is Success) && !(status is CredentialAlreadyExists) ==> created is Fail,
        !(status is Success) ==> opened is Fail,
{
}

/// A signature is one of 1 to 16384 bytes that came with success.
pub proof fn law_windows_signature(
    status: windows::CredentialStatus,
    length: usize,
    result: XSecResult<()>,
)
    requires
        call_ensures(windows::check_signature, (status, length), result),
    ensures
        result is Ok == (status is Success && 1 <= length <= 16_384),
        status is Success && !(1 <= length <= 16_384) ==> (result matches Err(e) && e
            is AuthenticationFailed),
        status is UserCanceled ==> (result matches Err(e) && e is AuthenticationCancelled),
{
}

/// Windows Hello has to be supported; and a credential that is not there needs no deletion.
pub proof fn law_windows_service(
    protector: &windows::XSecSystemProtector,
    supported: bool,
    available: XSecResult<()>,
    failure: Option<(u32, ErrorSource)>,
    deleted: XSecResult<()>,
)
    requires
        call_ensures(
            windows::XSecSystemProtector::check_availability,
            (protector, supported),
            available,
        ),
        call_ensures(windows::XSecSystemProtector::delete, (protector, failure), deleted),
    ensures
        supported ==> available is Ok,
        !supported ==> (available matches Err(e) && e is WindowsHelloNotSupported),
        failure is None ==> deleted is Ok,
        failure matches Some((code, reason)) ==> if code == 0x8009_0016u32 || code
            == 0x8007_0490u32 {
            deleted is Ok
        } else {
            deleted matches Err(XSecError::Protector { source }) && source == reason
        },
{
}

/// A code that is handed on with its text.
pub open spec fn is_handed_on(
    error: XSecError,
    code: i32,
    number: Seq<char>,
    description: Seq<char>,
) -> bool {
    error matches XSecError::Protector { source } && source.code == Some(code) && source.message@
        == "macOS Security framework error "@ + number + ": "@ + description
}

/// What a status of the macOS Security framework means.
pub open spec fn is_meant(
    error: XSecError,
    code: i32,
    number: Seq<char>,
    description: Seq<char>,
) -> bool {
    if code == -128 {
        error is AuthenticationCancelled
    } else if code == -25293 {
        error is AuthenticationFailed
    } else if code == -25300 {
        error is SystemKeyNotFound
    } else if code == -25308 {
        error is UserVerificationRequired
    } else if code == -34018 || code == -25291 {
        error is SystemProtectorUnavailable
    } else {
        is_handed_on(error, code, number, description)
    }
}

/// What the codes of the macOS frameworks mean; any other code is handed on with its text.
pub proof fn law_macos_codes(
    domain: &str,
    code: i32,
    description: &str,
    number: String,
    error: XSecError,
    status: XSecError,
)
    requires
        call_ensures(macos::map_status, (code, description), status),
        call_ensures(bytes::decimal_text, (code,), number),
        call_ensures(macos::map_cf_error, (domain, code, description), error),
    ensures
        domain@ == "com.apple.LocalAuthentication"@ ==> if code == -2 || code == -3 || code == -4
            || code == -9 {
            error is AuthenticationCancelled
        } else if code == -5 || code == -6 || code == -7 {
            error is SystemAuthenticationNotConfigured
        } else if code == -1004 {
            error is UserVerificationRequired
        } else if code == -1 || code == -8 {
            error is AuthenticationFailed
        } else {
            is_handed_on(error, code, number@, description@)
        },
        domain@ != "com.apple.LocalAuthentication"@ ==> is_meant(
            error,
            code,
            number@,
            description@,
        ),
        is_meant(status, code, number@, description@),
{
}

/// A Secure Enclave key that is not there is made, and one that another process made meanwhile
/// is opened; there is no way on else.
pub proof fn law_macos_key(
    opened: XSecResult<()>,
    first: macos::KeyAction,
    created: XSecResult<()>,
    second: macos::KeyAction,
)
    requires
        call_ensures(macos::after_open, (opened,), first),
        call_ensures(macos::after_create, (created,), second),
    ensures
        opened is Ok ==> first is UseKey,
        opened matches Err(reason) ==> if reason is SystemKeyNotFound {
            first is CreateKey
        } else {
            first matches macos::KeyAction::Fail(e) && e == reason
        },
        created is Ok ==> second is OpenKey,
        created matches Err(reason) ==> if reason matches XSecError::Protector { source }
            && source.code == Some(-25299i32) {
            second is OpenKey
        } else {
            second matches macos::KeyAction::Fail(e) && e == reason
        },
{
}

/// The protector of macOS can be used if biometry is set up and a probe key could be made that
/// agrees on secrets. A key that is not there needs no deletion.
pub proof fn law_macos_service(
    protector: &macos::XSecSystemProtector,
    biometry: bool,
    probe: XSecResult<bool>,
    available: XSecResult<()>,
    status: i32,
    description: &str,
    deleted: XSecResult<()>,
)
    requires
        call_ensures(
            macos::XSecSystemProtector::check_availability,
            (protector, biometry, probe),
            available,
        ),
        call_ensures(
            macos::XSecSystemProtector::delete,
            (protector, status, description),
            deleted,
        ),
    ensures
        available is Ok == (biometry && (probe matches Ok(agrees) && agrees)),
        !biometry ==> (available matches Err(e) && e is SystemAuthenticationNotConfigured),
        biometry && (probe matches Ok(agrees) && !agrees) ==> (available matches Err(e) && e
            is ProviderNotSupported),
        biometry ==> (probe matches Err(reason) ==> (available matches Err(e) && if reason
            is AuthenticationFailed || reason is UserVerificationRequired {
            e is SystemAuthenticationNotConfigured
        } else if reason matches XSecError::Protector { source } && source.code == Some(-50i32) {
            e is ProviderNotSupported
        } else {
            e == reason
        })),
        deleted is Ok == (status == 0 || status == -25300),
{
}

/// A public key is taken as it is if it has 65 bytes and begins with a four; a shared secret if
/// it has 32.
pub proof fn law_macos_values(
    representation: &[u8],
    key: XSecResult<[u8; 65]>,
    agreed: &[u8],
    secret: XSecResult<SecretKey>,
)
    requires
        call_ensures(macos::export_public_key, (Some(representation),), key),
        call_ensures(macos::shared_secret, (agreed,), secret),
    ensures
        representation@.len() == 65 && representation@[0] == 4 ==> (key matches Ok(k) && k@
            == representation@),
        !(representation@.len() == 65 && representation@[0] == 4) ==> (key matches Err(e) && e
            is Crypto),
        agreed@.len() == 32 ==> (secret matches Ok(s) && s@ == agreed@),
        agreed@.len() != 32 ==> (secret matches Err(e) && e is Crypto),
{
}

/// A payload of the first Windows format: `XSSP`, version 1, backend 1, the hash of the identity,
/// the length of what follows, three algorithms, the public key behind its length, the challenge
/// behind its length, the nonce behind its length and the sealed key behind its length.
pub open spec fn is_first_format(raw: Seq<u8>) -> bool {
    let n = word(raw, 50);
    &&& raw.len() >= 161
    &&& raw[0] == 0x58 && raw[1] == 0x53 && raw[2] == 0x53 && raw[3] == 0x50
    &&& half(raw, 4) == 1
    &&& half(raw, 6) == 1
    &&& word(raw, 40) == raw.len() - 44
    &&& half(raw, 44) == 1 && half(raw, 46) == 1 && half(raw, 48) == 1
    &&& 24 <= n <= 16_384
    &&& raw.len() == 137 + n
    &&& half(raw, 54 + n) == 16
    &&& raw[72 + n] == 12
    &&& word(raw, 85 + n) == 48
}

/// A payload of the first Windows format is read if it is one, field for field.
pub proof fn law_first_format_read(
    payload: &[u8],
    result: XSecResult<windows_v1::SystemPayload<'_>>,
)
    requires
        call_ensures(windows_v1::SystemPayload::parse, (payload,), result),
    ensures
        ({
            let raw = payload@;
            let n = word(raw, 50);
            match result {
                Ok(p) => {
                    &&& is_first_format(raw)
                    &&& p@.identity_hash == raw.subrange(8, 40)
                    &&& p@.public_key == raw.subrange(54, 54 + n)
                    &&& p@.challenge == raw.subrange(56 + n, 72 + n)
                    &&& p@.nonce == raw.subrange(73 + n, 85 + n)
                    &&& p@.header == raw.take(89 + n)
                    &&& p@.ciphertext == raw.skip(89 + n)
                },
                Err(e) => {
                    let framed = raw.len() >= 161 && raw[0] == 0x58 && raw[1] == 0x53 && raw[2] == 0x53
                        && raw[3] == 0x50;
                    &&& !is_first_format(raw)
                    &&& !framed ==> e is Corrupted
                    &&& framed && half(raw, 4) != 1 ==> e is UnsupportedVersion
                    &&& framed && half(raw, 4) == 1 && half(raw, 6) != 1 ==> e
                        is IncompatibleSystemProtector
                },
            }
        }),
{
    lemma_first_format(payload@);
}

/// The first Windows format, byte for byte.
proof fn lemma_first_format(raw: Seq<u8>)
    ensures
        is_first_format(raw) == windows_v1::read_payload(raw) is Ok,
        raw.len() >= 161 ==> bytes::from_be32(raw.subrange(50, 54)) == word(raw, 50),
        raw.len() >= 161 ==> encode_utf8("XSSP"@).is_prefix_of(raw) == (raw[0] == 0x58 && raw[1]
            == 0x53 && raw[2] == 0x53 && raw[3] == 0x50),
        raw.len() >= 161 ==> (raw.subrange(4, 6) == bytes::be16(1)) == (half(raw, 4) == 1),
        raw.len() >= 161 ==> (raw.subrange(6, 8) == bytes::be16(1)) == (half(raw, 6) == 1),
{
    reveal_strlit("XSSP");
    let magic = seq![0x58u8, 0x53u8, 0x53u8, 0x50u8];
    formats::lemma_ascii("XSSP"@, magic);
    if raw.len() >= 161 {
        let n = word(raw, 50);
        assert(raw.subrange(0, 4) =~= raw.take(4));
        if magic.is_prefix_of(raw) {
            assert(raw.take(4) =~= magic);
            assert(raw[0] == magic[0] && raw[1] == magic[1] && raw[2] == magic[2] && raw[3]
                == magic[3]);
        }
        if raw[0] == 0x58 && raw[1] == 0x53 && raw[2] == 0x53 && raw[3] == 0x50 {
            assert(raw.subrange(0, 4) =~= magic);
        }
        formats::lemma_two_at(raw, 4, 1);
        formats::lemma_two_at(raw, 6, 1);
        formats::lemma_two_at(raw, 44, 1);
        formats::lemma_two_at(raw, 46, 1);
        formats::lemma_two_at(raw, 48, 1);
        lemma_word(raw, 40);
        lemma_word(raw, 50);
        if raw.len() == 137 + n {
            formats::lemma_two_at(raw, 54 + n, 16);
            lemma_four_at(raw, 85 + n, 48);
        }
    }
}

/// Four bytes are a number.
pub(crate) proof fn lemma_four_at(raw: Seq<u8>, at: int, n: u32)
    requires
        0 <= at,
        at + 4 <= raw.len(),
    ensures
        (raw.subrange(at, at + 4) == bytes::be32(n)) == (word(raw, at) == n),
{
    let four = raw.subrange(at, at + 4);
    lemma_word(raw, at);
    bytes::lemma_be32(n);
    if word(raw, at) == n {
        bytes::lemma_from_be32(four);
    }
}

/// The public key of a credential has 24 to 16384 bytes.
pub proof fn law_public_key_length(length: usize, result: XSecResult<()>)
    requires
        call_ensures(windows_v1::check_public_key, (length,), result),
    ensures
        result is Ok == (24 <= length <= 16_384),
        result matches Err(e) ==> e is SystemKeyInvalidated,
{
}

/// Where the system offers no protector, nothing is wrapped, unwrapped or deleted.
pub proof fn law_unsupported(
    protector: &unsupported::XSecSystemProtector,
    available: XSecResult<()>,
    deleted: XSecResult<()>,
    key: &SecretKey,
    wrapped: XSecResult<Vec<u8>>,
    payload: &[u8],
    unwrapped: XSecResult<SecretKey>,
)
    requires
        call_ensures(unsupported::XSecSystemProtector::check_availability, (protector,), available),
        call_ensures(unsupported::XSecSystemProtector::delete, (protector,), deleted),
        call_ensures(
            <unsupported::XSecSystemProtector as XSecKeyProtector>::wrap_key,
            (protector, key),
            wrapped,
        ),
        call_ensures(
            <unsupported::XSecSystemProtector as XSecKeyProtector>::unwrap_key,
            (protector, payload),
            unwrapped,
        ),
    ensures
        available matches Err(e) && e is SystemProtectorUnavailable,
        deleted matches Err(e) && e is SystemProtectorUnavailable,
        wrapped matches Err(e) && e is SystemProtectorUnavailable,
        unwrapped matches Err(e) && e is SystemProtectorUnavailable,
{
}

/// A biometric payload is version 1, the name behind its length, the nonce and the sealed key. It
/// is checked before the user is asked: another name, or one that does not fit, is not theirs.
pub proof fn law_biometric_payload_checked(
    protector: &hello::XSecBiometricProtector,
    payload: &[u8],
    result: XSecResult<()>,
)
    requires
        call_ensures(hello::XSecBiometricProtector::check_payload, (protector, payload), result),
    ensures
        ({
            let raw = payload@;
            let n = half(raw, 2);
            if raw.len() < 32 || half(raw, 0) != 1 {
                result matches Err(e) && e is Corrupted
            } else if raw.len() < 32 + n || raw.subrange(4, 4 + n) != encode_utf8(protector@) {
                result matches Err(e) && e is AuthenticationFailed
            } else {
                result is Ok
            }
        }),
{
    if payload@.len() >= 32 {
        formats::lemma_two_at(payload@, 0, 1);
        lemma_half(payload@, 2);
    }
}

/// What a biometric protector wrapped, it unwraps under the same name and signature.
pub proof fn law_biometric_round_trip(
    protector: &hello::XSecBiometricProtector,
    key: &SecretKey,
    signature: &[u8],
    payload: Vec<u8>,
    shown: &[u8],
    result: XSecResult<SecretKey>,
)
    requires
        call_ensures(
            hello::XSecBiometricProtector::finish_wrap,
            (protector, key, signature),
            XSecResult::<Vec<u8>>::Ok(payload),
        ),
        shown@ == payload@,
        call_ensures(
            hello::XSecBiometricProtector::finish_unwrap,
            (protector, shown, signature),
            result,
        ),
    ensures
        result matches Ok(k) && k@ == key@,
{
}

/// What the protector of Windows wrapped, it unwraps with the same signature, and asks for the
/// challenge that was signed.
pub proof fn law_windows_round_trip(
    protector: &windows::XSecSystemProtector,
    key: &SecretKey,
    challenge: &envelope::Challenge,
    signature: &[u8],
    payload: Vec<u8>,
    shown: &[u8],
    asked: XSecResult<Vec<u8>>,
    result: XSecResult<SecretKey>,
)
    requires
        call_ensures(
            windows::XSecSystemProtector::finish_wrap,
            (protector, key, challenge, signature),
            XSecResult::<Vec<u8>>::Ok(payload),
        ),
        shown@ == payload@,
        call_ensures(windows::XSecSystemProtector::challenge_of, (protector, shown), asked),
        call_ensures(
            windows::XSecSystemProtector::finish_unwrap,
            (protector, shown, signature),
            result,
        ),
    ensures
        asked matches Ok(c) && c@ == challenge@,
        result matches Ok(k) && k@ == key@,
{
}

/// What the protector of macOS wrapped, it unwraps with the same shared secret.
pub proof fn law_macos_round_trip(
    protector: &macos::XSecSystemProtector,
    key: &SecretKey,
    recipient: &[u8; 65],
    ephemeral: &[u8; 65],
    secret: &SecretKey,
    payload: Vec<u8>,
    shown: &[u8],
    result: XSecResult<SecretKey>,
)
    requires
        ephemeral@[0] == 4,
        call_ensures(
            macos::XSecSystemProtector::finish_wrap,
            (protector, key, recipient, ephemeral, secret),
            XSecResult::<Vec<u8>>::Ok(payload),
        ),
        shown@ == payload@,
        call_ensures(macos::XSecSystemProtector::finish_unwrap, (protector, shown, secret), result),
    ensures
        result matches Ok(k) && k@ == key@,
{
}

/// What the cipher finds of a data key, or that the wrapping key does not fit.
pub open spec fn is_found(
    kek: Seq<u8>,
    nonce: Seq<u8>,
    sealed: Seq<u8>,
    bound: Seq<u8>,
    result: XSecResult<SecretKey>,
) -> bool {
    match crypto::aes256_gcm_open(kek, nonce, sealed, bound) {
        Some(key) => result matches Ok(k) && k@ == key,
        None => result matches Err(e) && e is AuthenticationFailed,
    }
}

/// The hash that stands for an identity.
pub open spec fn stands_for(identity: Seq<char>, hash: Seq<u8>) -> bool {
    exists|length: Seq<u8>|
        #[trigger] formats::in_four(encode_utf8(identity).len() as int, length) && hash
            == crypto::sha256_digest(
            encode_utf8("xsec:system-protector:v1"@) + length + encode_utf8(identity),
        )
}

/// A new protector of any system stands for its identity, and holds no key yet.
pub proof fn law_new_protectors(
    identity: &str,
    a: windows::XSecSystemProtector,
    b: macos::XSecSystemProtector,
    c: linux::XSecSystemProtector,
    d: windows_v1::XSecSystemProtector,
)
    requires
        encode_utf8(identity@).len() <= 4096,
        call_ensures(windows::XSecSystemProtector::new, (identity,), a),
        call_ensures(macos::XSecSystemProtector::new, (identity,), b),
        call_ensures(linux::XSecSystemProtector::new, (identity,), c),
        call_ensures(windows_v1::XSecSystemProtector::new, (identity,), d),
    ensures
        stands_for(identity@, a@),
        stands_for(identity@, b@),
        stands_for(identity@, c@.identity),
        stands_for(identity@, d@),
        c@.stored is None,
{
    formats::lemma_four(encode_utf8(identity@).len() as u32);
}

/// A protector is made again from what it stored, whoever the identity is; what is refused on
/// reading is refused here.
pub proof fn law_stored_protectors(
    payload: &[u8],
    a: XSecResult<windows::XSecSystemProtector>,
    b: XSecResult<macos::XSecSystemProtector>,
    c: XSecResult<linux::XSecSystemProtector>,
)
    requires
        call_ensures(windows::XSecSystemProtector::from_stored, (payload,), a),
        call_ensures(macos::XSecSystemProtector::from_stored, (payload,), b),
        call_ensures(linux::XSecSystemProtector::from_stored, (payload,), c),
    ensures
        ({
            let raw = payload@;
            &&& a is Ok == (marked_for(raw, 0x53) && raw.len() == 148 && half(raw, 6) == 2)
            &&& b is Ok == (marked_for(raw, 0x4D) && raw.len() == 229 && half(raw, 6) == 1
                && raw[72] == 4)
            &&& c is Ok == (marked_for(raw, 0x4C) && raw.len() == 56 && half(raw, 6) == 1)
            &&& a matches Ok(p) ==> p@ == raw.subrange(8, 40)
            &&& b matches Ok(p) ==> p@ == raw.subrange(8, 40)
            &&& c matches Ok(p) ==> p@.identity == raw.subrange(8, 40) && p@.stored is None
        }),
{
    let raw = payload@;
    lemma_marks(raw);
    if raw.len() >= 8 {
        formats::lemma_two_at(raw, 6, 1);
        formats::lemma_two_at(raw, 6, 2);
    }
}

/// A Windows envelope of the identity opens with the signature that it was sealed under, and
/// with no other: the key is what the cipher finds.
pub proof fn law_windows_key_found(
    protector: &windows::XSecSystemProtector,
    identity: &[u8; 32],
    payload: &[u8],
    read: XSecResult<envelope::SystemEnvelope<'_>>,
    asked: XSecResult<Vec<u8>>,
    signature: &[u8],
    result: XSecResult<SecretKey>,
)
    requires
        identity@ == protector@,
        call_ensures(envelope::SystemEnvelope::parse, (payload, identity), read),
        call_ensures(windows::XSecSystemProtector::challenge_of, (protector, payload), asked),
        call_ensures(
            windows::XSecSystemProtector::finish_unwrap,
            (protector, payload, signature),
            result,
        ),
    ensures
        ({
            let raw = payload@;
            let fits = marked_for(raw, 0x53) && raw.len() == 148 && half(raw, 6) == 2
                && raw.subrange(8, 40) == protector@;
            &&& fits ==> is_found(
                crypto::hkdf_sha256(
                    Some(raw.subrange(56, 88)),
                    crypto::sha256_digest(signature@),
                    encode_utf8("xsec:windows-hello:kek"@) + raw.subrange(8, 40),
                ),
                raw.subrange(88, 100),
                raw.skip(100),
                raw.take(100),
                result,
            )
            &&& fits ==> (asked matches Ok(challenge) && challenge@ == raw.subrange(40, 56))
            &&& !fits ==> (read matches Err(reason) && (result matches Err(e) && e == reason) && (
            asked matches Err(e) && e == reason))
        }),
{
    lemma_marks(payload@);
    if payload@.len() == 148 {
        formats::lemma_two_at(payload@, 6, 2);
    }
}

/// A macOS envelope of the identity opens with the secret that it was sealed under, and with no
/// other: the key is what the cipher finds.
pub proof fn law_macos_key_found(
    protector: &macos::XSecSystemProtector,
    identity: &[u8; 32],
    payload: &[u8],
    read: XSecResult<enclave::MacosEnvelope<'_>>,
    checked: XSecResult<()>,
    secret: &SecretKey,
    result: XSecResult<SecretKey>,
)
    requires
        identity@ == protector@,
        call_ensures(enclave::MacosEnvelope::parse, (payload, identity), read),
        call_ensures(macos::XSecSystemProtector::check_payload, (protector, payload), checked),
        call_ensures(
            macos::XSecSystemProtector::finish_unwrap,
            (protector, payload, secret),
            result,
        ),
    ensures
        ({
            let raw = payload@;
            let fits = marked_for(raw, 0x4D) && raw.len() == 229 && half(raw, 6) == 1 && raw[72]
                == 4 && raw.subrange(8, 40) == protector@;
            &&& fits ==> is_found(
                crypto::hkdf_sha256(
                    Some(raw.subrange(137, 169)),
                    secret@,
                    encode_utf8("xsec:macos-secure-enclave:kek"@) + raw.subrange(8, 40)
                        + raw.subrange(40, 72),
                ),
                raw.subrange(169, 181),
                raw.skip(181),
                raw.take(181),
                result,
            )
            &&& fits ==> checked is Ok
            &&& !fits ==> (read matches Err(reason) && (result matches Err(e) && e == reason) && (
            checked matches Err(e) && e == reason))
        }),
{
    lemma_marks(payload@);
    if payload@.len() == 229 {
        formats::lemma_two_at(payload@, 6, 1);
    }
}

/// A macOS envelope is opened with the key pair whose public half it names, through the public
/// key that it holds. Another key pair took the place of the one that it was sealed for.
pub proof fn law_macos_recipient(
    protector: &macos::XSecSystemProtector,
    identity: &[u8; 32],
    payload: &[u8],
    read: XSecResult<enclave::MacosEnvelope<'_>>,
    recipient: &[u8; 65],
    result: XSecResult<[u8; 65]>,
)
    requires
        call_ensures(
            macos::XSecSystemProtector::check_recipient,
            (protector, payload, recipient),
            result,
        ),
        identity@ == protector@,
        call_ensures(enclave::MacosEnvelope::parse, (payload, identity), read),
    ensures
        ({
            let raw = payload@;
            let fits = marked_for(raw, 0x4D) && raw.len() == 229 && half(raw, 6) == 1 && raw[72]
                == 4 && raw.subrange(8, 40) == protector@;
            &&& fits && raw.subrange(40, 72) == crypto::sha256_digest(recipient@) ==> (
            result matches Ok(key) && key@ == raw.subrange(72, 137))
            &&& fits && raw.subrange(40, 72) != crypto::sha256_digest(recipient@) ==> (
            result matches Err(e) && e is SystemKeyInvalidated)
            &&& !fits ==> (read matches Err(reason) && (result matches Err(e) && e == reason))
        }),
{
    lemma_marks(payload@);
    if payload@.len() == 229 {
        formats::lemma_two_at(payload@, 6, 1);
    }
}

/// A payload of the first Windows format opens with the signature that it was sealed under, for
/// the identity and the credential that it names; else they took the place of those.
pub proof fn law_first_format_opened(
    protector: &windows_v1::XSecSystemProtector,
    payload: &[u8],
    read: XSecResult<windows_v1::SystemPayload<'_>>,
    current: &[u8],
    signature: &[u8],
    asked: XSecResult<Vec<u8>>,
    result: XSecResult<SecretKey>,
)
    requires
        call_ensures(windows_v1::SystemPayload::parse, (payload,), read),
        call_ensures(
            windows_v1::XSecSystemProtector::challenge_of,
            (protector, payload, Some(current)),
            asked,
        ),
        call_ensures(
            windows_v1::XSecSystemProtector::finish_unwrap,
            (protector, payload, current, signature),
            result,
        ),
    ensures
        ({
            let raw = payload@;
            let n = word(raw, 50);
            let ours = raw.subrange(8, 40) == protector@ && raw.subrange(54, 54 + n) == current@;
            &&& !is_first_format(raw) ==> (read matches Err(reason) && (asked matches Err(e) && e
                == reason) && (result matches Err(e) && e == reason))
            &&& is_first_format(raw) && !ours ==> (asked matches Err(e) && e
                is SystemKeyInvalidated) && (result matches Err(e) && e is SystemKeyInvalidated)
            &&& is_first_format(raw) && ours ==> {
                &&& asked matches Ok(challenge) && challenge@ == raw.subrange(56 + n, 72 + n)
                &&& is_found(
                    crypto::hkdf_sha256(
                        Some(protector@),
                        crypto::sha256_digest(signature@),
                        encode_utf8("xsec:windows-hello:kek:v1"@),
                    ),
                    raw.subrange(73 + n, 85 + n),
                    raw.skip(89 + n),
                    raw.take(89 + n),
                    result,
                )
            }
        }),
{
    lemma_first_format(payload@);
}

/// A payload that was sealed in the first Windows format is one, with the fields that it was
/// sealed from, and the data key sealed behind them and with them.
pub proof fn law_first_format_written(
    protector: &windows_v1::XSecSystemProtector,
    key: &SecretKey,
    public_key: &[u8],
    challenge: &[u8; 16],
    signature: &[u8],
    nonce: [u8; 12],
    result: XSecResult<Vec<u8>>,
)
    requires
        24 <= public_key@.len() <= 16_384,
        call_ensures(
            windows_v1::XSecSystemProtector::seal_with_nonce,
            (protector, key, public_key, challenge, signature, nonce),
            result,
        ),
    ensures
        result matches Ok(p) && {
            let raw = p@;
            let n = public_key@.len() as int;
            &&& is_first_format(raw)
            &&& word(raw, 50) == n
            &&& raw.subrange(8, 40) == protector@
            &&& raw.subrange(54, 54 + n) == public_key@
            &&& raw.subrange(56 + n, 72 + n) == challenge@
            &&& raw.skip(89 + n) == crypto::aes256_gcm_seal(
                crypto::hkdf_sha256(
                    Some(protector@),
                    crypto::sha256_digest(signature@),
                    encode_utf8("xsec:windows-hello:kek:v1"@),
                ),
                nonce@,
                key@,
                raw.take(89 + n),
            )
        },
{
    if let Ok(payload) = result {
        let raw = payload@;
        lemma_first_format(raw);
        let n = public_key@.len() as int;
        let head = windows_v1::header_bytes(protector@, public_key@, challenge@, nonce@);
        assert(raw.len() == 137 + word(raw, 50));
        assert(raw.subrange(54, 54 + word(raw, 50)).len() == word(raw, 50));
        assert(word(raw, 50) == n);
        lemma_first_header(protector@, public_key@, challenge@, nonce@);
        assert(raw.take(89 + n) =~= head);
        assert(raw.skip(89 + n) =~= crypto::aes256_gcm_seal(
            windows_v1::kek_of(signature@, protector@),
            nonce@,
            key@,
            head,
        ));
    }
}

/// The length of what stands before the sealed key.
proof fn lemma_first_header(
    identity: Seq<u8>,
    public_key: Seq<u8>,
    challenge: Seq<u8>,
    nonce: Seq<u8>,
)
    requires
        identity.len() == 32,
        challenge.len() == 16,
        nonce.len() == 12,
    ensures
        windows_v1::header_bytes(identity, public_key, challenge, nonce).len() == 89
            + public_key.len(),
{
    reveal(windows_v1::header_bytes);
    reveal_strlit("XSSP");
    formats::lemma_ascii("XSSP"@, seq![0x58u8, 0x53u8, 0x53u8, 0x50u8]);
}

/// A biometric payload is version 1, the name behind its length in two bytes, the nonce, and
/// the data key sealed with the name under the hash of the signature. A name of more than 65535
/// bytes is refused.
pub proof fn law_biometric_payload_written(
    protector: &hello::XSecBiometricProtector,
    key: &SecretKey,
    signature: &[u8],
    nonce: [u8; 12],
    result: XSecResult<Vec<u8>>,
)
    requires
        call_ensures(
            hello::XSecBiometricProtector::seal_with_nonce,
            (protector, key, signature, nonce),
            result,
        ),
    ensures
        ({
            let name = encode_utf8(protector@);
            let n = name.len() as int;
            match result {
                Err(e) => e is Corrupted && n > 65_535,
                Ok(p) => {
                    &&& n <= 65_535
                    &&& half(p@, 0) == 1
                    &&& half(p@, 2) == n
                    &&& p@.subrange(4, 4 + n) == name
                    &&& p@.subrange(4 + n, 16 + n) == nonce@
                    &&& p@.skip(16 + n) == crypto::aes256_gcm_seal(
                        crypto::sha256_digest(signature@),
                        nonce@,
                        key@,
                        name,
                    )
                },
            }
        }),
{
    if let Ok(payload) = result {
        let p = payload@;
        let name = encode_utf8(protector@);
        let n = name.len() as int;
        assert(p.subrange(0, 2) =~= bytes::be16(1));
        assert(p.subrange(2, 4) =~= bytes::be16(n as u16));
        formats::lemma_two_at(p, 0, 1);
        formats::lemma_two_at(p, 2, n as u16);
        assert(p.subrange(4, 4 + n) =~= name);
        assert(p.subrange(4 + n, 16 + n) =~= nonce@);
        assert(p.skip(16 + n) =~= crypto::aes256_gcm_seal(
            crypto::sha256_digest(signature@),
            nonce@,
            key@,
            name,
        ));
    }
}

/// A biometric payload of the name opens with the signature that it was sealed under, where the
/// cipher finds 32 bytes in it, and with no other.
pub proof fn law_biometric_key_found(
    protector: &hello::XSecBiometricProtector,
    payload: &[u8],
    signature: &[u8],
    result: XSecResult<SecretKey>,
)
    requires
        call_ensures(
            hello::XSecBiometricProtector::finish_unwrap,
            (protector, payload, signature),
            result,
        ),
    ensures
        ({
            let raw = payload@;
            let n = half(raw, 2);
            if raw.len() < 32 || half(raw, 0) != 1 {
                result matches Err(e) && e is Corrupted
            } else if raw.len() < 32 + n || raw.subrange(4, 4 + n) != encode_utf8(protector@) {
                result matches Err(e) && e is AuthenticationFailed
            } else {
                match crypto::aes256_gcm_open(
                    crypto::sha256_digest(signature@),
                    raw.subrange(4 + n, 16 + n),
                    raw.skip(16 + n),
                    encode_utf8(protector@),
                ) {
                    Some(key) if key.len() == 32 => result matches Ok(k) && k@ == key,
                    _ => result matches Err(e) && e is AuthenticationFailed,
                }
            }
        }),
{
    if payload@.len() >= 32 {
        formats::lemma_two_at(payload@, 0, 1);
        lemma_half(payload@, 2);
    }
}

/// A password payload opens with the password that it was sealed under, through the parameters
/// and the salt that it holds: the key is what the cipher finds.
pub proof fn law_password_key_found(
    protector: &XSecPasswordProtector,
    payload: &[u8],
    read: XSecResult<PasswordPayload<'_>>,
    result: XSecResult<SecretKey>,
)
    requires
        call_ensures(PasswordPayload::parse, (payload,), read),
        call_ensures(
            <XSecPasswordProtector as XSecKeyProtector>::unwrap_key,
            (protector, payload),
            result,
        ),
    ensures
        ({
            let raw = payload@;
            let n = half(raw, 18);
            let (memory, time, lanes) = (
                word(raw, 4) as u32,
                word(raw, 8) as u32,
                word(raw, 12) as u32,
            );
            let salt = raw.subrange(20, 20 + n);
            &&& !is_password_payload(raw) ==> (read matches Err(reason) && (result matches Err(e)
                && e == reason))
            &&& is_password_payload(raw) ==> is_found(
                crypto::argon2id_key(protector@, salt, memory, time, lanes),
                raw.subrange(21 + n, 33 + n),
                raw.skip(33 + n),
                raw.take(33 + n),
                result,
            ) || ((result matches Err(e) && e is Protector) && crypto::derivation_failed(
                protector@,
                salt,
                memory,
                time,
                lanes,
            ))
        }),
{
    let raw = payload@;
    if raw.len() >= 97 {
        formats::lemma_two_at(raw, 0, 1);
        formats::lemma_two_at(raw, 2, 1);
        formats::lemma_two_at(raw, 16, 32);
        lemma_half(raw, 18);
        lemma_word(raw, 4);
        lemma_word(raw, 8);
        lemma_word(raw, 12);
    }
}

/// The protector of the first Windows format has the kind and the answers of the other, and a
/// credential name of its own.
pub proof fn law_first_format_service(
    protector: &windows_v1::XSecSystemProtector,
    kind: &'static str,
    name: &str,
    supported: bool,
    available: XSecResult<()>,
    failure: Option<(u32, ErrorSource)>,
    deleted: XSecResult<()>,
)
    requires
        protector.wf(),
        call_ensures(windows_v1::XSecSystemProtector::kind, (protector,), kind),
        call_ensures(windows_v1::XSecSystemProtector::credential_name, (protector,), name),
        call_ensures(
            windows_v1::XSecSystemProtector::check_availability,
            (protector, supported),
            available,
        ),
        call_ensures(windows_v1::XSecSystemProtector::delete, (protector, failure), deleted),
    ensures
        kind@ == "system"@,
        name@ == "xsec-system-v1-"@ + system::hex_text(protector@),
        available is Ok == supported,
        available matches Err(e) ==> e is WindowsHelloNotSupported,
        failure is None ==> deleted is Ok,
        failure matches Some((code, reason)) ==> if code == 0x8009_0016u32 || code
            == 0x8007_0490u32 {
            deleted is Ok
        } else {
            deleted matches Err(XSecError::Protector { source }) && source == reason
        },
{
}

/// What was wrapped in the first Windows format is unwrapped with the same credential and
/// signature, and asks for the challenge that was signed. Only a lack of random bytes keeps a
/// key from being wrapped.
pub proof fn law_first_format_round_trip(
    protector: &windows_v1::XSecSystemProtector,
    key: &SecretKey,
    public_key: &[u8],
    challenge: &[u8; 16],
    signature: &[u8],
    payload: XSecResult<Vec<u8>>,
    shown: &[u8],
    asked: XSecResult<Vec<u8>>,
    result: XSecResult<SecretKey>,
)
    requires
        24 <= public_key@.len() <= 16_384,
        call_ensures(
            windows_v1::XSecSystemProtector::finish_wrap,
            (protector, key, public_key, challenge, signature),
            payload,
        ),
        payload matches Ok(p) ==> shown@ == p@,
        call_ensures(
            windows_v1::XSecSystemProtector::challenge_of,
            (protector, shown, Some(public_key)),
            asked,
        ),
        call_ensures(
            windows_v1::XSecSystemProtector::finish_unwrap,
            (protector, shown, public_key, signature),
            result,
        ),
    ensures
        payload is Ok ==> (asked matches Ok(c) && c@ == challenge@) && (result matches Ok(k) && k@
            == key@),
        payload matches Err(e) ==> e is Crypto && crypto::draw_failed::<12>(),
{
}

/// Where there is no biometric protector, it has a kind and does nothing.
pub proof fn law_no_biometric(
    protector: &biometric::XSecBiometricProtector,
    kind: &'static str,
    key: &SecretKey,
    wrapped: XSecResult<Vec<u8>>,
    payload: &[u8],
    unwrapped: XSecResult<SecretKey>,
)
    requires
        call_ensures(
            <biometric::XSecBiometricProtector as XSecKeyProtector>::kind,
            (protector,),
            kind,
        ),
        call_ensures(
            <biometric::XSecBiometricProtector as XSecKeyProtector>::wrap_key,
            (protector, key),
            wrapped,
        ),
        call_ensures(
            <biometric::XSecBiometricProtector as XSecKeyProtector>::unwrap_key,
            (protector, payload),
            unwrapped,
        ),
    ensures
        kind@ == "biometric"@,
        wrapped matches Err(e) && e is Crypto,
        unwrapped matches Err(e) && e is Crypto,
{
}

/// A Linux protector forgets its key on deletion and keeps its identity. Wrapping puts the key
/// under a name that was drawn for it; a failure to wrap keeps what was stored.
pub proof fn law_linux_keeping(
    a: &mut linux::XSecSystemProtector,
    deleted: XSecResult<()>,
    b: &mut linux::XSecSystemProtector,
    key: &SecretKey,
    payload: XSecResult<Vec<u8>>,
)
    requires
        call_ensures(linux::XSecSystemProtector::delete, (a,), deleted),
        call_ensures(linux::XSecSystemProtector::wrap_key, (b, key), payload),
    ensures
        deleted is Ok,
        final(a)@.stored is None,
        final(a)@.identity == old(a)@.identity,
        final(b)@.identity == old(b)@.identity,
        payload is Err ==> final(b)@.stored == old(b)@.stored,
        payload matches Ok(p) ==> (final(b)@.stored matches Some((id, kept)) && kept == key@
            && crypto::drawn::<16>(id) && p@.len() == 56 && p@.skip(40) == id && p@.subrange(8, 40)
            == old(b)@.identity),
{
    if let Ok(payload) = payload {
        let p = payload@;
        lemma_marks(p);
        let (id, kept) = final(b)@.stored->Some_0;
        assert(linux::read_payload(p, Some(old(b)@.identity)) is Ok);
    }
}

/// Where Linux has no locked memory, where polkit did not answer, and where it does not list the
/// action, there is no protector; else there is.
pub proof fn law_linux_service(
    protector: &linux::XSecSystemProtector,
    listed: XSecResult<Vec<String>>,
    result: XSecResult<()>,
)
    requires
        call_ensures(linux::XSecSystemProtector::check_availability, (protector, listed), result),
    ensures
        result is Ok ==> (listed matches Ok(actions) && exists|i: int|
            0 <= i < actions@.len() && (#[trigger] actions@[i])@ == "com.xsec.XSec.unlock"@),
        result matches Err(e) ==> {
            ||| e is Protector
            ||| listed matches Err(reason) && e == reason
            ||| e is SystemAuthenticationNotConfigured && (listed matches Ok(actions) && forall|i: int|
                0 <= i < actions@.len() ==> (#[trigger] actions@[i])@ != "com.xsec.XSec.unlock"@)
        },
{
}

/// Only a lack of random bytes keeps Windows and macOS from wrapping a key.
pub proof fn law_wrapping_fails(
    a: &windows::XSecSystemProtector,
    key: &SecretKey,
    challenge: &envelope::Challenge,
    signature: &[u8],
    x: XSecResult<Vec<u8>>,
    b: &macos::XSecSystemProtector,
    recipient: &[u8; 65],
    ephemeral: &[u8; 65],
    secret: &SecretKey,
    y: XSecResult<Vec<u8>>,
)
    requires
        call_ensures(
            windows::XSecSystemProtector::finish_wrap,
            (a, key, challenge, signature),
            x,
        ),
        call_ensures(
            macos::XSecSystemProtector::finish_wrap,
            (b, key, recipient, ephemeral, secret),
            y,
        ),
    ensures
        x matches Err(e) ==> e is Crypto && (crypto::draw_failed::<32>()
            || crypto::draw_failed::<12>()),
        y matches Err(e) ==> e is Crypto && (crypto::draw_failed::<32>()
            || crypto::draw_failed::<12>()),
{
}

/// What a password wraps is a payload with a salt and a nonce that were drawn for it, and the
/// data key sealed under what Argon2id makes of the password. Only a lack of random bytes or of
/// memory keeps a key from being wrapped.
pub proof fn law_password_wrapped(
    protector: &XSecPasswordProtector,
    key: &SecretKey,
    result: XSecResult<Vec<u8>>,
)
    requires
        call_ensures(
            <XSecPasswordProtector as XSecKeyProtector>::wrap_key,
            (protector, key),
            result,
        ),
    ensures
        match result {
            Ok(p) => {
                let salt = p@.subrange(20, 36);
                let nonce = p@.subrange(37, 49);
                &&& p@.len() == 97
                &&& is_password_payload(p@)
                &&& word(p@, 4) == 65_536 && word(p@, 8) == 3 && word(p@, 12) == 1
                &&& crypto::drawn::<16>(salt)
                &&& crypto::drawn::<12>(nonce)
                &&& p@.skip(49) == crypto::aes256_gcm_seal(
                    crypto::argon2id_key(protector@, salt, 65_536, 3, 1),
                    nonce,
                    key@,
                    p@.take(49),
                )
            },
            Err(e) => {
                ||| e is Crypto && (crypto::draw_failed::<16>() || crypto::draw_failed::<12>())
                ||| e is Protector && exists|salt: Seq<u8>|
                    crypto::drawn::<16>(salt) && #[trigger] crypto::derivation_failed(
                        protector@,
                        salt,
                        65_536,
                        3,
                        1,
                    )
            },
        },
{
    if let Ok(payload) = result {
        let p = payload@;
        let (salt, nonce) = choose|salt: Seq<u8>, nonce: Seq<u8>|
            salt.len() == 16 && nonce.len() == 12 && crypto::drawn::<16>(salt)
                && crypto::drawn::<12>(nonce) && p == #[trigger] password::wrapped_payload(
                protector@,
                salt,
                nonce,
                key@,
            );
        let head = password::new_header(salt, nonce);
        lemma_password_header(salt, nonce);
        assert(password::read_payload(p) is Ok);
        assert(forall|i: int| 0 <= i < 49 ==> p[i] == head[i]);
        assert(p.subrange(18, 20) =~= head.subrange(18, 20));
        lemma_half(p, 18);
        assert(p.len() == 97);
        assert(p.take(49) =~= head);
        assert(p.subrange(20, 36) =~= head.subrange(20, 36));
        assert(p.subrange(37, 49) =~= head.subrange(37, 49));
        assert(p.skip(49) =~= crypto::aes256_gcm_seal(
            crypto::argon2id_key(protector@, salt, 65_536, 3, 1),
            nonce,
            key@,
            head,
        ));
    }
}

/// Before the user is asked, a Linux payload is read as it is read anywhere, and it is refused
/// with the same error afterwards.
pub proof fn law_linux_payload_checked(
    protector: &linux::XSecSystemProtector,
    identity: &[u8; 32],
    payload: &[u8],
    read: XSecResult<[u8; 16]>,
    expected: XSecResult<[u8; 16]>,
    authorized: XSecResult<()>,
    result: XSecResult<SecretKey>,
)
    requires
        identity@ == protector@.identity,
        call_ensures(linux::parse_payload, (payload, Some(identity)), read),
        call_ensures(linux::XSecSystemProtector::expected_key, (protector, payload), expected),
        call_ensures(
            linux::XSecSystemProtector::finish_unwrap,
            (protector, payload, authorized),
            result,
        ),
    ensures
        read matches Ok(id) ==> (expected matches Ok(found) && found@ == id@),
        read matches Err(reason) ==> (expected matches Err(e) && e == reason) && (
        result matches Err(e) && e == reason),
{
}

} // verus!
