//! The envelope in which the data key is kept under a Windows Hello signature.
use vstd::prelude::*;
use vstd::utf8::*;

use crate::bytes;
use crate::crypto;
use crate::error::{XSecError, XSecResult};
use crate::protector::wrapping;
use crate::secret::SecretKey;

verus! {

pub const MAGIC: &'static str = "XSecSP";

pub const LINUX_MAGIC: &'static str = "XSecLP";

pub const MACOS_MAGIC: &'static str = "XSecMP";

pub const ENVELOPE_VERSION: u16 = 2;

pub const CHALLENGE_SIZE: usize = 16;

pub const HEADER_SIZE: usize = 100;

pub const PAYLOAD_SIZE: usize = 148;

pub const KDF_INFO: &'static str = "xsec:windows-hello:kek";

/// What Windows Hello is asked to sign.
pub struct Challenge {
    raw: [u8; 16],
}

/// The hash of a Windows Hello signature, from which the wrapping key is derived.
pub struct WindowsHelloPrf {
    secret: SecretKey,
}

/// The fields of an envelope.
pub struct SystemEnvelope<'a> {
    identity: &'a [u8],
    challenge: &'a [u8],
    salt: &'a [u8],
    nonce: &'a [u8],
    header: &'a [u8],
    ciphertext: &'a [u8],
}

/// The fields of an envelope as contracts see them.
#[verifier::ext_equal]
pub struct EnvelopeView {
    pub identity: Seq<u8>,
    pub challenge: Seq<u8>,
    pub salt: Seq<u8>,
    pub nonce: Seq<u8>,
    pub header: Seq<u8>,
    pub ciphertext: Seq<u8>,
}

/// The authenticated part of an envelope.
#[verifier::opaque]
pub open spec fn header_bytes(
    identity: Seq<u8>,
    challenge: Seq<u8>,
    salt: Seq<u8>,
    nonce: Seq<u8>,
) -> Seq<u8> {
    bytes::text(MAGIC) + bytes::be16(ENVELOPE_VERSION) + identity + challenge + salt + nonce
}

/// The fields of a payload, or why it is refused. `expected` is the identity that
/// it must have been written for, where there is one to compare.
pub open spec fn read_envelope(payload: Seq<u8>, expected: Option<Seq<u8>>) -> XSecResult<
    EnvelopeView,
> {
    if bytes::text(LINUX_MAGIC).is_prefix_of(payload) || bytes::text(MACOS_MAGIC).is_prefix_of(
        payload,
    ) {
        Err(XSecError::IncompatibleSystemProtector)
    } else if payload.len() != PAYLOAD_SIZE || !bytes::text(MAGIC).is_prefix_of(payload) {
        Err(XSecError::Corrupted)
    } else if payload.subrange(6, 8) != bytes::be16(ENVELOPE_VERSION) {
        Err(XSecError::UnsupportedVersion)
    } else if expected is Some && payload.subrange(8, 40) != expected->Some_0 {
        Err(XSecError::SystemKeyInvalidated)
    } else {
        Ok(
            EnvelopeView {
                identity: payload.subrange(8, 40),
                challenge: payload.subrange(40, 56),
                salt: payload.subrange(56, 88),
                nonce: payload.subrange(88, 100),
                header: payload.take(100),
                ciphertext: payload.skip(100),
            },
        )
    }
}

/// The wrapping key that a signature hash gives.
pub open spec fn kek_of(prf: Seq<u8>, salt: Seq<u8>, identity: Seq<u8>) -> Seq<u8> {
    crypto::hkdf_sha256(Some(salt), prf, bytes::text(KDF_INFO) + identity)
}

/// The data key that a signature hash finds in an envelope, or that it does not fit.
pub open spec fn opened(envelope: EnvelopeView, prf: Seq<u8>) -> XSecResult<Seq<u8>> {
    wrapping::opened_key(
        kek_of(prf, envelope.salt, envelope.identity),
        envelope.nonce,
        envelope.ciphertext,
        envelope.header,
    )
}

/// The envelope of the data key for a salt and a nonce.
pub open spec fn sealed_envelope(
    key: Seq<u8>,
    identity: Seq<u8>,
    challenge: Seq<u8>,
    prf: Seq<u8>,
    salt: Seq<u8>,
    nonce: Seq<u8>,
) -> Seq<u8> {
    let header = header_bytes(identity, challenge, salt, nonce);
    header + crypto::aes256_gcm_seal(kek_of(prf, salt, identity), nonce, key, header)
}

/// A payload that reads as an envelope for `identity` with `challenge`, and opens to
/// `key` under the signature hash.
pub open spec fn holds_key(
    payload: Seq<u8>,
    identity: Seq<u8>,
    challenge: Seq<u8>,
    prf: Seq<u8>,
    key: Seq<u8>,
) -> bool {
    read_envelope(payload, Some(identity)) matches Ok(envelope) && envelope.challenge == challenge
        && opened(envelope, prf) == XSecResult::<Seq<u8>>::Ok(key)
}

proof fn lemma_magic()
    ensures
        bytes::text(MAGIC).len() == 6,
        bytes::text(LINUX_MAGIC).len() == 6,
        bytes::text(MACOS_MAGIC).len() == 6,
        bytes::text(MAGIC) != bytes::text(LINUX_MAGIC),
        bytes::text(MAGIC) != bytes::text(MACOS_MAGIC),
{
    reveal_strlit("XSecSP");
    reveal_strlit("XSecLP");
    reveal_strlit("XSecMP");
    assert(is_ascii_chars(MAGIC@));
    assert(is_ascii_chars(LINUX_MAGIC@));
    assert(is_ascii_chars(MACOS_MAGIC@));
    is_ascii_chars_encode_utf8(MAGIC@);
    is_ascii_chars_encode_utf8(LINUX_MAGIC@);
    is_ascii_chars_encode_utf8(MACOS_MAGIC@);
    assert(MAGIC@[4] == 'S');
    assert(LINUX_MAGIC@[4] == 'L');
    assert(MACOS_MAGIC@[4] == 'M');
    if bytes::text(MAGIC) == bytes::text(LINUX_MAGIC) {
        bytes::lemma_text_injective(MAGIC@, LINUX_MAGIC@);
    }
    if bytes::text(MAGIC) == bytes::text(MACOS_MAGIC) {
        bytes::lemma_text_injective(MAGIC@, MACOS_MAGIC@);
    }
}

/// An envelope reads back as the fields it was written from, to the identity it
/// was written for.
pub proof fn law_envelope_round_trip(
    identity: Seq<u8>,
    challenge: Seq<u8>,
    salt: Seq<u8>,
    nonce: Seq<u8>,
    ciphertext: Seq<u8>,
)
    requires
        identity.len() == 32,
        challenge.len() == CHALLENGE_SIZE,
        salt.len() == 32,
        nonce.len() == 12,
        ciphertext.len() == wrapping::SEALED_KEY_LENGTH,
    ensures
        ({
            let header = header_bytes(identity, challenge, salt, nonce);
            &&& header.len() == HEADER_SIZE
            &&& read_envelope(header + ciphertext, Some(identity)) == XSecResult::<EnvelopeView>::Ok(
                EnvelopeView { identity, challenge, salt, nonce, header, ciphertext },
            )
        }),
{
    reveal(header_bytes);
    lemma_magic();
    let header = header_bytes(identity, challenge, salt, nonce);
    let p = header + ciphertext;
    assert(p.subrange(0, 6) =~= bytes::text(MAGIC));
    assert(p.subrange(6, 8) =~= bytes::be16(ENVELOPE_VERSION));
    assert(p.subrange(8, 40) =~= identity);
    assert(p.subrange(40, 56) =~= challenge);
    assert(p.subrange(56, 88) =~= salt);
    assert(p.subrange(88, 100) =~= nonce);
    assert(p.take(100) =~= header);
    assert(p.skip(100) =~= ciphertext);
}

impl Challenge {
    /// The bytes to sign.
    pub closed spec fn view(&self) -> Seq<u8> {
        self.raw@
    }

    /// A challenge of given bytes.
    pub fn new(raw: [u8; 16]) -> (challenge: Self)
        ensures
            challenge@ == raw@,
    {
        Challenge { raw }
    }

    /// A fresh random challenge: the bytes that the system's source of randomness gave.
    /// It fails exactly where the source gave none.
    pub fn random() -> (challenge: XSecResult<Self>)
        ensures
            match challenge {
                Ok(c) => c@.len() == CHALLENGE_SIZE && crypto::drawn::<16>(c@),
                Err(e) => e is Crypto && crypto::draw_failed::<16>(),
            },
    {
        match crypto::draw::<16>() {
            Ok(raw) => Ok(Challenge { raw }),
            Err(_) => Err(XSecError::Crypto),
        }
    }

    /// The bytes to sign.
    pub fn as_bytes(&self) -> (raw: &[u8])
        ensures
            raw@ == self@,
            raw@.len() == CHALLENGE_SIZE,
    {
        &self.raw
    }
}

impl WindowsHelloPrf {
    /// The hash of the signature.
    pub closed spec fn view(&self) -> Seq<u8> {
        self.secret@
    }

    /// Hashes a signature.
    pub fn from_signature(signature: &[u8]) -> (prf: Self)
        ensures
            prf@ == crypto::sha256_digest(signature@),
    {
        WindowsHelloPrf { secret: SecretKey::new(crypto::sha256(signature)) }
    }

    /// Whether two hashes are the same.
    pub fn same(&self, other: &Self) -> (same: bool)
        ensures
            same == (self@ == other@),
    {
        bytes::equal(self.secret.expose_secret(), other.secret.expose_secret())
    }
}

impl<'a> SystemEnvelope<'a> {
    /// See `EnvelopeView`.
    pub closed spec fn view(&self) -> EnvelopeView {
        EnvelopeView {
            identity: self.identity@,
            challenge: self.challenge@,
            salt: self.salt@,
            nonce: self.nonce@,
            header: self.header@,
            ciphertext: self.ciphertext@,
        }
    }

    /// Every field has its length.
    pub closed spec fn wf(&self) -> bool {
        &&& self.identity@.len() == 32
        &&& self.nonce@.len() == 12
        &&& self.ciphertext@.len() == wrapping::SEALED_KEY_LENGTH
    }

    /// Reads an envelope that was written for an identity.
    pub fn parse(payload: &'a [u8], expected_identity: &[u8; 32]) -> (envelope: XSecResult<Self>)
        ensures
            match envelope {
                Ok(e) => e.wf() && read_envelope(payload@, Some(expected_identity@))
                    == XSecResult::<EnvelopeView>::Ok(e@),
                Err(e) => read_envelope(payload@, Some(expected_identity@)) == XSecResult::<
                    EnvelopeView,
                >::Err(e),
            },
    {
        match Self::parse_stored(payload) {
            Err(error) => Err(error),
            Ok(envelope) => {
                if !bytes::equal(envelope.identity, expected_identity) {
                    return Err(XSecError::SystemKeyInvalidated);
                }
                Ok(envelope)
            },
        }
    }

    /// Reads an envelope, whatever identity it was written for.
    pub fn parse_stored(payload: &'a [u8]) -> (envelope: XSecResult<Self>)
        ensures
            match envelope {
                Ok(e) => e.wf() && read_envelope(payload@, None) == XSecResult::<EnvelopeView>::Ok(
                    e@,
                ),
                Err(e) => read_envelope(payload@, None) == XSecResult::<EnvelopeView>::Err(e),
            },
    {
        proof {
            lemma_magic();
        }
        if bytes::starts_with(payload, LINUX_MAGIC.as_bytes()) || bytes::starts_with(
            payload,
            MACOS_MAGIC.as_bytes(),
        ) {
            return Err(XSecError::IncompatibleSystemProtector);
        }
        if payload.len() != PAYLOAD_SIZE || !bytes::starts_with(payload, MAGIC.as_bytes()) {
            return Err(XSecError::Corrupted);
        }
        proof {
            bytes::lemma_from_be16(payload@.subrange(6, 8));
            bytes::lemma_be16(ENVELOPE_VERSION);
        }
        if bytes::read_u16_at(payload, 6) != ENVELOPE_VERSION {
            return Err(XSecError::UnsupportedVersion);
        }
        let envelope: SystemEnvelope<'a> = SystemEnvelope {
            identity: &payload[8..40],
            challenge: &payload[40..56],
            salt: &payload[56..88],
            nonce: &payload[88..100],
            header: &payload[0..100],
            ciphertext: &payload[100..148],
        };
        assert(payload@.subrange(0, 100) =~= payload@.take(100));
        assert(payload@.subrange(100, 148) =~= payload@.skip(100));
        Ok(envelope)
    }

    /// The hash of the identity that the envelope was written for.
    pub fn identity(&self) -> (identity: &[u8])
        requires
            self.wf(),
        ensures
            identity@ == self@.identity,
            identity@.len() == 32,
    {
        self.identity
    }

    /// What Windows Hello must sign to open the envelope.
    pub fn challenge(&self) -> (challenge: &[u8])
        ensures
            challenge@ == self@.challenge,
    {
        self.challenge
    }

    /// Takes the data key out of the envelope.
    pub fn open(&self, prf: &WindowsHelloPrf) -> (key: XSecResult<SecretKey>)
        requires
            self.wf(),
        ensures
            match key {
                Ok(k) => opened(self@, prf@) == XSecResult::<Seq<u8>>::Ok(k@),
                Err(e) => opened(self@, prf@) == XSecResult::<Seq<u8>>::Err(e),
            },
    {
        match derive_kek(prf, self.salt, self.identity) {
            Err(error) => Err(error),
            Ok(kek) => wrapping::open_key(&kek, self.nonce, self.ciphertext, self.header),
        }
    }
}

/// The wrapping key that a signature hash gives.
pub fn derive_kek(prf: &WindowsHelloPrf, salt: &[u8], identity: &[u8]) -> (kek: XSecResult<
    SecretKey,
>)
    ensures
        kek matches Ok(k) && k@ == kek_of(prf@, salt@, identity@),
{
    let mut info: Vec<u8> = Vec::new();
    info.extend_from_slice(KDF_INFO.as_bytes());
    info.extend_from_slice(identity);
    assert(info@ =~= bytes::text(KDF_INFO) + identity@);
    match crypto::hkdf_key(Some(salt), prf.secret.expose_secret(), info.as_slice()) {
        Ok(kek) => Ok(kek),
        Err(_) => Err(XSecError::Crypto),
    }
}

/// Seals the data key for a salt and a nonce.
pub fn seal_key_with(
    key: &SecretKey,
    identity: &[u8; 32],
    challenge: &Challenge,
    prf: &WindowsHelloPrf,
    salt: [u8; 32],
    nonce: [u8; 12],
) -> (payload: XSecResult<Vec<u8>>)
    ensures
        payload matches Ok(p) && p@ == sealed_envelope(
            key@,
            identity@,
            challenge@,
            prf@,
            salt@,
            nonce@,
        ) && holds_key(p@, identity@, challenge@, prf@, key@),
{
    let mut envelope: Vec<u8> = Vec::new();
    envelope.extend_from_slice(MAGIC.as_bytes());
    bytes::push_u16(&mut envelope, ENVELOPE_VERSION);
    envelope.extend_from_slice(identity);
    envelope.extend_from_slice(challenge.as_bytes());
    envelope.extend_from_slice(&salt);
    envelope.extend_from_slice(&nonce);
    proof {
        reveal(header_bytes);
        lemma_magic();
        assert(envelope@ =~= header_bytes(identity@, challenge@, salt@, nonce@));
    }
    let kek: SecretKey = match derive_kek(prf, &salt, identity) {
        Err(error) => {
            return Err(error);
        },
        Ok(kek) => kek,
    };
    match wrapping::seal_key(&kek, &nonce, key, envelope.as_slice()) {
        Err(error) => Err(error),
        Ok(sealed) => {
            proof {
                law_envelope_round_trip(identity@, challenge@, salt@, nonce@, sealed@);
            }
            let ghost header: Seq<u8> = envelope@;
            envelope.extend_from_slice(sealed.as_slice());
            assert(envelope@ =~= header + sealed@);
            Ok(envelope)
        },
    }
}

/// Seals the data key under a fresh random salt and nonce. It fails only where the
/// system gives no randomness.
pub fn seal_key(key: &SecretKey, identity: &[u8; 32], challenge: &Challenge, prf: &WindowsHelloPrf) -> (payload:
    XSecResult<Vec<u8>>)
    ensures
        match payload {
            Ok(p) => (exists|salt: Seq<u8>, nonce: Seq<u8>|
                salt.len() == 32 && nonce.len() == 12 && crypto::drawn::<32>(salt)
                    && crypto::drawn::<12>(nonce) && p@ == #[trigger] sealed_envelope(
                    key@,
                    identity@,
                    challenge@,
                    prf@,
                    salt,
                    nonce,
                )) && holds_key(p@, identity@, challenge@, prf@, key@),
            Err(e) => e is Crypto && (crypto::draw_failed::<32>() || crypto::draw_failed::<12>()),
        },
{
    let salt: [u8; 32] = match crypto::draw::<32>() {
        Err(_) => {
            return Err(XSecError::Crypto);
        },
        Ok(salt) => salt,
    };
    let nonce: [u8; 12] = match crypto::draw::<12>() {
        Err(_) => {
            return Err(XSecError::Crypto);
        },
        Ok(nonce) => nonce,
    };
    seal_key_with(key, identity, challenge, prf, salt, nonce)
}

} // verus!
