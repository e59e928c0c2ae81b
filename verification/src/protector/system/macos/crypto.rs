//! The envelope in which the data key is kept under a Secure Enclave key.
use vstd::prelude::*;
use vstd::utf8::*;

use crate::bytes;
use crate::crypto;
use crate::error::{XSecError, XSecResult};
use crate::protector::wrapping;
use crate::secret::SecretKey;

verus! {

pub const MAGIC: &'static str = "XSecMP";

pub const WINDOWS_MAGIC: &'static str = "XSecSP";

pub const LINUX_MAGIC: &'static str = "XSecLP";

pub const ENVELOPE_VERSION: u16 = 1;

pub const PUBLIC_KEY_SIZE: usize = 65;

pub const HEADER_SIZE: usize = 181;

pub const PAYLOAD_SIZE: usize = 229;

pub const KDF_INFO: &'static str = "xsec:macos-secure-enclave:kek";

/// The fields of an envelope.
pub struct MacosEnvelope<'a> {
    identity: &'a [u8],
    recipient_key_hash: &'a [u8],
    ephemeral_public_key: &'a [u8],
    salt: &'a [u8],
    nonce: &'a [u8],
    header: &'a [u8],
    ciphertext: &'a [u8],
}

/// The fields of an envelope as contracts see them.
#[verifier::ext_equal]
pub struct EnvelopeView {
    pub identity: Seq<u8>,
    pub recipient_key_hash: Seq<u8>,
    pub ephemeral_public_key: Seq<u8>,
    pub salt: Seq<u8>,
    pub nonce: Seq<u8>,
    pub header: Seq<u8>,
    pub ciphertext: Seq<u8>,
}

/// The authenticated part of an envelope.
#[verifier::opaque]
pub open spec fn header_bytes(
    identity: Seq<u8>,
    recipient_key_hash: Seq<u8>,
    ephemeral_public_key: Seq<u8>,
    salt: Seq<u8>,
    nonce: Seq<u8>,
) -> Seq<u8> {
    bytes::text(MAGIC) + bytes::be16(ENVELOPE_VERSION) + identity + recipient_key_hash
        + ephemeral_public_key + salt + nonce
}

/// The fields of a payload, or why it is refused. `expected` is the identity that
/// it must have been written for, where there is one to compare.
pub open spec fn read_envelope(payload: Seq<u8>, expected: Option<Seq<u8>>) -> XSecResult<
    EnvelopeView,
> {
    if bytes::text(WINDOWS_MAGIC).is_prefix_of(payload) || bytes::text(LINUX_MAGIC).is_prefix_of(
        payload,
    ) {
        Err(XSecError::IncompatibleSystemProtector)
    } else if payload.len() != PAYLOAD_SIZE || !bytes::text(MAGIC).is_prefix_of(payload) {
        Err(XSecError::Corrupted)
    } else if payload.subrange(6, 8) != bytes::be16(ENVELOPE_VERSION) {
        Err(XSecError::UnsupportedVersion)
    } else if expected is Some && payload.subrange(8, 40) != expected->Some_0 {
        Err(XSecError::SystemKeyInvalidated)
    } else if payload[72] != 4 {
        Err(XSecError::Corrupted)
    } else {
        Ok(
            EnvelopeView {
                identity: payload.subrange(8, 40),
                recipient_key_hash: payload.subrange(40, 72),
                ephemeral_public_key: payload.subrange(72, 137),
                salt: payload.subrange(137, 169),
                nonce: payload.subrange(169, 181),
                header: payload.take(181),
                ciphertext: payload.skip(181),
            },
        )
    }
}

/// The wrapping key that a shared secret gives.
pub open spec fn kek_of(
    shared_secret: Seq<u8>,
    salt: Seq<u8>,
    identity: Seq<u8>,
    recipient_key_hash: Seq<u8>,
) -> Seq<u8> {
    crypto::hkdf_sha256(
        Some(salt),
        shared_secret,
        bytes::text(KDF_INFO) + identity + recipient_key_hash,
    )
}

/// The data key that a shared secret finds in an envelope, or that it does not fit.
pub open spec fn opened(envelope: EnvelopeView, shared_secret: Seq<u8>) -> XSecResult<Seq<u8>> {
    wrapping::opened_key(
        kek_of(
            shared_secret,
            envelope.salt,
            envelope.identity,
            envelope.recipient_key_hash,
        ),
        envelope.nonce,
        envelope.ciphertext,
        envelope.header,
    )
}

proof fn lemma_magic()
    ensures
        bytes::text(MAGIC).len() == 6,
        bytes::text(WINDOWS_MAGIC).len() == 6,
        bytes::text(LINUX_MAGIC).len() == 6,
        bytes::text(MAGIC) != bytes::text(WINDOWS_MAGIC),
        bytes::text(MAGIC) != bytes::text(LINUX_MAGIC),
{
    reveal_strlit("XSecMP");
    reveal_strlit("XSecSP");
    reveal_strlit("XSecLP");
    assert(is_ascii_chars(MAGIC@));
    assert(is_ascii_chars(WINDOWS_MAGIC@));
    assert(is_ascii_chars(LINUX_MAGIC@));
    is_ascii_chars_encode_utf8(MAGIC@);
    is_ascii_chars_encode_utf8(WINDOWS_MAGIC@);
    is_ascii_chars_encode_utf8(LINUX_MAGIC@);
    assert(MAGIC@[4] == 'M');
    assert(WINDOWS_MAGIC@[4] == 'S');
    assert(LINUX_MAGIC@[4] == 'L');
    if bytes::text(MAGIC) == bytes::text(WINDOWS_MAGIC) {
        bytes::lemma_text_injective(MAGIC@, WINDOWS_MAGIC@);
    }
    if bytes::text(MAGIC) == bytes::text(LINUX_MAGIC) {
        bytes::lemma_text_injective(MAGIC@, LINUX_MAGIC@);
    }
}

/// An envelope reads back as the fields it was written from, to the identity it
/// was written for.
pub proof fn law_envelope_round_trip(
    identity: Seq<u8>,
    recipient_key_hash: Seq<u8>,
    ephemeral_public_key: Seq<u8>,
    salt: Seq<u8>,
    nonce: Seq<u8>,
    ciphertext: Seq<u8>,
)
    requires
        identity.len() == 32,
        recipient_key_hash.len() == 32,
        ephemeral_public_key.len() == PUBLIC_KEY_SIZE,
        ephemeral_public_key[0] == 4,
        salt.len() == 32,
        nonce.len() == 12,
        ciphertext.len() == wrapping::SEALED_KEY_LENGTH,
    ensures
        ({
            let header = header_bytes(
                identity,
                recipient_key_hash,
                ephemeral_public_key,
                salt,
                nonce,
            );
            &&& header.len() == HEADER_SIZE
            &&& read_envelope(header + ciphertext, Some(identity)) == XSecResult::<EnvelopeView>::Ok(
                EnvelopeView {
                    identity,
                    recipient_key_hash,
                    ephemeral_public_key,
                    salt,
                    nonce,
                    header,
                    ciphertext,
                },
            )
        }),
{
    reveal(header_bytes);
    lemma_magic();
    let header = header_bytes(identity, recipient_key_hash, ephemeral_public_key, salt, nonce);
    let p = header + ciphertext;
    assert(p.subrange(0, 6) =~= bytes::text(MAGIC));
    assert(p.subrange(6, 8) =~= bytes::be16(ENVELOPE_VERSION));
    assert(p.subrange(8, 40) =~= identity);
    assert(p.subrange(40, 72) =~= recipient_key_hash);
    assert(p.subrange(72, 137) =~= ephemeral_public_key);
    assert(p[72] == ephemeral_public_key[0]);
    assert(p.subrange(137, 169) =~= salt);
    assert(p.subrange(169, 181) =~= nonce);
    assert(p.take(181) =~= header);
    assert(p.skip(181) =~= ciphertext);
}

impl<'a> MacosEnvelope<'a> {
    /// See `EnvelopeView`.
    pub closed spec fn view(&self) -> EnvelopeView {
        EnvelopeView {
            identity: self.identity@,
            recipient_key_hash: self.recipient_key_hash@,
            ephemeral_public_key: self.ephemeral_public_key@,
            salt: self.salt@,
            nonce: self.nonce@,
            header: self.header@,
            ciphertext: self.ciphertext@,
        }
    }

    /// Every field has its length.
    pub closed spec fn wf(&self) -> bool {
        &&& self.identity@.len() == 32
        &&& self.recipient_key_hash@.len() == 32
        &&& self.ephemeral_public_key@.len() == PUBLIC_KEY_SIZE
        &&& self.salt@.len() == 32
        &&& self.nonce@.len() == 12
        &&& self.ciphertext@.len() == wrapping::SEALED_KEY_LENGTH
    }

    /// Reads an envelope that was written for an identity.
    pub fn parse(payload: &'a [u8], expected_identity: &[u8; 32]) -> (envelope: XSecResult<Self>)
        ensures
            match envelope {
                Ok(e) => e.wf() && read_envelope(payload@, Some(expected_identity@))
                    == XSecResult::<EnvelopeView>::Ok(e@),
                Err(e) => read_envelope(payload@, Some(expected_identity@)) == XSecResult::<
                    EnvelopeView,
                >::Err(e),
            },
    {
        Self::parse_inner(payload, Some(expected_identity))
    }

    /// Reads an envelope, whatever identity it was written for.
    pub fn parse_stored(payload: &'a [u8]) -> (envelope: XSecResult<Self>)
        ensures
            match envelope {
                Ok(e) => e.wf() && read_envelope(payload@, None) == XSecResult::<EnvelopeView>::Ok(
                    e@,
                ),
                Err(e) => read_envelope(payload@, None) == XSecResult::<EnvelopeView>::Err(e),
            },
    {
        Self::parse_inner(payload, None)
    }

    fn parse_inner(payload: &'a [u8], expected: Option<&[u8; 32]>) -> (envelope: XSecResult<Self>)
        ensures
            ({
                let expected = match expected {
                    Some(identity) => Some(identity@),
                    None => None,
                };
                match envelope {
                    Ok(e) => e.wf() && read_envelope(payload@, expected) == XSecResult::<
                        EnvelopeView,
                    >::Ok(e@),
                    Err(e) => read_envelope(payload@, expected) == XSecResult::<EnvelopeView>::Err(
                        e,
                    ),
                }
            }),
    {
        proof {
            lemma_magic();
        }
        if bytes::starts_with(payload, WINDOWS_MAGIC.as_bytes()) || bytes::starts_with(
            payload,
            LINUX_MAGIC.as_bytes(),
        ) {
            return Err(XSecError::IncompatibleSystemProtector);
        }
        if payload.len() != PAYLOAD_SIZE || !bytes::starts_with(payload, MAGIC.as_bytes()) {
            return Err(XSecError::Corrupted);
        }
        proof {
            bytes::lemma_from_be16(payload@.subrange(6, 8));
            bytes::lemma_be16(ENVELOPE_VERSION);
        }
        if bytes::read_u16_at(payload, 6) != ENVELOPE_VERSION {
            return Err(XSecError::UnsupportedVersion);
        }
        let identity: &[u8] = &payload[8..40];
        match expected {
            Some(expected_identity) => {
                if !bytes::equal(identity, expected_identity) {
                    return Err(XSecError::SystemKeyInvalidated);
                }
            },
            None => {},
        }
        if payload[72] != 4 {
            return Err(XSecError::Corrupted);
        }
        let envelope: MacosEnvelope<'a> = MacosEnvelope {
            identity,
            recipient_key_hash: &payload[40..72],
            ephemeral_public_key: &payload[72..137],
            salt: &payload[137..169],
            nonce: &payload[169..181],
            header: &payload[0..181],
            ciphertext: &payload[181..229],
        };
        assert(payload@.subrange(0, 181) =~= payload@.take(181));
        assert(payload@.subrange(181, 229) =~= payload@.skip(181));
        Ok(envelope)
    }

    /// The hash of the identity that the envelope was written for.
    pub fn identity(&self) -> (identity: &[u8])
        requires
            self.wf(),
        ensures
            identity@ == self@.identity,
            identity@.len() == 32,
    {
        self.identity
    }

    /// The hash of the public key of the Secure Enclave key.
    pub fn recipient_key_hash(&self) -> (hash: &[u8])
        ensures
            hash@ == self@.recipient_key_hash,
    {
        self.recipient_key_hash
    }

    /// The ephemeral public key that the shared secret was agreed with.
    pub fn ephemeral_public_key(&self) -> (key: &[u8])
        requires
            self.wf(),
        ensures
            key@ == self@.ephemeral_public_key,
            key@.len() == PUBLIC_KEY_SIZE,
    {
        self.ephemeral_public_key
    }

    /// Takes the data key out of the envelope.
    pub fn open(&self, shared_secret: &SecretKey) -> (key: XSecResult<SecretKey>)
        requires
            self.wf(),
        ensures
            match key {
                Ok(k) => opened(self@, shared_secret@) == XSecResult::<Seq<u8>>::Ok(k@),
                Err(e) => opened(self@, shared_secret@) == XSecResult::<Seq<u8>>::Err(e),
            },
    {
        match derive_kek(shared_secret, self.salt, self.identity, self.recipient_key_hash) {
            Err(error) => Err(error),
            Ok(kek) => wrapping::open_key(&kek, self.nonce, self.ciphertext, self.header),
        }
    }
}

/// The wrapping key that a shared secret gives.
pub fn derive_kek(shared_secret: &SecretKey, salt: &[u8], identity: &[u8], recipient_key_hash: &[u8]) -> (kek:
    XSecResult<SecretKey>)
    ensures
        kek matches Ok(k) && k@ == kek_of(
            shared_secret@,
            salt@,
            identity@,
            recipient_key_hash@,
        ),
{
    let mut info: Vec<u8> = Vec::new();
    info.extend_from_slice(KDF_INFO.as_bytes());
    info.extend_from_slice(identity);
    info.extend_from_slice(recipient_key_hash);
    assert(info@ =~= bytes::text(KDF_INFO) + identity@ + recipient_key_hash@);
    match crypto::hkdf_key(Some(salt), shared_secret.expose_secret(), info.as_slice()) {
        Ok(kek) => Ok(kek),
        Err(_) => Err(XSecError::Crypto),
    }
}

/// The envelope of the data key for a salt and a nonce.
pub open spec fn sealed_envelope(
    key: Seq<u8>,
    identity: Seq<u8>,
    recipient_key_hash: Seq<u8>,
    ephemeral_public_key: Seq<u8>,
    shared_secret: Seq<u8>,
    salt: Seq<u8>,
    nonce: Seq<u8>,
) -> Seq<u8> {
    let header = header_bytes(identity, recipient_key_hash, ephemeral_public_key, salt, nonce);
    header + crypto::aes256_gcm_seal(
        kek_of(shared_secret, salt, identity, recipient_key_hash),
        nonce,
        key,
        header,
    )
}

/// A payload that reads as an envelope for `identity` and opens to `key` under the
/// shared secret.
pub open spec fn holds_key(
    payload: Seq<u8>,
    identity: Seq<u8>,
    shared_secret: Seq<u8>,
    key: Seq<u8>,
) -> bool {
    read_envelope(payload, Some(identity)) matches Ok(envelope) && opened(envelope, shared_secret)
        == XSecResult::<Seq<u8>>::Ok(key)
}

/// Seals the data key for a salt and a nonce. An uncompressed public key makes an
/// envelope that opens to the key again.
pub fn seal_key_with(
    key: &SecretKey,
    identity: &[u8; 32],
    recipient_key_hash: &[u8; 32],
    ephemeral_public_key: &[u8; 65],
    shared_secret: &SecretKey,
    salt: [u8; 32],
    nonce: [u8; 12],
) -> (payload: XSecResult<Vec<u8>>)
    ensures
        payload matches Ok(p) && p@ == sealed_envelope(
            key@,
            identity@,
            recipient_key_hash@,
            ephemeral_public_key@,
            shared_secret@,
            salt@,
            nonce@,
        ) && p@.len() == PAYLOAD_SIZE && (ephemeral_public_key@[0] == 4 ==> holds_key(
            p@,
            identity@,
            shared_secret@,
            key@,
        )),
{
    let mut envelope: Vec<u8> = Vec::new();
    envelope.extend_from_slice(MAGIC.as_bytes());
    bytes::push_u16(&mut envelope, ENVELOPE_VERSION);
    envelope.extend_from_slice(identity);
    envelope.extend_from_slice(recipient_key_hash);
    envelope.extend_from_slice(ephemeral_public_key);
    envelope.extend_from_slice(&salt);
    envelope.extend_from_slice(&nonce);
    proof {
        reveal(header_bytes);
        lemma_magic();
        assert(envelope@ =~= header_bytes(
            identity@,
            recipient_key_hash@,
            ephemeral_public_key@,
            salt@,
            nonce@,
        ));
    }
    let kek: SecretKey = match derive_kek(shared_secret, &salt, identity, recipient_key_hash) {
        Err(error) => {
            return Err(error);
        },
        Ok(kek) => kek,
    };
    match wrapping::seal_key(&kek, &nonce, key, envelope.as_slice()) {
        Err(error) => Err(error),
        Ok(sealed) => {
            proof {
                if ephemeral_public_key@[0] == 4 {
                    law_envelope_round_trip(
                        identity@,
                        recipient_key_hash@,
                        ephemeral_public_key@,
                        salt@,
                        nonce@,
                        sealed@,
                    );
                }
            }
            let ghost header: Seq<u8> = envelope@;
            envelope.extend_from_slice(sealed.as_slice());
            assert(envelope@ =~= header + sealed@);
            Ok(envelope)
        },
    }
}

/// Seals the data key under a fresh random salt and nonce. It fails only where the
/// system gives no randomness.
pub fn seal_key(
    key: &SecretKey,
    identity: &[u8; 32],
    recipient_key_hash: &[u8; 32],
    ephemeral_public_key: &[u8; 65],
    shared_secret: &SecretKey,
) -> (payload: XSecResult<Vec<u8>>)
    ensures
        match payload {
            Ok(p) => (exists|salt: Seq<u8>, nonce: Seq<u8>|
                salt.len() == 32 && nonce.len() == 12 && crypto::drawn::<32>(salt)
                    && crypto::drawn::<12>(nonce) && p@ == #[trigger] sealed_envelope(
                    key@,
                    identity@,
                    recipient_key_hash@,
                    ephemeral_public_key@,
                    shared_secret@,
                    salt,
                    nonce,
                )) && (ephemeral_public_key@[0] == 4 ==> holds_key(
                p@,
                identity@,
                shared_secret@,
                key@,
            )),
            Err(e) => e is Crypto && (crypto::draw_failed::<32>() || crypto::draw_failed::<12>()),
        },
{
    let salt: [u8; 32] = match crypto::draw::<32>() {
        Err(_) => {
            return Err(XSecError::Crypto);
        },
        Ok(salt) => salt,
    };
    let nonce: [u8; 12] = match crypto::draw::<12>() {
        Err(_) => {
            return Err(XSecError::Crypto);
        },
        Ok(nonce) => nonce,
    };
    seal_key_with(
        key,
        identity,
        recipient_key_hash,
        ephemeral_public_key,
        shared_secret,
        salt,
        nonce,
    )
}

} // verus!
