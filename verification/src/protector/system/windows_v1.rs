//! The first Windows Hello payload format, which also records the public key of the
//! credential and names every algorithm.
use vstd::prelude::*;
use vstd::string::*;
use vstd::utf8::*;

use crate::bytes;
use crate::crypto;
use crate::error::{ErrorSource, XSecError, XSecResult};
use crate::protector::system;
use crate::protector::system::windows;
use crate::protector::wrapping;
use crate::protector::wrapping::{NONCE_LENGTH, SEALED_KEY_LENGTH};
use crate::secret::SecretKey;

verus! {

pub const MAGIC: &'static str = "XSSP";

pub const ENVELOPE_VERSION: u16 = 1;

pub const WINDOWS_BACKEND: u16 = 1;

/// RSASSA-PKCS1-v1_5 with SHA-256.
pub const SIGNATURE_ALGORITHM: u16 = 1;

/// HKDF-SHA-256.
pub const KDF_ALGORITHM: u16 = 1;

/// AES-256-GCM.
pub const AEAD_ALGORITHM: u16 = 1;

pub const CHALLENGE_SIZE: usize = 16;

pub const MIN_PUBLIC_KEY_SIZE: usize = 24;

pub const MAX_PUBLIC_KEY_SIZE: usize = 16_384;

pub const ENVELOPE_HEADER_SIZE: usize = 44;

/// The shortest payload: that of the shortest public key.
pub const MIN_PAYLOAD_SIZE: usize = 161;

pub const CREDENTIAL_PREFIX: &'static str = "xsec-system-v1-";

pub const IDENTITY_DOMAIN: &'static str = "xsec:system-protector:v1";

pub const KDF_INFO: &'static str = "xsec:windows-hello:kek:v1";

/// Wraps the data key under a credential named after the identity.
pub struct XSecSystemProtector {
    identity_hash: [u8; 32],
    credential_name: String,
}

/// The fields of a payload.
pub struct SystemPayload<'a> {
    pub identity_hash: &'a [u8],
    pub public_key: &'a [u8],
    pub challenge: &'a [u8],
    pub nonce: &'a [u8],
    pub header: &'a [u8],
    pub ciphertext: &'a [u8],
}

/// The fields of a payload as contracts see them.
#[verifier::ext_equal]
pub struct PayloadView {
    pub identity_hash: Seq<u8>,
    pub public_key: Seq<u8>,
    pub challenge: Seq<u8>,
    pub nonce: Seq<u8>,
    pub header: Seq<u8>,
    pub ciphertext: Seq<u8>,
}

impl<'a> View for SystemPayload<'a> {
    type V = PayloadView;

    open spec fn view(&self) -> PayloadView {
        PayloadView {
            identity_hash: self.identity_hash@,
            public_key: self.public_key@,
            challenge: self.challenge@,
            nonce: self.nonce@,
            header: self.header@,
            ciphertext: self.ciphertext@,
        }
    }
}

/// The hash that stands for an identity.
pub open spec fn identity_hash_of(identity: Seq<char>) -> Seq<u8> {
    crypto::sha256_digest(system::identity_preimage(bytes::text(IDENTITY_DOMAIN), identity))
}

/// A public key of an acceptable length.
pub open spec fn valid_public_key(length: int) -> bool {
    MIN_PUBLIC_KEY_SIZE <= length <= MAX_PUBLIC_KEY_SIZE
}

/// The authenticated part of a payload.
#[verifier::opaque]
pub open spec fn header_bytes(
    identity_hash: Seq<u8>,
    public_key: Seq<u8>,
    challenge: Seq<u8>,
    nonce: Seq<u8>,
) -> Seq<u8> {
    (bytes::text(MAGIC) + bytes::be16(ENVELOPE_VERSION) + bytes::be16(WINDOWS_BACKEND)
        + identity_hash + bytes::be32((93 + public_key.len()) as u32)) + (bytes::be16(
        SIGNATURE_ALGORITHM,
    ) + bytes::be16(KDF_ALGORITHM) + bytes::be16(AEAD_ALGORITHM) + bytes::be32(
        public_key.len() as u32,
    ) + public_key) + (bytes::be16(CHALLENGE_SIZE as u16) + challenge + seq![NONCE_LENGTH as u8]
        + nonce + bytes::be32(SEALED_KEY_LENGTH as u32))
}

/// The fields of a payload, or why it is refused.
pub open spec fn read_payload(payload: Seq<u8>) -> XSecResult<PayloadView> {
    let n = bytes::from_be32(payload.subrange(50, 54));
    if payload.len() < MIN_PAYLOAD_SIZE || !bytes::text(MAGIC).is_prefix_of(payload) {
        Err(XSecError::Corrupted)
    } else if payload.subrange(4, 6) != bytes::be16(ENVELOPE_VERSION) {
        Err(XSecError::UnsupportedVersion)
    } else if payload.subrange(6, 8) != bytes::be16(WINDOWS_BACKEND) {
        Err(XSecError::IncompatibleSystemProtector)
    } else if bytes::from_be32(payload.subrange(40, 44)) != payload.len() - ENVELOPE_HEADER_SIZE {
        Err(XSecError::Corrupted)
    } else if payload.subrange(44, 46) != bytes::be16(SIGNATURE_ALGORITHM) || payload.subrange(
        46,
        48,
    ) != bytes::be16(KDF_ALGORITHM) || payload.subrange(48, 50) != bytes::be16(AEAD_ALGORITHM) {
        Err(XSecError::UnsupportedAlgorithm)
    } else if !valid_public_key(n) || payload.len() != 137 + n || payload.subrange(54 + n, 56 + n)
        != bytes::be16(CHALLENGE_SIZE as u16) || payload[72 + n] != NONCE_LENGTH
        || payload.subrange(85 + n, 89 + n) != bytes::be32(SEALED_KEY_LENGTH as u32) {
        Err(XSecError::Corrupted)
    } else {
        Ok(
            PayloadView {
                identity_hash: payload.subrange(8, 40),
                public_key: payload.subrange(54, 54 + n),
                challenge: payload.subrange(56 + n, 72 + n),
                nonce: payload.subrange(73 + n, 85 + n),
                header: payload.take(89 + n),
                ciphertext: payload.skip(89 + n),
            },
        )
    }
}

/// The wrapping key that a signature gives.
pub open spec fn kek_of(signature: Seq<u8>, identity_hash: Seq<u8>) -> Seq<u8> {
    crypto::hkdf_sha256(
        Some(identity_hash),
        crypto::sha256_digest(signature),
        bytes::text(KDF_INFO),
    )
}

/// The data key that a signature finds in a payload, or that it does not fit.
pub open spec fn opened(payload: PayloadView, signature: Seq<u8>) -> XSecResult<Seq<u8>> {
    wrapping::opened_key(
        kek_of(signature, payload.identity_hash),
        payload.nonce,
        payload.ciphertext,
        payload.header,
    )
}

/// The payload of the data key for a nonce.
pub open spec fn sealed_payload(
    key: Seq<u8>,
    identity_hash: Seq<u8>,
    public_key: Seq<u8>,
    challenge: Seq<u8>,
    signature: Seq<u8>,
    nonce: Seq<u8>,
) -> Seq<u8> {
    let header = header_bytes(identity_hash, public_key, challenge, nonce);
    header + crypto::aes256_gcm_seal(kek_of(signature, identity_hash), nonce, key, header)
}

proof fn lemma_magic()
    ensures
        bytes::text(MAGIC).len() == 4,
{
    reveal_strlit("XSSP");
    assert(is_ascii_chars(MAGIC@));
    is_ascii_chars_encode_utf8(MAGIC@);
}

/// A payload reads back as the fields it was written from.
pub proof fn law_payload_round_trip(
    identity_hash: Seq<u8>,
    public_key: Seq<u8>,
    challenge: Seq<u8>,
    nonce: Seq<u8>,
    ciphertext: Seq<u8>,
)
    requires
        identity_hash.len() == 32,
        valid_public_key(public_key.len() as int),
        challenge.len() == CHALLENGE_SIZE,
        nonce.len() == NONCE_LENGTH,
        ciphertext.len() == SEALED_KEY_LENGTH,
    ensures
        ({
            let header = header_bytes(identity_hash, public_key, challenge, nonce);
            &&& header.len() == 89 + public_key.len()
            &&& read_payload(header + ciphertext) == XSecResult::<PayloadView>::Ok(
                PayloadView { identity_hash, public_key, challenge, nonce, header, ciphertext },
            )
        }),
{
    reveal(header_bytes);
    lemma_magic();
    let n = public_key.len() as int;
    let header = header_bytes(identity_hash, public_key, challenge, nonce);
    let p = header + ciphertext;
    bytes::lemma_be32((93 + n) as u32);
    bytes::lemma_be32(n as u32);
    assert(p.subrange(0, 4) =~= bytes::text(MAGIC));
    assert(p.subrange(4, 6) =~= bytes::be16(ENVELOPE_VERSION));
    assert(p.subrange(6, 8) =~= bytes::be16(WINDOWS_BACKEND));
    assert(p.subrange(8, 40) =~= identity_hash);
    assert(p.subrange(40, 44) =~= bytes::be32((93 + n) as u32));
    assert(p.subrange(44, 46) =~= bytes::be16(SIGNATURE_ALGORITHM));
    assert(p.subrange(46, 48) =~= bytes::be16(KDF_ALGORITHM));
    assert(p.subrange(48, 50) =~= bytes::be16(AEAD_ALGORITHM));
    assert(p.subrange(50, 54) =~= bytes::be32(n as u32));
    assert(p.subrange(54, 54 + n) =~= public_key);
    assert(p.subrange(54 + n, 56 + n) =~= bytes::be16(CHALLENGE_SIZE as u16));
    assert(p.subrange(56 + n, 72 + n) =~= challenge);
    assert(p[72 + n] == NONCE_LENGTH);
    assert(p.subrange(73 + n, 85 + n) =~= nonce);
    assert(p.subrange(85 + n, 89 + n) =~= bytes::be32(SEALED_KEY_LENGTH as u32));
    assert(p.take(89 + n) =~= header);
    assert(p.skip(89 + n) =~= ciphertext);
}

impl<'a> SystemPayload<'a> {
    /// Reads a payload.
    pub fn parse(payload: &'a [u8]) -> (parsed: XSecResult<Self>)
        ensures
            match parsed {
                Ok(p) => read_payload(payload@) == XSecResult::<PayloadView>::Ok(p@),
                Err(e) => read_payload(payload@) == XSecResult::<PayloadView>::Err(e),
            },
    {
        proof {
            lemma_magic();
        }
        if payload.len() < MIN_PAYLOAD_SIZE || !bytes::starts_with(payload, MAGIC.as_bytes()) {
            return Err(XSecError::Corrupted);
        }
        proof {
            bytes::lemma_from_be16(payload@.subrange(4, 6));
            bytes::lemma_from_be16(payload@.subrange(6, 8));
            bytes::lemma_from_be16(payload@.subrange(44, 46));
            bytes::lemma_from_be16(payload@.subrange(46, 48));
            bytes::lemma_from_be16(payload@.subrange(48, 50));
            bytes::lemma_be16(1);
        }
        if bytes::read_u16_at(payload, 4) != ENVELOPE_VERSION {
            return Err(XSecError::UnsupportedVersion);
        }
        if bytes::read_u16_at(payload, 6) != WINDOWS_BACKEND {
            return Err(XSecError::IncompatibleSystemProtector);
        }
        let backend_length: u64 = bytes::read_u32_at(payload, 40) as u64;
        if backend_length != payload.len() as u64 - ENVELOPE_HEADER_SIZE as u64 {
            return Err(XSecError::Corrupted);
        }
        if bytes::read_u16_at(payload, 44) != SIGNATURE_ALGORITHM || bytes::read_u16_at(payload, 46)
            != KDF_ALGORITHM || bytes::read_u16_at(payload, 48) != AEAD_ALGORITHM {
            return Err(XSecError::UnsupportedAlgorithm);
        }
        let public_len: usize = bytes::read_u32_at(payload, 50) as usize;
        if public_len < MIN_PUBLIC_KEY_SIZE || public_len > MAX_PUBLIC_KEY_SIZE || payload.len()
            != 137 + public_len {
            return Err(XSecError::Corrupted);
        }
        let public_end: usize = 54 + public_len;
        let challenge_start: usize = public_end + 2;
        let challenge_end: usize = challenge_start + CHALLENGE_SIZE;
        let nonce_start: usize = challenge_end + 1;
        let nonce_end: usize = nonce_start + NONCE_LENGTH;
        let ciphertext_start: usize = nonce_end + 4;
        proof {
            let n = public_len as int;
            bytes::lemma_from_be16(payload@.subrange(54 + n, 56 + n));
            bytes::lemma_be16(CHALLENGE_SIZE as u16);
            bytes::lemma_from_be32(payload@.subrange(85 + n, 89 + n));
            bytes::lemma_be32(SEALED_KEY_LENGTH as u32);
        }
        if bytes::read_u16_at(payload, public_end) as usize != CHALLENGE_SIZE
            || payload[challenge_end] as usize != NONCE_LENGTH || bytes::read_u32_at(
            payload,
            nonce_end,
        ) as usize != SEALED_KEY_LENGTH {
            return Err(XSecError::Corrupted);
        }
        let parsed: SystemPayload<'a> = SystemPayload {
            identity_hash: &payload[8..40],
            public_key: &payload[54..public_end],
            challenge: &payload[challenge_start..challenge_end],
            nonce: &payload[nonce_start..nonce_end],
            header: &payload[0..ciphertext_start],
            ciphertext: &payload[ciphertext_start..payload.len()],
        };
        assert(parsed.header@ =~= payload@.take(ciphertext_start as int));
        assert(parsed.ciphertext@ =~= payload@.skip(ciphertext_start as int));
        Ok(parsed)
    }
}

/// The hash that stands for an identity.
pub fn identity_hash(identity: &str) -> (hash: [u8; 32])
    requires
        system::valid_identity(identity@),
    ensures
        hash@ == identity_hash_of(identity@),
{
    system::hash_identity_in(IDENTITY_DOMAIN, identity)
}

/// Whether the public key of a credential has an acceptable length.
pub fn check_public_key(length: usize) -> (result: XSecResult<()>)
    ensures
        result is Ok <==> valid_public_key(length as int),
        result matches Err(e) ==> e is SystemKeyInvalidated,
{
    if length < MIN_PUBLIC_KEY_SIZE || length > MAX_PUBLIC_KEY_SIZE {
        Err(XSecError::SystemKeyInvalidated)
    } else {
        Ok(())
    }
}

/// A fresh random challenge for the credential to sign. It fails where the system gives
/// no randomness.
pub fn random_challenge() -> (challenge: XSecResult<[u8; 16]>)
    ensures
        match challenge {
            Ok(c) => crypto::drawn::<16>(c@),
            Err(e) => e is Crypto && crypto::draw_failed::<16>(),
        },
{
    match crypto::draw::<16>() {
        Ok(raw) => Ok(raw),
        Err(_) => Err(XSecError::Crypto),
    }
}

impl XSecSystemProtector {
    /// The hash of the identity.
    pub closed spec fn view(&self) -> Seq<u8> {
        self.identity_hash@
    }

    /// The credential is named after the identity hash.
    pub closed spec fn wf(&self) -> bool {
        self.credential_name@ == windows::credential_name_of(
            CREDENTIAL_PREFIX@,
            self.identity_hash@,
        )
    }

    /// A protector for an identity; no system service is touched.
    pub fn new(identity: &str) -> (protector: Self)
        requires
            system::valid_identity(identity@),
        ensures
            protector.wf(),
            protector@ == identity_hash_of(identity@),
    {
        let identity_hash: [u8; 32] = self::identity_hash(identity);
        let mut credential_name: String = CREDENTIAL_PREFIX.to_owned();
        credential_name.append(system::hex(&identity_hash).as_str());
        XSecSystemProtector { identity_hash, credential_name }
    }

    /// Whether the protector can be used.
    pub fn check_availability(&self, supported: bool) -> (result: XSecResult<()>)
        ensures
            result is Ok <==> supported,
            result matches Err(e) ==> e is WindowsHelloNotSupported,
    {
        windows::require_hello(supported)
    }

    /// What the answer to a deletion means, `failure` the code and the text of an
    /// error: it is no error that there was no credential.
    pub fn delete(&self, failure: Option<(u32, ErrorSource)>) -> (result: XSecResult<()>)
        ensures
            match failure {
                None => result is Ok,
                Some((code, source)) => if windows::no_credential(code) {
                    result is Ok
                } else {
                    result == XSecResult::<()>::Err(XSecError::Protector { source })
                },
            },
    {
        match failure {
            None => Ok(()),
            Some((code, source)) => {
                if windows::is_not_found(code) {
                    Ok(())
                } else {
                    Err(XSecError::protector(source))
                }
            },
        }
    }

    /// The kind of the protector.
    pub fn kind(&self) -> (kind: &'static str)
        ensures
            kind@ == system::KIND@,
    {
        system::KIND
    }

    /// The name of the credential: it shows the identity's hash only.
    pub fn credential_name(&self) -> (name: &str)
        requires
            self.wf(),
        ensures
            name@ == windows::credential_name_of(CREDENTIAL_PREFIX@, self@),
    {
        self.credential_name.as_str()
    }

    /// The wrapping key that a signature gives.
    pub fn derive_kek(signature: &[u8], identity_hash: &[u8; 32]) -> (kek: XSecResult<SecretKey>)
        ensures
            kek matches Ok(k) && k@ == kek_of(signature@, identity_hash@),
    {
        let secret: SecretKey = SecretKey::new(crypto::sha256(signature));
        match crypto::hkdf_key(Some(identity_hash), secret.expose_secret(), KDF_INFO.as_bytes()) {
            Ok(kek) => Ok(kek),
            Err(_) => Err(XSecError::Crypto),
        }
    }

    /// Seals the data key for a nonce, given the public key of the credential, the
    /// challenge that was signed and the signature.
    pub fn seal_with_nonce(
        &self,
        key: &SecretKey,
        public_key: &[u8],
        challenge: &[u8; 16],
        signature: &[u8],
        nonce: [u8; 12],
    ) -> (payload: XSecResult<Vec<u8>>)
        requires
            valid_public_key(public_key@.len() as int),
        ensures
            payload matches Ok(p) && p@ == sealed_payload(
                key@,
                self@,
                public_key@,
                challenge@,
                signature@,
                nonce@,
            ) && (read_payload(p@) matches Ok(fields) && fields.identity_hash == self@
                && fields.public_key == public_key@ && fields.challenge == challenge@ && opened(
                fields,
                signature@,
            ) == XSecResult::<Seq<u8>>::Ok(key@)),
    {
        let kek: SecretKey = match Self::derive_kek(signature, &self.identity_hash) {
            Err(error) => {
                return Err(error);
            },
            Ok(kek) => kek,
        };
        let backend_length: u32 = 93 + public_key.len() as u32;
        let mut header: Vec<u8> = Vec::new();
        header.extend_from_slice(MAGIC.as_bytes());
        bytes::push_u16(&mut header, ENVELOPE_VERSION);
        bytes::push_u16(&mut header, WINDOWS_BACKEND);
        header.extend_from_slice(&self.identity_hash);
        bytes::push_u32(&mut header, backend_length);
        let mut key_part: Vec<u8> = Vec::new();
        bytes::push_u16(&mut key_part, SIGNATURE_ALGORITHM);
        bytes::push_u16(&mut key_part, KDF_ALGORITHM);
        bytes::push_u16(&mut key_part, AEAD_ALGORITHM);
        bytes::push_u32(&mut key_part, public_key.len() as u32);
        key_part.extend_from_slice(public_key);
        let mut nonce_part: Vec<u8> = Vec::new();
        bytes::push_u16(&mut nonce_part, CHALLENGE_SIZE as u16);
        nonce_part.extend_from_slice(challenge);
        nonce_part.push(NONCE_LENGTH as u8);
        nonce_part.extend_from_slice(&nonce);
        bytes::push_u32(&mut nonce_part, SEALED_KEY_LENGTH as u32);
        header.extend_from_slice(key_part.as_slice());
        header.extend_from_slice(nonce_part.as_slice());
        proof {
            reveal(header_bytes);
            lemma_magic();
            assert(header@ =~= header_bytes(self@, public_key@, challenge@, nonce@));
        }
        match wrapping::seal_key(&kek, &nonce, key, header.as_slice()) {
            Err(error) => Err(error),
            Ok(sealed) => {
                proof {
                    law_payload_round_trip(self@, public_key@, challenge@, nonce@, sealed@);
                }
                let ghost before: Seq<u8> = header@;
                header.extend_from_slice(sealed.as_slice());
                assert(header@ =~= before + sealed@);
                Ok(header)
            },
        }
    }

    /// Seals the data key under a fresh random nonce.
    pub fn finish_wrap(
        &self,
        key: &SecretKey,
        public_key: &[u8],
        challenge: &[u8; 16],
        signature: &[u8],
    ) -> (payload: XSecResult<Vec<u8>>)
        requires
            valid_public_key(public_key@.len() as int),
        ensures
            match payload {
                Ok(p) => (read_payload(p@) matches Ok(fields) && fields.identity_hash == self@
                    && fields.public_key == public_key@ && fields.challenge == challenge@ && opened(
                    fields,
                    signature@,
                ) == XSecResult::<Seq<u8>>::Ok(key@)) && exists|nonce: Seq<u8>|
                    nonce.len() == NONCE_LENGTH && crypto::drawn::<12>(nonce) && p@
                        == #[trigger] sealed_payload(
                        key@,
                        self@,
                        public_key@,
                        challenge@,
                        signature@,
                        nonce,
                    ),
                Err(e) => e is Crypto && crypto::draw_failed::<12>(),
            },
    {
        match crypto::draw::<12>() {
            Err(_) => Err(XSecError::Crypto),
            Ok(nonce) => self.seal_with_nonce(key, public_key, challenge, signature, nonce),
        }
    }

    /// Checks that a payload was written for the identity, and gives the challenge to
    /// sign. Where the public key of the credential is known, it must be the recorded
    /// one.
    pub fn challenge_of(&self, payload: &[u8], current_public_key: Option<&[u8]>) -> (challenge:
        XSecResult<Vec<u8>>)
        ensures
            match read_payload(payload@) {
                Err(e) => challenge == XSecResult::<Vec<u8>>::Err(e),
                Ok(fields) => if fields.identity_hash != self@ || (current_public_key is Some
                    && current_public_key->Some_0@ != fields.public_key) {
                    challenge == XSecResult::<Vec<u8>>::Err(XSecError::SystemKeyInvalidated)
                } else {
                    challenge matches Ok(c) && c@ == fields.challenge
                },
            },
    {
        let parsed: SystemPayload<'_> = match SystemPayload::parse(payload) {
            Err(error) => {
                return Err(error);
            },
            Ok(parsed) => parsed,
        };
        if !bytes::equal(parsed.identity_hash, &self.identity_hash) {
            return Err(XSecError::SystemKeyInvalidated);
        }
        match current_public_key {
            Some(current) => {
                if !bytes::equal(current, parsed.public_key) {
                    return Err(XSecError::SystemKeyInvalidated);
                }
            },
            None => {},
        }
        let copy: Vec<u8> = bytes::copy_range(parsed.challenge, 0, parsed.challenge.len());
        assert(copy@ =~= parsed.challenge@);
        Ok(copy)
    }

    /// Takes the data key out of a payload, given the public key of the credential and
    /// its signature of the challenge.
    pub fn finish_unwrap(&self, payload: &[u8], current_public_key: &[u8], signature: &[u8]) -> (key:
        XSecResult<SecretKey>)
        ensures
            match read_payload(payload@) {
                Err(e) => key == XSecResult::<SecretKey>::Err(e),
                Ok(fields) => if fields.identity_hash != self@ || current_public_key@
                    != fields.public_key {
                    key == XSecResult::<SecretKey>::Err(XSecError::SystemKeyInvalidated)
                } else {
                    match key {
                        Ok(k) => opened(fields, signature@) == XSecResult::<Seq<u8>>::Ok(k@),
                        Err(e) => opened(fields, signature@) == XSecResult::<Seq<u8>>::Err(e),
                    }
                },
            },
    {
        let parsed: SystemPayload<'_> = match SystemPayload::parse(payload) {
            Err(error) => {
                return Err(error);
            },
            Ok(parsed) => parsed,
        };
        if !bytes::equal(parsed.identity_hash, &self.identity_hash) || !bytes::equal(
            current_public_key,
            parsed.public_key,
        ) {
            return Err(XSecError::SystemKeyInvalidated);
        }
        match Self::derive_kek(signature, &self.identity_hash) {
            Err(error) => Err(error),
            Ok(kek) => wrapping::open_key(&kek, parsed.nonce, parsed.ciphertext, parsed.header),
        }
    }
}

} // verus!
