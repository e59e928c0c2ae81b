//! The biometric protector of Windows: the signature of a fixed challenge by a
//! Windows Hello credential is hashed to the wrapping key.
use vstd::prelude::*;
use vstd::utf8::*;

use crate::bytes;
use crate::crypto;
use crate::crypto::TAG_LENGTH;
use crate::error::{XSecError, XSecResult};
use crate::protector::wrapping;
use crate::protector::wrapping::NONCE_LENGTH;
use crate::secret::{SecretBytes, SecretKey};

verus! {

pub const KIND: &'static str = "windows-hello";

pub const VERSION: u16 = 1;

pub const CHALLENGE: &'static str = "xsec:windows-hello:v1:authorize";

/// Wraps the data key under the credential of a name.
pub struct XSecBiometricProtector {
    name: String,
}

/// The payload of a sealed key.
pub open spec fn payload_bytes(name: Seq<char>, nonce: Seq<u8>, sealed: Seq<u8>) -> Seq<u8> {
    bytes::be16(VERSION) + bytes::be16(encode_utf8(name).len() as u16) + encode_utf8(name) + nonce
        + sealed
}

/// The nonce and the sealed key in a payload, or why it is refused.
pub open spec fn read_payload(name: Seq<char>, payload: Seq<u8>) -> XSecResult<(Seq<u8>, Seq<u8>)> {
    let n = bytes::from_be16(payload.subrange(2, 4));
    if payload.len() < 4 + NONCE_LENGTH + TAG_LENGTH || payload.subrange(0, 2) != bytes::be16(
        VERSION,
    ) {
        Err(XSecError::Corrupted)
    } else if payload.len() < 4 + n + NONCE_LENGTH + TAG_LENGTH || payload.subrange(4, 4 + n)
        != encode_utf8(name) {
        Err(XSecError::AuthenticationFailed)
    } else {
        Ok((payload.subrange(4 + n, 16 + n), payload.skip(16 + n)))
    }
}

/// The data key that a signature finds in a payload, or why there is none.
pub open spec fn unwrapped(name: Seq<char>, payload: Seq<u8>, signature: Seq<u8>) -> XSecResult<
    Seq<u8>,
> {
    match read_payload(name, payload) {
        Err(e) => Err(e),
        Ok((nonce, sealed)) => match crypto::aes256_gcm_open(
            crypto::sha256_digest(signature),
            nonce,
            sealed,
            encode_utf8(name),
        ) {
            Some(key) => if key.len() == 32 {
                Ok(key)
            } else {
                Err(XSecError::AuthenticationFailed)
            },
            None => Err(XSecError::AuthenticationFailed),
        },
    }
}

/// A payload reads back as the nonce and the sealed key it was written from.
pub proof fn law_payload_round_trip(name: Seq<char>, nonce: Seq<u8>, sealed: Seq<u8>)
    requires
        encode_utf8(name).len() <= u16::MAX,
        nonce.len() == NONCE_LENGTH,
        sealed.len() >= TAG_LENGTH,
    ensures
        read_payload(name, payload_bytes(name, nonce, sealed)) == XSecResult::<
            (Seq<u8>, Seq<u8>),
        >::Ok((nonce, sealed)),
{
    let n = encode_utf8(name).len() as int;
    let p = payload_bytes(name, nonce, sealed);
    bytes::lemma_be16(n as u16);
    assert(p.subrange(0, 2) =~= bytes::be16(VERSION));
    assert(p.subrange(2, 4) =~= bytes::be16(n as u16));
    assert(p.subrange(4, 4 + n) =~= encode_utf8(name));
    assert(p.subrange(4 + n, 16 + n) =~= nonce);
    assert(p.skip(16 + n) =~= sealed);
}

impl XSecBiometricProtector {
    /// The name of the credential.
    pub closed spec fn view(&self) -> Seq<char> {
        self.name@
    }

    /// A protector under a name.
    pub fn new(name: String) -> (protector: Self)
        ensures
            protector@ == name@,
    {
        XSecBiometricProtector { name }
    }

    /// The kind of the protector.
    pub fn kind(&self) -> (kind: &'static str)
        ensures
            kind@ == KIND@,
    {
        KIND
    }

    /// The name of the credential.
    pub fn name(&self) -> (name: &str)
        ensures
            name@ == self@,
    {
        self.name.as_str()
    }

    /// Seals the data key for a nonce, given the signature of the challenge. It fails
    /// on a name over 65535 bytes.
    pub fn seal_with_nonce(&self, key: &SecretKey, signature: &[u8], nonce: [u8; 12]) -> (payload:
        XSecResult<Vec<u8>>)
        ensures
            match payload {
                Ok(p) => encode_utf8(self@).len() <= u16::MAX && p@ == payload_bytes(
                    self@,
                    nonce@,
                    crypto::aes256_gcm_seal(
                        crypto::sha256_digest(signature@),
                        nonce@,
                        key@,
                        encode_utf8(self@),
                    ),
                ) && unwrapped(self@, p@, signature@) == XSecResult::<Seq<u8>>::Ok(key@),
                Err(e) => encode_utf8(self@).len() > u16::MAX && e is Corrupted,
            },
    {
        let name: &[u8] = self.name.as_str().as_bytes();
        if name.len() > 65_535 {
            return Err(XSecError::Corrupted);
        }
        let derived: SecretKey = SecretKey::new(crypto::sha256(signature));
        let sealed: Vec<u8> = match wrapping::seal_key(&derived, &nonce, key, name) {
            Err(error) => {
                return Err(error);
            },
            Ok(sealed) => sealed,
        };
        let mut payload: Vec<u8> = Vec::new();
        bytes::push_u16(&mut payload, VERSION);
        bytes::push_u16(&mut payload, name.len() as u16);
        payload.extend_from_slice(name);
        payload.extend_from_slice(&nonce);
        payload.extend_from_slice(sealed.as_slice());
        proof {
            assert(payload@ =~= payload_bytes(self@, nonce@, sealed@));
            law_payload_round_trip(self@, nonce@, sealed@);
        }
        Ok(payload)
    }

    /// Seals the data key under a fresh random nonce.
    pub fn finish_wrap(&self, key: &SecretKey, signature: &[u8]) -> (payload: XSecResult<Vec<u8>>)
        ensures
            match payload {
                Ok(p) => encode_utf8(self@).len() <= u16::MAX && unwrapped(
                    self@,
                    p@,
                    signature@,
                ) == XSecResult::<Seq<u8>>::Ok(key@) && exists|nonce: Seq<u8>|
                    nonce.len() == NONCE_LENGTH && crypto::drawn::<12>(nonce) && p@ == payload_bytes(
                        self@,
                        nonce,
                        #[trigger] crypto::aes256_gcm_seal(
                            crypto::sha256_digest(signature@),
                            nonce,
                            key@,
                            encode_utf8(self@),
                        ),
                    ),
                Err(e) => (e is Crypto && crypto::draw_failed::<12>()) || (encode_utf8(self@).len()
                    > u16::MAX && e is Corrupted),
            },
    {
        match crypto::draw::<12>() {
            Err(_) => Err(XSecError::Crypto),
            Ok(nonce) => self.seal_with_nonce(key, signature, nonce),
        }
    }

    /// Checks a payload before the user is asked to sign.
    pub fn check_payload(&self, payload: &[u8]) -> (result: XSecResult<()>)
        ensures
            match read_payload(self@, payload@) {
                Ok(_) => result is Ok,
                Err(e) => result == XSecResult::<()>::Err(e),
            },
    {
        if payload.len() < 4 + NONCE_LENGTH + TAG_LENGTH {
            return Err(XSecError::Corrupted);
        }
        proof {
            bytes::lemma_from_be16(payload@.subrange(0, 2));
            bytes::lemma_from_be16(payload@.subrange(2, 4));
            bytes::lemma_be16(VERSION);
        }
        if bytes::read_u16_at(payload, 0) != VERSION {
            return Err(XSecError::Corrupted);
        }
        let len: usize = bytes::read_u16_at(payload, 2) as usize;
        if payload.len() < 4 + len + NONCE_LENGTH + TAG_LENGTH || !bytes::equal(
            &payload[4..4 + len],
            self.name.as_str().as_bytes(),
        ) {
            return Err(XSecError::AuthenticationFailed);
        }
        Ok(())
    }

    /// Takes the data key out of a payload, given the signature of the challenge.
    pub fn finish_unwrap(&self, payload: &[u8], signature: &[u8]) -> (key: XSecResult<SecretKey>)
        ensures
            match key {
                Ok(k) => unwrapped(self@, payload@, signature@) == XSecResult::<Seq<u8>>::Ok(k@),
                Err(e) => unwrapped(self@, payload@, signature@) == XSecResult::<Seq<u8>>::Err(e),
            },
    {
        match self.check_payload(payload) {
            Err(error) => {
                return Err(error);
            },
            Ok(()) => {},
        }
        let len: usize = bytes::read_u16_at(payload, 2) as usize;
        proof {
            bytes::lemma_from_be16(payload@.subrange(2, 4));
        }
        let mut nonce: [u8; 12] = [0; 12];
        bytes::copy_into(&mut nonce, &payload[4 + len..16 + len]);
        let sealed: &[u8] = &payload[16 + len..payload.len()];
        assert(sealed@ =~= payload@.skip(16 + len));
        let derived: SecretKey = SecretKey::new(crypto::sha256(signature));
        match crypto::open(
            derived.expose_secret(),
            &nonce,
            sealed,
            self.name.as_str().as_bytes(),
        ) {
            Err(_) => Err(XSecError::AuthenticationFailed),
            Ok(plaintext) => {
                let plaintext: SecretBytes = SecretBytes::new(plaintext);
                match SecretKey::from_slice(plaintext.expose_secret()) {
                    Some(key) => Ok(key),
                    None => Err(XSecError::AuthenticationFailed),
                }
            },
        }
    }
}

} // verus!
