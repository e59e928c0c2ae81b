//! A key protector that wraps the data key under a password.
//!
//! The payload holds the Argon2id parameters, the salt and the nonce, all of them
//! authenticated, and the sealed key.
use vstd::prelude::*;

use crate::bytes;
use crate::crypto;
use crate::error::{ErrorSource, XSecError, XSecResult};
use crate::metadata::MAX_PAYLOAD_LENGTH;
use crate::protector::wrapping;
use crate::protector::wrapping::{KEY_LENGTH, NONCE_LENGTH, SEALED_KEY_LENGTH};
use crate::protector::XSecKeyProtector;
use crate::secret::{SecretBytes, SecretKey};

verus! {

pub const PASSWORD_KIND: &'static str = "password";

pub const PAYLOAD_VERSION: u16 = 1;

pub const KDF_ALGORITHM: u16 = 1;

pub const MEMORY_COST: u32 = 65_536;

pub const TIME_COST: u32 = 3;

pub const PARALLELISM: u32 = 1;

pub const SALT_LENGTH: usize = 16;

/// The shortest payload: that of a 16-byte salt.
pub const MIN_PAYLOAD_LENGTH: usize = 97;

/// Wraps the data key under a key that Argon2id derives from a password.
pub struct XSecPasswordProtector {
    password: SecretBytes,
}

/// The fields of a payload.
pub struct PasswordPayload<'a> {
    pub memory_cost: u32,
    pub time_cost: u32,
    pub parallelism: u32,
    pub salt: &'a [u8],
    pub nonce: &'a [u8],
    pub header: &'a [u8],
    pub ciphertext: &'a [u8],
}

/// The fields of a payload as contracts see them.
#[verifier::ext_equal]
pub struct PayloadView {
    pub memory_cost: u32,
    pub time_cost: u32,
    pub parallelism: u32,
    pub salt: Seq<u8>,
    pub nonce: Seq<u8>,
    pub header: Seq<u8>,
    pub ciphertext: Seq<u8>,
}

impl<'a> View for PasswordPayload<'a> {
    type V = PayloadView;

    open spec fn view(&self) -> PayloadView {
        PayloadView {
            memory_cost: self.memory_cost,
            time_cost: self.time_cost,
            parallelism: self.parallelism,
            salt: self.salt@,
            nonce: self.nonce@,
            header: self.header@,
            ciphertext: self.ciphertext@,
        }
    }
}

/// The parameters that a payload may ask for.
pub open spec fn valid_params(memory: u32, time: u32, parallelism: u32, salt_len: int) -> bool {
    &&& 19_456 <= memory <= 262_144
    &&& 2 <= time <= 10
    &&& 1 <= parallelism <= 8
    &&& 16 <= salt_len <= 64
    &&& 8 * parallelism <= memory
}

/// The authenticated part of a payload.
#[verifier::opaque]
pub open spec fn header_bytes(
    memory: u32,
    time: u32,
    parallelism: u32,
    salt: Seq<u8>,
    nonce: Seq<u8>,
) -> Seq<u8> {
    bytes::be16(PAYLOAD_VERSION) + bytes::be16(KDF_ALGORITHM) + bytes::be32(memory) + bytes::be32(
        time,
    ) + bytes::be32(parallelism) + bytes::be16(KEY_LENGTH as u16) + bytes::be16(salt.len() as u16)
        + salt + seq![NONCE_LENGTH as u8] + nonce
}

/// The fields of a payload, or why it is refused.
pub open spec fn read_payload(payload: Seq<u8>) -> XSecResult<PayloadView> {
    let salt_len = bytes::from_be16(payload.subrange(18, 20));
    let memory = bytes::from_be32(payload.subrange(4, 8)) as u32;
    let time = bytes::from_be32(payload.subrange(8, 12)) as u32;
    let parallelism = bytes::from_be32(payload.subrange(12, 16)) as u32;
    if payload.len() > MAX_PAYLOAD_LENGTH || payload.len() < MIN_PAYLOAD_LENGTH {
        Err(XSecError::Corrupted)
    } else if payload.subrange(0, 2) != bytes::be16(PAYLOAD_VERSION) {
        Err(XSecError::UnsupportedVersion)
    } else if payload.subrange(2, 4) != bytes::be16(KDF_ALGORITHM) {
        Err(XSecError::UnsupportedAlgorithm)
    } else if payload.subrange(16, 18) != bytes::be16(KEY_LENGTH as u16) || !valid_params(
        memory,
        time,
        parallelism,
        salt_len,
    ) || payload.len() != 33 + salt_len + SEALED_KEY_LENGTH || payload[20 + salt_len]
        != NONCE_LENGTH {
        Err(XSecError::Corrupted)
    } else {
        Ok(
            PayloadView {
                memory_cost: memory,
                time_cost: time,
                parallelism,
                salt: payload.subrange(20, 20 + salt_len),
                nonce: payload.subrange(21 + salt_len, 33 + salt_len),
                header: payload.take(33 + salt_len),
                ciphertext: payload.skip(33 + salt_len),
            },
        )
    }
}

/// The key that a password gives for the parameters of a payload.
pub open spec fn kek_of(password: Seq<u8>, payload: PayloadView) -> Seq<u8> {
    crypto::argon2id_key(
        password,
        payload.salt,
        payload.memory_cost,
        payload.time_cost,
        payload.parallelism,
    )
}

/// The data key in a payload, opened under `kek`, or that `kek` does not fit.
pub open spec fn opened_under(kek: Seq<u8>, payload: PayloadView) -> XSecResult<Seq<u8>> {
    wrapping::opened_key(kek, payload.nonce, payload.ciphertext, payload.header)
}

/// The data key that a password finds in a payload, or why there is none.
pub open spec fn unwrapped(password: Seq<u8>, payload: Seq<u8>) -> XSecResult<Seq<u8>> {
    match read_payload(payload) {
        Err(e) => Err(e),
        Ok(fields) => opened_under(kek_of(password, fields), fields),
    }
}

/// The header that is written for new payloads.
pub open spec fn new_header(salt: Seq<u8>, nonce: Seq<u8>) -> Seq<u8> {
    header_bytes(MEMORY_COST, TIME_COST, PARALLELISM, salt, nonce)
}

/// The payload of `key` under a wrapping key, a salt and a nonce.
pub open spec fn sealed_payload(kek: Seq<u8>, salt: Seq<u8>, nonce: Seq<u8>, key: Seq<u8>) -> Seq<
    u8,
> {
    new_header(salt, nonce) + crypto::aes256_gcm_seal(kek, nonce, key, new_header(salt, nonce))
}

/// The payload that a password makes for a salt and a nonce.
pub open spec fn wrapped_payload(
    password: Seq<u8>,
    salt: Seq<u8>,
    nonce: Seq<u8>,
    key: Seq<u8>,
) -> Seq<u8> {
    sealed_payload(
        crypto::argon2id_key(password, salt, MEMORY_COST, TIME_COST, PARALLELISM),
        salt,
        nonce,
        key,
    )
}

/// A payload reads back as the fields it was written from.
pub proof fn law_payload_round_trip(
    memory: u32,
    time: u32,
    parallelism: u32,
    salt: Seq<u8>,
    nonce: Seq<u8>,
    ciphertext: Seq<u8>,
)
    requires
        valid_params(memory, time, parallelism, salt.len() as int),
        nonce.len() == NONCE_LENGTH,
        ciphertext.len() == SEALED_KEY_LENGTH,
    ensures
        read_payload(header_bytes(memory, time, parallelism, salt, nonce) + ciphertext)
            == XSecResult::<PayloadView>::Ok(
            PayloadView {
                memory_cost: memory,
                time_cost: time,
                parallelism,
                salt,
                nonce,
                header: header_bytes(memory, time, parallelism, salt, nonce),
                ciphertext,
            },
        ),
{
    reveal(header_bytes);
    let n = salt.len() as int;
    let header = header_bytes(memory, time, parallelism, salt, nonce);
    let p = header + ciphertext;
    bytes::lemma_be32(memory);
    bytes::lemma_be32(time);
    bytes::lemma_be32(parallelism);
    bytes::lemma_be16(n as u16);
    assert(p.subrange(0, 2) =~= bytes::be16(PAYLOAD_VERSION));
    assert(p.subrange(2, 4) =~= bytes::be16(KDF_ALGORITHM));
    assert(p.subrange(4, 8) =~= bytes::be32(memory));
    assert(p.subrange(8, 12) =~= bytes::be32(time));
    assert(p.subrange(12, 16) =~= bytes::be32(parallelism));
    assert(p.subrange(16, 18) =~= bytes::be16(KEY_LENGTH as u16));
    assert(p.subrange(18, 20) =~= bytes::be16(n as u16));
    assert(p.subrange(20, 20 + n) =~= salt);
    assert(p[20 + n] == NONCE_LENGTH);
    assert(p.subrange(21 + n, 33 + n) =~= nonce);
    assert(p.take(33 + n) =~= header);
    assert(p.skip(33 + n) =~= ciphertext);
}

/// A payload has one form: it is the header of its fields, then the sealed key.
pub proof fn law_payload_canonical(payload: Seq<u8>)
    requires
        read_payload(payload) is Ok,
    ensures
        ({
            let f = read_payload(payload)->Ok_0;
            &&& valid_params(f.memory_cost, f.time_cost, f.parallelism, f.salt.len() as int)
            &&& f.nonce.len() == NONCE_LENGTH
            &&& f.ciphertext.len() == SEALED_KEY_LENGTH
            &&& f.header == header_bytes(
                f.memory_cost,
                f.time_cost,
                f.parallelism,
                f.salt,
                f.nonce,
            )
            &&& payload == f.header + f.ciphertext
        }),
{
    reveal(header_bytes);
    let f = read_payload(payload)->Ok_0;
    let n = f.salt.len() as int;
    bytes::lemma_from_be32(payload.subrange(4, 8));
    bytes::lemma_from_be32(payload.subrange(8, 12));
    bytes::lemma_from_be32(payload.subrange(12, 16));
    bytes::lemma_from_be16(payload.subrange(18, 20));
    assert(payload =~= f.header + f.ciphertext);
    assert(f.header =~= payload.subrange(0, 2) + payload.subrange(2, 4) + payload.subrange(4, 8)
        + payload.subrange(8, 12) + payload.subrange(12, 16) + payload.subrange(16, 18)
        + payload.subrange(18, 20) + payload.subrange(20, 20 + n) + seq![payload[20 + n]]
        + payload.subrange(21 + n, 33 + n));
}

impl<'a> PasswordPayload<'a> {
    /// Reads a payload.
    pub fn parse(payload: &'a [u8]) -> (parsed: XSecResult<Self>)
        ensures
            parsed matches Ok(p) ==> read_payload(payload@) == XSecResult::<PayloadView>::Ok(p@),
            parsed matches Err(e) ==> read_payload(payload@) == XSecResult::<PayloadView>::Err(e),
    {
        if payload.len() > MAX_PAYLOAD_LENGTH || payload.len() < MIN_PAYLOAD_LENGTH {
            return Err(XSecError::Corrupted);
        }
        proof {
            bytes::lemma_from_be16(payload@.subrange(0, 2));
            bytes::lemma_from_be16(payload@.subrange(2, 4));
            bytes::lemma_from_be16(payload@.subrange(16, 18));
            bytes::lemma_from_be16(payload@.subrange(18, 20));
            bytes::lemma_be16(PAYLOAD_VERSION);
            bytes::lemma_be16(KDF_ALGORITHM);
            bytes::lemma_be16(KEY_LENGTH as u16);
        }
        if bytes::read_u16_at(payload, 0) != PAYLOAD_VERSION {
            return Err(XSecError::UnsupportedVersion);
        }
        if bytes::read_u16_at(payload, 2) != KDF_ALGORITHM {
            return Err(XSecError::UnsupportedAlgorithm);
        }
        let memory_cost: u32 = bytes::read_u32_at(payload, 4);
        let time_cost: u32 = bytes::read_u32_at(payload, 8);
        let parallelism: u32 = bytes::read_u32_at(payload, 12);
        if bytes::read_u16_at(payload, 16) as usize != KEY_LENGTH {
            return Err(XSecError::Corrupted);
        }
        let salt_len: usize = bytes::read_u16_at(payload, 18) as usize;
        if validate_params(memory_cost, time_cost, parallelism, salt_len).is_err() {
            return Err(XSecError::Corrupted);
        }
        let nonce_len_index: usize = 20 + salt_len;
        if nonce_len_index >= payload.len() || payload[nonce_len_index] as usize != NONCE_LENGTH {
            return Err(XSecError::Corrupted);
        }
        let nonce_start: usize = nonce_len_index + 1;
        let ciphertext_start: usize = nonce_start + NONCE_LENGTH;
        if payload.len() != ciphertext_start + SEALED_KEY_LENGTH {
            return Err(XSecError::Corrupted);
        }
        let parsed: PasswordPayload<'a> = PasswordPayload {
            memory_cost,
            time_cost,
            parallelism,
            salt: &payload[20..nonce_len_index],
            nonce: &payload[nonce_start..ciphertext_start],
            header: &payload[0..ciphertext_start],
            ciphertext: &payload[ciphertext_start..payload.len()],
        };
        assert(parsed.header@ =~= payload@.take(ciphertext_start as int));
        assert(parsed.ciphertext@ =~= payload@.skip(ciphertext_start as int));
        Ok(parsed)
    }
}

/// Checks the parameters that a payload asks for, before any work is done on them.
pub fn validate_params(memory: u32, time: u32, parallelism: u32, salt_len: usize) -> (result:
    XSecResult<()>)
    ensures
        result is Ok <==> valid_params(memory, time, parallelism, salt_len as int),
        result matches Err(e) ==> e is Corrupted,
{
    if memory < 19_456 || memory > 262_144 || time < 2 || time > 10 || parallelism < 1
        || parallelism > 8 || salt_len < 16 || salt_len > 64 || memory < 8 * parallelism {
        return Err(XSecError::Corrupted);
    }
    Ok(())
}

/// Derives the wrapping key. It refuses parameters out of range; within them it
/// may still fail for want of memory, or on a password over 4 GiB.
pub fn derive_key(password: &[u8], salt: &[u8], memory: u32, time: u32, parallelism: u32) -> (key:
    XSecResult<SecretKey>)
    ensures
        match key {
            Ok(k) => valid_params(memory, time, parallelism, salt@.len() as int) && k@
                == crypto::argon2id_key(password@, salt@, memory, time, parallelism),
            Err(e) => if valid_params(memory, time, parallelism, salt@.len() as int) {
                e is Protector && crypto::derivation_failed(
                    password@,
                    salt@,
                    memory,
                    time,
                    parallelism,
                )
            } else {
                e is Corrupted
            },
        },
{
    if validate_params(memory, time, parallelism, salt.len()).is_err() {
        return Err(XSecError::Corrupted);
    }
    match crypto::derive(password, salt, memory, time, parallelism) {
        Ok(key) => Ok(key),
        Err(error) => Err(
            XSecError::protector(ErrorSource::new(crypto::argon2_error_text(error))),
        ),
    }
}

/// The payload of `key` under a wrapping key, a salt and a nonce.
pub fn seal_payload(kek: &SecretKey, salt: [u8; 16], nonce: [u8; 12], key: &SecretKey) -> (payload:
    XSecResult<Vec<u8>>)
    ensures
        payload matches Ok(p) && p@ == sealed_payload(kek@, salt@, nonce@, key@) && read_payload(p@) is Ok && ({
            let f = read_payload(p@)->Ok_0;
            &&& f.salt == salt@
            &&& f.memory_cost == MEMORY_COST
            &&& f.time_cost == TIME_COST
            &&& f.parallelism == PARALLELISM
            &&& opened_under(kek@, f) == XSecResult::<Seq<u8>>::Ok(key@)
        }),
{
    let mut header: Vec<u8> = Vec::new();
    bytes::push_u16(&mut header, PAYLOAD_VERSION);
    bytes::push_u16(&mut header, KDF_ALGORITHM);
    bytes::push_u32(&mut header, MEMORY_COST);
    bytes::push_u32(&mut header, TIME_COST);
    bytes::push_u32(&mut header, PARALLELISM);
    bytes::push_u16(&mut header, KEY_LENGTH as u16);
    bytes::push_u16(&mut header, SALT_LENGTH as u16);
    header.extend_from_slice(&salt);
    header.push(NONCE_LENGTH as u8);
    header.extend_from_slice(&nonce);
    proof {
        reveal(header_bytes);
        assert(header@ =~= new_header(salt@, nonce@));
    }
    match wrapping::seal_key(kek, &nonce, key, header.as_slice()) {
        Err(error) => Err(error),
        Ok(sealed) => {
            proof {
                law_payload_round_trip(
                    MEMORY_COST,
                    TIME_COST,
                    PARALLELISM,
                    salt@,
                    nonce@,
                    sealed@,
                );
            }
            header.extend_from_slice(sealed.as_slice());
            assert(header@ =~= new_header(salt@, nonce@) + sealed@);
            Ok(header)
        },
    }
}

/// Takes the data key out of the fields of a payload under a wrapping key.
pub fn open_payload(kek: &SecretKey, parsed: &PasswordPayload<'_>) -> (key: XSecResult<SecretKey>)
    requires
        parsed@.nonce.len() == NONCE_LENGTH,
        parsed@.ciphertext.len() == SEALED_KEY_LENGTH,
    ensures
        key matches Ok(k) ==> opened_under(kek@, parsed@) == XSecResult::<Seq<u8>>::Ok(k@),
        key matches Err(e) ==> opened_under(kek@, parsed@) == XSecResult::<Seq<u8>>::Err(e),
{
    wrapping::open_key(kek, parsed.nonce, parsed.ciphertext, parsed.header)
}

impl XSecPasswordProtector {
    /// The password.
    pub closed spec fn view(&self) -> Seq<u8> {
        self.password@
    }

    /// Protects with a password.
    pub fn new(password: SecretBytes) -> (protector: Self)
        ensures
            protector@ == password@,
    {
        XSecPasswordProtector { password }
    }
}

impl XSecKeyProtector for XSecPasswordProtector {
    open spec fn kind_name(&self) -> Seq<char> {
        PASSWORD_KIND@
    }

    fn kind(&self) -> (kind: &'static str) {
        PASSWORD_KIND
    }

    /// Wraps the key under a fresh salt and nonce. The payload gives the key back to
    /// the same password. It fails where the system gives no randomness and where
    /// the key derivation fails.
    fn wrap_key(&self, key: &SecretKey) -> (wrapped: XSecResult<Vec<u8>>)
        ensures
            match wrapped {
                Ok(p) => unwrapped(self@, p@) == XSecResult::<Seq<u8>>::Ok(key@) && exists|
                    salt: Seq<u8>,
                    nonce: Seq<u8>,
                |
                    salt.len() == SALT_LENGTH && nonce.len() == NONCE_LENGTH && crypto::drawn::<16>(
                        salt,
                    ) && crypto::drawn::<12>(nonce) && p@
                        == #[trigger] wrapped_payload(self@, salt, nonce, key@),
                Err(e) => {
                    ||| e is Crypto && (crypto::draw_failed::<16>() || crypto::draw_failed::<12>())
                    ||| e is Protector && exists|salt: Seq<u8>|
                        crypto::drawn::<16>(salt) && #[trigger] crypto::derivation_failed(
                            self@,
                            salt,
                            MEMORY_COST,
                            TIME_COST,
                            PARALLELISM,
                        )
                },
            },
    {
        let salt: [u8; 16] = match crypto::draw::<16>() {
            Err(_) => {
                return Err(XSecError::Crypto);
            },
            Ok(salt) => salt,
        };
        let nonce: [u8; 12] = match crypto::draw::<12>() {
            Err(_) => {
                return Err(XSecError::Crypto);
            },
            Ok(nonce) => nonce,
        };
        let kek: SecretKey = match derive_key(
            self.password.expose_secret(),
            &salt,
            MEMORY_COST,
            TIME_COST,
            PARALLELISM,
        ) {
            Err(error) => {
                return Err(error);
            },
            Ok(kek) => kek,
        };
        let payload: XSecResult<Vec<u8>> = seal_payload(&kek, salt, nonce, key);
        assert(payload->Ok_0@ == wrapped_payload(self@, salt@, nonce@, key@));
        payload
    }

    /// Takes the key out of a payload. Besides what the payload itself decides, the
    /// key derivation may fail.
    fn unwrap_key(&self, payload: &[u8]) -> (key: XSecResult<SecretKey>)
        ensures
            match key {
                Ok(k) => unwrapped(self@, payload@) == XSecResult::<Seq<u8>>::Ok(k@),
                Err(e) => {
                    ||| unwrapped(self@, payload@) == XSecResult::<Seq<u8>>::Err(e)
                    ||| e is Protector && (read_payload(payload@) matches Ok(f)
                        && crypto::derivation_failed(
                        self@,
                        f.salt,
                        f.memory_cost,
                        f.time_cost,
                        f.parallelism,
                    ))
                },
            },
    {
        let parsed: PasswordPayload<'_> = match PasswordPayload::parse(payload) {
            Err(error) => {
                return Err(error);
            },
            Ok(parsed) => parsed,
        };
        proof {
            law_payload_canonical(payload@);
        }
        let kek: SecretKey = match derive_key(
            self.password.expose_secret(),
            parsed.salt,
            parsed.memory_cost,
            parsed.time_cost,
            parsed.parallelism,
        ) {
            Err(error) => {
                return Err(error);
            },
            Ok(kek) => kek,
        };
        open_payload(&kek, &parsed)
    }
}

} // verus!
