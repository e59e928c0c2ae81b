//! The framing of encrypted data.
//!
//! A ciphertext is a 39-byte header (magic, version, algorithm, key identifier,
//! nonce length and nonce) followed by the sealed payload.
use vstd::prelude::*;
use vstd::utf8::*;

use crate::bytes;
use crate::crypto;
use crate::crypto::TAG_LENGTH;
use crate::error::{XSecError, XSecResult};

verus! {

pub const MAGIC: &'static str = "XSecCT";

pub const VERSION: u16 = 1;

pub const ALGORITHM: u16 = 1;

pub const KEY_ID_LENGTH: usize = 16;

pub const NONCE_LENGTH: usize = 12;

pub const HEADER_LENGTH: usize = 39;

pub const AAD_DOMAIN: &'static str = "xsec:data-aad:v1";

/// The parsed header of a ciphertext.
pub struct CiphertextHeader {
    nonce: [u8; 12],
    raw: Vec<u8>,
}

/// A header with the sealed payload that follows it.
pub struct Ciphertext {
    header: CiphertextHeader,
    encrypted_payload: Vec<u8>,
}

/// The key identifier: there is one key, identified by zeros.
pub open spec fn key_id() -> Seq<u8> {
    Seq::new(KEY_ID_LENGTH as nat, |i: int| 0u8)
}

/// The header that announces `nonce`.
pub open spec fn header_bytes(nonce: Seq<u8>) -> Seq<u8> {
    bytes::text(MAGIC) + bytes::be16(VERSION) + bytes::be16(ALGORITHM) + key_id()
        + seq![NONCE_LENGTH as u8] + nonce
}

/// What is authenticated along with a payload: the header and the caller's data,
/// each behind its length.
pub open spec fn combined_aad(header: Seq<u8>, user_aad: Seq<u8>) -> Seq<u8> {
    bytes::text(AAD_DOMAIN) + bytes::be32(header.len() as u32) + header + bytes::be64(
        user_aad.len() as u64,
    ) + user_aad
}

/// The nonce in a header, or why there is none.
pub open spec fn read_header(input: Seq<u8>) -> XSecResult<Seq<u8>> {
    if input.len() != HEADER_LENGTH || input.take(6) != bytes::text(MAGIC) {
        Err(XSecError::InvalidCiphertext)
    } else if input.subrange(6, 8) != bytes::be16(VERSION) {
        Err(XSecError::UnsupportedVersion)
    } else if input.subrange(8, 10) != bytes::be16(ALGORITHM) {
        Err(XSecError::UnsupportedAlgorithm)
    } else if input.subrange(10, 26) != key_id() || input[26] != NONCE_LENGTH {
        Err(XSecError::InvalidCiphertext)
    } else {
        Ok(input.skip(27))
    }
}

/// The nonce and the sealed payload of a ciphertext, or why there are none.
pub open spec fn read_ciphertext(input: Seq<u8>) -> XSecResult<(Seq<u8>, Seq<u8>)> {
    if input.len() < HEADER_LENGTH {
        Err(XSecError::InvalidCiphertext)
    } else {
        match read_header(input.take(HEADER_LENGTH as int)) {
            Err(e) => Err(e),
            Ok(nonce) => if input.len() < HEADER_LENGTH + TAG_LENGTH {
                Err(XSecError::InvalidCiphertext)
            } else {
                Ok((nonce, input.skip(HEADER_LENGTH as int)))
            },
        }
    }
}

/// The ciphertext of `plaintext` under `key` and `nonce`.
pub open spec fn sealed(key: Seq<u8>, nonce: Seq<u8>, plaintext: Seq<u8>, aad: Seq<u8>) -> Seq<u8> {
    header_bytes(nonce) + crypto::aes256_gcm_seal(
        key,
        nonce,
        plaintext,
        combined_aad(header_bytes(nonce), aad),
    )
}

/// What a ciphertext decrypts to under `key`, or why it does not.
pub open spec fn opened(key: Seq<u8>, input: Seq<u8>, aad: Seq<u8>) -> XSecResult<Seq<u8>> {
    match read_ciphertext(input) {
        Err(e) => Err(e),
        Ok((nonce, payload)) => match crypto::aes256_gcm_open(
            key,
            nonce,
            payload,
            combined_aad(header_bytes(nonce), aad),
        ) {
            None => Err(XSecError::InvalidCiphertext),
            Some(plaintext) => Ok(plaintext),
        },
    }
}

proof fn lemma_constant_lengths()
    ensures
        bytes::text(MAGIC).len() == 6,
        bytes::text(AAD_DOMAIN).len() == 16,
{
    reveal_strlit("XSecCT");
    reveal_strlit("xsec:data-aad:v1");
    assert(is_ascii_chars(MAGIC@));
    assert(is_ascii_chars(AAD_DOMAIN@));
    is_ascii_chars_encode_utf8(MAGIC@);
    is_ascii_chars_encode_utf8(AAD_DOMAIN@);
}

/// The framing of caller data takes 67 bytes.
pub proof fn lemma_combined_aad_length(nonce: Seq<u8>, aad: Seq<u8>)
    requires
        nonce.len() == NONCE_LENGTH,
    ensures
        combined_aad(header_bytes(nonce), aad).len() == 67 + aad.len(),
{
    lemma_constant_lengths();
}

/// A nonce has twelve bytes.
pub(crate) proof fn lemma_nonce_length(header: &CiphertextHeader)
    ensures
        header@.len() == NONCE_LENGTH,
{
}

/// A header reads back as the nonce it was made for.
pub proof fn law_header_round_trip(nonce: Seq<u8>)
    requires
        nonce.len() == NONCE_LENGTH,
    ensures
        header_bytes(nonce).len() == HEADER_LENGTH,
        read_header(header_bytes(nonce)) == XSecResult::<Seq<u8>>::Ok(nonce),
{
    lemma_constant_lengths();
    let h = header_bytes(nonce);
    assert(h.take(6) =~= bytes::text(MAGIC));
    assert(h.subrange(6, 8) =~= bytes::be16(VERSION));
    assert(h.subrange(8, 10) =~= bytes::be16(ALGORITHM));
    assert(h.subrange(10, 26) =~= key_id());
    assert(h.skip(27) =~= nonce);
}

/// Only the header made for a nonce reads as that nonce: a header has one form.
pub proof fn law_header_canonical(input: Seq<u8>)
    requires
        read_header(input) is Ok,
    ensures
        read_header(input)->Ok_0.len() == NONCE_LENGTH,
        input == header_bytes(read_header(input)->Ok_0),
{
    lemma_constant_lengths();
    let h = header_bytes(input.skip(27));
    assert forall|i: int| 0 <= i < HEADER_LENGTH implies input[i] == h[i] by {
        if i < 6 {
            assert(input[i] == input.take(6)[i]);
        } else if i < 8 {
            assert(input[i] == input.subrange(6, 8)[i - 6]);
        } else if i < 10 {
            assert(input[i] == input.subrange(8, 10)[i - 8]);
        } else if i < 26 {
            assert(input[i] == input.subrange(10, 26)[i - 10]);
        } else if i > 26 {
            assert(input[i] == input.skip(27)[i - 27]);
        }
    }
    assert(input =~= h);
}

/// A ciphertext reads back as the nonce and payload it was framed from.
pub proof fn law_ciphertext_round_trip(nonce: Seq<u8>, payload: Seq<u8>)
    requires
        nonce.len() == NONCE_LENGTH,
        payload.len() >= TAG_LENGTH,
    ensures
        read_ciphertext(header_bytes(nonce) + payload) == XSecResult::<(Seq<u8>, Seq<u8>)>::Ok(
            (nonce, payload),
        ),
{
    law_header_round_trip(nonce);
    let input = header_bytes(nonce) + payload;
    assert(input.take(HEADER_LENGTH as int) =~= header_bytes(nonce));
    assert(input.skip(HEADER_LENGTH as int) =~= payload);
}

/// Two headers and two pieces of caller data are authenticated as the same bytes
/// only where they are the same: none of a header can pass for caller data.
pub proof fn law_combined_aad_injective(h1: Seq<u8>, a1: Seq<u8>, h2: Seq<u8>, a2: Seq<u8>)
    requires
        h1.len() <= u32::MAX,
        h2.len() <= u32::MAX,
        a1.len() <= u64::MAX,
        a2.len() <= u64::MAX,
        combined_aad(h1, a1) == combined_aad(h2, a2),
    ensures
        h1 == h2,
        a1 == a2,
{
    lemma_constant_lengths();
    let (c1, c2) = (combined_aad(h1, a1), combined_aad(h2, a2));
    assert(c1.subrange(16, 20) =~= bytes::be32(h1.len() as u32));
    assert(c2.subrange(16, 20) =~= bytes::be32(h2.len() as u32));
    bytes::lemma_be32(h1.len() as u32);
    bytes::lemma_be32(h2.len() as u32);
    let n = h1.len() as int;
    assert(c1.subrange(20, 20 + n) =~= h1);
    assert(c2.subrange(20, 20 + n) =~= h2);
    assert(c1.skip(28 + n) =~= a1);
    assert(c2.skip(28 + n) =~= a2);
}

impl CiphertextHeader {
    /// The nonce that the header announces.
    pub closed spec fn view(&self) -> Seq<u8> {
        self.nonce@
    }

    /// The raw bytes are those of the header for the nonce.
    pub closed spec fn wf(&self) -> bool {
        self.raw@ == header_bytes(self.nonce@)
    }

    /// A header with the given nonce.
    pub fn from_nonce(nonce: [u8; 12]) -> (header: Self)
        ensures
            header.wf(),
            header@ == nonce@,
    {
        let mut raw: Vec<u8> = Vec::new();
        raw.extend_from_slice(MAGIC.as_bytes());
        bytes::push_u16(&mut raw, VERSION);
        bytes::push_u16(&mut raw, ALGORITHM);
        let key_id: [u8; 16] = [0; 16];
        raw.extend_from_slice(&key_id);
        raw.push(NONCE_LENGTH as u8);
        raw.extend_from_slice(&nonce);
        assert(key_id@ =~= self::key_id());
        assert(raw@ =~= header_bytes(nonce@));
        CiphertextHeader { nonce, raw }
    }

    /// A header with a fresh random nonce.
    pub fn new() -> (header: XSecResult<Self>)
        ensures
            header matches Ok(h) ==> h.wf() && crypto::drawn::<12>(h@),
            header matches Err(e) ==> e is Crypto && crypto::draw_failed::<12>(),
    {
        match crypto::draw::<12>() {
            Ok(nonce) => Ok(Self::from_nonce(nonce)),
            Err(_) => Err(XSecError::Crypto),
        }
    }

    /// Reads a header, which is exactly `HEADER_LENGTH` bytes long.
    pub fn parse(input: &[u8]) -> (header: XSecResult<Self>)
        ensures
            header matches Ok(h) ==> h.wf() && read_header(input@) == XSecResult::<Seq<u8>>::Ok(
                h@,
            ),
            header matches Err(e) ==> read_header(input@) == XSecResult::<Seq<u8>>::Err(e),
    {
        proof {
            lemma_constant_lengths();
        }
        if input.len() != HEADER_LENGTH || !bytes::equal(&input[0..6], MAGIC.as_bytes()) {
            assert(input@.len() == HEADER_LENGTH ==> input@.take(6) =~= input@.subrange(0, 6));
            return Err(XSecError::InvalidCiphertext);
        }
        assert(input@.take(6) =~= input@.subrange(0, 6));
        proof {
            bytes::lemma_from_be16(input@.subrange(6, 8));
            bytes::lemma_from_be16(input@.subrange(8, 10));
            bytes::lemma_be16(VERSION);
            bytes::lemma_be16(ALGORITHM);
        }
        if bytes::read_u16_at(input, 6) != VERSION {
            return Err(XSecError::UnsupportedVersion);
        }
        if bytes::read_u16_at(input, 8) != ALGORITHM {
            return Err(XSecError::UnsupportedAlgorithm);
        }
        let key_id: [u8; 16] = [0; 16];
        assert(key_id@ =~= self::key_id());
        if !bytes::equal(&input[10..26], &key_id) || input[26] as usize != NONCE_LENGTH {
            return Err(XSecError::InvalidCiphertext);
        }
        let mut nonce: [u8; 12] = [0; 12];
        bytes::copy_into(&mut nonce, &input[27..39]);
        assert(input@.subrange(27, 39) =~= input@.skip(27));
        proof {
            law_header_canonical(input@);
        }
        let raw: Vec<u8> = bytes::copy_range(input, 0, 39);
        assert(raw@ =~= input@);
        Ok(CiphertextHeader { nonce, raw })
    }

    /// The nonce that the header announces.
    pub fn nonce(&self) -> (nonce: &[u8; 12])
        ensures
            nonce@ == self@,
    {
        &self.nonce
    }

    /// The header as it stands in a ciphertext.
    pub fn raw(&self) -> (raw: &[u8])
        requires
            self.wf(),
        ensures
            raw@ == header_bytes(self@),
    {
        self.raw.as_slice()
    }

    /// The bytes that are authenticated along with the payload. It fails where
    /// they would not fit in memory.
    pub fn combined_aad(&self, user_aad: &[u8]) -> (combined: XSecResult<Vec<u8>>)
        requires
            self.wf(),
        ensures
            combined is Ok <==> 67 + user_aad@.len() <= usize::MAX,
            combined matches Ok(aad) ==> aad@ == self::combined_aad(
                header_bytes(self@),
                user_aad@,
            ),
            combined matches Err(e) ==> e is Crypto,
    {
        proof {
            lemma_constant_lengths();
        }
        let fixed: usize = AAD_DOMAIN.len() + 4 + self.raw.len() + 8;
        if fixed.checked_add(user_aad.len()).is_none() {
            return Err(XSecError::Crypto);
        }
        let mut combined: Vec<u8> = Vec::new();
        combined.extend_from_slice(AAD_DOMAIN.as_bytes());
        bytes::push_u32(&mut combined, self.raw.len() as u32);
        combined.extend_from_slice(self.raw.as_slice());
        bytes::push_u64(&mut combined, user_aad.len() as u64);
        combined.extend_from_slice(user_aad);
        assert(combined@ =~= self::combined_aad(header_bytes(self@), user_aad@));
        Ok(combined)
    }
}

impl Ciphertext {
    /// The nonce and the sealed payload.
    pub closed spec fn view(&self) -> (Seq<u8>, Seq<u8>) {
        (self.header@, self.encrypted_payload@)
    }

    /// The header is well formed and the payload holds at least the tag.
    pub closed spec fn wf(&self) -> bool {
        self.header.wf() && self.encrypted_payload@.len() >= TAG_LENGTH
    }

    /// Joins a header and a payload. It fails on a payload too short for the tag.
    pub fn new(header: CiphertextHeader, encrypted_payload: Vec<u8>) -> (ciphertext: XSecResult<
        Self,
    >)
        requires
            header.wf(),
        ensures
            ciphertext is Ok <==> encrypted_payload@.len() >= TAG_LENGTH,
            ciphertext matches Ok(c) ==> c.wf() && c@ == (header@, encrypted_payload@),
            ciphertext matches Err(e) ==> e is InvalidCiphertext,
    {
        if encrypted_payload.len() < TAG_LENGTH {
            return Err(XSecError::InvalidCiphertext);
        }
        Ok(Ciphertext { header, encrypted_payload })
    }

    /// Reads a ciphertext.
    pub fn parse(input: &[u8]) -> (ciphertext: XSecResult<Self>)
        ensures
            ciphertext matches Ok(c) ==> c.wf() && read_ciphertext(input@) == XSecResult::<
                (Seq<u8>, Seq<u8>),
            >::Ok(c@),
            ciphertext matches Err(e) ==> read_ciphertext(input@) == XSecResult::<
                (Seq<u8>, Seq<u8>),
            >::Err(e),
    {
        if input.len() < HEADER_LENGTH {
            return Err(XSecError::InvalidCiphertext);
        }
        assert(input@.subrange(0, HEADER_LENGTH as int) =~= input@.take(HEADER_LENGTH as int));
        match CiphertextHeader::parse(&input[0..HEADER_LENGTH]) {
            Err(error) => Err(error),
            Ok(header) => {
                let payload: Vec<u8> = bytes::copy_range(input, HEADER_LENGTH, input.len());
                assert(payload@ =~= input@.skip(HEADER_LENGTH as int));
                Self::new(header, payload)
            },
        }
    }

    /// The header.
    pub fn header(&self) -> (header: &CiphertextHeader)
        requires
            self.wf(),
        ensures
            header.wf(),
            header@ == self@.0,
    {
        &self.header
    }

    /// The sealed payload.
    pub fn encrypted_payload(&self) -> (payload: &[u8])
        ensures
            payload@ == self@.1,
    {
        self.encrypted_payload.as_slice()
    }

    /// The ciphertext as it is stored: the header, then the payload.
    pub fn encode(&self) -> (output: Vec<u8>)
        requires
            self.wf(),
        ensures
            output@ == header_bytes(self@.0) + self@.1,
    {
        let mut output: Vec<u8> = Vec::new();
        output.extend_from_slice(self.header.raw.as_slice());
        output.extend_from_slice(self.encrypted_payload.as_slice());
        assert(output@ =~= header_bytes(self@.0) + self@.1);
        output
    }
}

} // verus!
