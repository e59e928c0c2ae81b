//! The value of one variable: how it is quoted in a document and how it is
//! protected.
use vstd::prelude::*;
use vstd::utf8::*;

use crate::bytes;
use crate::ciphertext;
use crate::cli::base64url;
use crate::cli::dotenv::{BACKSLASH, CARRIAGE_RETURN, DOUBLE_QUOTE, LINE_FEED};
use crate::cli::error::{CliError, CliResult};
use crate::crypto;
use crate::error::{XSecError, XSecResult};
use crate::secret::ZeroizingBytes;
use crate::xsec;
use crate::xsec::XSec;

verus! {

/// What a protected value is bound to, before the name of its variable.
pub const ENV_VALUE_AAD: &'static str = "xsec-cli:env:value:v1\0";

/// The mark of a protected value.
pub const ENCRYPTED_VALUE_PREFIX: &'static str = "xsec:";

/// The most bytes of a plaintext document, and of one value.
pub const MAX_ENV_FILE_SIZE: usize = 0x10_0000;

/// The most bytes of a document with protected values.
pub const MAX_ENCRYPTED_ENV_FILE_SIZE: usize = 0x100_0000;

/// The most bytes whose ciphertext has a Base64 text.
pub const MAX_PROTECTABLE_LENGTH: usize = usize::MAX / 4 - 55;

pub const DOLLAR: u8 = 0x24;

/// A byte as it stands between double quotes: backslash, double quote, dollar sign
/// and line feed stand behind a backslash.
pub open spec fn escaped_byte(b: u8) -> Seq<u8> {
    if b == BACKSLASH || b == DOUBLE_QUOTE || b == DOLLAR {
        seq![BACKSLASH, b]
    } else if b == LINE_FEED {
        seq![BACKSLASH, 0x6E]
    } else {
        seq![b]
    }
}

/// Bytes as they stand between double quotes.
pub open spec fn escaped(value: Seq<u8>) -> Seq<u8>
    decreases value.len(),
{
    if value.len() == 0 {
        Seq::empty()
    } else {
        escaped(value.drop_last()) + escaped_byte(value.last())
    }
}

/// Bytes as they stand in a document: between double quotes.
pub open spec fn quoted(value: Seq<u8>) -> Seq<u8> {
    seq![DOUBLE_QUOTE] + escaped(value) + seq![DOUBLE_QUOTE]
}

/// Bytes that can stand in a document: UTF-8 without NUL.
pub open spec fn quotable(value: Seq<u8>) -> bool {
    !value.contains(0) && valid_utf8(value)
}

/// Text that can be entered as a value: of limited size, without NUL or carriage
/// return.
pub open spec fn enterable(value: Seq<u8>) -> bool {
    value.len() <= MAX_ENV_FILE_SIZE && !value.contains(0) && !value.contains(CARRIAGE_RETURN)
}

/// Takes a value that was entered. It fails on a value that is too long or holds
/// NUL or a carriage return.
pub fn read_environment_value(value: String) -> (entered: CliResult<ZeroizingBytes>)
    ensures
        entered is Ok == enterable(encode_utf8(value@)),
        entered matches Ok(v) ==> v@ == encode_utf8(value@),
        entered matches Err(e) ==> if encode_utf8(value@).len() > MAX_ENV_FILE_SIZE {
            e is EnvironmentValueTooLarge
        } else {
            e is InvalidEnvironmentValue
        },
{
    let raw: &[u8] = value.as_str().as_bytes();
    if raw.len() > MAX_ENV_FILE_SIZE {
        return Err(CliError::EnvironmentValueTooLarge);
    }
    if bytes::contains(raw, 0) || bytes::contains(raw, CARRIAGE_RETURN) {
        return Err(CliError::InvalidEnvironmentValue);
    }
    let copy: Vec<u8> = bytes::copy_range(raw, 0, raw.len());
    assert(copy@ =~= raw@);
    Ok(ZeroizingBytes::new(copy))
}

/// Quotes a value for a document. It fails on what is not UTF-8 or holds NUL.
pub fn encode_environment_value(value: &[u8]) -> (encoded: CliResult<ZeroizingBytes>)
    ensures
        encoded is Ok == quotable(value@),
        encoded matches Ok(e) ==> e@ == quoted(value@),
        encoded matches Err(e) ==> e is InvalidEnvironmentValue,
{
    if bytes::contains(value, 0) || bytes::utf8_text(value).is_none() {
        return Err(CliError::InvalidEnvironmentValue);
    }
    let mut encoded: Vec<u8> = Vec::new();
    encoded.push(DOUBLE_QUOTE);
    let mut i: usize = 0;
    assert(value@.take(0) =~= Seq::empty());
    assert(encoded@ =~= seq![DOUBLE_QUOTE] + escaped(value@.take(0)));
    while i < value.len()
        invariant
            i <= value@.len(),
            encoded@ == seq![DOUBLE_QUOTE] + escaped(value@.take(i as int)),
        decreases value@.len() - i,
    {
        let byte: u8 = value[i];
        if byte == BACKSLASH || byte == DOUBLE_QUOTE || byte == DOLLAR {
            encoded.push(BACKSLASH);
            encoded.push(byte);
        } else if byte == LINE_FEED {
            encoded.push(BACKSLASH);
            encoded.push(0x6E);
        } else {
            encoded.push(byte);
        }
        proof {
            let next = value@.take(i + 1);
            assert(next.drop_last() =~= value@.take(i as int));
            assert(next.last() == byte);
            assert(encoded@ =~= seq![DOUBLE_QUOTE] + escaped(next));
        }
        i = i + 1;
    }
    encoded.push(DOUBLE_QUOTE);
    assert(value@.take(i as int) =~= value@);
    assert(encoded@ =~= quoted(value@));
    Ok(ZeroizingBytes::new(encoded))
}

/// What the protected value of a variable is bound to.
pub open spec fn value_aad(name: Seq<char>) -> Seq<u8> {
    bytes::text(ENV_VALUE_AAD) + encode_utf8(name)
}

fn environment_value_aad(key: &str) -> (aad: Vec<u8>)
    ensures
        aad@ == value_aad(key@),
{
    let mut aad: Vec<u8> = Vec::new();
    aad.extend_from_slice(ENV_VALUE_AAD.as_bytes());
    aad.extend_from_slice(key.as_bytes());
    assert(aad@ =~= value_aad(key@));
    aad
}

/// The text of a ciphertext: the mark and Base64.
pub open spec fn marked(sealed: Seq<u8>) -> Seq<char> {
    ENCRYPTED_VALUE_PREFIX@ + base64url::base64url(sealed)
}

/// The protected form of a value.
pub open spec fn protected(key: Seq<u8>, nonce: Seq<u8>, name: Seq<char>, value: Seq<u8>) -> Seq<
    char,
> {
    marked(ciphertext::sealed(key, nonce, value, value_aad(name)))
}

/// A value that carries the mark of a protected one.
pub open spec fn is_protected(value: Seq<char>) -> bool {
    ENCRYPTED_VALUE_PREFIX@.is_prefix_of(value)
}

/// What the value of a variable stands for: itself, or what its protected form
/// decrypts to. `None` where it does not decrypt.
pub open spec fn revealed(key: XSecResult<Seq<u8>>, name: Seq<char>, value: Seq<char>) -> Option<
    Seq<u8>,
> {
    if !is_protected(value) {
        Some(encode_utf8(value))
    } else {
        match (key, base64url::base64url_decoded(value.skip(5))) {
            (Ok(k), Some(sealed)) => if xsec::bindable(value_aad(name)) {
                match ciphertext::opened(k, sealed, value_aad(name)) {
                    Ok(plaintext) => Some(plaintext),
                    Err(_) => None,
                }
            } else {
                None
            },
            _ => None,
        }
    }
}

proof fn lemma_prefix()
    ensures
        ENCRYPTED_VALUE_PREFIX@.len() == 5,
        bytes::text(ENCRYPTED_VALUE_PREFIX).len() == 5,
        is_ascii_chars(ENCRYPTED_VALUE_PREFIX@),
{
    reveal_strlit("xsec:");
    assert(is_ascii_chars(ENCRYPTED_VALUE_PREFIX@));
    is_ascii_chars_encode_utf8(ENCRYPTED_VALUE_PREFIX@);
}

/// A protected value carries the mark, and Base64 behind it.
pub proof fn law_protected_form(key: Seq<u8>, nonce: Seq<u8>, name: Seq<char>, value: Seq<u8>)
    ensures
        is_protected(protected(key, nonce, name, value)),
        base64url::base64url_decoded(protected(key, nonce, name, value).skip(5)) == Some(
            ciphertext::sealed(key, nonce, value, value_aad(name)),
        ),
{
    lemma_prefix();
    let sealed = ciphertext::sealed(key, nonce, value, value_aad(name));
    base64url::law_round_trip(sealed);
    assert(protected(key, nonce, name, value).skip(5) =~= base64url::base64url(sealed));
}

/// A protected value can stand in a document, and is quoted as it is: nothing in it
/// needs a backslash.
pub proof fn law_protected_quotable(key: Seq<u8>, nonce: Seq<u8>, name: Seq<char>, value: Seq<u8>)
    ensures
        ({
            let raw = encode_utf8(protected(key, nonce, name, value));
            quotable(raw) && quoted(raw) == seq![DOUBLE_QUOTE] + raw + seq![DOUBLE_QUOTE]
        }),
{
    let text = protected(key, nonce, name, value);
    let sealed = ciphertext::sealed(key, nonce, value, value_aad(name));
    base64url::law_alphabet(sealed);
    reveal_strlit("xsec:");
    assert forall|i: int| 0 <= i < text.len() implies base64url::in_alphabet(#[trigger] text[i])
        || text[i] == ':' by {
        if i >= 5 {
            assert(text[i] == base64url::base64url(sealed)[i - 5]);
        }
    }
    assert(is_ascii_chars(text));
    is_ascii_chars_encode_utf8(text);
    let raw = encode_utf8(text);
    encode_utf8_valid_utf8(text);
    assert forall|i: int| 0 <= i < raw.len() implies escaped_byte(#[trigger] raw[i]) == seq![raw[i]]
        && raw[i] != 0 by {
        assert(base64url::in_alphabet(text[i]) || text[i] == ':');
    }
    lemma_plain(raw);
}

/// Bytes none of which needs a backslash are escaped as they are.
pub proof fn lemma_plain(raw: Seq<u8>)
    requires
        forall|i: int| 0 <= i < raw.len() ==> escaped_byte(#[trigger] raw[i]) == seq![raw[i]],
    ensures
        escaped(raw) == raw,
    decreases raw.len(),
{
    if raw.len() == 0 {
        assert(escaped(raw) =~= raw);
    } else {
        assert forall|i: int| 0 <= i < raw.drop_last().len() implies escaped_byte(
            #[trigger] raw.drop_last()[i],
        ) == seq![raw.drop_last()[i]] by {
            assert(raw.drop_last()[i] == raw[i]);
        }
        lemma_plain(raw.drop_last());
        assert(escaped_byte(raw[raw.len() - 1]) == seq![raw.last()]);
        assert(escaped(raw) =~= raw);
    }
}

/// Two variables bind their values to different data: a protected value that is
/// moved to another name is bound to something else.
pub proof fn law_value_aad_injective(a: Seq<char>, b: Seq<char>)
    requires
        value_aad(a) == value_aad(b),
    ensures
        a == b,
{
    let n = bytes::text(ENV_VALUE_AAD).len() as int;
    assert(value_aad(a).skip(n) =~= encode_utf8(a));
    assert(value_aad(b).skip(n) =~= encode_utf8(b));
    bytes::lemma_text_injective(a, b);
}

/// Puts a ciphertext into text.
pub fn mark_ciphertext(sealed: &[u8]) -> (text: ZeroizingBytes)
    requires
        sealed@.len() <= usize::MAX / 4,
    ensures
        text@ == encode_utf8(marked(sealed@)),
{
    let encoded: String = base64url::encode_string(sealed);
    let mut text: Vec<u8> = Vec::new();
    text.extend_from_slice(ENCRYPTED_VALUE_PREFIX.as_bytes());
    text.extend_from_slice(encoded.as_str().as_bytes());
    proof {
        bytes::lemma_encode_concat(ENCRYPTED_VALUE_PREFIX@, encoded@);
        assert(text@ =~= encode_utf8(marked(sealed@)));
    }
    ZeroizingBytes::new(text)
}

/// No nonce was to be had for a value, or it is over the limits of the cipher.
pub open spec fn unsealable(name: Seq<char>, value: Seq<u8>) -> bool {
    crypto::draw_failed::<12>() || !xsec::encryptable(value, value_aad(name))
}

/// Protects a value and binds it to the name of its variable. What comes out reveals
/// the value again. It fails where the key is not at hand, on a value over the limits
/// of the cipher or of Base64, and where the system gives no randomness.
pub fn encrypt_environment_value<S>(key: &str, value: &[u8], xsec: &XSec<S>) -> (result: CliResult<
    ZeroizingBytes,
>)
    ensures
        value@.len() > MAX_PROTECTABLE_LENGTH ==> (result matches Err(e) && e
            is EnvironmentValueTooLarge),
        value@.len() <= MAX_PROTECTABLE_LENGTH ==> match xsec@.key() {
            Err(e) => result == CliResult::<ZeroizingBytes>::Err(CliError::XSec(e)),
            Ok(k) => match result {
                Ok(out) => exists|nonce: Seq<u8>|
                    nonce.len() == 12 && crypto::drawn::<12>(nonce) && out@ == encode_utf8(
                        #[trigger] protected(k, nonce, key@, value@),
                    ) && revealed(xsec@.key(), key@, protected(k, nonce, key@, value@)) == Some(
                        value@,
                    ),
                Err(e) => e == CliError::XSec(XSecError::Crypto) && unsealable(key@, value@),
            },
        },
{
    if value.len() > MAX_PROTECTABLE_LENGTH {
        return Err(CliError::EnvironmentValueTooLarge);
    }
    let aad: Vec<u8> = environment_value_aad(key);
    let sealed: Vec<u8> = match xsec.encrypt_with_aad(value, aad.as_slice()) {
        Err(error) => {
            return Err(CliError::XSec(error));
        },
        Ok(sealed) => sealed,
    };
    proof {
        let k = xsec@.key()->Ok_0;
        let nonce = choose|nonce: Seq<u8>|
            nonce.len() == 12 && crypto::drawn::<12>(nonce) && sealed@
                == #[trigger] ciphertext::sealed(
                k,
                nonce,
                value@,
                aad@,
            );
        law_protected_form(k, nonce, key@, value@);
        assert(marked(sealed@) == protected(k, nonce, key@, value@));
    }
    Ok(mark_ciphertext(sealed.as_slice()))
}

/// Splits the mark off a protected value.
fn strip_mark(value: &str) -> (rest: Option<&str>)
    ensures
        rest is Some == is_protected(value@),
        rest matches Some(r) ==> value@ == ENCRYPTED_VALUE_PREFIX@ + r@,
{
    let raw: &[u8] = value.as_bytes();
    let mark: &[u8] = ENCRYPTED_VALUE_PREFIX.as_bytes();
    proof {
        lemma_prefix();
        if is_protected(value@) {
            let rest = value@.skip(5);
            assert(value@ =~= ENCRYPTED_VALUE_PREFIX@ + rest);
            bytes::lemma_encode_concat(ENCRYPTED_VALUE_PREFIX@, rest);
            assert(mark@.is_prefix_of(raw@));
        }
    }
    if !bytes::starts_with(raw, mark) {
        return None;
    }
    proof {
        encode_utf8_valid_utf8(value@);
        bytes::lemma_suffix_valid(ENCRYPTED_VALUE_PREFIX@, raw@);
        assert(raw@.subrange(5, raw@.len() as int) =~= raw@.skip(5));
    }
    match bytes::utf8_text(&raw[5..raw.len()]) {
        None => None,
        Some(rest) => {
            proof {
                bytes::lemma_encode_concat(ENCRYPTED_VALUE_PREFIX@, rest@);
                assert(raw@ =~= mark@ + raw@.skip(5));
                bytes::lemma_text_injective(value@, ENCRYPTED_VALUE_PREFIX@ + rest@);
            }
            Some(rest)
        },
    }
}

/// Whether a value carries the mark of a protected one.
pub fn is_encrypted(value: &str) -> (yes: bool)
    ensures
        yes == is_protected(value@),
{
    strip_mark(value).is_some()
}

/// What the value of a variable stands for. It fails where a protected value does
/// not decrypt under the name of its variable.
pub fn decrypt_environment_value<S>(key: &str, value: &str, xsec: &XSec<S>) -> (result: CliResult<
    ZeroizingBytes,
>)
    ensures
        match result {
            Ok(plaintext) => revealed(xsec@.key(), key@, value@) == Some(plaintext@),
            Err(e) => revealed(xsec@.key(), key@, value@) is None && (e
                matches CliError::InvalidEncryptedVariable(name) && name@ == key@),
        },
{
    let encoded: &str = match strip_mark(value) {
        None => {
            let raw: &[u8] = value.as_bytes();
            let copy: Vec<u8> = bytes::copy_range(raw, 0, raw.len());
            assert(copy@ =~= raw@);
            return Ok(ZeroizingBytes::new(copy));
        },
        Some(encoded) => encoded,
    };
    proof {
        lemma_prefix();
        assert(value@.skip(5) =~= encoded@);
    }
    let sealed: Vec<u8> = match base64url::decode_vec(encoded) {
        Err(_) => {
            return Err(CliError::InvalidEncryptedVariable(key.to_owned()));
        },
        Ok(sealed) => sealed,
    };
    proof {
        base64url::law_round_trip(sealed@);
    }
    let aad: Vec<u8> = environment_value_aad(key);
    match xsec.decrypt_with_aad(sealed.as_slice(), aad.as_slice()) {
        Err(_) => Err(CliError::InvalidEncryptedVariable(key.to_owned())),
        Ok(plaintext) => Ok(plaintext),
    }
}

} // verus!
