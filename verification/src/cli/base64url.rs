//! URL-safe Base64 without padding, the text form of an encrypted value.
use base64ct::{Base64UrlUnpadded, Encoding};
use vstd::prelude::*;
use vstd::utf8::*;

verus! {

/// The error of `base64ct`.
#[verifier::external_type_specification]
#[verifier::external_body]
pub struct ExBase64Error(base64ct::Error);

/// The character of a six-bit group.
pub open spec fn symbol(group: int) -> char {
    if group < 26 {
        (0x41 + group) as char
    } else if group < 52 {
        (0x61 + group - 26) as char
    } else if group < 62 {
        (0x30 + group - 52) as char
    } else if group == 62 {
        '-'
    } else {
        '_'
    }
}

/// The text of some bytes: one character for every six bits, the last group filled
/// up with zeros.
pub open spec fn base64url(raw: Seq<u8>) -> Seq<char>
    decreases raw.len(),
{
    if raw.len() == 0 {
        Seq::empty()
    } else if raw.len() == 1 {
        seq![symbol(raw[0] as int / 4), symbol(raw[0] as int % 4 * 16)]
    } else if raw.len() == 2 {
        seq![symbol(raw[0] as int / 4), symbol(raw[0] as int % 4 * 16 + raw[1] as int / 16), symbol(raw[1] as int % 16 * 4)]
    } else {
        seq![
            symbol(raw[0] as int / 4),
            symbol(raw[0] as int % 4 * 16 + raw[1] as int / 16),
            symbol(raw[1] as int % 16 * 4 + raw[2] as int / 64),
            symbol(raw[2] as int % 64),
        ] + base64url(raw.skip(3))
    }
}

/// A character of the alphabet: a letter, a digit, `-` or `_`.
pub open spec fn in_alphabet(c: char) -> bool {
    'A' <= c <= 'Z' || 'a' <= c <= 'z' || '0' <= c <= '9' || c == '-' || c == '_'
}

proof fn lemma_symbol(group: int)
    requires
        0 <= group < 64,
    ensures
        in_alphabet(symbol(group)),
{
}

proof fn lemma_symbol_injective(a: int, b: int)
    requires
        0 <= a < 64,
        0 <= b < 64,
        symbol(a) == symbol(b),
    ensures
        a == b,
{
}

/// The text of any bytes is made of letters, digits, `-` and `_`.
pub proof fn law_alphabet(raw: Seq<u8>)
    ensures
        forall|i: int| 0 <= i < base64url(raw).len() ==> in_alphabet(#[trigger] base64url(raw)[i]),
    decreases raw.len(),
{
    if raw.len() == 1 {
        lemma_symbol(raw[0] as int / 4);
        lemma_symbol(raw[0] as int % 4 * 16);
    } else if raw.len() == 2 {
        lemma_symbol(raw[0] as int / 4);
        lemma_symbol(raw[0] as int % 4 * 16 + raw[1] as int / 16);
        lemma_symbol(raw[1] as int % 16 * 4);
    } else if raw.len() > 2 {
        law_alphabet(raw.skip(3));
        lemma_symbol(raw[0] as int / 4);
        lemma_symbol(raw[0] as int % 4 * 16 + raw[1] as int / 16);
        lemma_symbol(raw[1] as int % 16 * 4 + raw[2] as int / 64);
        lemma_symbol(raw[2] as int % 64);
        assert forall|i: int| 0 <= i < base64url(raw).len() implies in_alphabet(
            #[trigger] base64url(raw)[i],
        ) by {
            if i >= 4 {
                assert(base64url(raw)[i] == base64url(raw.skip(3))[i - 4]);
            }
        }
    }
}

/// The text is four characters for three bytes, rounded up.
pub proof fn law_length(raw: Seq<u8>)
    ensures
        base64url(raw).len() == (raw.len() * 4 + 2) / 3,
    decreases raw.len(),
{
    if raw.len() > 2 {
        law_length(raw.skip(3));
    }
}

/// Different bytes have different texts.
pub proof fn law_injective(a: Seq<u8>, b: Seq<u8>)
    requires
        base64url(a) == base64url(b),
    ensures
        a == b,
    decreases a.len(),
{
    law_length(a);
    law_length(b);
    let (x, y) = (base64url(a), base64url(b));
    assert(a.len() == b.len());
    if a.len() > 0 {
        assert(x[0] == symbol(a[0] as int / 4));
        assert(y[0] == symbol(b[0] as int / 4));
        lemma_symbol_injective(a[0] as int / 4, b[0] as int / 4);
        if a.len() == 1 {
            lemma_symbol_injective(a[0] as int % 4 * 16, b[0] as int % 4 * 16);
        } else {
            assert(x[1] == symbol(a[0] as int % 4 * 16 + a[1] as int / 16));
            assert(y[1] == symbol(b[0] as int % 4 * 16 + b[1] as int / 16));
            lemma_symbol_injective(
                a[0] as int % 4 * 16 + a[1] as int / 16,
                b[0] as int % 4 * 16 + b[1] as int / 16,
            );
            if a.len() == 2 {
                lemma_symbol_injective(a[1] as int % 16 * 4, b[1] as int % 16 * 4);
            } else {
                assert(x[2] == symbol(a[1] as int % 16 * 4 + a[2] as int / 64));
                assert(y[2] == symbol(b[1] as int % 16 * 4 + b[2] as int / 64));
                assert(x[3] == symbol(a[2] as int % 64));
                assert(y[3] == symbol(b[2] as int % 64));
                lemma_symbol_injective(
                    a[1] as int % 16 * 4 + a[2] as int / 64,
                    b[1] as int % 16 * 4 + b[2] as int / 64,
                );
                lemma_symbol_injective(a[2] as int % 64, b[2] as int % 64);
                assert(x.skip(4) =~= base64url(a.skip(3)));
                assert(y.skip(4) =~= base64url(b.skip(3)));
                law_injective(a.skip(3), b.skip(3));
                assert forall|i: int| 0 <= i < a.len() implies a[i] == b[i] by {
                    if i >= 3 {
                        assert(a[i] == a.skip(3)[i - 3]);
                        assert(b[i] == b.skip(3)[i - 3]);
                    }
                }
            }
        }
    }
    assert(a =~= b);
}

/// The bytes whose text this is, where there are any.
pub open spec fn base64url_decoded(text: Seq<char>) -> Option<Seq<u8>> {
    if exists|raw: Seq<u8>| #[trigger] base64url(raw) == text {
        Some(choose|raw: Seq<u8>| #[trigger] base64url(raw) == text)
    } else {
        None
    }
}

/// The text of some bytes stands for these bytes.
pub proof fn law_round_trip(raw: Seq<u8>)
    ensures
        base64url_decoded(base64url(raw)) == Some(raw),
{
    let text = base64url(raw);
    let found = choose|r: Seq<u8>| #[trigger] base64url(r) == text;
    assert(base64url(raw) == text);
    law_injective(found, raw);
}

/// `base64ct::Base64UrlUnpadded::encode_string`: the Base64 text of the bytes, in
/// the URL-safe alphabet and without padding. It panics on more than
/// `usize::MAX / 4` bytes.
#[verifier::external_body]
pub(crate) fn encode_string(raw: &[u8]) -> (text: String)
    requires
        raw@.len() <= usize::MAX / 4,
    ensures
        text@ == base64url(raw@),
{
    Base64UrlUnpadded::encode_string(raw)
}

/// `base64ct::Base64UrlUnpadded::decode_vec`: the bytes whose Base64 text this is.
/// It fails on every text that is not the text of any bytes.
#[verifier::external_body]
pub(crate) fn decode_vec(text: &str) -> (raw: Result<Vec<u8>, base64ct::Error>)
    ensures
        raw matches Ok(r) ==> base64url(r@) == text@,
        raw is Err ==> forall|r: Seq<u8>| #[trigger] base64url(r) != text@,
{
    Base64UrlUnpadded::decode_vec(text)
}

} // verus!
