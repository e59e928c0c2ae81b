//! What becomes of the value of a variable: which values are taken, how they stand in a
//! document, and what protects them.
use vstd::prelude::*;
use vstd::utf8::*;

use crate::bytes;
use crate::ciphertext;
use crate::cli::base64url;
use crate::cli::error::{CliError, CliResult};
use crate::cli::value;
use crate::cli::value::{
    decrypt_environment_value, encode_environment_value, encrypt_environment_value, is_encrypted,
    mark_ciphertext, read_environment_value,
};
use crate::crypto;
use crate::error::XSecError;
use crate::secret::ZeroizingBytes;
use crate::xsec::XSec;

verus! {

/// A value that is entered is taken, byte for byte, if it has at most 1048576 bytes and none
/// of them is NUL or a carriage return. Nothing else is refused, a blank or a line feed
/// neither.
pub proof fn law_values_entered(value: String, result: CliResult<ZeroizingBytes>)
    requires
        call_ensures(read_environment_value, (value,), result),
    ensures
        ({
            let raw = encode_utf8(value@);
            let clean = forall|i: int|
                0 <= i < raw.len() ==> #[trigger] raw[i] != 0x00 && raw[i] != 0x0D;
            match result {
                Ok(taken) => raw.len() <= 1_048_576 && clean && taken@ == raw,
                Err(e) => if raw.len() > 1_048_576 {
                    e is EnvironmentValueTooLarge
                } else {
                    !clean && e is InvalidEnvironmentValue
                },
            }
        }),
{
    let raw = encode_utf8(value@);
    if raw.contains(0) {
        let i = raw.index_of(0);
        assert(raw[i] == 0);
    }
    if raw.contains(0x0D) {
        let i = raw.index_of(0x0D);
        assert(raw[i] == 0x0D);
    }
}

/// How one byte of a value stands between double quotes.
pub open spec fn stands_as(b: u8, text: Seq<u8>) -> bool {
    if b == 0x22 || b == 0x24 || b == 0x5C {
        text.len() == 2 && text[0] == 0x5C && text[1] == b
    } else if b == 0x0A {
        text.len() == 2 && text[0] == 0x5C && text[1] == 0x6E
    } else {
        text.len() == 1 && text[0] == b
    }
}

/// Between two cuts of a text stands one byte of a value.
pub open spec fn byte_between(text: Seq<u8>, cuts: Seq<int>, value: Seq<u8>, i: int) -> bool {
    1 <= cuts[i] <= cuts[i + 1] < text.len() && stands_as(
        value[i],
        text.subrange(cuts[i], cuts[i + 1]),
    )
}

/// A text is a value between double quotes: cut at some places, each piece is one byte of
/// the value, in their order.
pub open spec fn quotes(text: Seq<u8>, value: Seq<u8>) -> bool {
    exists|cuts: Seq<int>|
        {
            &&& #[trigger] cuts.len() == value.len() + 1
            &&& text.len() >= 2
            &&& text[0] == 0x22
            &&& text[text.len() - 1] == 0x22
            &&& cuts[0] == 1
            &&& cuts[value.len() as int] == text.len() - 1
            &&& forall|i: int|
                0 <= i < value.len() ==> #[trigger] byte_between(text, cuts, value, i)
        }
}

proof fn lemma_cuts(v: Seq<u8>) -> (cuts: Seq<int>)
    ensures
        cuts.len() == v.len() + 1,
        cuts[0] == 1,
        cuts[v.len() as int] == value::escaped(v).len() + 1,
        forall|i: int|
            0 <= i < v.len() ==> #[trigger] byte_between(value::quoted(v), cuts, v, i),
    decreases v.len(),
{
    if v.len() == 0 {
        seq![1int]
    } else {
        let front = v.drop_last();
        let before = lemma_cuts(front);
        let all = value::quoted(v);
        let piece = value::escaped_byte(v.last());
        let head = value::escaped(front);
        let cuts = before.push(1 + head.len() as int + piece.len() as int);
        assert(all =~= seq![0x22u8] + head + piece + seq![0x22u8]);
        assert forall|i: int| 0 <= i < v.len() implies #[trigger] byte_between(all, cuts, v, i) by {
            if i < front.len() {
                let old_text = value::quoted(front).subrange(before[i], before[i + 1]);
                assert(byte_between(value::quoted(front), before, front, i));
                assert(v[i] == front[i]);
                lemma_cut_order(before, front, i);
                assert(all.subrange(cuts[i], cuts[i + 1]) =~= old_text);
            } else {
                assert(all.subrange(cuts[i], cuts[i + 1]) =~= piece);
            }
        }
        cuts
    }
}

/// The cuts come in order, none behind the last.
proof fn lemma_cut_order(cuts: Seq<int>, v: Seq<u8>, i: int)
    requires
        cuts.len() == v.len() + 1,
        0 <= i < v.len(),
        forall|k: int|
            0 <= k < v.len() ==> #[trigger] byte_between(value::quoted(v), cuts, v, k),
        cuts[v.len() as int] == value::escaped(v).len() + 1,
    ensures
        cuts[i + 1] <= value::escaped(v).len() + 1,
    decreases v.len() - i,
{
    if i + 1 < v.len() {
        lemma_cut_order(cuts, v, i + 1);
        assert(byte_between(value::quoted(v), cuts, v, i + 1));
    }
}

pub(crate) proof fn lemma_quotes(v: Seq<u8>)
    ensures
        quotes(value::quoted(v), v),
{
    let cuts = lemma_cuts(v);
    assert(cuts.len() == v.len() + 1);
}

/// A value is put between double quotes if it is UTF-8 without NUL, and any other is
/// refused. A double quote, a dollar sign, a backslash and a line feed stand behind a
/// backslash, the line feed as `n`; every other byte stands as it is, and all of them in
/// their order.
pub proof fn law_values_quoted(value: &[u8], result: CliResult<ZeroizingBytes>)
    requires
        call_ensures(encode_environment_value, (value,), result),
    ensures
        result is Ok == (valid_utf8(value@) && forall|i: int|
            0 <= i < value@.len() ==> #[trigger] value@[i] != 0),
        result matches Ok(text) ==> quotes(text@, value@),
        result matches Err(e) ==> e is InvalidEnvironmentValue,
{
    if value@.contains(0) {
        let i = value@.index_of(0);
        assert(value@[i] == 0);
    }
    lemma_quotes(value@);
}

/// A text begins with the mark of a protected value.
pub open spec fn begins_with_mark(text: Seq<char>) -> bool {
    text.len() >= 5 && text[0] == 'x' && text[1] == 's' && text[2] == 'e' && text[3] == 'c'
        && text[4] == ':'
}

pub(crate) proof fn lemma_mark(text: Seq<char>)
    ensures
        begins_with_mark(text) == value::is_protected(text),
        begins_with_mark(text) ==> text == "xsec:"@ + text.skip(5),
{
    reveal_strlit("xsec:");
    let mark = "xsec:"@;
    if begins_with_mark(text) {
        assert(mark =~= text.take(5));
        assert(mark.is_prefix_of(text));
        assert(text =~= mark + text.skip(5));
    }
    if mark.is_prefix_of(text) {
        assert(text.take(5) =~= mark);
        assert(text[0] == mark[0] && text[1] == mark[1] && text[2] == mark[2] && text[3] == mark[3]
            && text[4] == mark[4]);
    }
}

/// A value counts as protected if it begins with `xsec:`, whatever follows.
pub proof fn law_protected_values_told(text: &str, yes: bool)
    requires
        call_ensures(is_encrypted, (text,), yes),
    ensures
        yes == (text@.len() >= 5 && text@[0] == 'x' && text@[1] == 's' && text@[2] == 'e'
            && text@[3] == 'c' && text@[4] == ':'),
{
    lemma_mark(text@);
}

/// The text of a ciphertext is `xsec:` and its Base64: five characters, and then four for
/// every three bytes, rounded up.
pub proof fn law_ciphertext_marked(sealed: &[u8], text: ZeroizingBytes)
    requires
        call_ensures(mark_ciphertext, (sealed,), text),
    ensures
        text@ == encode_utf8("xsec:"@ + base64url::base64url(sealed@)),
        text@.len() == 5 + (sealed@.len() * 4 + 2) / 3,
{
    let chars = "xsec:"@ + base64url::base64url(sealed@);
    reveal_strlit("xsec:");
    base64url::law_alphabet(sealed@);
    base64url::law_length(sealed@);
    assert forall|i: int| 0 <= i < chars.len() implies '\0' <= #[trigger] chars[i] <= '\u{7f}' by {
        if i >= 5 {
            assert(chars[i] == base64url::base64url(sealed@)[i - 5]);
            assert(base64url::in_alphabet(base64url::base64url(sealed@)[i - 5]));
        }
    }
    assert(is_ascii_chars(chars));
    is_ascii_chars_encode_utf8(chars);
}

/// A value that was protected decrypts to itself, with the same data key and under the same
/// name; protected, it begins with `xsec:`.
pub proof fn law_value_round_trip<S, T>(
    name: &str,
    plaintext: &[u8],
    xsec: &XSec<S>,
    protected: ZeroizingBytes,
    text: &str,
    other: &XSec<T>,
    result: CliResult<ZeroizingBytes>,
)
    requires
        call_ensures(
            encrypt_environment_value::<S>,
            (name, plaintext, xsec),
            CliResult::<ZeroizingBytes>::Ok(protected),
        ),
        encode_utf8(text@) == protected@,
        other@.key() == xsec@.key(),
        call_ensures(decrypt_environment_value::<T>, (name, text, other), result),
    ensures
        result matches Ok(p) && p@ == plaintext@,
        begins_with_mark(text@),
{
    let k = xsec@.key()->Ok_0;
    let nonce = choose|nonce: Seq<u8>|
        nonce.len() == 12 && crypto::drawn::<12>(nonce) && protected@ == encode_utf8(
            #[trigger] value::protected(k, nonce, name@, plaintext@),
        ) && value::revealed(
            xsec@.key(),
            name@,
            value::protected(k, nonce, name@, plaintext@),
        ) == Some(plaintext@);
    let whole = value::protected(k, nonce, name@, plaintext@);
    bytes::lemma_text_injective(text@, whole);
    value::law_protected_form(k, nonce, name@, plaintext@);
    lemma_mark(text@);
}

/// The system gives no nonce for a value, or the value or the name is over the limits of the
/// cipher or of the machine.
pub open spec fn cannot_seal(name: Seq<char>, plaintext: Seq<u8>) -> bool {
    let n = encode_utf8(name).len();
    ||| crypto::draw_failed::<12>()
    ||| plaintext.len() > 68_719_476_704
    ||| n + 89 > 0x1FFF_FFFF_FFFF_FFFF
    ||| n + 89 > usize::MAX
}

pub(crate) proof fn lemma_bound_length(name: Seq<char>)
    ensures
        value::value_aad(name).len() == encode_utf8(name).len() + 22,
{
    reveal_strlit("xsec-cli:env:value:v1\0");
    assert(is_ascii_chars("xsec-cli:env:value:v1\0"@));
    is_ascii_chars_encode_utf8("xsec-cli:env:value:v1\0"@);
}

pub(crate) proof fn lemma_cannot_seal(name: Seq<char>, plaintext: Seq<u8>)
    ensures
        value::unsealable(name, plaintext) ==> cannot_seal(name, plaintext),
{
    lemma_bound_length(name);
}

/// A protected value is `xsec:` and the Base64 of a ciphertext of the value, bound to
/// `xsec-cli:env:value:v1`, NUL and the name of its variable, under a nonce that was drawn
/// for it. Without a data key at hand there is none, and the reason is handed on.
pub proof fn law_value_protected<S>(
    name: &str,
    plaintext: &[u8],
    xsec: &XSec<S>,
    result: CliResult<ZeroizingBytes>,
)
    requires
        call_ensures(encrypt_environment_value::<S>, (name, plaintext, xsec), result),
        plaintext@.len() <= 1_048_576,
    ensures
        match xsec@.key() {
            Err(reason) => result == CliResult::<ZeroizingBytes>::Err(CliError::XSec(reason)),
            Ok(key) => match result {
                Ok(text) => exists|nonce: Seq<u8>|
                    crypto::drawn::<12>(nonce) && nonce.len() == 12 && text@ == encode_utf8(
                        "xsec:"@ + base64url::base64url(
                            #[trigger] ciphertext::sealed(
                                key,
                                nonce,
                                plaintext@,
                                encode_utf8("xsec-cli:env:value:v1\0"@) + encode_utf8(name@),
                            ),
                        ),
                    ),
                Err(e) => e == CliError::XSec(XSecError::Crypto) && cannot_seal(name@, plaintext@),
            },
        },
{
    assert(plaintext@.len() <= value::MAX_PROTECTABLE_LENGTH) by {
        assert(usize::MAX / 4 - 55 >= 1_048_576);
    }
    lemma_cannot_seal(name@, plaintext@);
    if let (Ok(k), Ok(text)) = (xsec@.key(), result) {
        let nonce = choose|nonce: Seq<u8>|
            nonce.len() == 12 && crypto::drawn::<12>(nonce) && text@ == encode_utf8(
                #[trigger] value::protected(k, nonce, name@, plaintext@),
            );
        let sealed = ciphertext::sealed(
            k,
            nonce,
            plaintext@,
            encode_utf8("xsec-cli:env:value:v1\0"@) + encode_utf8(name@),
        );
        assert(text@ == encode_utf8("xsec:"@ + base64url::base64url(sealed)));
    }
}

/// A value that is not protected stands for its own bytes, whatever the key. One that is
/// stands for what its ciphertext opens to under the data key and the name; where there is
/// nothing to open, the variable is named.
pub proof fn law_value_revealed<S>(
    name: &str,
    text: &str,
    xsec: &XSec<S>,
    result: CliResult<ZeroizingBytes>,
)
    requires
        call_ensures(decrypt_environment_value::<S>, (name, text, xsec), result),
    ensures
        !begins_with_mark(text@) ==> (result matches Ok(p) && p@ == encode_utf8(text@)),
        begins_with_mark(text@) ==> match result {
            Ok(p) => exists|sealed: Seq<u8>|
                {
                    &&& text@ == "xsec:"@ + #[trigger] base64url::base64url(sealed)
                    &&& xsec@.key() is Ok
                    &&& ciphertext::opened(
                        xsec@.key()->Ok_0,
                        sealed,
                        encode_utf8("xsec-cli:env:value:v1\0"@) + encode_utf8(name@),
                    ) matches Ok(plaintext) && plaintext == p@
                },
            Err(e) => e matches CliError::InvalidEncryptedVariable(named) && named@ == name@,
        },
        begins_with_mark(text@) && xsec@.key() is Err ==> result is Err,
        result is Err && xsec@.key() is Ok && encode_utf8(name@).len() + 89 <= usize::MAX
            ==> forall|sealed: Seq<u8>|
            text@ == "xsec:"@ + #[trigger] base64url::base64url(sealed) ==> !(ciphertext::opened(
                xsec@.key()->Ok_0,
                sealed,
                encode_utf8("xsec-cli:env:value:v1\0"@) + encode_utf8(name@),
            ) is Ok),
{
    lemma_mark(text@);
    lemma_bound_length(name@);
    reveal_strlit("xsec:");
    assert forall|sealed: Seq<u8>|
        result is Err && xsec@.key() is Ok && encode_utf8(name@).len() + 89 <= usize::MAX && text@
            == "xsec:"@ + #[trigger] base64url::base64url(sealed) implies !(ciphertext::opened(
        xsec@.key()->Ok_0,
        sealed,
        encode_utf8("xsec-cli:env:value:v1\0"@) + encode_utf8(name@),
    ) is Ok) by {
        assert(text@.skip(5) =~= base64url::base64url(sealed));
        base64url::law_round_trip(sealed);
    }
    if begins_with_mark(text@) {
        if let Ok(p) = result {
            let sealed = base64url::base64url_decoded(text@.skip(5))->Some_0;
            assert(exists|raw: Seq<u8>| #[trigger] base64url::base64url(raw) == text@.skip(5));
            assert(base64url::base64url(sealed) == text@.skip(5));
            assert(text@ == "xsec:"@ + base64url::base64url(sealed));
        }
    }
}

} // verus!
