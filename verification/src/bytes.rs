//! Big-endian integers and byte-string helpers shared by every on-disk format.
use vstd::prelude::*;
use vstd::utf8::*;

verus! {

/// The UTF-8 bytes of a text constant.
pub open spec fn text(s: &str) -> Seq<u8> {
    encode_utf8(s@)
}

/// The two bytes of `x`, most significant first.
pub open spec fn be16(x: u16) -> Seq<u8> {
    seq![(x / 256) as u8, (x % 256) as u8]
}

/// The four bytes of `x`, most significant first.
pub open spec fn be32(x: u32) -> Seq<u8> {
    seq![
        (x / 0x100_0000) as u8,
        (x / 0x1_0000 % 256) as u8,
        (x / 256 % 256) as u8,
        (x % 256) as u8,
    ]
}

/// The eight bytes of `x`, most significant first.
pub open spec fn be64(x: u64) -> Seq<u8> {
    be32((x / 0x1_0000_0000) as u32) + be32((x % 0x1_0000_0000) as u32)
}

/// The number written big-endian in the first two bytes of `s`.
pub open spec fn from_be16(s: Seq<u8>) -> int {
    s[0] * 256 + s[1]
}

/// The number written big-endian in the first four bytes of `s`.
pub open spec fn from_be32(s: Seq<u8>) -> int {
    s[0] * 0x100_0000 + s[1] * 0x1_0000 + s[2] * 256 + s[3]
}

/// `a` comes strictly before `b` in the lexicographic order of byte strings.
pub open spec fn lex_less(a: Seq<u8>, b: Seq<u8>) -> bool
    decreases a.len(),
{
    if b.len() == 0 {
        false
    } else if a.len() == 0 {
        true
    } else if a[0] != b[0] {
        a[0] < b[0]
    } else {
        lex_less(a.drop_first(), b.drop_first())
    }
}

/// Two bytes decode to the number that encodes to them, and back.
pub proof fn lemma_be16(x: u16)
    ensures
        from_be16(be16(x)) == x,
        be16(x).len() == 2,
{
}

/// A two-byte string is the encoding of the number it stands for.
pub proof fn lemma_from_be16(s: Seq<u8>)
    requires
        s.len() == 2,
    ensures
        0 <= from_be16(s) <= u16::MAX,
        be16(from_be16(s) as u16) == s,
{
    assert(be16(from_be16(s) as u16) =~= s);
}

/// Four bytes decode to the number that encodes to them.
pub proof fn lemma_be32(x: u32)
    ensures
        from_be32(be32(x)) == x,
        be32(x).len() == 4,
{
    let hi: u32 = x / 0x1_0000;
    assert(hi / 256 == x / 0x100_0000);
}

/// A four-byte string is the encoding of the number it stands for.
pub proof fn lemma_from_be32(s: Seq<u8>)
    requires
        s.len() == 4,
    ensures
        0 <= from_be32(s) <= u32::MAX,
        be32(from_be32(s) as u32) == s,
{
    let (p, q, r, t): (int, int, int, int) = (s[0] as int, s[1] as int, s[2] as int, s[3] as int);
    lemma_be32_digits(p, q, r, t);
    assert(be32(from_be32(s) as u32) =~= s);
}

proof fn lemma_be32_digits(p: int, q: int, r: int, t: int)
    requires
        0 <= p < 256,
        0 <= q < 256,
        0 <= r < 256,
        0 <= t < 256,
    ensures
        ({
            let x = p * 0x100_0000 + q * 0x1_0000 + r * 256 + t;
            &&& x / 0x100_0000 == p
            &&& x / 0x1_0000 % 256 == q
            &&& x / 256 % 256 == r
            &&& x % 256 == t
        }),
{
    let x = p * 0x100_0000 + q * 0x1_0000 + r * 256 + t;
    assert(x / 0x1_0000 == p * 256 + q);
    assert(x / 256 == p * 0x1_0000 + q * 256 + r);
}

/// The lexicographic order is irreflexive.
pub proof fn lemma_lex_irreflexive(a: Seq<u8>)
    ensures
        !lex_less(a, a),
    decreases a.len(),
{
    if a.len() > 0 {
        lemma_lex_irreflexive(a.drop_first());
    }
}

/// The lexicographic order is transitive.
pub proof fn lemma_lex_transitive(a: Seq<u8>, b: Seq<u8>, c: Seq<u8>)
    requires
        lex_less(a, b),
        lex_less(b, c),
    ensures
        lex_less(a, c),
    decreases a.len(),
{
    if a.len() > 0 && b.len() > 0 && c.len() > 0 && a[0] == b[0] && b[0] == c[0] {
        lemma_lex_transitive(a.drop_first(), b.drop_first(), c.drop_first());
    }
}

/// Of two different byte strings one comes before the other.
pub proof fn lemma_lex_total(a: Seq<u8>, b: Seq<u8>)
    ensures
        a == b || lex_less(a, b) || lex_less(b, a),
    decreases a.len(),
{
    if a.len() == 0 && b.len() == 0 {
        assert(a =~= b);
    } else if a.len() > 0 && b.len() > 0 && a[0] == b[0] {
        lemma_lex_total(a.drop_first(), b.drop_first());
        if a.drop_first() == b.drop_first() {
            assert(a =~= seq![a[0]] + a.drop_first());
            assert(b =~= seq![b[0]] + b.drop_first());
        }
    }
}

/// A shared prefix does not change how two byte strings compare.
proof fn lemma_lex_skip(a: Seq<u8>, b: Seq<u8>, n: int)
    requires
        0 <= n <= a.len(),
        n <= b.len(),
        a.take(n) == b.take(n),
    ensures
        lex_less(a, b) == lex_less(a.skip(n), b.skip(n)),
    decreases n,
{
    if n == 0 {
        assert(a.skip(0) =~= a);
        assert(b.skip(0) =~= b);
    } else {
        assert(a[0] == a.take(n)[0]);
        assert(b[0] == b.take(n)[0]);
        assert(a.drop_first().take(n - 1) =~= a.take(n).drop_first());
        assert(b.drop_first().take(n - 1) =~= b.take(n).drop_first());
        lemma_lex_skip(a.drop_first(), b.drop_first(), n - 1);
        assert(a.drop_first().skip(n - 1) =~= a.skip(n));
        assert(b.drop_first().skip(n - 1) =~= b.skip(n));
    }
}

/// Equal UTF-8 bytes come from equal text.
pub proof fn lemma_text_injective(a: Seq<char>, b: Seq<char>)
    requires
        encode_utf8(a) == encode_utf8(b),
    ensures
        a == b,
{
    broadcast use encode_utf8_decode_utf8;

    assert(decode_utf8(encode_utf8(a)) == a);
    assert(decode_utf8(encode_utf8(b)) == b);
}

/// The bytes of two texts one behind the other are the bytes of the one behind the
/// bytes of the other.
pub proof fn lemma_encode_concat(a: Seq<char>, b: Seq<char>)
    ensures
        encode_utf8(a + b) == encode_utf8(a) + encode_utf8(b),
    decreases a.len(),
{
    if a.len() == 0 {
        assert(a + b =~= b);
        assert(encode_utf8(a) + encode_utf8(b) =~= encode_utf8(b));
    } else {
        assert((a + b).drop_first() =~= a.drop_first() + b);
        lemma_encode_concat(a.drop_first(), b);
        assert(encode_utf8(a + b) =~= encode_utf8(a) + encode_utf8(b));
    }
}

/// What follows a text's bytes in UTF-8 is UTF-8.
pub proof fn lemma_suffix_valid(prefix: Seq<char>, whole: Seq<u8>)
    requires
        valid_utf8(whole),
        encode_utf8(prefix).is_prefix_of(whole),
    ensures
        valid_utf8(whole.skip(encode_utf8(prefix).len() as int)),
{
    let n = encode_utf8(prefix).len() as int;
    encode_utf8_valid_utf8(prefix);
    assert(whole.subrange(0, n) =~= encode_utf8(prefix));
    assert(whole.subrange(n, whole.len() as int) =~= whole.skip(n));
    if !valid_utf8(whole.skip(n)) {
        partial_valid_partial_invalid_utf8(whole, n);
    }
}

/// The text whose characters are the given ASCII bytes.
pub open spec fn ascii_chars(raw: Seq<u8>) -> Seq<char> {
    Seq::new(raw.len(), |i: int| raw[i] as char)
}

/// ASCII text is encoded byte for character.
pub proof fn lemma_ascii_chars(raw: Seq<u8>)
    requires
        forall|i: int| 0 <= i < raw.len() ==> #[trigger] raw[i] < 0x80,
    ensures
        encode_utf8(ascii_chars(raw)) == raw,
{
    let chars = ascii_chars(raw);
    assert(is_ascii_chars(chars));
    is_ascii_chars_encode_utf8(chars);
    assert(encode_utf8(chars) =~= raw);
}

/// The decimal digits of a number, as ASCII bytes.
pub open spec fn decimal(n: nat) -> Seq<u8>
    decreases n,
{
    if n < 10 {
        seq![(0x30 + n) as u8]
    } else {
        decimal(n / 10).push((0x30 + n % 10) as u8)
    }
}

/// A signed number in decimal, as ASCII bytes.
pub open spec fn signed_decimal(n: int) -> Seq<u8> {
    if n < 0 {
        seq![0x2Du8] + decimal((-n) as nat)
    } else {
        decimal(n as nat)
    }
}

proof fn lemma_decimal_ascii(n: nat)
    ensures
        forall|i: int| 0 <= i < decimal(n).len() ==> #[trigger] decimal(n)[i] < 0x80,
    decreases n,
{
    if n >= 10 {
        lemma_decimal_ascii(n / 10);
        assert forall|i: int| 0 <= i < decimal(n).len() implies #[trigger] decimal(n)[i] < 0x80 by {
            if i < decimal(n / 10).len() {
                assert(decimal(n)[i] == decimal(n / 10)[i]);
            }
        }
    }
}

/// Appends the two big-endian bytes of `x`.
pub fn push_u16(out: &mut Vec<u8>, x: u16)
    ensures
        final(out)@ == old(out)@ + be16(x),
{
    out.push((x / 256) as u8);
    out.push((x % 256) as u8);
    assert(out@ =~= old(out)@ + be16(x));
}

/// Appends the four big-endian bytes of `x`.
pub fn push_u32(out: &mut Vec<u8>, x: u32)
    ensures
        final(out)@ == old(out)@ + be32(x),
{
    out.push((x / 0x100_0000) as u8);
    out.push((x / 0x1_0000 % 256) as u8);
    out.push((x / 256 % 256) as u8);
    out.push((x % 256) as u8);
    assert(out@ =~= old(out)@ + be32(x));
}

/// Appends the eight big-endian bytes of `x`.
pub fn push_u64(out: &mut Vec<u8>, x: u64)
    ensures
        final(out)@ == old(out)@ + be64(x),
{
    push_u32(out, (x / 0x1_0000_0000) as u32);
    push_u32(out, (x % 0x1_0000_0000) as u32);
    assert(out@ =~= old(out)@ + be64(x));
}

/// Reads two big-endian bytes at `offset`.
pub fn read_u16_at(input: &[u8], offset: usize) -> (x: u16)
    requires
        offset + 2 <= input@.len(),
    ensures
        x == from_be16(input@.subrange(offset as int, offset + 2)),
{
    input[offset] as u16 * 256 + input[offset + 1] as u16
}

/// Reads four big-endian bytes at `offset`.
pub fn read_u32_at(input: &[u8], offset: usize) -> (x: u32)
    requires
        offset + 4 <= input@.len(),
    ensures
        x == from_be32(input@.subrange(offset as int, offset + 4)),
{
    input[offset] as u32 * 0x100_0000 + input[offset + 1] as u32 * 0x1_0000 + input[offset + 2] as u32
        * 256 + input[offset + 3] as u32
}

/// Whether two byte strings are the same.
pub fn equal(a: &[u8], b: &[u8]) -> (same: bool)
    ensures
        same == (a@ == b@),
{
    if a.len() != b.len() {
        return false;
    }
    let mut i: usize = 0;
    while i < a.len()
        invariant
            i <= a@.len(),
            a@.len() == b@.len(),
            forall|j: int| 0 <= j < i ==> a@[j] == b@[j],
        decreases a@.len() - i,
    {
        if a[i] != b[i] {
            return false;
        }
        i = i + 1;
    }
    assert(a@ =~= b@);
    true
}

/// Whether a byte occurs.
pub fn contains(input: &[u8], byte: u8) -> (found: bool)
    ensures
        found == input@.contains(byte),
{
    let mut i: usize = 0;
    while i < input.len()
        invariant
            i <= input@.len(),
            forall|j: int| 0 <= j < i ==> input@[j] != byte,
        decreases input@.len() - i,
    {
        if input[i] == byte {
            return true;
        }
        i = i + 1;
    }
    false
}

/// Whether two texts are the same.
pub fn same_text(a: &str, b: &str) -> (same: bool)
    ensures
        same == (a@ == b@),
{
    let same: bool = equal(a.as_bytes(), b.as_bytes());
    proof {
        if same {
            lemma_text_injective(a@, b@);
        }
    }
    same
}

/// `std::str::from_utf8`: the text that the bytes encode, where they are UTF-8.
#[verifier::external_body]
pub(crate) fn utf8_text(bytes: &[u8]) -> (text: Option<&str>)
    ensures
        text is Some == valid_utf8(bytes@),
        text matches Some(s) ==> encode_utf8(s@) == bytes@,
{
    std::str::from_utf8(bytes).ok()
}

/// The text of ASCII bytes.
pub fn ascii_string(raw: &[u8]) -> (text: String)
    requires
        forall|i: int| 0 <= i < raw@.len() ==> #[trigger] raw@[i] < 0x80,
    ensures
        text@ == ascii_chars(raw@),
        encode_utf8(text@) == raw@,
{
    proof {
        lemma_ascii_chars(raw@);
        encode_utf8_valid_utf8(ascii_chars(raw@));
    }
    match utf8_text(raw) {
        Some(text) => {
            proof {
                lemma_text_injective(text@, ascii_chars(raw@));
            }
            text.to_owned()
        },
        None => String::new(),
    }
}

fn push_decimal(out: &mut Vec<u8>, n: u64)
    ensures
        final(out)@ == old(out)@ + decimal(n as nat),
    decreases n,
{
    if n >= 10 {
        push_decimal(out, n / 10);
    }
    out.push((0x30 + n % 10) as u8);
    assert(out@ =~= old(out)@ + decimal(n as nat));
}

/// A number in decimal.
pub fn unsigned_text(n: u64) -> (text: String)
    ensures
        text@ == ascii_chars(decimal(n as nat)),
{
    let mut raw: Vec<u8> = Vec::new();
    push_decimal(&mut raw, n);
    proof {
        lemma_decimal_ascii(n as nat);
        assert(raw@ =~= decimal(n as nat));
    }
    ascii_string(raw.as_slice())
}

/// A signed number in decimal.
pub fn decimal_text(n: i32) -> (text: String)
    ensures
        text@ == ascii_chars(signed_decimal(n as int)),
{
    let mut raw: Vec<u8> = Vec::new();
    let value: i64 = n as i64;
    if value < 0 {
        raw.push(0x2D);
        push_decimal(&mut raw, (-value) as u64);
        proof {
            lemma_decimal_ascii((-n) as nat);
        }
    } else {
        push_decimal(&mut raw, value as u64);
        proof {
            lemma_decimal_ascii(n as nat);
        }
    }
    assert(raw@ =~= signed_decimal(n as int));
    ascii_string(raw.as_slice())
}

/// Whether `input` begins with `prefix`.
pub fn starts_with(input: &[u8], prefix: &[u8]) -> (found: bool)
    ensures
        found == prefix@.is_prefix_of(input@),
{
    if input.len() < prefix.len() {
        return false;
    }
    let head: &[u8] = &input[0..prefix.len()];
    equal(head, prefix)
}

/// Whether `a` comes strictly before `b` in the lexicographic order.
pub fn less(a: &[u8], b: &[u8]) -> (before: bool)
    ensures
        before == lex_less(a@, b@),
{
    let mut i: usize = 0;
    while i < a.len() && i < b.len()
        invariant
            i <= a@.len(),
            i <= b@.len(),
            a@.take(i as int) == b@.take(i as int),
        decreases a@.len() - i,
    {
        if a[i] != b[i] {
            proof {
                lemma_lex_skip(a@, b@, i as int);
            }
            return a[i] < b[i];
        }
        assert(a@.take(i + 1) =~= a@.take(i as int).push(a@[i as int]));
        assert(b@.take(i + 1) =~= b@.take(i as int).push(b@[i as int]));
        i = i + 1;
    }
    proof {
        lemma_lex_skip(a@, b@, i as int);
    }
    a.len() < b.len()
}

/// A copy of `input[start..end]`.
pub fn copy_range(input: &[u8], start: usize, end: usize) -> (out: Vec<u8>)
    requires
        start <= end <= input@.len(),
    ensures
        out@ == input@.subrange(start as int, end as int),
{
    let mut out: Vec<u8> = Vec::new();
    out.extend_from_slice(&input[start..end]);
    assert(out@ =~= input@.subrange(start as int, end as int));
    out
}

/// Overwrites `out` with `input`, which has the same length.
pub fn copy_into<const N: usize>(out: &mut [u8; N], input: &[u8])
    requires
        input@.len() == N,
    ensures
        final(out)@ == input@,
{
    let mut i: usize = 0;
    while i < N
        invariant
            i <= N,
            input@.len() == N,
            out@.len() == N,
            forall|j: int| 0 <= j < i ==> out@[j] == input@[j],
        decreases N - i,
    {
        out[i] = input[i];
        i = i + 1;
    }
    assert(out@ =~= input@);
}

} // verus!
