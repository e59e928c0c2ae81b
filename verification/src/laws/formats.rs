//! The formats on disk, byte for byte.
use vstd::prelude::*;
use vstd::utf8::*;

use crate::bytes;
use crate::bytes::{less, push_u16, push_u32, push_u64, read_u16_at, read_u32_at};
use crate::ciphertext;
use crate::ciphertext::{Ciphertext, CiphertextHeader};
use crate::crypto;
use crate::error::{ErrorSource, XSecError, XSecResult};
use crate::metadata;
use crate::metadata::{validate_kind, Metadata, RecordView};
use crate::secret::SecretKey;
use crate::storage::file::{directory_of, FileFailure, LoadStep, XSecFileStorage};

verus! {

/// The two bytes of a number, the greater weight first.
pub open spec fn in_two(n: int, raw: Seq<u8>) -> bool {
    raw.len() == 2 && raw[0] * 256 + raw[1] == n
}

/// The four bytes of a number, the greatest weight first.
pub open spec fn in_four(n: int, raw: Seq<u8>) -> bool {
    raw.len() == 4 && raw[0] * 0x100_0000 + raw[1] * 0x1_0000 + raw[2] * 0x100 + raw[3] == n
}

/// The eight bytes of a number, the greatest weight first.
pub open spec fn in_eight(n: int, raw: Seq<u8>) -> bool {
    raw.len() == 8 && in_four(n / 0x1_0000_0000, raw.take(4)) && in_four(
        n % 0x1_0000_0000,
        raw.skip(4),
    )
}

pub(crate) proof fn lemma_two(n: u16)
    ensures
        in_two(n as int, bytes::be16(n)),
{
}

pub(crate) proof fn lemma_four(n: u32)
    ensures
        in_four(n as int, bytes::be32(n)),
{
}

pub(crate) proof fn lemma_eight(n: u64)
    ensures
        in_eight(n as int, bytes::be64(n)),
{
    let (high, low) = ((n / 0x1_0000_0000) as u32, (n % 0x1_0000_0000) as u32);
    lemma_four(high);
    lemma_four(low);
    assert(bytes::be64(n).take(4) =~= bytes::be32(high));
    assert(bytes::be64(n).skip(4) =~= bytes::be32(low));
}

/// Numbers are written with the greatest weight first, behind what was there.
pub proof fn law_numbers_stored(
    a: &mut Vec<u8>,
    x: u16,
    b: &mut Vec<u8>,
    y: u32,
    c: &mut Vec<u8>,
    z: u64,
)
    requires
        call_ensures(push_u16, (a, x), ()),
        call_ensures(push_u32, (b, y), ()),
        call_ensures(push_u64, (c, z), ()),
    ensures
        exists|raw: Seq<u8>| #[trigger] in_two(x as int, raw) && final(a)@ == old(a)@ + raw,
        exists|raw: Seq<u8>| #[trigger] in_four(y as int, raw) && final(b)@ == old(b)@ + raw,
        exists|raw: Seq<u8>| #[trigger] in_eight(z as int, raw) && final(c)@ == old(c)@ + raw,
{
    lemma_two(x);
    lemma_four(y);
    lemma_eight(z);
}

/// Numbers are read with the greatest weight first.
pub proof fn law_numbers_read(input: &[u8], at: usize, x: u16, from: usize, y: u32)
    requires
        at + 2 <= input@.len(),
        from + 4 <= input@.len(),
        call_ensures(read_u16_at, (input, at), x),
        call_ensures(read_u32_at, (input, from), y),
    ensures
        x == input@[at as int] * 256 + input@[at + 1],
        y == input@[from as int] * 0x100_0000 + input@[from + 1] * 0x1_0000 + input@[from + 2] * 0x100
            + input@[from + 3],
{
    assert(input@.subrange(at as int, at + 2)[0] == input@[at as int]);
    assert(input@.subrange(at as int, at + 2)[1] == input@[at + 1]);
    let s = input@.subrange(from as int, from + 4);
    assert(s[0] == input@[from as int] && s[1] == input@[from + 1] && s[2] == input@[from + 2]
        && s[3] == input@[from + 3]);
}

/// Bytes come before others where they agree up to some place and there end or are smaller.
pub open spec fn comes_before(a: Seq<u8>, b: Seq<u8>) -> bool {
    exists|k: int|
        {
            &&& 0 <= k < b.len()
            &&& k <= a.len()
            &&& #[trigger] a.take(k) == b.take(k)
            &&& k == a.len() || a[k] < b[k]
        }
}

pub(crate) proof fn lemma_before(a: Seq<u8>, b: Seq<u8>)
    ensures
        bytes::lex_less(a, b) == comes_before(a, b),
    decreases a.len(),
{
    if b.len() > 0 && a.len() > 0 {
        let (x, y) = (a.drop_first(), b.drop_first());
        lemma_before(x, y);
        if a[0] == b[0] {
            if comes_before(x, y) {
                let k = choose|k: int|
                    {
                        &&& 0 <= k < y.len()
                        &&& k <= x.len()
                        &&& #[trigger] x.take(k) == y.take(k)
                        &&& k == x.len() || x[k] < y[k]
                    };
                assert forall|i: int| 0 <= i < k + 1 implies a[i] == b[i] by {
                    if i > 0 {
                        assert(x.take(k)[i - 1] == y.take(k)[i - 1]);
                    }
                }
                assert(a.take(k + 1) =~= b.take(k + 1));
            }
            if comes_before(a, b) {
                let k = choose|k: int|
                    {
                        &&& 0 <= k < b.len()
                        &&& k <= a.len()
                        &&& #[trigger] a.take(k) == b.take(k)
                        &&& k == a.len() || a[k] < b[k]
                    };
                assert(k > 0);
                assert forall|i: int| 0 <= i < k - 1 implies x[i] == y[i] by {
                    assert(a.take(k)[i + 1] == b.take(k)[i + 1]);
                }
                assert(x.take(k - 1) =~= y.take(k - 1));
            }
        } else {
            assert(a.take(0) =~= b.take(0));
            if comes_before(a, b) {
                let k = choose|k: int|
                    {
                        &&& 0 <= k < b.len()
                        &&& k <= a.len()
                        &&& #[trigger] a.take(k) == b.take(k)
                        &&& k == a.len() || a[k] < b[k]
                    };
                if k > 0 {
                    assert(a.take(k)[0] == b.take(k)[0]);
                }
            }
        }
    } else if b.len() > 0 {
        assert(a.take(0) =~= b.take(0));
    }
}

/// Byte strings are ordered as in a dictionary.
pub proof fn law_order(a: &[u8], b: &[u8], before: bool)
    requires
        call_ensures(less, (a, b), before),
    ensures
        before == comes_before(a@, b@),
{
    lemma_before(a@, b@);
}

/// A ciphertext header: `XSecCT`, version 1, algorithm 1, sixteen zeros, a twelve, and twelve
/// bytes of nonce.
pub open spec fn is_header(raw: Seq<u8>, nonce: Seq<u8>) -> bool {
    &&& raw.len() == 39
    &&& raw[0] == 0x58 && raw[1] == 0x53 && raw[2] == 0x65 && raw[3] == 0x63 && raw[4] == 0x43
        && raw[5] == 0x54
    &&& raw[6] == 0 && raw[7] == 1
    &&& raw[8] == 0 && raw[9] == 1
    &&& forall|i: int| 10 <= i < 26 ==> #[trigger] raw[i] == 0
    &&& raw[26] == 12
    &&& nonce == raw.skip(27)
}

pub(crate) proof fn lemma_ascii(text: Seq<char>, raw: Seq<u8>)
    requires
        text.len() == raw.len(),
        forall|i: int| 0 <= i < raw.len() ==> #[trigger] raw[i] < 0x80 && text[i] == raw[i] as char,
    ensures
        encode_utf8(text) == raw,
{
    assert forall|i: int| 0 <= i < raw.len() implies text[i] == bytes::ascii_chars(raw)[i] by {
        assert(raw[i] < 0x80);
    }
    assert(text =~= bytes::ascii_chars(raw));
    bytes::lemma_ascii_chars(raw);
}

proof fn lemma_ct()
    ensures
        encode_utf8("XSecCT"@) == seq![0x58u8, 0x53u8, 0x65u8, 0x63u8, 0x43u8, 0x54u8],
{
    reveal_strlit("XSecCT");
    lemma_ascii("XSecCT"@, seq![0x58u8, 0x53u8, 0x65u8, 0x63u8, 0x43u8, 0x54u8]);
}

proof fn lemma_md()
    ensures
        encode_utf8("XSecMD"@) == seq![0x58u8, 0x53u8, 0x65u8, 0x63u8, 0x4Du8, 0x44u8],
{
    reveal_strlit("XSecMD");
    lemma_ascii("XSecMD"@, seq![0x58u8, 0x53u8, 0x65u8, 0x63u8, 0x4Du8, 0x44u8]);
}

/// A text of six bytes begins bytes if it is their first six.
pub(crate) proof fn lemma_six(raw: Seq<u8>, magic: Seq<u8>)
    requires
        magic.len() == 6,
    ensures
        raw.len() >= 6 ==> (raw.take(6) == magic) == (raw[0] == magic[0] && raw[1] == magic[1]
            && raw[2] == magic[2] && raw[3] == magic[3] && raw[4] == magic[4] && raw[5]
            == magic[5]),
        magic.is_prefix_of(raw) == (raw.len() >= 6 && raw.take(6) == magic),
{
    if raw.len() >= 6 {
        let head = raw.take(6);
        if head == magic {
            assert(head[0] == magic[0] && head[1] == magic[1] && head[2] == magic[2] && head[3]
                == magic[3] && head[4] == magic[4] && head[5] == magic[5]);
        }
        if raw[0] == magic[0] && raw[1] == magic[1] && raw[2] == magic[2] && raw[3] == magic[3]
            && raw[4] == magic[4] && raw[5] == magic[5] {
            assert(head =~= magic);
        }
        assert(raw.subrange(0, 6) =~= raw.take(6));
    }
}

/// Two bytes are a number.
pub(crate) proof fn lemma_two_at(raw: Seq<u8>, at: int, n: u16)
    requires
        0 <= at,
        at + 2 <= raw.len(),
    ensures
        (raw.subrange(at, at + 2) == bytes::be16(n)) == (raw[at] * 256 + raw[at + 1] == n),
{
    let two = raw.subrange(at, at + 2);
    assert(two[0] == raw[at] && two[1] == raw[at + 1]);
    bytes::lemma_be16(n);
    if raw[at] * 256 + raw[at + 1] == n {
        assert(two =~= bytes::be16(n));
    }
}

/// What is written for a nonce is a header.
pub(crate) proof fn lemma_header(nonce: Seq<u8>)
    requires
        nonce.len() == 12,
    ensures
        is_header(ciphertext::header_bytes(nonce), nonce),
{
    let raw = ciphertext::header_bytes(nonce);
    lemma_ct();
    assert(raw.skip(27) =~= nonce);
    assert forall|i: int| 10 <= i < 26 implies #[trigger] raw[i] == 0 by {}
}

/// A header is what is read as one.
pub(crate) proof fn lemma_header_read(raw: Seq<u8>)
    ensures
        ciphertext::read_header(raw) matches Ok(nonce) ==> is_header(raw, nonce),
        ciphertext::read_header(raw) is Err ==> forall|nonce: Seq<u8>|
            !#[trigger] is_header(raw, nonce),
{
    lemma_ct();
    lemma_six(raw, encode_utf8("XSecCT"@));
    if raw.len() == 39 {
        lemma_two_at(raw, 6, 1);
        lemma_two_at(raw, 8, 1);
        let zeros = ciphertext::key_id();
        let id = raw.subrange(10, 26);
        if id == zeros {
            assert forall|i: int| 10 <= i < 26 implies #[trigger] raw[i] == 0 by {
                assert(id[i - 10] == zeros[i - 10]);
            }
        }
        if forall|i: int| 10 <= i < 26 ==> #[trigger] raw[i] == 0 {
            assert(id =~= zeros);
        }
    }
}

/// Nothing comes before itself.
pub(crate) proof fn lemma_not_before_itself(a: Seq<u8>)
    ensures
        !bytes::lex_less(a, a),
    decreases a.len(),
{
    if a.len() > 0 {
        lemma_not_before_itself(a.drop_first());
    }
}

/// A header is read if it is one, whatever its nonce, and the nonce is its last twelve bytes.
/// Another version and another algorithm have errors of their own.
pub proof fn law_header_read(input: &[u8], result: XSecResult<CiphertextHeader>)
    requires
        call_ensures(CiphertextHeader::parse, (input,), result),
    ensures
        match result {
            Ok(header) => is_header(input@, header@),
            Err(e) => {
                let framed = input@.len() == 39 && input@[0] == 0x58 && input@[1] == 0x53 && input@[2]
                    == 0x65 && input@[3] == 0x63 && input@[4] == 0x43 && input@[5] == 0x54;
                &&& forall|nonce: Seq<u8>| !#[trigger] is_header(input@, nonce)
                &&& e == if framed && !(input@[6] == 0 && input@[7] == 1) {
                    XSecError::UnsupportedVersion
                } else if framed && !(input@[8] == 0 && input@[9] == 1) {
                    XSecError::UnsupportedAlgorithm
                } else {
                    XSecError::InvalidCiphertext
                }
            },
        },
{
    let raw = input@;
    lemma_ct();
    lemma_six(raw, encode_utf8("XSecCT"@));
    if raw.len() == 39 {
        lemma_two_at(raw, 6, 1);
        lemma_two_at(raw, 8, 1);
        let zeros = ciphertext::key_id();
        let id = raw.subrange(10, 26);
        if id == zeros {
            assert forall|i: int| 10 <= i < 26 implies #[trigger] raw[i] == 0 by {
                assert(id[i - 10] == zeros[i - 10]);
            }
        }
        if forall|i: int| 10 <= i < 26 ==> #[trigger] raw[i] == 0 {
            assert(id =~= zeros);
        }
    }
}

/// What is written for a nonce is a header with that nonce.
pub proof fn law_header_written(nonce: [u8; 12], header: CiphertextHeader, raw: &[u8])
    requires
        call_ensures(CiphertextHeader::from_nonce, (nonce,), header),
        call_ensures(CiphertextHeader::raw, (&header,), raw),
    ensures
        is_header(raw@, nonce@),
{
    lemma_header(nonce@);
}

/// A ciphertext is a header and at least sixteen bytes behind it.
pub proof fn law_ciphertext_read(input: &[u8], result: XSecResult<Ciphertext>)
    requires
        call_ensures(Ciphertext::parse, (input,), result),
    ensures
        match result {
            Ok(c) => input@.len() >= 55 && is_header(input@.take(39), c@.0) && c@.1 == input@.skip(
                39,
            ),
            Err(_) => input@.len() < 55 || forall|nonce: Seq<u8>|
                !#[trigger] is_header(input@.take(39), nonce),
        },
        input@.len() < 39 ==> (result matches Err(e) && e is InvalidCiphertext),
{
    if input@.len() >= 39 {
        lemma_header_read(input@.take(39));
    }
}

/// A ciphertext that was read is written as the bytes that it was read from.
pub proof fn law_ciphertext_kept(input: &[u8], read: Ciphertext, output: Vec<u8>)
    requires
        call_ensures(Ciphertext::parse, (input,), XSecResult::<Ciphertext>::Ok(read)),
        call_ensures(Ciphertext::encode, (&read,), output),
    ensures
        output@ == input@,
{
    let raw = input@.take(39);
    ciphertext::law_header_canonical(raw);
    assert(output@ =~= input@);
}

/// What is authenticated along with a message: `xsec:data-aad:v1`, the header behind its
/// length, and what the caller binds behind its length.
pub proof fn law_bound_data(header: &CiphertextHeader, bound: &[u8], result: XSecResult<Vec<u8>>)
    requires
        header.wf(),
        bound@.len() <= 0x7FFF_FFFF,
        call_ensures(CiphertextHeader::combined_aad, (header, bound), result),
    ensures
        result matches Ok(all) && exists|raw: Seq<u8>, short: Seq<u8>, long: Seq<u8>|
            #![trigger is_header(raw, header@), in_four(39, short), in_eight(bound@.len() as int, long)]
            is_header(raw, header@) && in_four(39, short) && in_eight(bound@.len() as int, long)
                && all@ == encode_utf8("xsec:data-aad:v1"@) + short + raw + long + bound@,
{
    let raw = ciphertext::header_bytes(header@);
    ciphertext::lemma_nonce_length(header);
    lemma_header(header@);
    assert(is_header(raw, header@));
    lemma_four(39);
    lemma_eight(bound@.len() as u64);
    assert(in_four(39, bytes::be32(39)));
    assert(in_eight(bound@.len() as int, bytes::be64(bound@.len() as u64)));
}

/// A kind of protector: 1 to 128 characters, each a lower-case letter, a digit, a dot, an
/// underscore or a hyphen, the first a letter or a digit.
pub open spec fn is_kind(kind: Seq<char>) -> bool {
    &&& 1 <= kind.len() <= 128
    &&& 'a' <= kind[0] <= 'z' || '0' <= kind[0] <= '9'
    &&& forall|i: int|
        0 <= i < kind.len() ==> ('a' <= #[trigger] kind[i] <= 'z' || '0' <= kind[i] <= '9'
            || kind[i] == '.' || kind[i] == '_' || kind[i] == '-')
}

pub(crate) proof fn lemma_kind(kind: Seq<char>)
    ensures
        metadata::valid_kind(kind) == is_kind(kind),
{
    let raw = encode_utf8(kind);
    if metadata::valid_kind(kind) {
        assert forall|i: int| 0 <= i < raw.len() implies #[trigger] raw[i] < 0x80 by {
            assert(metadata::kind_byte(raw[i]));
        }
        bytes::lemma_ascii_chars(raw);
        let chars = bytes::ascii_chars(raw);
        bytes::lemma_text_injective(chars, kind);
        assert(kind.len() == raw.len());
        assert forall|i: int| 0 <= i < kind.len() implies ('a' <= #[trigger] kind[i] <= 'z' || '0'
            <= kind[i] <= '9' || kind[i] == '.' || kind[i] == '_' || kind[i] == '-') by {
            assert(kind[i] == raw[i] as char);
            assert(metadata::kind_byte(raw[i]));
        }
        assert(kind[0] == raw[0] as char);
    }
    if is_kind(kind) {
        assert forall|i: int| 0 <= i < kind.len() implies '\0' <= #[trigger] kind[i] <= '\u{7f}' by {
            assert('a' <= kind[i] <= 'z' || '0' <= kind[i] <= '9' || kind[i] == '.' || kind[i]
                == '_' || kind[i] == '-');
        }
        assert(is_ascii_chars(kind));
        is_ascii_chars_encode_utf8(kind);
        assert forall|i: int| 0 <= i < raw.len() implies metadata::kind_byte(#[trigger] raw[i]) by {
            assert('a' <= kind[i] <= 'z' || '0' <= kind[i] <= '9' || kind[i] == '.' || kind[i]
                == '_' || kind[i] == '-');
        }
    }
}

/// A text is taken as a kind if it has the form of one, and refused else.
pub proof fn law_kinds(kind: &str, result: XSecResult<()>)
    requires
        call_ensures(validate_kind, (kind,), result),
    ensures
        result is Ok == is_kind(kind@),
        result matches Err(e) ==> e is Corrupted,
{
    lemma_kind(kind@);
}

/// A record: the length of the kind, the kind, the length of the payload, the payload.
pub open spec fn is_record(raw: Seq<u8>, record: RecordView) -> bool {
    exists|short: Seq<u8>, long: Seq<u8>|
        #![trigger in_two(encode_utf8(record.kind).len() as int, short), in_four(record.payload.len() as int, long)]
        in_two(encode_utf8(record.kind).len() as int, short) && in_four(
            record.payload.len() as int,
            long,
        ) && raw == short + encode_utf8(record.kind) + long + record.payload
}

/// Records, one behind the other, cut at some places.
pub open spec fn are_records(raw: Seq<u8>, records: Seq<RecordView>, cuts: Seq<int>) -> bool {
    &&& cuts.len() == records.len() + 1
    &&& cuts[0] == 0
    &&& cuts[records.len() as int] == raw.len()
    &&& forall|i: int| 0 <= i < records.len() ==> #[trigger] record_between(raw, records, cuts, i)
}

/// Between two cuts stands a record.
pub open spec fn record_between(
    raw: Seq<u8>,
    records: Seq<RecordView>,
    cuts: Seq<int>,
    i: int,
) -> bool {
    0 <= cuts[i] <= cuts[i + 1] <= raw.len() && is_record(
        raw.subrange(cuts[i], cuts[i + 1]),
        records[i],
    )
}

/// Records that a blob may hold: 1 to 16, each with a kind and at most 65536 bytes, the kinds
/// in the order of their bytes, none twice.
pub open spec fn may_be_held(records: Seq<RecordView>) -> bool {
    &&& 1 <= records.len() <= 16
    &&& forall|i: int|
        0 <= i < records.len() ==> is_kind((#[trigger] records[i]).kind) && records[i].payload.len()
            <= 65_536
    &&& forall|i: int, j: int|
        0 <= i < j < records.len() ==> comes_before(
            encode_utf8((#[trigger] records[i]).kind),
            encode_utf8((#[trigger] records[j]).kind),
        )
}

/// A metadata blob: `XSecMD`, version 1, algorithm 1, the number of records, the records, and
/// a tag of 32 bytes; at most 1048576 bytes in all.
pub open spec fn is_blob(blob: Seq<u8>, records: Seq<RecordView>, tag: Seq<u8>) -> bool {
    &&& may_be_held(records)
    &&& tag.len() == 32
    &&& 44 <= blob.len() <= 1_048_576
    &&& blob[0] == 0x58 && blob[1] == 0x53 && blob[2] == 0x65 && blob[3] == 0x63 && blob[4] == 0x4D
        && blob[5] == 0x44
    &&& blob[6] == 0 && blob[7] == 1
    &&& blob[8] == 0 && blob[9] == 1
    &&& blob[10] * 256 + blob[11] == records.len()
    &&& exists|cuts: Seq<int>| #[trigger]
        are_records(blob.subrange(12, blob.len() - 32), records, cuts)
    &&& tag == blob.skip(blob.len() - 32)
}

proof fn lemma_cuts(records: Seq<RecordView>) -> (cuts: Seq<int>)
    requires
        forall|i: int|
            0 <= i < records.len() ==> encode_utf8((#[trigger] records[i]).kind).len() <= u16::MAX
                && records[i].payload.len() <= u32::MAX,
    ensures
        are_records(metadata::records_bytes(records), records, cuts),
    decreases records.len(),
{
    let raw = metadata::records_bytes(records);
    if records.len() == 0 {
        seq![0int]
    } else {
        let front = records.drop_last();
        assert forall|i: int| 0 <= i < front.len() implies encode_utf8(
            (#[trigger] front[i]).kind,
        ).len() <= u16::MAX && front[i].payload.len() <= u32::MAX by {
            assert(front[i] == records[i]);
        }
        let before = lemma_cuts(front);
        let head = metadata::records_bytes(front);
        let last = metadata::record_bytes(records.last());
        let cuts = before.push(raw.len() as int);
        assert(raw == head + last);
        assert forall|i: int| 0 <= i < records.len() implies #[trigger] record_between(
            raw,
            records,
            cuts,
            i,
        ) by {
            if i < front.len() {
                assert(record_between(head, front, before, i));
                assert(records[i] == front[i]);
                assert(raw.subrange(cuts[i], cuts[i + 1]) =~= head.subrange(
                    before[i],
                    before[i + 1],
                ));
            } else {
                let record = records[i];
                assert(records.last() == records[records.len() - 1]);
                assert(encode_utf8(record.kind).len() <= u16::MAX && record.payload.len()
                    <= u32::MAX);
                lemma_two(encode_utf8(record.kind).len() as u16);
                lemma_four(record.payload.len() as u32);
                assert(raw.subrange(cuts[i], cuts[i + 1]) =~= last);
                assert(is_record(last, record));
            }
        }
        cuts
    }
}

/// Two texts of one record are the same.
proof fn lemma_record_unique(a: Seq<u8>, b: Seq<u8>, record: RecordView)
    requires
        is_record(a, record),
        is_record(b, record),
    ensures
        a == b,
{
    let (s1, l1) = choose|s: Seq<u8>, l: Seq<u8>|
        #![trigger in_two(encode_utf8(record.kind).len() as int, s), in_four(record.payload.len() as int, l)]
        in_two(encode_utf8(record.kind).len() as int, s) && in_four(
            record.payload.len() as int,
            l,
        ) && a == s + encode_utf8(record.kind) + l + record.payload;
    let (s2, l2) = choose|s: Seq<u8>, l: Seq<u8>|
        #![trigger in_two(encode_utf8(record.kind).len() as int, s), in_four(record.payload.len() as int, l)]
        in_two(encode_utf8(record.kind).len() as int, s) && in_four(
            record.payload.len() as int,
            l,
        ) && b == s + encode_utf8(record.kind) + l + record.payload;
    lemma_one_two(encode_utf8(record.kind).len() as int, s1, s2);
    lemma_one_four(record.payload.len() as int, l1, l2);
}

proof fn lemma_one_two(n: int, a: Seq<u8>, b: Seq<u8>)
    requires
        in_two(n, a),
        in_two(n, b),
    ensures
        a == b,
{
    assert(a[0] == b[0] && a[1] == b[1]);
    assert(a =~= b);
}

proof fn lemma_one_four(n: int, a: Seq<u8>, b: Seq<u8>)
    requires
        in_four(n, a),
        in_four(n, b),
    ensures
        a == b,
{
    assert(a[0] == b[0] && a[1] == b[1] && a[2] == b[2] && a[3] == b[3]);
    assert(a =~= b);
}

/// Two texts of the same records are the same.
proof fn lemma_records_unique(
    a: Seq<u8>,
    x: Seq<int>,
    b: Seq<u8>,
    y: Seq<int>,
    records: Seq<RecordView>,
    n: int,
)
    requires
        are_records(a, records, x),
        are_records(b, records, y),
        0 <= n <= records.len(),
    ensures
        x[n] == y[n],
        0 <= x[n] <= a.len(),
        x[n] <= b.len(),
        a.take(x[n]) == b.take(x[n]),
    decreases n,
{
    if n > 0 {
        lemma_records_unique(a, x, b, y, records, n - 1);
        assert(record_between(a, records, x, n - 1));
        assert(record_between(b, records, y, n - 1));
        let (p, q) = (a.subrange(x[n - 1], x[n]), b.subrange(y[n - 1], y[n]));
        lemma_record_unique(p, q, records[n - 1]);
        assert(p.len() == q.len());
        assert(a.take(x[n]) =~= a.take(x[n - 1]) + p);
        assert(b.take(y[n]) =~= b.take(y[n - 1]) + q);
    } else {
        assert(a.take(0) =~= b.take(0));
    }
}

pub(crate) proof fn lemma_held(records: Seq<RecordView>)
    ensures
        may_be_held(records) == (1 <= records.len() <= metadata::MAX_PROTECTORS && (forall|i: int|
            0 <= i < records.len() ==> metadata::valid_record(#[trigger] records[i]))
            && metadata::strictly_ascending(records)),
        may_be_held(records) ==> forall|i: int|
            0 <= i < records.len() ==> encode_utf8((#[trigger] records[i]).kind).len() <= 128,
{
    assert forall|i: int| 0 <= i < records.len() implies metadata::valid_record(
        #[trigger] records[i],
    ) == (is_kind(records[i].kind) && records[i].payload.len() <= 65_536) by {
        lemma_kind(records[i].kind);
    }
    assert forall|i: int, j: int| 0 <= i < j < records.len() implies metadata::kind_less(
        (#[trigger] records[i]).kind,
        (#[trigger] records[j]).kind,
    ) == comes_before(encode_utf8(records[i].kind), encode_utf8(records[j].kind)) by {
        lemma_before(encode_utf8(records[i].kind), encode_utf8(records[j].kind));
    }
    if may_be_held(records) {
        assert forall|i: int| 0 <= i < records.len() implies encode_utf8(
            (#[trigger] records[i]).kind,
        ).len() <= 128 by {
            lemma_kind(records[i].kind);
        }
    }
}

/// Records that no blob can hold: they may not be held, or are too long together.
pub open spec fn too_much(records: Seq<RecordView>) -> bool {
    !may_be_held(records) || metadata::records_bytes(records).len() + 44 > 1_048_576
}

pub(crate) proof fn lemma_too_much(records: Seq<RecordView>)
    ensures
        too_much(records) == !metadata::storable(records),
{
    lemma_md();
    lemma_held(records);
}

pub(crate) proof fn lemma_blob(blob: Seq<u8>, records: Seq<RecordView>, tag: Seq<u8>)
    ensures
        is_blob(blob, records, tag) == metadata::is_metadata(blob, records, tag),
{
    lemma_md();
    lemma_held(records);
    let inner = metadata::records_bytes(records);
    let head = metadata::preamble(records.len() as int);
    if may_be_held(records) {
        assert forall|i: int| 0 <= i < records.len() implies encode_utf8(
            (#[trigger] records[i]).kind,
        ).len() <= u16::MAX && records[i].payload.len() <= u32::MAX by {
            assert(is_kind(records[i].kind) && records[i].payload.len() <= 65_536);
        }
        let cuts = lemma_cuts(records);
        if metadata::is_metadata(blob, records, tag) {
            lemma_metadata_bytes(blob, records, tag);
            assert(are_records(blob.subrange(12, blob.len() - 32), records, cuts));
        }
        if is_blob(blob, records, tag) {
            let found = choose|found: Seq<int>| #[trigger]
                are_records(blob.subrange(12, blob.len() - 32), records, found);
            let middle = blob.subrange(12, blob.len() - 32);
            let n = records.len() as int;
            lemma_records_unique(middle, found, inner, cuts, records, n);
            assert(middle.take(found[n]) =~= middle);
            assert(inner.take(found[n]) =~= inner);
            assert(middle == inner);
            let first = blob.take(12);
            assert(first =~= head) by {
                lemma_two(records.len() as u16);
                let count = bytes::be16(records.len() as u16);
                assert(count[0] * 256 + count[1] == records.len());
                assert(first[10] == count[0] && first[11] == count[1]);
                assert(bytes::be16(1) =~= seq![0u8, 1u8]);
                assert(head =~= encode_utf8("XSecMD"@) + seq![0u8, 1u8] + seq![0u8, 1u8] + count);
            }
            assert(blob =~= first + middle + tag);
            assert(metadata::authenticated_bytes(records) + tag =~= head + inner + tag);
        }
    }
}

proof fn lemma_metadata_bytes(blob: Seq<u8>, records: Seq<RecordView>, tag: Seq<u8>)
    requires
        metadata::is_metadata(blob, records, tag),
    ensures
        44 <= blob.len() <= 1_048_576,
        blob.subrange(12, blob.len() - 32) == metadata::records_bytes(records),
        blob[0] == 0x58 && blob[1] == 0x53 && blob[2] == 0x65 && blob[3] == 0x63 && blob[4] == 0x4D
            && blob[5] == 0x44,
        blob[6] == 0 && blob[7] == 1,
        blob[8] == 0 && blob[9] == 1,
        blob[10] * 256 + blob[11] == records.len(),
        tag == blob.skip(blob.len() - 32),
{
    lemma_md();
    let inner = metadata::records_bytes(records);
    let count = bytes::be16(records.len() as u16);
    lemma_two(records.len() as u16);
    assert(bytes::be16(1) =~= seq![0u8, 1u8]);
    let head = encode_utf8("XSecMD"@) + seq![0u8, 1u8] + seq![0u8, 1u8] + count;
    assert(metadata::preamble(records.len() as int) =~= head);
    assert(blob =~= head + inner + tag);
    assert(head.len() == 12);
    assert(blob.subrange(12, blob.len() - 32) =~= inner);
    assert(tag =~= blob.skip(blob.len() - 32));
    assert(blob[10] == head[10] && blob[11] == head[11]);
    assert(head[10] == count[0] && head[11] == count[1]);
    assert(blob[6] == head[6] && blob[7] == head[7] && blob[8] == head[8] && blob[9] == head[9]);
}

/// A blob is read if it is one, and then as the records and the tag that are in it. Another
/// version and another algorithm have errors of their own; anything else is corrupted.
pub proof fn law_blob_read(blob: &[u8], result: XSecResult<Metadata>)
    requires
        call_ensures(Metadata::parse, (blob,), result),
    ensures
        match result {
            Ok(m) => is_blob(blob@, m@.protectors, m@.mac),
            Err(e) => {
                let framed = 44 <= blob@.len() <= 1_048_576 && blob@[0] == 0x58 && blob@[1] == 0x53
                    && blob@[2] == 0x65 && blob@[3] == 0x63 && blob@[4] == 0x4D && blob@[5] == 0x44;
                &&& forall|records: Seq<RecordView>, tag: Seq<u8>|
                    !#[trigger] is_blob(blob@, records, tag)
                &&& e == if framed && !(blob@[6] == 0 && blob@[7] == 1) {
                    XSecError::UnsupportedVersion
                } else if framed && !(blob@[8] == 0 && blob@[9] == 1) {
                    XSecError::UnsupportedAlgorithm
                } else {
                    XSecError::Corrupted
                }
            },
        },
{
    match result {
        Ok(m) => {
            lemma_blob(blob@, m@.protectors, m@.mac);
        },
        Err(e) => {
            assert forall|records: Seq<RecordView>, tag: Seq<u8>|
                !#[trigger] is_blob(blob@, records, tag) by {
                lemma_blob(blob@, records, tag);
            }
            lemma_md();
            lemma_six(blob@, encode_utf8("XSecMD"@));
            if blob@.len() >= 44 {
                lemma_two_at(blob@, 6, 1);
                lemma_two_at(blob@, 8, 1);
            }
        },
    }
}

/// What is written of some records is a blob of these records, in the order of their kinds,
/// with a tag of everything before it. The tag is made with a key that is derived from the
/// data key for nothing else.
pub proof fn law_blob_written(held: &mut Metadata, key: &SecretKey, result: XSecResult<Vec<u8>>)
    requires
        call_ensures(Metadata::encode, (held, key), result),
    ensures
        final(held)@.protectors.to_multiset() == old(held)@.protectors.to_multiset(),
        result matches Ok(blob) ==> {
            let tag = crypto::hmac_sha256(
                crypto::hkdf_sha256(None, key@, encode_utf8("xsec:metadata-auth:v1"@)),
                blob@.take(blob@.len() - 32),
            );
            &&& is_blob(blob@, final(held)@.protectors, tag)
            &&& final(held)@.mac == tag
        },
        result matches Err(e) ==> e is Corrupted && !(may_be_held(final(held)@.protectors)
            && metadata::records_bytes(final(held)@.protectors).len() + 44 <= 1_048_576),
{
    let records = final(held)@.protectors;
    metadata::law_sorted_records(old(held)@.protectors);
    lemma_held(records);
    lemma_md();
    if let Ok(blob) = result {
        let body = metadata::authenticated_bytes(records);
        let tag = metadata::mac_of(key@, body);
        assert(tag.len() == 32);
        assert(blob@ == body + tag);
        assert(blob@.take(blob@.len() - 32) =~= body);
        metadata::law_encoded_is_metadata(records, tag);
        lemma_blob(blob@, records, tag);
    }
}

/// Metadata is authentic under a key if its tag is the one that the key gives for its bytes.
pub proof fn law_tag_checked(held: &Metadata, key: &SecretKey, result: XSecResult<()>)
    requires
        call_ensures(Metadata::verify, (held, key), result),
    ensures
        result is Ok == (held@.mac == crypto::hmac_sha256(
            crypto::hkdf_sha256(None, key@, encode_utf8("xsec:metadata-auth:v1"@)),
            held@.authenticated,
        )),
        result matches Err(e) ==> e is Corrupted,
{
}

/// A file that is not there holds no blob, one of more than 1048576 bytes is corrupted, and
/// any other is read.
pub proof fn law_blob_file_inspected(
    storage: &XSecFileStorage,
    inspected: Result<u64, FileFailure>,
    step: LoadStep,
)
    requires
        call_ensures(XSecFileStorage::after_inspect, (storage, inspected), step),
    ensures
        match inspected {
            Ok(length) => if length <= 1_048_576 {
                step is Read
            } else {
                step matches LoadStep::Done(Err(e)) && e is Corrupted
            },
            Err(FileFailure::NotFound) => step matches LoadStep::Done(Ok(found)) && found is None,
            Err(FileFailure::Other(reason)) => step matches LoadStep::Done(
                Err(XSecError::Storage { source }),
            ) && source == reason,
        },
{
}

/// What was read of a file is its blob, unless it is of more than 1048576 bytes.
pub proof fn law_blob_file_read(
    storage: &XSecFileStorage,
    read: Result<Vec<u8>, crate::error::ErrorSource>,
    result: XSecResult<Option<Vec<u8>>>,
)
    requires
        call_ensures(XSecFileStorage::after_read, (storage, read), result),
    ensures
        match read {
            Ok(blob) => if blob@.len() <= 1_048_576 {
                result matches Ok(Some(same)) && same@ == blob@
            } else {
                result matches Err(e) && e is Corrupted
            },
            Err(reason) => result matches Err(XSecError::Storage { source }) && source == reason,
        },
{
}

/// A blob is saved unless it is of more than 1048576 bytes; a failure to save it is one, and a
/// failure to remove it is one unless it was not there.
pub proof fn law_blob_file_changed(
    storage: &XSecFileStorage,
    data: &[u8],
    checked: XSecResult<()>,
    written: Result<(), crate::error::ErrorSource>,
    saved: XSecResult<()>,
    removed: Result<(), FileFailure>,
    deleted: XSecResult<()>,
)
    requires
        call_ensures(XSecFileStorage::check_save, (storage, data), checked),
        call_ensures(XSecFileStorage::after_save, (storage, written), saved),
        call_ensures(XSecFileStorage::after_delete, (storage, removed), deleted),
    ensures
        checked is Ok == (data@.len() <= 1_048_576),
        checked matches Err(e) ==> e is Corrupted,
        written is Ok ==> saved is Ok,
        written matches Err(reason) ==> (saved matches Err(XSecError::Storage { source }) && source
            == reason),
        removed is Ok ==> deleted is Ok,
        removed matches Err(failure) ==> match failure {
            FileFailure::NotFound => deleted is Ok,
            FileFailure::Other(reason) => deleted matches Err(XSecError::Storage { source })
                && source == reason,
        },
{
}

/// What metadata tells of its protectors, and what it is with one more or without a kind: the
/// others are kept as they are, in their order.
pub proof fn law_protectors_held(
    held: &Metadata,
    kind: &str,
    payload: Vec<u8>,
    found: bool,
    count: usize,
    kinds: Vec<&str>,
    first: Option<&[u8]>,
    more: Metadata,
    fewer: Metadata,
)
    requires
        call_ensures(Metadata::contains_kind, (held, kind), found),
        call_ensures(Metadata::protector_count, (held,), count),
        call_ensures(Metadata::kinds, (held,), kinds),
        call_ensures(Metadata::payload_of, (held, kind), first),
        call_ensures(Metadata::with_protector, (held, kind, payload), more),
        call_ensures(Metadata::without_protector, (held, kind), fewer),
    ensures
        found == exists|i: int|
            0 <= i < held@.protectors.len() && (#[trigger] held@.protectors[i]).kind == kind@,
        count == held@.protectors.len(),
        kinds@.len() == held@.protectors.len(),
        forall|i: int|
            0 <= i < kinds@.len() ==> (#[trigger] kinds@[i])@ == held@.protectors[i].kind,
        first is Some == found,
        first matches Some(p) ==> exists|i: int|
            {
                &&& 0 <= i < held@.protectors.len()
                &&& (#[trigger] held@.protectors[i]).kind == kind@
                &&& held@.protectors[i].payload == p@
                &&& forall|j: int| 0 <= j < i ==> (#[trigger] held@.protectors[j]).kind != kind@
            },
        more@.protectors == held@.protectors.push(
            RecordView { kind: kind@, payload: payload@ },
        ),
        fewer@.protectors == held@.protectors.filter(|r: RecordView| r.kind != kind@),
        more@.authenticated == held@.authenticated && fewer@.authenticated == held@.authenticated,
        more@.mac == held@.mac && fewer@.mac == held@.mac,
{
    lemma_without(held@.protectors, kind@);
    if let Some(p) = first {
        let i = choose|i: int| #[trigger]
            held@.first_of_kind(kind@, i) && p@ == held@.protectors[i].payload;
        assert(held@.protectors[i].kind == kind@);
    }
}

proof fn lemma_without(records: Seq<RecordView>, kind: Seq<char>)
    ensures
        metadata::without_kind(records, kind) == records.filter(|r: RecordView| r.kind != kind),
    decreases records.len(),
{
    reveal(Seq::filter);
    if records.len() > 0 {
        lemma_without(records.drop_last(), kind);
    }
}

/// Whether a file is there is told as the system told it, and the directory of a file is its
/// parent, or the current one where it has none or an empty one.
pub proof fn law_file_found<T>(
    storage: &XSecFileStorage,
    found: Result<bool, ErrorSource>,
    result: XSecResult<bool>,
    parent: Option<T>,
    empty: bool,
    current: T,
    directory: T,
)
    requires
        call_ensures(XSecFileStorage::check_exists, (storage, found), result),
        call_ensures(directory_of::<T>, (parent, empty, current), directory),
    ensures
        found matches Ok(yes) ==> (result matches Ok(told) && told == yes),
        found matches Err(reason) ==> (result matches Err(XSecError::Storage { source }) && source
            == reason),
        parent matches Some(p) ==> (!empty ==> directory == p),
        parent is None || empty ==> directory == current,
{
}

} // verus!
