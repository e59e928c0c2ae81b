//! The metadata blob: every key protector's wrapped copy of the data key, and a
//! tag that binds the list to that key.
use vstd::prelude::*;
use vstd::utf8::*;

use crate::bytes;
use crate::crypto;
use crate::error::{XSecError, XSecResult};
use crate::secret::SecretKey;

verus! {

pub const MAGIC: &'static str = "XSecMD";

pub const VERSION: u16 = 1;

pub const ALGORITHM: u16 = 1;

pub const MAC_LENGTH: usize = 32;

pub const MAX_METADATA_LENGTH: usize = 1_048_576;

pub const MAX_PROTECTORS: usize = 16;

pub const MAX_KIND_LENGTH: usize = 128;

pub const MAX_PAYLOAD_LENGTH: usize = 65_536;

pub const AUTH_KEY_INFO: &'static str = "xsec:metadata-auth:v1";

/// One key protector: its kind and the payload it wrapped the data key into.
pub struct ProtectorRecord {
    pub kind: String,
    pub payload: Vec<u8>,
}

/// The protectors of one data key, with the bytes that were authenticated and
/// their tag.
pub struct Metadata {
    protectors: Vec<ProtectorRecord>,
    authenticated: Vec<u8>,
    mac: [u8; 32],
}

/// A protector record as contracts see it.
#[verifier::ext_equal]
pub struct RecordView {
    pub kind: Seq<char>,
    pub payload: Seq<u8>,
}

/// Metadata as contracts see it.
#[verifier::ext_equal]
pub struct MetadataView {
    pub protectors: Seq<RecordView>,
    pub authenticated: Seq<u8>,
    pub mac: Seq<u8>,
}

impl View for ProtectorRecord {
    type V = RecordView;

    open spec fn view(&self) -> RecordView {
        RecordView { kind: self.kind@, payload: self.payload@ }
    }
}

/// The records of a list of protectors.
pub open spec fn records(protectors: Seq<ProtectorRecord>) -> Seq<RecordView> {
    Seq::new(protectors.len(), |i: int| protectors[i]@)
}

impl View for Metadata {
    type V = MetadataView;

    closed spec fn view(&self) -> MetadataView {
        MetadataView {
            protectors: records(self.protectors@),
            authenticated: self.authenticated@,
            mac: self.mac@,
        }
    }
}

/// A byte that may begin a kind: a lower-case letter or a digit.
pub open spec fn kind_initial(b: u8) -> bool {
    0x61 <= b <= 0x7A || 0x30 <= b <= 0x39
}

/// A byte that may stand in a kind: also a dot, an underscore or a hyphen.
pub open spec fn kind_byte(b: u8) -> bool {
    kind_initial(b) || b == 0x2E || b == 0x5F || b == 0x2D
}

/// The form of a kind: 1 to 128 bytes of `[a-z0-9._-]`, the first `[a-z0-9]`.
pub open spec fn valid_kind(kind: Seq<char>) -> bool {
    let b = encode_utf8(kind);
    &&& 1 <= b.len() <= MAX_KIND_LENGTH
    &&& kind_initial(b[0])
    &&& forall|i: int| 0 <= i < b.len() ==> kind_byte(#[trigger] b[i])
}

/// The order of kinds: that of their bytes.
pub open spec fn kind_less(a: Seq<char>, b: Seq<char>) -> bool {
    bytes::lex_less(encode_utf8(a), encode_utf8(b))
}

/// A record as it is stored: each field behind its length.
pub open spec fn record_bytes(record: RecordView) -> Seq<u8> {
    bytes::be16(encode_utf8(record.kind).len() as u16) + encode_utf8(record.kind) + bytes::be32(
        record.payload.len() as u32,
    ) + record.payload
}

/// Records as they are stored, one after the other.
pub open spec fn records_bytes(records: Seq<RecordView>) -> Seq<u8>
    decreases records.len(),
{
    if records.len() == 0 {
        Seq::empty()
    } else {
        records_bytes(records.drop_last()) + record_bytes(records.last())
    }
}

/// What comes before the records, for `count` of them.
pub open spec fn preamble(count: int) -> Seq<u8> {
    bytes::text(MAGIC) + bytes::be16(VERSION) + bytes::be16(ALGORITHM) + bytes::be16(count as u16)
}

/// The authenticated part of the metadata of `records`.
pub open spec fn authenticated_bytes(records: Seq<RecordView>) -> Seq<u8> {
    preamble(records.len() as int) + records_bytes(records)
}

/// A record that can be stored.
pub open spec fn valid_record(record: RecordView) -> bool {
    valid_kind(record.kind) && record.payload.len() <= MAX_PAYLOAD_LENGTH
}

/// The kinds come in strictly ascending order, so none occurs twice.
pub open spec fn strictly_ascending(records: Seq<RecordView>) -> bool {
    forall|i: int, j: int|
        0 <= i < j < records.len() ==> kind_less(
            (#[trigger] records[i]).kind,
            (#[trigger] records[j]).kind,
        )
}

/// Records that metadata can hold: 1 to 16 valid ones in strictly ascending order
/// of kind, within the size limit.
pub open spec fn storable(records: Seq<RecordView>) -> bool {
    &&& 1 <= records.len() <= MAX_PROTECTORS
    &&& forall|i: int| 0 <= i < records.len() ==> valid_record(#[trigger] records[i])
    &&& strictly_ascending(records)
    &&& authenticated_bytes(records).len() + MAC_LENGTH <= MAX_METADATA_LENGTH
}

/// `blob` is the metadata of `records` with the tag `mac`.
pub open spec fn is_metadata(blob: Seq<u8>, records: Seq<RecordView>, mac: Seq<u8>) -> bool {
    &&& storable(records)
    &&& mac.len() == MAC_LENGTH
    &&& blob == authenticated_bytes(records) + mac
}

/// `blob` has the length and the magic of metadata.
pub open spec fn framed(blob: Seq<u8>) -> bool {
    44 <= blob.len() <= MAX_METADATA_LENGTH && blob.take(6) == bytes::text(MAGIC)
}

/// Why a blob that is not metadata is refused.
pub open spec fn refusal(blob: Seq<u8>) -> XSecError {
    if !framed(blob) {
        XSecError::Corrupted
    } else if blob.subrange(6, 8) != bytes::be16(VERSION) {
        XSecError::UnsupportedVersion
    } else if blob.subrange(8, 10) != bytes::be16(ALGORITHM) {
        XSecError::UnsupportedAlgorithm
    } else {
        XSecError::Corrupted
    }
}

/// The key that authenticates metadata, derived from the data key.
pub open spec fn auth_key_of(dek: Seq<u8>) -> Seq<u8> {
    crypto::hkdf_sha256(None, dek, bytes::text(AUTH_KEY_INFO))
}

/// The tag of `data` under the data key.
pub open spec fn mac_of(dek: Seq<u8>, data: Seq<u8>) -> Seq<u8> {
    crypto::hmac_sha256(auth_key_of(dek), data)
}

/// The metadata blob of `records` under the data key.
pub open spec fn encoded(records: Seq<RecordView>, dek: Seq<u8>) -> Seq<u8> {
    authenticated_bytes(records) + mac_of(dek, authenticated_bytes(records))
}

/// The metadata of `records` under the data key.
pub open spec fn sealed_metadata(records: Seq<RecordView>, dek: Seq<u8>) -> MetadataView {
    MetadataView {
        protectors: records,
        authenticated: authenticated_bytes(records),
        mac: mac_of(dek, authenticated_bytes(records)),
    }
}

/// `records` with `record` put behind the last record whose kind is not greater.
pub open spec fn insert_record(records: Seq<RecordView>, record: RecordView) -> Seq<RecordView>
    decreases records.len(),
{
    if records.len() > 0 && kind_less(record.kind, records.last().kind) {
        insert_record(records.drop_last(), record).push(records.last())
    } else {
        records.push(record)
    }
}

/// `records` in ascending order of kind; records of one kind keep their order.
pub open spec fn sorted_records(records: Seq<RecordView>) -> Seq<RecordView>
    decreases records.len(),
{
    if records.len() == 0 {
        Seq::empty()
    } else {
        insert_record(sorted_records(records.drop_last()), records.last())
    }
}

/// `records` less those of a kind.
pub open spec fn without_kind(records: Seq<RecordView>, kind: Seq<char>) -> Seq<RecordView>
    decreases records.len(),
{
    if records.len() == 0 {
        Seq::empty()
    } else if records.last().kind == kind {
        without_kind(records.drop_last(), kind)
    } else {
        without_kind(records.drop_last(), kind).push(records.last())
    }
}

/// No kind is greater than a later one.
pub open spec fn ascending(records: Seq<RecordView>) -> bool {
    forall|i: int, j: int|
        0 <= i < j < records.len() ==> !kind_less(
            (#[trigger] records[j]).kind,
            (#[trigger] records[i]).kind,
        )
}

impl MetadataView {
    /// The records can be stored and the authenticated bytes are theirs.
    pub open spec fn wf(self) -> bool {
        &&& storable(self.protectors)
        &&& self.authenticated == authenticated_bytes(self.protectors)
        &&& self.mac.len() == MAC_LENGTH
    }

    /// The tag is that of the authenticated bytes under the data key.
    pub open spec fn verified_by(self, dek: Seq<u8>) -> bool {
        self.mac == mac_of(dek, self.authenticated)
    }

    /// The position of the first record of a kind.
    pub open spec fn first_of_kind(self, kind: Seq<char>, i: int) -> bool {
        &&& 0 <= i < self.protectors.len()
        &&& self.protectors[i].kind == kind
        &&& forall|j: int| 0 <= j < i ==> (#[trigger] self.protectors[j]).kind != kind
    }

    /// Some record has the kind.
    pub open spec fn has_kind(self, kind: Seq<char>) -> bool {
        exists|i: int| 0 <= i < self.protectors.len() && (#[trigger] self.protectors[i]).kind == kind
    }
}

proof fn lemma_magic_length()
    ensures
        bytes::text(MAGIC).len() == 6,
{
    reveal_strlit("XSecMD");
    assert(is_ascii_chars(MAGIC@));
    is_ascii_chars_encode_utf8(MAGIC@);
}

/// One more record adds its bytes at the end.
proof fn lemma_records_take(records: Seq<RecordView>, i: int)
    requires
        0 <= i < records.len(),
    ensures
        records_bytes(records.take(i + 1)) == records_bytes(records.take(i)) + record_bytes(
            records[i],
        ),
{
    assert(records.take(i + 1).drop_last() =~= records.take(i));
}

/// The bytes of the first records begin the bytes of all of them.
proof fn lemma_records_prefix(records: Seq<RecordView>, i: int)
    requires
        0 <= i <= records.len(),
    ensures
        records_bytes(records.take(i)).is_prefix_of(records_bytes(records)),
    decreases records.len() - i,
{
    if i < records.len() {
        lemma_records_prefix(records, i + 1);
        lemma_records_take(records, i);
        let (a, b, c) = (
            records_bytes(records.take(i)),
            records_bytes(records.take(i + 1)),
            records_bytes(records),
        );
        assert(a =~= c.take(a.len() as int)) by {
            assert forall|k: int| 0 <= k < a.len() implies a[k] == c[k] by {
                assert(b[k] == c.take(b.len() as int)[k]);
            }
        }
    } else {
        assert(records.take(i) =~= records);
        assert(records_bytes(records).take(records_bytes(records).len() as int) =~= records_bytes(
            records,
        ));
    }
}

/// A valid record stands at `offset` and ends before `limit`.
spec fn record_at(data: Seq<u8>, offset: int, limit: int, record: RecordView) -> bool {
    &&& valid_record(record)
    &&& offset + record_bytes(record).len() <= limit
    &&& data.subrange(offset, offset + record_bytes(record).len()) == record_bytes(record)
}

/// Where four byte strings stand in their concatenation.
proof fn lemma_four_parts(a: Seq<u8>, b: Seq<u8>, c: Seq<u8>, d: Seq<u8>)
    ensures
        ({
            let s = a + b + c + d;
            let (x, y, z) = (
                a.len() as int,
                (a.len() + b.len()) as int,
                (a.len() + b.len() + c.len()) as int,
            );
            &&& s.len() == z + d.len()
            &&& s.subrange(0, x) == a
            &&& s.subrange(x, y) == b
            &&& s.subrange(y, z) == c
            &&& s.subrange(z, z + d.len()) == d
        }),
{
    let s = a + b + c + d;
    let (x, y, z) = (
        a.len() as int,
        (a.len() + b.len()) as int,
        (a.len() + b.len() + c.len()) as int,
    );
    assert(s.subrange(0, x) =~= a);
    assert(s.subrange(x, y) =~= b);
    assert(s.subrange(y, z) =~= c);
    assert(s.subrange(z, z + d.len()) =~= d);
}

/// Where the fields of a stored record stand.
proof fn lemma_record_layout(data: Seq<u8>, offset: int, limit: int, record: RecordView)
    requires
        0 <= offset,
        limit <= data.len(),
        record_at(data, offset, limit, record),
    ensures
        ({
            let kind = encode_utf8(record.kind);
            let payload = record.payload;
            let start = offset + 2 + kind.len() + 4;
            &&& start + payload.len() <= limit
            &&& data.subrange(offset, offset + 2) == bytes::be16(kind.len() as u16)
            &&& data.subrange(offset + 2, offset + 2 + kind.len()) == kind
            &&& data.subrange(offset + 2 + kind.len(), start) == bytes::be32(payload.len() as u32)
            &&& bytes::from_be16(data.subrange(offset, offset + 2)) == kind.len()
            &&& bytes::from_be32(data.subrange(offset + 2 + kind.len(), start)) == payload.len()
        }),
{
    let kind = encode_utf8(record.kind);
    let payload = record.payload;
    let r = record_bytes(record);
    let n = kind.len() as int;
    lemma_four_parts(
        bytes::be16(kind.len() as u16),
        kind,
        bytes::be32(payload.len() as u32),
        payload,
    );
    assert(data.subrange(offset, offset + 2) =~= r.subrange(0, 2));
    assert(data.subrange(offset + 2, offset + 2 + n) =~= r.subrange(2, 2 + n));
    assert(data.subrange(offset + 2 + n, offset + 6 + n) =~= r.subrange(2 + n, 6 + n));
    bytes::lemma_be16(kind.len() as u16);
    bytes::lemma_be32(payload.len() as u32);
}

/// Record `i` of stored records stands behind the ones before it.
proof fn lemma_nth_record(data: Seq<u8>, records: Seq<RecordView>, i: int)
    requires
        storable(records),
        data == authenticated_bytes(records),
        0 <= i < records.len(),
    ensures
        record_at(
            data,
            (12 + records_bytes(records.take(i)).len()) as int,
            data.len() as int,
            records[i],
        ),
        12 + records_bytes(records.take(i)).len() + record_bytes(records[i]).len() == 12
            + records_bytes(records.take(i + 1)).len(),
{
    lemma_magic_length();
    lemma_records_take(records, i);
    lemma_records_prefix(records, i + 1);
    let r = record_bytes(records[i]);
    let before = records_bytes(records.take(i));
    let upto = records_bytes(records.take(i + 1));
    let all = records_bytes(records);
    let offset: int = (12 + before.len()) as int;
    assert(valid_record(records[i]));
    assert(upto == all.take(upto.len() as int));
    assert forall|k: int| 0 <= k < r.len() implies data[offset + k] == #[trigger] r[k] by {
        assert(upto[before.len() + k] == r[k]);
        assert(all[before.len() + k] == upto[before.len() + k]);
        assert(data[12 + (before.len() + k)] == all[before.len() + k]);
    }
    assert(data.subrange(offset, offset + r.len()) =~= r);
}

/// Every metadata blob is framed and announces its number of records.
proof fn lemma_metadata_frame(blob: Seq<u8>)
    ensures
        forall|r: Seq<RecordView>, mac: Seq<u8>| #[trigger]
            is_metadata(blob, r, mac) ==> framed(blob) && blob.subrange(6, 8) == bytes::be16(VERSION)
                && blob.subrange(8, 10) == bytes::be16(ALGORITHM) && blob.subrange(10, 12)
                == bytes::be16(r.len() as u16) && 1 <= bytes::from_be16(blob.subrange(10, 12))
                <= MAX_PROTECTORS,
{
    assert forall|r: Seq<RecordView>, mac: Seq<u8>| #[trigger] is_metadata(blob, r, mac) implies framed(
        blob,
    ) && blob.subrange(6, 8) == bytes::be16(VERSION) && blob.subrange(8, 10) == bytes::be16(
        ALGORITHM,
    ) && blob.subrange(10, 12) == bytes::be16(r.len() as u16) && 1 <= bytes::from_be16(
        blob.subrange(10, 12),
    ) <= MAX_PROTECTORS by {
        lemma_magic_length();
        assert(blob.take(6) =~= bytes::text(MAGIC));
        assert(blob.subrange(6, 8) =~= bytes::be16(VERSION));
        assert(blob.subrange(8, 10) =~= bytes::be16(ALGORITHM));
        assert(blob.subrange(10, 12) =~= bytes::be16(r.len() as u16));
        bytes::lemma_be16(r.len() as u16);
    }
}

/// A record that stands in the first `limit` bytes stands in the whole.
proof fn lemma_record_in_prefix(blob: Seq<u8>, limit: int, offset: int, record: RecordView)
    requires
        0 <= offset,
        0 <= limit <= blob.len(),
        record_at(blob.take(limit), offset, limit, record),
    ensures
        record_at(blob, offset, limit, record),
{
    let n = record_bytes(record).len();
    assert(blob.take(limit).subrange(offset, offset + n) =~= blob.subrange(offset, offset + n));
}

/// At most one record stands at an offset.
proof fn lemma_record_unique(data: Seq<u8>, offset: int, limit: int, a: RecordView, b: RecordView)
    requires
        0 <= offset,
        limit <= data.len(),
        record_at(data, offset, limit, a),
        record_at(data, offset, limit, b),
    ensures
        a == b,
{
    lemma_record_layout(data, offset, limit, a);
    lemma_record_layout(data, offset, limit, b);
    bytes::lemma_text_injective(a.kind, b.kind);
    let n = encode_utf8(a.kind).len() as int;
    let m = a.payload.len() as int;
    assert(record_bytes(a).skip(6 + n) =~= a.payload);
    assert(record_bytes(b).skip(6 + n) =~= b.payload);
    assert(a =~= b);
}

/// A greater kind at the end keeps the order strict.
proof fn lemma_ascending_push(records: Seq<RecordView>, record: RecordView)
    requires
        strictly_ascending(records),
        records.len() > 0 ==> kind_less(records.last().kind, record.kind),
    ensures
        strictly_ascending(records.push(record)),
{
    let now = records.push(record);
    assert forall|i: int, j: int| 0 <= i < j < now.len() implies kind_less(
        (#[trigger] now[i]).kind,
        (#[trigger] now[j]).kind,
    ) by {
        if j == records.len() {
            if i < records.len() - 1 {
                assert(kind_less(records[i].kind, records[records.len() - 1].kind));
                bytes::lemma_lex_transitive(
                    encode_utf8(records[i].kind),
                    encode_utf8(records.last().kind),
                    encode_utf8(record.kind),
                );
            }
        } else {
            assert(kind_less(records[i].kind, records[j].kind));
        }
    }
}

/// Insertion adds one record and keeps the order.
proof fn lemma_insert_record(records: Seq<RecordView>, record: RecordView)
    ensures
        insert_record(records, record).to_multiset() == records.to_multiset().insert(record),
        ascending(records) ==> ascending(insert_record(records, record)),
        forall|i: int|
            0 <= i < insert_record(records, record).len() ==> (#[trigger] insert_record(
                records,
                record,
            )[i]) == record || records.contains(insert_record(records, record)[i]),
    decreases records.len(),
{
    broadcast use vstd::seq_lib::group_to_multiset_ensures;

    let now = insert_record(records, record);
    if records.len() > 0 && kind_less(record.kind, records.last().kind) {
        let (front, last) = (records.drop_last(), records.last());
        let inner = insert_record(front, record);
        lemma_insert_record(front, record);
        assert(records =~= front.push(last));
        assert(now.to_multiset() =~= records.to_multiset().insert(record));
        assert forall|i: int| 0 <= i < now.len() implies (#[trigger] now[i]) == record
            || records.contains(now[i]) by {
            if i < inner.len() {
                assert(now[i] == inner[i]);
                if inner[i] != record {
                    let k = choose|k: int| 0 <= k < front.len() && front[k] == inner[i];
                    assert(records[k] == now[i]);
                }
            } else {
                assert(records[records.len() - 1] == now[i]);
            }
        }
        if ascending(records) {
            assert(ascending(front)) by {
                assert forall|i: int, j: int| 0 <= i < j < front.len() implies !kind_less(
                    (#[trigger] front[j]).kind,
                    (#[trigger] front[i]).kind,
                ) by {
                    assert(front[i] == records[i] && front[j] == records[j]);
                }
            }
            assert forall|i: int, j: int| 0 <= i < j < now.len() implies !kind_less(
                (#[trigger] now[j]).kind,
                (#[trigger] now[i]).kind,
            ) by {
                if j < inner.len() {
                    assert(now[i] == inner[i] && now[j] == inner[j]);
                } else {
                    assert(now[i] == inner[i]);
                    if inner[i] == record {
                        lemma_kind_asymmetric(record.kind, last.kind);
                    } else {
                        let k = choose|k: int| 0 <= k < front.len() && front[k] == inner[i];
                        assert(records[k] == now[i]);
                        assert(records[records.len() - 1] == now[j]);
                    }
                }
            }
        }
    } else {
        assert(now.to_multiset() =~= records.to_multiset().insert(record));
        assert forall|i: int| 0 <= i < now.len() implies (#[trigger] now[i]) == record
            || records.contains(now[i]) by {
            if i < records.len() {
                assert(now[i] == records[i]);
            }
        }
        if ascending(records) {
            assert forall|i: int, j: int| 0 <= i < j < now.len() implies !kind_less(
                (#[trigger] now[j]).kind,
                (#[trigger] now[i]).kind,
            ) by {
                assert(now[i] == records[i]);
                if j < records.len() {
                    assert(now[j] == records[j]);
                } else if kind_less(record.kind, records[i].kind) {
                    let last = records.last();
                    bytes::lemma_lex_total(encode_utf8(records[i].kind), encode_utf8(last.kind));
                    if i < records.len() - 1 {
                        assert(!kind_less(records[records.len() - 1].kind, records[i].kind));
                    }
                    if kind_less(records[i].kind, last.kind) {
                        bytes::lemma_lex_transitive(
                            encode_utf8(record.kind),
                            encode_utf8(records[i].kind),
                            encode_utf8(last.kind),
                        );
                    }
                }
            }
        }
    }
}

/// Of two kinds at most one comes before the other.
proof fn lemma_kind_asymmetric(a: Seq<char>, b: Seq<char>)
    requires
        kind_less(a, b),
    ensures
        !kind_less(b, a),
{
    if kind_less(b, a) {
        bytes::lemma_lex_transitive(encode_utf8(a), encode_utf8(b), encode_utf8(a));
        bytes::lemma_lex_irreflexive(encode_utf8(a));
    }
}

/// Sorting keeps every record, each as often as it occurs, and puts the kinds in
/// ascending order.
pub proof fn law_sorted_records(records: Seq<RecordView>)
    ensures
        ascending(sorted_records(records)),
        sorted_records(records).to_multiset() == records.to_multiset(),
    decreases records.len(),
{
    broadcast use vstd::seq_lib::group_to_multiset_ensures;

    if records.len() > 0 {
        law_sorted_records(records.drop_last());
        lemma_insert_record(sorted_records(records.drop_last()), records.last());
        assert(records =~= records.drop_last().push(records.last()));
    } else {
        assert(records =~= Seq::empty());
    }
}

/// Records in strictly ascending order are left as they are.
pub proof fn law_sorted_records_fixed(records: Seq<RecordView>)
    requires
        strictly_ascending(records),
    ensures
        sorted_records(records) == records,
    decreases records.len(),
{
    if records.len() > 0 {
        let front = records.drop_last();
        assert(strictly_ascending(front)) by {
            assert forall|i: int, j: int| 0 <= i < j < front.len() implies kind_less(
                (#[trigger] front[i]).kind,
                (#[trigger] front[j]).kind,
            ) by {
                assert(front[i] == records[i] && front[j] == records[j]);
            }
        }
        law_sorted_records_fixed(front);
        if front.len() > 0 {
            assert(front.last() == records[records.len() - 2]);
            assert(kind_less(records[records.len() - 2].kind, records[records.len() - 1].kind));
            lemma_kind_asymmetric(front.last().kind, records.last().kind);
        }
        assert(records =~= front.push(records.last()));
    } else {
        assert(records =~= Seq::empty());
    }
}

/// What is encoded is metadata, of the records it was encoded from.
pub proof fn law_encoded_is_metadata(records: Seq<RecordView>, mac: Seq<u8>)
    requires
        storable(records),
        mac.len() == MAC_LENGTH,
    ensures
        is_metadata(authenticated_bytes(records) + mac, records, mac),
{
}

/// Records in strictly ascending order are known by what they are: two such lists of
/// the same records are the same list.
pub proof fn lemma_ascending_unique(a: Seq<RecordView>, b: Seq<RecordView>)
    requires
        strictly_ascending(a),
        strictly_ascending(b),
        a.to_multiset() == b.to_multiset(),
    ensures
        a == b,
    decreases a.len(),
{
    broadcast use vstd::seq_lib::group_to_multiset_ensures;

    assert(a.to_multiset().len() == a.len());
    assert(b.to_multiset().len() == b.len());
    if a.len() > 0 {
        let (x, y) = (a.last(), b.last());
        assert(a.contains(x) && b.contains(y)) by {
            assert(a[a.len() - 1] == x);
            assert(b[b.len() - 1] == y);
        }
        assert(b.to_multiset().count(x) > 0 && a.to_multiset().count(y) > 0);
        assert(b.contains(x) && a.contains(y));
        if x != y {
            let i = b.index_of(x);
            let j = a.index_of(y);
            assert(b[i] == x && a[j] == y);
            assert(kind_less(b[i].kind, b[b.len() - 1].kind));
            assert(kind_less(a[j].kind, a[a.len() - 1].kind));
            bytes::lemma_lex_transitive(
                encode_utf8(x.kind),
                encode_utf8(y.kind),
                encode_utf8(x.kind),
            );
            bytes::lemma_lex_irreflexive(encode_utf8(x.kind));
        }
        let (fa, fb) = (a.drop_last(), b.drop_last());
        assert(a =~= fa.push(x) && b =~= fb.push(x));
        assert(fa.to_multiset() =~= a.to_multiset().remove(x));
        assert(fb.to_multiset() =~= b.to_multiset().remove(x));
        assert(strictly_ascending(fa)) by {
            assert forall|i: int, j: int| 0 <= i < j < fa.len() implies kind_less(
                (#[trigger] fa[i]).kind,
                (#[trigger] fa[j]).kind,
            ) by {
                assert(fa[i] == a[i] && fa[j] == a[j]);
            }
        }
        assert(strictly_ascending(fb)) by {
            assert forall|i: int, j: int| 0 <= i < j < fb.len() implies kind_less(
                (#[trigger] fb[i]).kind,
                (#[trigger] fb[j]).kind,
            ) by {
                assert(fb[i] == b[i] && fb[j] == b[j]);
            }
        }
        lemma_ascending_unique(fa, fb);
    } else {
        assert(a =~= b);
    }
}

/// A blob is the metadata of one list of records and one tag: the format is
/// canonical, and every difference in the list shows in the blob.
pub proof fn law_metadata_unique(
    blob: Seq<u8>,
    r1: Seq<RecordView>,
    m1: Seq<u8>,
    r2: Seq<RecordView>,
    m2: Seq<u8>,
)
    requires
        is_metadata(blob, r1, m1),
        is_metadata(blob, r2, m2),
    ensures
        r1 == r2,
        m1 == m2,
{
    let data = blob.take(blob.len() - MAC_LENGTH);
    assert(data =~= authenticated_bytes(r1));
    assert(data =~= authenticated_bytes(r2));
    assert(blob.skip(blob.len() - MAC_LENGTH) =~= m1);
    assert(blob.skip(blob.len() - MAC_LENGTH) =~= m2);
    lemma_metadata_frame(blob);
    bytes::lemma_be16(r1.len() as u16);
    bytes::lemma_be16(r2.len() as u16);
    lemma_same_records(data, r1, r2, r1.len() as int);
    assert(r1.take(r1.len() as int) =~= r1);
    assert(r2.take(r1.len() as int) =~= r2);
}

proof fn lemma_same_records(data: Seq<u8>, r1: Seq<RecordView>, r2: Seq<RecordView>, n: int)
    requires
        storable(r1),
        storable(r2),
        data == authenticated_bytes(r1),
        data == authenticated_bytes(r2),
        r1.len() == r2.len(),
        0 <= n <= r1.len(),
    ensures
        r1.take(n) == r2.take(n),
    decreases n,
{
    if n > 0 {
        lemma_same_records(data, r1, r2, n - 1);
        lemma_nth_record(data, r1, n - 1);
        lemma_nth_record(data, r2, n - 1);
        lemma_record_unique(
            data,
            (12 + records_bytes(r1.take(n - 1)).len()) as int,
            data.len() as int,
            r1[n - 1],
            r2[n - 1],
        );
        assert(r1.take(n) =~= r1.take(n - 1).push(r1[n - 1]));
        assert(r2.take(n) =~= r2.take(n - 1).push(r2[n - 1]));
    } else {
        assert(r1.take(0) =~= r2.take(0));
    }
}

/// What is left when a kind is removed: only other kinds, each from the list, in
/// their order, and no more bytes than before.
proof fn lemma_without_kind(records: Seq<RecordView>, kind: Seq<char>)
    requires
        strictly_ascending(records),
        forall|i: int| 0 <= i < records.len() ==> valid_record(#[trigger] records[i]),
    ensures
        without_kind(records, kind).len() <= records.len(),
        records.len() <= without_kind(records, kind).len() + 1,
        strictly_ascending(without_kind(records, kind)),
        records_bytes(without_kind(records, kind)).len() <= records_bytes(records).len(),
        forall|i: int|
            0 <= i < without_kind(records, kind).len() ==> valid_record(
                #[trigger] without_kind(records, kind)[i],
            ),
        forall|i: int|
            0 <= i < without_kind(records, kind).len() ==> records.contains(
                #[trigger] without_kind(records, kind)[i],
            ) && without_kind(records, kind)[i].kind != kind,
        (forall|i: int| 0 <= i < records.len() ==> (#[trigger] records[i]).kind != kind)
            ==> without_kind(records, kind) == records,
    decreases records.len(),
{
    if records.len() > 0 {
        let (front, last) = (records.drop_last(), records.last());
        assert(records =~= front.push(last));
        assert forall|i: int| 0 <= i < front.len() implies valid_record(#[trigger] front[i]) by {
            assert(front[i] == records[i]);
        }
        assert forall|i: int, j: int| 0 <= i < j < front.len() implies kind_less(
            (#[trigger] front[i]).kind,
            (#[trigger] front[j]).kind,
        ) by {
            assert(front[i] == records[i] && front[j] == records[j]);
        }
        lemma_without_kind(front, kind);
        let inner = without_kind(front, kind);
        let now = without_kind(records, kind);
        assert forall|i: int| 0 <= i < inner.len() implies records.contains(#[trigger] inner[i])
            && kind_less(inner[i].kind, last.kind) by {
            let k = choose|k: int| 0 <= k < front.len() && front[k] == inner[i];
            assert(records[k] == inner[i]);
            assert(kind_less(records[k].kind, records[records.len() - 1].kind));
        }
        assert(records[records.len() - 1] == last);
        if last.kind == kind {
            assert forall|i: int| 0 <= i < front.len() implies (#[trigger] front[i]).kind != kind by {
                assert(kind_less(records[i].kind, records[records.len() - 1].kind));
                bytes::lemma_lex_irreflexive(encode_utf8(kind));
            }
        } else {
            assert(now.drop_last() =~= inner);
            if inner.len() > 0 {
                assert(kind_less(inner[inner.len() - 1].kind, last.kind));
            }
            lemma_ascending_push(inner, last);
            assert forall|i: int| 0 <= i < now.len() implies valid_record(#[trigger] now[i])
                && records.contains(now[i]) && now[i].kind != kind by {
                if i < inner.len() {
                    assert(now[i] == inner[i]);
                }
            }
            if forall|i: int| 0 <= i < records.len() ==> (#[trigger] records[i]).kind != kind {
                assert forall|i: int| 0 <= i < front.len() implies (#[trigger] front[i]).kind != kind by {
                    assert(front[i] == records[i]);
                }
            }
        }
    } else {
        assert(records =~= without_kind(records, kind));
    }
}

/// Of two or more stored protectors any kind can be removed: the rest can be
/// stored, and is in order already.
pub proof fn law_removal_storable(records: Seq<RecordView>, kind: Seq<char>)
    requires
        storable(records),
        records.len() >= 2,
    ensures
        storable(without_kind(records, kind)),
        sorted_records(without_kind(records, kind)) == without_kind(records, kind),
        forall|i: int|
            0 <= i < without_kind(records, kind).len() ==> (#[trigger] without_kind(
                records,
                kind,
            )[i]).kind != kind,
{
    lemma_without_kind(records, kind);
    law_sorted_records_fixed(without_kind(records, kind));
}

/// Checks the form of a kind.
pub fn validate_kind(kind: &str) -> (result: XSecResult<()>)
    ensures
        result is Ok <==> valid_kind(kind@),
        result matches Err(e) ==> e is Corrupted,
{
    let raw: &[u8] = kind.as_bytes();
    if raw.len() == 0 || raw.len() > MAX_KIND_LENGTH || !is_kind_initial(raw[0]) {
        return Err(XSecError::Corrupted);
    }
    let mut i: usize = 0;
    while i < raw.len()
        invariant
            i <= raw@.len(),
            raw@ == encode_utf8(kind@),
            forall|j: int| 0 <= j < i ==> kind_byte(#[trigger] raw@[j]),
        decreases raw@.len() - i,
    {
        if !is_kind_byte(raw[i]) {
            return Err(XSecError::Corrupted);
        }
        i = i + 1;
    }
    Ok(())
}

fn is_kind_initial(b: u8) -> (yes: bool)
    ensures
        yes == kind_initial(b),
{
    (0x61 <= b && b <= 0x7A) || (0x30 <= b && b <= 0x39)
}

fn is_kind_byte(b: u8) -> (yes: bool)
    ensures
        yes == kind_byte(b),
{
    is_kind_initial(b) || b == 0x2E || b == 0x5F || b == 0x2D
}

/// Takes the next `len` bytes before `limit` and moves `offset` past them.
fn take<'a>(blob: &'a [u8], offset: &mut usize, len: usize, limit: usize) -> (value: XSecResult<
    &'a [u8],
>)
    requires
        limit <= blob@.len(),
    ensures
        value is Ok <==> *old(offset) + len <= limit,
        value matches Ok(v) ==> v@ == blob@.subrange(*old(offset) as int, *old(offset) + len)
            && *final(offset) == *old(offset) + len,
        value matches Err(e) ==> e is Corrupted && *final(offset) == *old(offset),
{
    match offset.checked_add(len) {
        None => Err(XSecError::Corrupted),
        Some(end) => {
            if end > limit {
                return Err(XSecError::Corrupted);
            }
            let value: &[u8] = &blob[*offset..end];
            *offset = end;
            Ok(value)
        },
    }
}

/// Reads the next two bytes before `limit` as a number.
fn read_u16(blob: &[u8], offset: &mut usize, limit: usize) -> (value: XSecResult<u16>)
    requires
        limit <= blob@.len(),
    ensures
        value is Ok <==> *old(offset) + 2 <= limit,
        value matches Ok(v) ==> bytes::be16(v) == blob@.subrange(
            *old(offset) as int,
            *old(offset) + 2,
        ) && *final(offset) == *old(offset) + 2,
        value matches Err(e) ==> e is Corrupted && *final(offset) == *old(offset),
{
    match take(blob, offset, 2, limit) {
        Err(error) => Err(error),
        Ok(raw) => {
            proof {
                bytes::lemma_from_be16(raw@);
                assert(raw@.subrange(0, 2) =~= raw@);
            }
            Ok(bytes::read_u16_at(raw, 0))
        },
    }
}

/// Reads the next four bytes before `limit` as a number.
fn read_u32(blob: &[u8], offset: &mut usize, limit: usize) -> (value: XSecResult<u32>)
    requires
        limit <= blob@.len(),
    ensures
        value is Ok <==> *old(offset) + 4 <= limit,
        value matches Ok(v) ==> bytes::be32(v) == blob@.subrange(
            *old(offset) as int,
            *old(offset) + 4,
        ) && *final(offset) == *old(offset) + 4,
        value matches Err(e) ==> e is Corrupted && *final(offset) == *old(offset),
{
    match take(blob, offset, 4, limit) {
        Err(error) => Err(error),
        Ok(raw) => {
            proof {
                bytes::lemma_from_be32(raw@);
                assert(raw@.subrange(0, 4) =~= raw@);
            }
            Ok(bytes::read_u32_at(raw, 0))
        },
    }
}

/// Reads one record before `limit`.
fn read_record(blob: &[u8], offset: &mut usize, limit: usize) -> (record: XSecResult<
    ProtectorRecord,
>)
    requires
        limit <= blob@.len(),
        *old(offset) <= limit,
    ensures
        record matches Ok(r) ==> record_at(blob@, *old(offset) as int, limit as int, r@)
            && *final(offset) == *old(offset) + record_bytes(r@).len(),
        record matches Err(e) ==> e is Corrupted && forall|r: RecordView|
            !#[trigger] record_at(blob@, *old(offset) as int, limit as int, r),
{
    let ghost start: int = *offset as int;
    let ghost end: int = limit as int;
    proof {
        assert forall|r: RecordView| #[trigger] record_at(blob@, start, end, r) implies start + 6
            + encode_utf8(r.kind).len() + r.payload.len() <= end && bytes::from_be16(
            blob@.subrange(start, start + 2),
        ) == encode_utf8(r.kind).len() && 1 <= encode_utf8(r.kind).len() <= MAX_KIND_LENGTH by {
            lemma_record_layout(blob@, start, end, r);
        }
    }
    let kind_len: usize = match read_u16(blob, offset, limit) {
        Err(error) => {
            return Err(error);
        },
        Ok(len) => {
            proof {
                bytes::lemma_be16(len);
            }
            len as usize
        },
    };
    if kind_len == 0 || kind_len > MAX_KIND_LENGTH {
        return Err(XSecError::Corrupted);
    }
    let raw_kind: &[u8] = match take(blob, offset, kind_len, limit) {
        Err(error) => {
            return Err(error);
        },
        Ok(raw) => raw,
    };
    proof {
        assert forall|r: RecordView| #[trigger] record_at(blob@, start, end, r) implies raw_kind@
            == encode_utf8(r.kind) && valid_kind(r.kind) by {
            lemma_record_layout(blob@, start, end, r);
        }
    }
    let kind: &str = match bytes::utf8_text(raw_kind) {
        None => {
            proof {
                broadcast use encode_utf8_valid_utf8;

            }
            return Err(XSecError::Corrupted);
        },
        Some(kind) => kind,
    };
    match validate_kind(kind) {
        Err(error) => {
            return Err(error);
        },
        Ok(()) => {},
    }
    let payload_len: usize = match read_u32(blob, offset, limit) {
        Err(error) => {
            return Err(error);
        },
        Ok(len) => {
            proof {
                bytes::lemma_be32(len);
            }
            len as usize
        },
    };
    proof {
        assert forall|r: RecordView| #[trigger] record_at(blob@, start, end, r) implies payload_len
            == r.payload.len() && payload_len <= MAX_PAYLOAD_LENGTH by {
            lemma_record_layout(blob@, start, end, r);
        }
    }
    if payload_len > MAX_PAYLOAD_LENGTH {
        return Err(XSecError::Corrupted);
    }
    match take(blob, offset, payload_len, limit) {
        Err(error) => Err(error),
        Ok(raw_payload) => {
            let payload: Vec<u8> = bytes::copy_range(raw_payload, 0, raw_payload.len());
            assert(payload@ =~= raw_payload@);
            let record: ProtectorRecord = ProtectorRecord { kind: kind.to_owned(), payload };
            assert(blob@.subrange(start, *offset as int) =~= record_bytes(record@));
            Ok(record)
        },
    }
}

impl Clone for ProtectorRecord {
    fn clone(&self) -> (copy: Self)
        ensures
            copy@ == self@,
    {
        let payload: Vec<u8> = bytes::copy_range(self.payload.as_slice(), 0, self.payload.len());
        assert(payload@ =~= self.payload@);
        ProtectorRecord { kind: self.kind.clone(), payload }
    }
}

impl Clone for Metadata {
    fn clone(&self) -> (copy: Self)
        ensures
            copy@ == self@,
    {
        let mut protectors: Vec<ProtectorRecord> = Vec::new();
        let mut i: usize = 0;
        while i < self.protectors.len()
            invariant
                i <= self.protectors@.len(),
                records(protectors@) == records(self.protectors@).take(i as int),
            decreases self.protectors@.len() - i,
        {
            let ghost all: Seq<RecordView> = records(self.protectors@);
            let ghost so_far: Seq<RecordView> = records(protectors@);
            let record: ProtectorRecord = self.protectors[i].clone();
            let ghost last: RecordView = record@;
            protectors.push(record);
            assert(records(protectors@) =~= so_far.push(last));
            assert(all.take(i + 1) =~= all.take(i as int).push(all[i as int]));
            i = i + 1;
        }
        assert(records(self.protectors@).take(i as int) =~= records(self.protectors@));
        let authenticated: Vec<u8> = bytes::copy_range(
            self.authenticated.as_slice(),
            0,
            self.authenticated.len(),
        );
        assert(authenticated@ =~= self.authenticated@);
        Metadata { protectors, authenticated, mac: self.mac }
    }
}

/// Puts `record` behind the last record whose kind is not greater.
fn insert_sorted(sorted: &mut Vec<ProtectorRecord>, record: ProtectorRecord)
    ensures
        records(final(sorted)@) == insert_record(records(old(sorted)@), record@),
{
    let ghost before: Seq<RecordView> = records(sorted@);
    let mut position: usize = sorted.len();
    assert(before.take(position as int) =~= before);
    assert(insert_record(before, record@) =~= insert_record(before.take(position as int), record@)
        + before.skip(position as int));
    while position > 0 && bytes::less(
        record.kind.as_str().as_bytes(),
        sorted[position - 1].kind.as_str().as_bytes(),
    )
        invariant
            position <= sorted@.len(),
            before == records(sorted@),
            insert_record(before, record@) == insert_record(before.take(position as int), record@)
                + before.skip(position as int),
        decreases position,
    {
        proof {
            let head = before.take(position as int);
            assert(head.drop_last() =~= before.take(position - 1));
            assert(insert_record(head, record@) == insert_record(head.drop_last(), record@).push(
                head.last(),
            ));
            assert(insert_record(before.take(position - 1), record@).push(head.last())
                + before.skip(position as int) =~= insert_record(before.take(position - 1), record@)
                + before.skip(position - 1));
        }
        position = position - 1;
    }
    assert(insert_record(before.take(position as int), record@) == before.take(
        position as int,
    ).push(record@));
    sorted.insert(position, record);
    assert(records(sorted@) =~= before.take(position as int).push(record@) + before.skip(
        position as int,
    ));
}

/// Sorts records by kind; records of one kind keep their order.
fn sort_records(protectors: &mut Vec<ProtectorRecord>)
    ensures
        records(final(protectors)@) == sorted_records(records(old(protectors)@)),
{
    let ghost before: Seq<RecordView> = records(protectors@);
    let mut sorted: Vec<ProtectorRecord> = Vec::new();
    assert(records(sorted@) =~= sorted_records(before.take(0)));
    assert(records(protectors@) =~= before.skip(0));
    let ghost mut done: int = 0;
    while protectors.len() > 0
        invariant
            0 <= done <= before.len(),
            records(protectors@) == before.skip(done),
            records(sorted@) == sorted_records(before.take(done)),
        decreases protectors@.len(),
    {
        let ghost rest: Seq<ProtectorRecord> = protectors@;
        let record: ProtectorRecord = protectors.remove(0);
        insert_sorted(&mut sorted, record);
        proof {
            assert(records(rest).len() == before.skip(done).len());
            assert(record@ == records(rest)[0]);
            assert(records(rest)[0] == before[done]);
            assert(before.take(done + 1).drop_last() =~= before.take(done));
            assert(records(protectors@) =~= records(rest).drop_first());
            assert(before.skip(done).drop_first() =~= before.skip(done + 1));
            done = done + 1;
        }
    }
    assert(records(protectors@).len() == 0);
    assert(before.take(done) =~= before);
    std::mem::swap(protectors, &mut sorted);
}

/// The key that authenticates metadata.
fn auth_key(dek: &SecretKey) -> (key: XSecResult<SecretKey>)
    ensures
        key matches Ok(k) && k@ == auth_key_of(dek@),
{
    match crypto::hkdf_key(None, dek.expose_secret(), AUTH_KEY_INFO.as_bytes()) {
        Ok(key) => Ok(key),
        Err(_) => Err(XSecError::Crypto),
    }
}

/// The tag of `data` under the data key.
fn calculate_mac(dek: &SecretKey, data: &[u8]) -> (mac: XSecResult<[u8; 32]>)
    ensures
        mac matches Ok(tag) && tag@ == mac_of(dek@, data@),
{
    let key: SecretKey = match auth_key(dek) {
        Err(error) => {
            return Err(error);
        },
        Ok(key) => key,
    };
    match crypto::hmac_tag(key.expose_secret(), data) {
        Ok(tag) => Ok(tag),
        Err(_) => Err(XSecError::Crypto),
    }
}

impl Metadata {
    /// Metadata of the given protectors, not authenticated yet.
    pub fn new(protectors: Vec<ProtectorRecord>) -> (metadata: Self)
        ensures
            metadata@.protectors == records(protectors@),
            metadata@.authenticated == Seq::<u8>::empty(),
    {
        Metadata { protectors, authenticated: Vec::new(), mac: [0; 32] }
    }

    /// Reads a metadata blob. The tag is read, not checked.
    pub fn parse(blob: &[u8]) -> (metadata: XSecResult<Self>)
        ensures
            metadata matches Ok(m) ==> m@.wf() && is_metadata(blob@, m@.protectors, m@.mac),
            metadata matches Err(e) ==> e == refusal(blob@) && forall|r: Seq<RecordView>, mac: Seq<u8>|
                !#[trigger] is_metadata(blob@, r, mac),
    {
        proof {
            lemma_magic_length();
            lemma_metadata_frame(blob@);
        }
        if blob.len() > MAX_METADATA_LENGTH || blob.len() < 44 || !bytes::equal(
            &blob[0..6],
            MAGIC.as_bytes(),
        ) {
            assert(blob@.len() >= 6 ==> blob@.take(6) =~= blob@.subrange(0, 6));
            return Err(XSecError::Corrupted);
        }
        assert(blob@.take(6) =~= blob@.subrange(0, 6));
        proof {
            bytes::lemma_from_be16(blob@.subrange(6, 8));
            bytes::lemma_from_be16(blob@.subrange(8, 10));
            bytes::lemma_from_be16(blob@.subrange(10, 12));
            bytes::lemma_be16(VERSION);
            bytes::lemma_be16(ALGORITHM);
        }
        if bytes::read_u16_at(blob, 6) != VERSION {
            return Err(XSecError::UnsupportedVersion);
        }
        if bytes::read_u16_at(blob, 8) != ALGORITHM {
            return Err(XSecError::UnsupportedAlgorithm);
        }
        let count: usize = bytes::read_u16_at(blob, 10) as usize;
        if count == 0 || count > MAX_PROTECTORS {
            return Err(XSecError::Corrupted);
        }
        let limit: usize = blob.len() - MAC_LENGTH;
        let ghost data: Seq<u8> = blob@.take(limit as int);
        let ghost genuine: bool = exists|r: Seq<RecordView>|
            storable(r) && data == #[trigger] authenticated_bytes(r);
        let ghost w: Seq<RecordView> = choose|r: Seq<RecordView>|
            storable(r) && data == #[trigger] authenticated_bytes(r);
        proof {
            assert forall|r: Seq<RecordView>, mac: Seq<u8>| #[trigger] is_metadata(blob@, r, mac) implies genuine by {
                assert(data =~= authenticated_bytes(r));
            }
            if genuine {
                assert(data.subrange(10, 12) =~= bytes::be16(w.len() as u16));
                assert(blob@.subrange(10, 12) =~= data.subrange(10, 12));
                bytes::lemma_be16(w.len() as u16);
            }
        }
        let mut offset: usize = 12;
        let mut protectors: Vec<ProtectorRecord> = Vec::new();
        let mut i: usize = 0;
        proof {
            assert(records(protectors@) =~= Seq::empty());
            assert(w.take(0) =~= Seq::empty());
            assert(blob@.take(12) =~= preamble(count as int)) by {
                assert(blob@.take(12) =~= blob@.take(6) + blob@.subrange(6, 8) + blob@.subrange(8, 10)
                    + blob@.subrange(10, 12));
            }
            assert(preamble(count as int) + records_bytes(records(protectors@)) =~= preamble(
                count as int,
            ));
        }
        while i < count
            invariant
                i <= count,
                1 <= count <= MAX_PROTECTORS,
                limit == blob@.len() - MAC_LENGTH,
                blob@.len() <= MAX_METADATA_LENGTH,
                framed(blob@),
                refusal(blob@) is Corrupted,
                12 <= offset <= limit,
                data == blob@.take(limit as int),
                forall|r: Seq<RecordView>, mac: Seq<u8>| #[trigger] is_metadata(blob@, r, mac)
                    ==> genuine,
                protectors@.len() == i,
                blob@.take(offset as int) == preamble(count as int) + records_bytes(
                    records(protectors@),
                ),
                forall|k: int| 0 <= k < i ==> valid_record(#[trigger] records(protectors@)[k]),
                strictly_ascending(records(protectors@)),
                genuine ==> storable(w) && data == authenticated_bytes(w) && w.len() == count
                    && records(protectors@) == w.take(i as int) && offset == 12 + records_bytes(
                    w.take(i as int),
                ).len(),
            decreases count - i,
        {
            let ghost start: int = offset as int;
            let ghost so_far: Seq<RecordView> = records(protectors@);
            proof {
                if genuine {
                    lemma_nth_record(data, w, i as int);
                    lemma_record_in_prefix(blob@, limit as int, start, w[i as int]);
                }
            }
            let record: ProtectorRecord = match read_record(blob, &mut offset, limit) {
                Err(error) => {
                    return Err(error);
                },
                Ok(record) => record,
            };
            proof {
                if genuine {
                    lemma_record_unique(blob@, start, limit as int, record@, w[i as int]);
                }
            }
            if i > 0 && !bytes::less(protectors[i - 1].kind.as_str().as_bytes(), record.kind.as_str().as_bytes()) {
                proof {
                    assert(protectors@[i - 1]@ == so_far[i - 1]);
                    if genuine {
                        assert(so_far[i - 1] == w[i - 1]);
                        assert(kind_less(w[i - 1].kind, w[i as int].kind));
                    }
                }
                return Err(XSecError::Corrupted);
            }
            let ghost last: RecordView = record@;
            proof {
                if i > 0 {
                    assert(protectors@[i - 1]@ == so_far[i - 1]);
                }
            }
            protectors.push(record);
            proof {
                let now = records(protectors@);
                assert(now =~= so_far.push(last));
                assert(now.drop_last() =~= so_far);
                assert(blob@.take(offset as int) =~= blob@.take(start) + blob@.subrange(
                    start,
                    offset as int,
                ));
                assert(blob@.take(offset as int) =~= preamble(count as int) + records_bytes(now));
                lemma_ascending_push(so_far, last);
                if genuine {
                    assert(w.take(i + 1) =~= w.take(i as int).push(w[i as int]));
                }
            }
            i = i + 1;
        }
        if offset != limit {
            proof {
                if genuine {
                    assert(w.take(count as int) =~= w);
                }
            }
            return Err(XSecError::Corrupted);
        }
        let mut mac: [u8; 32] = [0; 32];
        bytes::copy_into(&mut mac, &blob[limit..blob.len()]);
        let authenticated: Vec<u8> = bytes::copy_range(blob, 0, limit);
        proof {
            assert(authenticated@ =~= blob@.take(limit as int));
            assert(blob@ =~= authenticated@ + mac@);
        }
        Ok(Metadata { protectors, authenticated, mac })
    }

    /// The payload of the first protector of a kind.
    pub fn payload_of(&self, kind: &str) -> (payload: Option<&[u8]>)
        ensures
            payload is Some <==> self@.has_kind(kind@),
            payload matches Some(p) ==> exists|i: int|
                #[trigger] self@.first_of_kind(kind@, i) && p@ == self@.protectors[i].payload,
    {
        let mut i: usize = 0;
        while i < self.protectors.len()
            invariant
                i <= self.protectors@.len(),
                forall|j: int| 0 <= j < i ==> (#[trigger] self@.protectors[j]).kind != kind@,
            decreases self.protectors@.len() - i,
        {
            assert(self@.protectors[i as int] == self.protectors@[i as int]@);
            if bytes::same_text(self.protectors[i].kind.as_str(), kind) {
                assert(self@.first_of_kind(kind@, i as int));
                return Some(self.protectors[i].payload.as_slice());
            }
            i = i + 1;
        }
        None
    }

    /// Whether some protector has the kind.
    pub fn contains_kind(&self, kind: &str) -> (found: bool)
        ensures
            found == self@.has_kind(kind@),
    {
        self.payload_of(kind).is_some()
    }

    /// The number of protectors.
    pub fn protector_count(&self) -> (count: usize)
        ensures
            count == self@.protectors.len(),
    {
        self.protectors.len()
    }

    /// The kinds of the protectors, in the order in which they are held.
    pub fn kinds(&self) -> (kinds: Vec<&str>)
        ensures
            kinds@.len() == self@.protectors.len(),
            forall|i: int| 0 <= i < kinds@.len() ==> (#[trigger] kinds@[i])@ == self@.protectors[i].kind,
    {
        let mut kinds: Vec<&str> = Vec::new();
        let mut i: usize = 0;
        while i < self.protectors.len()
            invariant
                i <= self.protectors@.len(),
                kinds@.len() == i,
                forall|k: int| 0 <= k < i ==> (#[trigger] kinds@[k])@ == self@.protectors[k].kind,
            decreases self.protectors@.len() - i,
        {
            assert(self@.protectors[i as int] == self.protectors@[i as int]@);
            kinds.push(self.protectors[i].kind.as_str());
            i = i + 1;
        }
        kinds
    }

    /// A copy with one more protector. Its tag is still that of the source it was copied from.
    pub fn with_protector(&self, kind: &str, payload: Vec<u8>) -> (metadata: Self)
        ensures
            metadata@ == (MetadataView {
                protectors: self@.protectors.push(RecordView { kind: kind@, payload: payload@ }),
                ..self@
            }),
    {
        let mut copy: Metadata = self.clone();
        let ghost before: Seq<ProtectorRecord> = copy.protectors@;
        copy.protectors.push(ProtectorRecord { kind: kind.to_owned(), payload });
        assert(records(copy.protectors@) =~= records(before).push(
            RecordView { kind: kind@, payload: payload@ },
        ));
        copy
    }

    /// A copy less the protectors of a kind. Its tag is still that of the source it was copied from.
    pub fn without_protector(&self, kind: &str) -> (metadata: Self)
        ensures
            metadata@ == (MetadataView {
                protectors: without_kind(self@.protectors, kind@),
                ..self@
            }),
    {
        let mut copy: Metadata = self.clone();
        let mut kept: Vec<ProtectorRecord> = Vec::new();
        let mut i: usize = 0;
        let ghost all: Seq<RecordView> = self@.protectors;
        assert(records(kept@) =~= without_kind(all.take(0), kind@));
        while i < self.protectors.len()
            invariant
                i <= self.protectors@.len(),
                all == self@.protectors,
                records(kept@) == without_kind(all.take(i as int), kind@),
            decreases self.protectors@.len() - i,
        {
            let ghost so_far: Seq<ProtectorRecord> = kept@;
            assert(all[i as int] == self.protectors@[i as int]@);
            assert(all.take(i + 1).drop_last() =~= all.take(i as int));
            if !bytes::same_text(self.protectors[i].kind.as_str(), kind) {
                kept.push(self.protectors[i].clone());
                assert(records(kept@) =~= records(so_far).push(all[i as int]));
            }
            i = i + 1;
        }
        assert(all.take(i as int) =~= all);
        copy.protectors = kept;
        copy
    }

    /// Sorts the protectors, authenticates them under the data key and writes the
    /// blob. It fails on protectors that metadata cannot hold.
    pub fn encode(&mut self, dek: &SecretKey) -> (blob: XSecResult<Vec<u8>>)
        ensures
            final(self)@.protectors == sorted_records(old(self)@.protectors),
            blob is Ok <==> storable(sorted_records(old(self)@.protectors)),
            blob matches Ok(b) ==> b@ == encoded(final(self)@.protectors, dek@) && final(self)@
                == sealed_metadata(final(self)@.protectors, dek@) && final(self)@.wf(),
            blob matches Err(e) ==> e is Corrupted && final(self)@.authenticated
                == old(self)@.authenticated && final(self)@.mac == old(self)@.mac,
    {
        let mut protectors: Vec<ProtectorRecord> = Vec::new();
        std::mem::swap(&mut self.protectors, &mut protectors);
        sort_records(&mut protectors);
        proof {
            law_sorted_records(old(self)@.protectors);
        }
        let written: XSecResult<Vec<u8>> = write_records(&protectors);
        self.protectors = protectors;
        let mut output: Vec<u8> = match written {
            Err(error) => {
                return Err(error);
            },
            Ok(output) => output,
        };
        let mac: [u8; 32] = match calculate_mac(dek, output.as_slice()) {
            Err(error) => {
                return Err(error);
            },
            Ok(mac) => mac,
        };
        let authenticated: Vec<u8> = bytes::copy_range(output.as_slice(), 0, output.len());
        assert(authenticated@ =~= output@);
        self.authenticated = authenticated;
        self.mac = mac;
        output.extend_from_slice(&mac);
        assert(output@ =~= encoded(self@.protectors, dek@));
        Ok(output)
    }

    /// Checks the tag under the data key.
    pub fn verify(&self, dek: &SecretKey) -> (result: XSecResult<()>)
        ensures
            result is Ok <==> self@.verified_by(dek@),
            result matches Err(e) ==> e is Corrupted,
    {
        let key: SecretKey = match auth_key(dek) {
            Err(error) => {
                return Err(error);
            },
            Ok(key) => key,
        };
        match crypto::hmac_verify(key.expose_secret(), self.authenticated.as_slice(), &self.mac) {
            Err(_) => Err(XSecError::Crypto),
            Ok(valid) => if valid {
                Ok(())
            } else {
                Err(XSecError::Corrupted)
            },
        }
    }
}

/// Writes the authenticated part of the metadata of sorted protectors.
fn write_records(protectors: &Vec<ProtectorRecord>) -> (output: XSecResult<Vec<u8>>)
    requires
        ascending(records(protectors@)),
    ensures
        output is Ok <==> storable(records(protectors@)),
        output matches Ok(b) ==> b@ == authenticated_bytes(records(protectors@)),
        output matches Err(e) ==> e is Corrupted,
{
    let ghost all: Seq<RecordView> = records(protectors@);
    if protectors.len() == 0 || protectors.len() > MAX_PROTECTORS {
        return Err(XSecError::Corrupted);
    }
    let mut output: Vec<u8> = Vec::new();
    output.extend_from_slice(MAGIC.as_bytes());
    bytes::push_u16(&mut output, VERSION);
    bytes::push_u16(&mut output, ALGORITHM);
    bytes::push_u16(&mut output, protectors.len() as u16);
    assert(output@ =~= preamble(all.len() as int) + records_bytes(all.take(0)));
    let mut i: usize = 0;
    while i < protectors.len()
        invariant
            i <= protectors@.len(),
            1 <= protectors@.len() <= MAX_PROTECTORS,
            all == records(protectors@),
            output@ == preamble(all.len() as int) + records_bytes(all.take(i as int)),
            forall|k: int| 0 <= k < i ==> valid_record(#[trigger] all[k]),
            strictly_ascending(all.take(i as int)),
        decreases protectors@.len() - i,
    {
        let record: &ProtectorRecord = &protectors[i];
        assert(all[i as int] == record@);
        if validate_kind(record.kind.as_str()).is_err() {
            assert(!valid_record(all[i as int]));
            return Err(XSecError::Corrupted);
        }
        if record.payload.len() > MAX_PAYLOAD_LENGTH {
            assert(!valid_record(all[i as int]));
            return Err(XSecError::Corrupted);
        }
        if i > 0 && !bytes::less(protectors[i - 1].kind.as_str().as_bytes(), record.kind.as_str().as_bytes()) {
            assert(protectors@[i - 1]@ == all[i - 1]);
            assert(!kind_less(all[i - 1].kind, all[i as int].kind));
            return Err(XSecError::Corrupted);
        }
        bytes::push_u16(&mut output, record.kind.as_str().len() as u16);
        output.extend_from_slice(record.kind.as_str().as_bytes());
        bytes::push_u32(&mut output, record.payload.len() as u32);
        output.extend_from_slice(record.payload.as_slice());
        proof {
            lemma_records_take(all, i as int);
            if i > 0 {
                assert(protectors@[i - 1]@ == all[i - 1]);
            }
            lemma_ascending_push(all.take(i as int), all[i as int]);
            assert(all.take(i + 1) =~= all.take(i as int).push(all[i as int]));
            assert(output@ =~= preamble(all.len() as int) + (records_bytes(all.take(i as int))
                + record_bytes(all[i as int])));
        }
        i = i + 1;
    }
    assert(all.take(i as int) =~= all);
    if output.len() > MAX_METADATA_LENGTH - MAC_LENGTH {
        return Err(XSecError::Corrupted);
    }
    Ok(output)
}

} // verus!
