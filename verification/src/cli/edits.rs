//! What an edit of a document leaves alone: every declaration but the edited one stands
//! as it did, only moved.
use vstd::prelude::*;
use vstd::utf8::*;

use crate::bytes;
use crate::cli::document;
use crate::cli::document::DocumentView;
use crate::cli::dotenv;
use crate::cli::dotenv::{
    Declaration, EntryView, Scan, CARRIAGE_RETURN, DOUBLE_QUOTE, EQUALS, HASH, LINE_FEED, SPACE,
    TAB,
};
use crate::cli::environment;
use crate::cli::environment::Pair;
use crate::cli::value;
use crate::cli::written;

verus! {

/// An entry moved by a distance.
pub open spec fn moved_entry(entry: EntryView, by: int) -> EntryView {
    EntryView {
        name: entry.name,
        start: entry.start + by,
        end: entry.end + by,
        value_start: entry.value_start + by,
        value_end: entry.value_end + by,
    }
}

/// Entries moved by a distance.
pub open spec fn moved(entries: Seq<EntryView>, by: int) -> Seq<EntryView> {
    Seq::new(entries.len(), |i: int| moved_entry(entries[i], by))
}

pub(crate) open spec fn moved_declaration(declaration: Declaration, by: int) -> Declaration {
    match declaration {
        Declaration::Entry(entry) => Declaration::Entry(moved_entry(entry, by)),
        other => other,
    }
}

/// What `a` holds from `low` to `high`, `b` holds moved by a distance.
pub(crate) open spec fn same_on(a: Seq<u8>, b: Seq<u8>, low: int, high: int, by: int) -> bool {
    &&& 0 <= low <= high <= a.len()
    &&& 0 <= low + by
    &&& high + by <= b.len()
    &&& forall|k: int| low <= k < high ==> #[trigger] a[k] == b[k + by]
}

pub(crate) proof fn lemma_moved_end(a: Seq<u8>, b: Seq<u8>, low: int, high: int, by: int, index: int, scan: Scan)
    requires
        same_on(a, b, low, high, by),
        low <= index <= a.len(),
        dotenv::declaration_end(a, index, scan) <= high,
        dotenv::declaration_end(a, index, scan) < a.len() || high + by == b.len(),
    ensures
        dotenv::declaration_end(b, index + by, scan) == dotenv::declaration_end(a, index, scan) + by,
    decreases a.len() - index,
{
    if index < a.len() {
        dotenv::lemma_declaration_end(a, index, scan);
        assert(a[index] == b[index + by]);
        if !(a[index] == LINE_FEED && scan.quote is None) {
            lemma_moved_end(a, b, low, high, by, index + 1, dotenv::scan_step(scan, a[index]));
        }
    }
}

/// The content of a declaration, and what ends it.
pub(crate) proof fn lemma_content(s: Seq<u8>, start: int, end: int)
    requires
        0 <= start < end <= s.len(),
    ensures
        start <= dotenv::content_end(s, start, end) <= end,
        dotenv::content_end(s, start, end) == end ==> s[end - 1] != LINE_FEED,
        dotenv::content_end(s, start, end) < end ==> s[end - 1] == LINE_FEED && (
        s[dotenv::content_end(s, start, end)] == LINE_FEED || s[dotenv::content_end(s, start, end)]
            == CARRIAGE_RETURN),
{
}

pub(crate) proof fn lemma_moved_content(a: Seq<u8>, b: Seq<u8>, low: int, high: int, by: int, start: int, end: int)
    requires
        same_on(a, b, low, high, by),
        low <= start < end <= high,
    ensures
        dotenv::content_end(b, start + by, end + by) == dotenv::content_end(a, start, end) + by,
{
    assert(a[end - 1] == b[end - 1 + by]);
    if end - 1 > start {
        assert(a[end - 2] == b[end - 2 + by]);
    }
}

/// Where a run of white space ends.
pub(crate) proof fn lemma_blank(s: Seq<u8>, start: int, end: int)
    requires
        0 <= start <= end <= s.len(),
    ensures
        start <= dotenv::skip_blank(s, start, end) <= end,
        forall|k: int|
            start <= k < dotenv::skip_blank(s, start, end) ==> dotenv::blank(#[trigger] s[k]),
        dotenv::skip_blank(s, start, end) < end ==> !dotenv::blank(
            s[dotenv::skip_blank(s, start, end)],
        ),
    decreases end - start,
{
    if start < end && dotenv::blank(s[start]) {
        lemma_blank(s, start + 1, end);
    }
}

/// A run of white space ends where it is seen to end.
pub(crate) proof fn lemma_blank_run(s: Seq<u8>, from: int, to: int, end: int)
    requires
        0 <= from <= to <= end <= s.len(),
        forall|k: int| from <= k < to ==> dotenv::blank(#[trigger] s[k]),
        to == end || !dotenv::blank(s[to]),
    ensures
        dotenv::skip_blank(s, from, end) == to,
    decreases to - from,
{
    if from < to {
        lemma_blank_run(s, from + 1, to, end);
    }
}

/// Where a run of name bytes ends.
pub(crate) proof fn lemma_name(s: Seq<u8>, index: int, end: int)
    requires
        0 <= index <= end <= s.len(),
    ensures
        index <= dotenv::name_end(s, index, end) <= end,
        forall|k: int|
            index <= k < dotenv::name_end(s, index, end) ==> dotenv::name_byte(#[trigger] s[k]),
        dotenv::name_end(s, index, end) < end ==> !dotenv::name_byte(
            s[dotenv::name_end(s, index, end)],
        ),
    decreases end - index,
{
    if index < end && dotenv::name_byte(s[index]) {
        lemma_name(s, index + 1, end);
    }
}

/// A run of name bytes ends where it is seen to end.
pub(crate) proof fn lemma_name_run(s: Seq<u8>, from: int, to: int, end: int)
    requires
        0 <= from <= to <= end <= s.len(),
        forall|k: int| from <= k < to ==> dotenv::name_byte(#[trigger] s[k]),
        to == end || !dotenv::name_byte(s[to]),
    ensures
        dotenv::name_end(s, from, end) == to,
    decreases to - from,
{
    if from < to {
        lemma_name_run(s, from + 1, to, end);
    }
}

pub(crate) proof fn lemma_moved_blank(a: Seq<u8>, b: Seq<u8>, low: int, high: int, by: int, start: int, end: int)
    requires
        same_on(a, b, low, high, by),
        low <= start <= end <= high,
    ensures
        dotenv::skip_blank(b, start + by, end + by) == dotenv::skip_blank(a, start, end) + by,
    decreases end - start,
{
    if start < end {
        assert(a[start] == b[start + by]);
        if dotenv::blank(a[start]) {
            lemma_moved_blank(a, b, low, high, by, start + 1, end);
        }
    }
}

proof fn lemma_moved_name(a: Seq<u8>, b: Seq<u8>, low: int, high: int, by: int, index: int, end: int)
    requires
        same_on(a, b, low, high, by),
        low <= index <= end <= high,
    ensures
        dotenv::name_end(b, index + by, end + by) == dotenv::name_end(a, index, end) + by,
    decreases end - index,
{
    if index < end {
        assert(a[index] == b[index + by]);
        if dotenv::name_byte(a[index]) {
            lemma_moved_name(a, b, low, high, by, index + 1, end);
        }
    }
}

proof fn lemma_moved_scan(
    a: Seq<u8>,
    b: Seq<u8>,
    low: int,
    high: int,
    by: int,
    index: int,
    end: int,
    quote: Option<u8>,
    escaped: bool,
)
    requires
        same_on(a, b, low, high, by),
        low <= index <= end <= high,
    ensures
        dotenv::value_scan_end(b, index + by, end + by, quote, escaped) == dotenv::value_scan_end(
            a,
            index,
            end,
            quote,
            escaped,
        ) + by,
    decreases end - index,
{
    if index < end {
        assert(a[index] == b[index + by]);
        lemma_moved_scan(a, b, low, high, by, index + 1, end, quote, false);
        lemma_moved_scan(a, b, low, high, by, index + 1, end, quote, true);
        lemma_moved_scan(a, b, low, high, by, index + 1, end, None, false);
        lemma_moved_scan(a, b, low, high, by, index + 1, end, Some(a[index]), false);
    }
}

proof fn lemma_moved_read_name(
    a: Seq<u8>,
    b: Seq<u8>,
    low: int,
    high: int,
    by: int,
    start: int,
    end: int,
)
    requires
        same_on(a, b, low, high, by),
        low <= start <= end <= high,
    ensures
        dotenv::read_name(b, start + by, end + by) == match dotenv::read_name(a, start, end) {
            None => None::<(Seq<u8>, int)>,
            Some((name, next)) => Some((name, next + by)),
        },
        dotenv::read_name(a, start, end) matches Some((_, next)) ==> start < next <= end,
{
    if start < end {
        assert(a[start] == b[start + by]);
        if dotenv::name_initial(a[start]) {
            lemma_moved_name(a, b, low, high, by, start + 1, end);
            lemma_name(a, start + 1, end);
            let stop = dotenv::name_end(a, start + 1, end);
            let (x, y) = (a.subrange(start, stop), b.subrange(start + by, stop + by));
            assert forall|k: int| 0 <= k < stop - start implies #[trigger] x[k] == y[k] by {
                assert(a[start + k] == b[start + k + by]);
            }
            assert(x =~= y);
        }
    }
}

/// No equals sign and no comment begins at a place.
pub(crate) open spec fn quiet(s: Seq<u8>, at: int) -> bool {
    !dotenv::byte_at(s, at, EQUALS) && !dotenv::byte_at(s, at, HASH)
}

/// A declaration moved by a distance, with another end.
pub(crate) open spec fn moved_to(declaration: Declaration, by: int, end: int) -> Declaration {
    match declaration {
        Declaration::Entry(entry) => Declaration::Entry(
            EntryView { end, ..moved_entry(entry, by) },
        ),
        other => other,
    }
}

proof fn lemma_moved_assignment(
    a: Seq<u8>,
    b: Seq<u8>,
    low: int,
    high: int,
    by: int,
    start: int,
    end: int,
    new_end: int,
    name: Seq<u8>,
    index: int,
)
    requires
        same_on(a, b, low, high, by),
        low <= start < end <= a.len(),
        dotenv::content_end(a, start, end) <= high,
        dotenv::content_end(b, start + by, new_end) == dotenv::content_end(a, start, end) + by,
        quiet(a, dotenv::content_end(a, start, end)),
        quiet(b, dotenv::content_end(a, start, end) + by),
        start <= index <= dotenv::content_end(a, start, end),
    ensures
        dotenv::read_assignment(b, start + by, new_end, name, index + by) == moved_to(
            dotenv::read_assignment(a, start, end, name, index),
            by,
            new_end,
        ),
{
    let stop = dotenv::content_end(a, start, end);
    lemma_content(a, start, end);
    if index < stop {
        assert(a[index] == b[index + by]);
    }
    if dotenv::byte_at(a, index, EQUALS) {
        assert(index < stop);
        lemma_moved_blank(a, b, low, high, by, index + 1, stop);
        lemma_blank(a, index + 1, stop);
        let value_start = dotenv::skip_blank(a, index + 1, stop);
        if value_start < stop {
            assert(a[value_start] == b[value_start + by]);
        }
        lemma_moved_scan(a, b, low, high, by, value_start, stop, None, false);
    }
}

pub(crate) proof fn lemma_moved_to(
    a: Seq<u8>,
    b: Seq<u8>,
    low: int,
    high: int,
    by: int,
    start: int,
    end: int,
    new_end: int,
)
    requires
        same_on(a, b, low, high, by),
        low <= start < end <= a.len(),
        dotenv::content_end(a, start, end) <= high,
        dotenv::content_end(b, start + by, new_end) == dotenv::content_end(a, start, end) + by,
        quiet(a, dotenv::content_end(a, start, end)),
        quiet(b, dotenv::content_end(a, start, end) + by),
    ensures
        dotenv::read_declaration(b, start + by, new_end) == moved_to(
            dotenv::read_declaration(a, start, end),
            by,
            new_end,
        ),
{
    let stop = dotenv::content_end(a, start, end);
    lemma_content(a, start, end);
    lemma_moved_blank(a, b, low, high, by, start, stop);
    lemma_blank(a, start, stop);
    let first = dotenv::skip_blank(a, start, stop);
    if first != stop {
        assert(a[first] == b[first + by]);
        lemma_moved_read_name(a, b, low, high, by, first, stop);
        if let Some((name, next)) = dotenv::read_name(a, first, stop) {
            lemma_moved_blank(a, b, low, high, by, next, stop);
            lemma_blank(a, next, stop);
            let index = dotenv::skip_blank(a, next, stop);
            if index < stop {
                assert(a[index] == b[index + by]);
            }
            assert(dotenv::byte_at(a, index, EQUALS) == dotenv::byte_at(b, index + by, EQUALS));
            lemma_moved_assignment(a, b, low, high, by, start, end, new_end, name, index);
            lemma_moved_read_name(a, b, low, high, by, index, stop);
            if let Some((exported, after)) = dotenv::read_name(a, index, stop) {
                lemma_moved_blank(a, b, low, high, by, after, stop);
                lemma_blank(a, after, stop);
                lemma_moved_assignment(
                    a,
                    b,
                    low,
                    high,
                    by,
                    start,
                    end,
                    new_end,
                    exported,
                    dotenv::skip_blank(a, after, stop),
                );
            }
        }
    }
}

pub(crate) proof fn lemma_moved_declaration(
    a: Seq<u8>,
    b: Seq<u8>,
    low: int,
    high: int,
    by: int,
    start: int,
    end: int,
)
    requires
        same_on(a, b, low, high, by),
        low <= start < end <= high,
        a[end - 1] == LINE_FEED || (end == a.len() && end + by == b.len()),
    ensures
        dotenv::read_declaration(b, start + by, end + by) == moved_declaration(
            dotenv::read_declaration(a, start, end),
            by,
        ),
{
    let stop = dotenv::content_end(a, start, end);
    lemma_content(a, start, end);
    lemma_moved_content(a, b, low, high, by, start, end);
    if stop < end {
        assert(a[stop] == b[stop + by]);
    }
    lemma_moved_to(a, b, low, high, by, start, end, end + by);
    dotenv::lemma_read_declaration(a, start, end);
}

/// The entries behind an edit are the old ones, moved.
proof fn lemma_moved_index(a: Seq<u8>, b: Seq<u8>, low: int, by: int, start: nat)
    requires
        same_on(a, b, low, a.len() as int, by),
        b.len() == a.len() + by,
        low <= start <= a.len(),
    ensures
        dotenv::index_from(b, (start + by) as nat) == match dotenv::index_from(a, start) {
            None => None::<Seq<EntryView>>,
            Some(entries) => Some(moved(entries, by)),
        },
    decreases a.len() - start,
{
    if start < a.len() {
        let high = a.len() as int;
        let end = dotenv::declaration_end(a, start as int, dotenv::scan_start());
        dotenv::lemma_declaration_end(a, start as int, dotenv::scan_start());
        lemma_moved_end(a, b, low, high, by, start as int, dotenv::scan_start());
        lemma_moved_declaration(a, b, low, high, by, start as int, end);
        lemma_moved_index(a, b, low, by, end as nat);
        if let Some(rest) = dotenv::index_from(a, end as nat) {
            if let Declaration::Entry(entry) = dotenv::read_declaration(a, start as int, end) {
                assert(moved(seq![entry] + rest, by) =~= seq![moved_entry(entry, by)] + moved(
                    rest,
                    by,
                ));
            }
        }
    } else {
        assert(moved(Seq::empty(), by) =~= Seq::<EntryView>::empty());
    }
}

/// Where an entry stands, and what the index holds behind it.
pub(crate) proof fn lemma_at(s: Seq<u8>, start: nat, i: int)
    requires
        dotenv::index_from(s, start) is Some,
        0 <= i < dotenv::index_from(s, start)->Some_0.len(),
    ensures
        ({
            let entries = dotenv::index_from(s, start)->Some_0;
            let entry = entries[i];
            &&& start <= entry.start < entry.end <= s.len()
            &&& dotenv::declaration_end(s, entry.start, dotenv::scan_start()) == entry.end
            &&& dotenv::read_declaration(s, entry.start, entry.end) == Declaration::Entry(entry)
            &&& dotenv::index_from(s, entry.end as nat) == Some(entries.skip(i + 1))
        }),
    decreases s.len() - start,
{
    let entries = dotenv::index_from(s, start)->Some_0;
    let end = dotenv::declaration_end(s, start as int, dotenv::scan_start());
    dotenv::law_index_laid_out(s, start);
    dotenv::lemma_declaration_end(s, start as int, dotenv::scan_start());
    let rest = dotenv::index_from(s, end as nat)->Some_0;
    match dotenv::read_declaration(s, start as int, end) {
        Declaration::Entry(entry) => {
            dotenv::lemma_read_declaration(s, start as int, end);
            assert(entries == seq![entry] + rest);
            if i == 0 {
                assert(entries.skip(1) =~= rest);
            } else {
                lemma_at(s, end as nat, i - 1);
                assert(entries[i] == rest[i - 1]);
                assert(entries.skip(i + 1) =~= rest.skip(i));
            }
        },
        _ => {
            lemma_at(s, end as nat, i);
        },
    }
}

/// The entries before an edit are the old ones.
proof fn lemma_before(a: Seq<u8>, b: Seq<u8>, start: nat, i: int, tail: Seq<EntryView>)
    requires
        dotenv::index_from(a, start) is Some,
        0 <= i < dotenv::index_from(a, start)->Some_0.len(),
        same_on(a, b, 0, dotenv::index_from(a, start)->Some_0[i].start, 0),
        dotenv::index_from(b, dotenv::index_from(a, start)->Some_0[i].start as nat) == Some(tail),
    ensures
        dotenv::index_from(b, start) == Some(
            dotenv::index_from(a, start)->Some_0.take(i) + tail,
        ),
    decreases a.len() - start,
{
    let entries = dotenv::index_from(a, start)->Some_0;
    let high = entries[i].start;
    let end = dotenv::declaration_end(a, start as int, dotenv::scan_start());
    let declaration = dotenv::read_declaration(a, start as int, end);
    lemma_at(a, start, i);
    dotenv::lemma_declaration_end(a, start as int, dotenv::scan_start());
    let rest = dotenv::index_from(a, end as nat)->Some_0;
    if start < high {
        match declaration {
            Declaration::Entry(entry) => {
                dotenv::lemma_read_declaration(a, start as int, end);
                assert(entries == seq![entry] + rest);
                assert(entries[i] == rest[i - 1]);
                lemma_at(a, end as nat, i - 1);
                lemma_moved_end(a, b, 0, high, 0, start as int, dotenv::scan_start());
                lemma_moved_declaration(a, b, 0, high, 0, start as int, end);
                assert(moved_entry(entry, 0) =~= entry);
                lemma_before(a, b, end as nat, i - 1, tail);
                assert(entries.take(i) + tail =~= seq![entry] + (rest.take(i - 1) + tail));
            },
            _ => {
                lemma_at(a, end as nat, i);
                lemma_moved_end(a, b, 0, high, 0, start as int, dotenv::scan_start());
                lemma_moved_declaration(a, b, 0, high, 0, start as int, end);
                lemma_before(a, b, end as nat, i, tail);
            },
        }
    } else {
        if i > 0 {
            dotenv::law_index_laid_out(a, start);
            lemma_at(a, start, 0);
            assert(entries[0].end <= entries[i].start);
        }
        assert(entries.take(0) + tail =~= tail);
    }
}

/// A declaration begins with an ASCII byte.
pub(crate) proof fn lemma_first_byte(s: Seq<u8>, start: nat)
    requires
        dotenv::index_from(s, start) is Some,
        start < s.len(),
    ensures
        s[start as int] < 0x80,
{
    let end = dotenv::declaration_end(s, start as int, dotenv::scan_start());
    dotenv::lemma_declaration_end(s, start as int, dotenv::scan_start());
    lemma_content(s, start as int, end);
    let stop = dotenv::content_end(s, start as int, end);
    lemma_blank(s, start as int, stop);
    let first = dotenv::skip_blank(s, start as int, stop);
    if first > start {
        assert(dotenv::blank(s[start as int]));
    }
}

/// UTF-8 that is cut at an ASCII byte, or at its end, is UTF-8 on both sides.
pub(crate) proof fn lemma_cut(s: Seq<u8>, at: int)
    requires
        valid_utf8(s),
        0 <= at <= s.len(),
        at < s.len() ==> s[at] < 0x80,
    ensures
        valid_utf8(s.take(at)),
        valid_utf8(s.skip(at)),
{
    if at < s.len() {
        is_char_boundary_iff_not_is_continuation_byte(s, at);
        let b = s[at];
        assert(b < 0x80 ==> !is_continuation_byte(b)) by {
            utf8_byte_ranges_bitwise(b);
        }
    } else {
        is_char_boundary_start_end_of_seq(s);
    }
    valid_utf8_split(s, at);
    assert(s.subrange(0, at) =~= s.take(at));
    assert(s.subrange(at, s.len() as int) =~= s.skip(at));
}

/// Entries without the one at `i`: those behind it have moved up.
pub open spec fn removed(entries: Seq<EntryView>, i: int) -> Seq<EntryView> {
    entries.take(i) + moved(entries.skip(i + 1), entries[i].start - entries[i].end)
}

/// To remove a variable removes its one declaration from the index: every other one
/// stands as it did, in the same order.
pub proof fn law_unset_removes_one(document: DocumentView, key: Seq<char>, after: Seq<u8>)
    requires
        document.wf(),
        document::without_declaration(document, key, after),
    ensures
        if document.lacks(key) {
            dotenv::index_of(after) == Some(document.entries)
        } else {
            exists|i: int| #[trigger]
                document.first_named(key, i) && dotenv::index_of(after) == Some(
                    removed(document.entries, i),
                )
        },
{
    if !document.lacks(key) {
        let a = document.source;
        let i = choose|i: int| #[trigger]
            document.first_named(key, i) && after == document::spliced(
                a,
                document.entries[i].start,
                document.entries[i].end,
                Seq::empty(),
            );
        let entry = document.entries[i];
        let by = entry.start - entry.end;
        lemma_at(a, 0, i);
        assert(after =~= a.take(entry.start) + a.skip(entry.end));
        assert(same_on(a, after, entry.end, a.len() as int, by));
        lemma_moved_index(a, after, entry.end, by, entry.end as nat);
        assert(same_on(a, after, 0, entry.start, 0));
        lemma_before(a, after, 0, i, moved(document.entries.skip(i + 1), by));
        if entry.end < a.len() {
            lemma_first_byte(a, entry.end as nat);
        }
        lemma_entry_byte(a, entry);
        lemma_cut(a, entry.start);
        lemma_cut(a, entry.end);
        valid_utf8_concat(a.take(entry.start), a.skip(entry.end));
    }
}

pub(crate) proof fn lemma_entry_byte(s: Seq<u8>, entry: EntryView)
    requires
        0 <= entry.start < entry.end <= s.len(),
        dotenv::read_declaration(s, entry.start, entry.end) == Declaration::Entry(entry),
    ensures
        s[entry.start] < 0x80,
{
    let stop = dotenv::content_end(s, entry.start, entry.end);
    lemma_content(s, entry.start, entry.end);
    lemma_blank(s, entry.start, stop);
    let first = dotenv::skip_blank(s, entry.start, stop);
    if first > entry.start {
        assert(dotenv::blank(s[entry.start]));
    }
}

/// A byte that can stand before a value: white space, a byte of a name, an equals sign.
pub(crate) open spec fn heading(b: u8) -> bool {
    dotenv::blank(b) || dotenv::name_byte(b) || b == EQUALS
}

/// Whether white space is what a scan went past last.
pub(crate) open spec fn went_past_blank(b: u8) -> bool {
    b == SPACE || b == TAB || b == CARRIAGE_RETURN
}

/// What stands before a value leaves a scan outside quotes and comments.
pub(crate) proof fn lemma_scan_heading(s: Seq<u8>, from: int, to: int, whitespace: bool)
    requires
        0 <= from <= to <= s.len(),
        forall|k: int| from <= k < to ==> heading(#[trigger] s[k]) && s[k] != LINE_FEED,
    ensures
        dotenv::declaration_end(s, from, written::outside(whitespace)) == dotenv::declaration_end(
            s,
            to,
            written::outside(
                if from < to {
                    went_past_blank(s[to - 1])
                } else {
                    whitespace
                },
            ),
        ),
    decreases to - from,
{
    if from < to {
        assert(heading(s[from]));
        assert(dotenv::scan_step(written::outside(whitespace), s[from]) == written::outside(
            went_past_blank(s[from]),
        ));
        lemma_scan_heading(s, from + 1, to, went_past_blank(s[from]));
    }
}

/// Within a declaration no line feed stands before the value.
pub(crate) proof fn lemma_no_line_feed(s: Seq<u8>, from: int, to: int, whitespace: bool)
    requires
        0 <= from <= to <= s.len(),
        forall|k: int| from <= k < to ==> heading(#[trigger] s[k]),
        ({
            let end = dotenv::declaration_end(s, from, written::outside(whitespace));
            end > to || (end == to && to > 0 && s[to - 1] != LINE_FEED)
        }),
    ensures
        forall|k: int| from <= k < to ==> #[trigger] s[k] != LINE_FEED,
    decreases to - from,
{
    if from < to {
        assert(heading(s[from]));
        if s[from] != LINE_FEED {
            assert(dotenv::scan_step(written::outside(whitespace), s[from]) == written::outside(
                went_past_blank(s[from]),
            ));
            lemma_no_line_feed(s, from + 1, to, went_past_blank(s[from]));
        }
    }
}

/// Where a scan of a value ends.
pub(crate) proof fn lemma_value(s: Seq<u8>, index: int, end: int, quote: Option<u8>, escaped: bool)
    requires
        0 <= index <= end <= s.len(),
    ensures
        index <= dotenv::value_scan_end(s, index, end, quote, escaped) <= end,
        dotenv::value_scan_end(s, index, end, quote, escaped) < end ==> ({
            let b = s[dotenv::value_scan_end(s, index, end, quote, escaped)];
            b == SPACE || b == TAB
        }),
    decreases end - index,
{
    if index < end {
        lemma_value(s, index + 1, end, quote, false);
        lemma_value(s, index + 1, end, quote, true);
        lemma_value(s, index + 1, end, None, false);
        lemma_value(s, index + 1, end, Some(s[index]), false);
    }
}

/// What stands before the value of an entry, and what stands behind it.
pub(crate) proof fn lemma_dissect(s: Seq<u8>, entry: EntryView)
    requires
        0 <= entry.start < entry.end <= s.len(),
        entry.end == s.len() || s[entry.end - 1] == LINE_FEED,
        dotenv::read_declaration(s, entry.start, entry.end) == Declaration::Entry(entry),
    ensures
        ({
            let stop = dotenv::content_end(s, entry.start, entry.end);
            &&& entry.start < entry.value_start <= entry.value_end <= stop <= entry.end
            &&& forall|k: int| entry.start <= k < entry.value_start ==> heading(#[trigger] s[k])
            &&& entry.value_end < stop ==> (s[entry.value_end] == SPACE || s[entry.value_end]
                == TAB || s[entry.value_end] == HASH)
            &&& dotenv::byte_at(s, entry.value_end, HASH) ==> entry.value_end < stop
        }),
{
    let (start, end) = (entry.start, entry.end);
    let stop = dotenv::content_end(s, start, end);
    lemma_content(s, start, end);
    lemma_blank(s, start, stop);
    let first = dotenv::skip_blank(s, start, stop);
    lemma_name(s, first + 1, stop);
    let next = dotenv::name_end(s, first + 1, stop);
    lemma_blank(s, next, stop);
    let index = dotenv::skip_blank(s, next, stop);
    let name = s.subrange(first, next);
    if name == bytes::text("export") && !dotenv::byte_at(s, index, EQUALS) {
        lemma_name(s, index + 1, stop);
        let after = dotenv::name_end(s, index + 1, stop);
        lemma_blank(s, after, stop);
        lemma_dissect_assignment(s, entry, dotenv::skip_blank(s, after, stop));
    } else {
        lemma_dissect_assignment(s, entry, index);
    }
}

proof fn lemma_dissect_assignment(s: Seq<u8>, entry: EntryView, index: int)
    requires
        0 <= entry.start < entry.end <= s.len(),
        entry.end == s.len() || s[entry.end - 1] == LINE_FEED,
        entry.start <= index <= dotenv::content_end(s, entry.start, entry.end),
        dotenv::byte_at(s, index, EQUALS),
        entry.value_start == dotenv::skip_blank(
            s,
            index + 1,
            dotenv::content_end(s, entry.start, entry.end),
        ),
        entry.value_end == dotenv::value_end(
            s,
            entry.value_start,
            dotenv::content_end(s, entry.start, entry.end),
        ),
    ensures
        ({
            let stop = dotenv::content_end(s, entry.start, entry.end);
            &&& index < entry.value_start <= entry.value_end <= stop <= entry.end
            &&& forall|k: int| index <= k < entry.value_start ==> heading(#[trigger] s[k])
            &&& entry.value_end < stop ==> (s[entry.value_end] == SPACE || s[entry.value_end]
                == TAB || s[entry.value_end] == HASH)
            &&& dotenv::byte_at(s, entry.value_end, HASH) ==> entry.value_end < stop
        }),
{
    let stop = dotenv::content_end(s, entry.start, entry.end);
    lemma_content(s, entry.start, entry.end);
    assert(index < stop);
    lemma_blank(s, index + 1, stop);
    lemma_value(s, entry.value_start, stop, None, false);
}

/// An entry whose value was replaced by one of another length.
pub open spec fn revalued(entry: EntryView, length: int, grown: int) -> EntryView {
    EntryView {
        name: entry.name,
        start: entry.start,
        end: entry.end + grown,
        value_start: entry.value_start,
        value_end: entry.value_start + length,
    }
}

/// What stands before a value is read alike, whatever stands behind it.
proof fn lemma_head(a: Seq<u8>, b: Seq<u8>, entry: EntryView, end: int)
    requires
        0 <= entry.start < entry.end <= a.len(),
        entry.end == a.len() || a[entry.end - 1] == LINE_FEED,
        dotenv::read_declaration(a, entry.start, entry.end) == Declaration::Entry(entry),
        same_on(a, b, 0, entry.value_start, 0),
        entry.value_start < end <= b.len(),
        entry.value_start < dotenv::content_end(b, entry.start, end),
        !dotenv::blank(b[entry.value_start]),
    ensures
        dotenv::read_declaration(b, entry.start, end) == Declaration::Entry(
            EntryView {
                end,
                value_end: dotenv::value_end(
                    b,
                    entry.value_start,
                    dotenv::content_end(b, entry.start, end),
                ),
                ..entry
            },
        ),
{
    let start = entry.start;
    let stop = dotenv::content_end(a, start, entry.end);
    let limit = dotenv::content_end(b, start, end);
    lemma_content(a, start, entry.end);
    lemma_dissect(a, entry);
    lemma_content(b, start, end);
    lemma_blank(a, start, stop);
    let first = dotenv::skip_blank(a, start, stop);
    lemma_name(a, first + 1, stop);
    let next = dotenv::name_end(a, first + 1, stop);
    lemma_blank(a, next, stop);
    let index = dotenv::skip_blank(a, next, stop);
    let name = a.subrange(first, next);
    if name == bytes::text("export") && !dotenv::byte_at(a, index, EQUALS) {
        lemma_name(a, index + 1, stop);
        let after = dotenv::name_end(a, index + 1, stop);
        lemma_blank(a, after, stop);
        let equals = dotenv::skip_blank(a, after, stop);
        lemma_dissect_assignment(a, entry, equals);
        lemma_head_name(a, b, start, first, next, stop, limit, entry.value_start);
        lemma_head_blank(a, b, next, index, stop, limit, entry.value_start);
        lemma_head_name(a, b, index, index, after, stop, limit, entry.value_start);
        lemma_head_blank(a, b, after, equals, stop, limit, entry.value_start);
        lemma_head_value(a, b, equals, stop, limit, entry.value_start);
        assert(a[index] == b[index + 0]);
        assert(a[equals] == b[equals + 0]);
    } else {
        lemma_dissect_assignment(a, entry, index);
        lemma_head_name(a, b, start, first, next, stop, limit, entry.value_start);
        lemma_head_blank(a, b, next, index, stop, limit, entry.value_start);
        lemma_head_value(a, b, index, stop, limit, entry.value_start);
        assert(a[index] == b[index + 0]);
    }
}

proof fn lemma_head_blank(
    a: Seq<u8>,
    b: Seq<u8>,
    from: int,
    to: int,
    stop: int,
    limit: int,
    value_start: int,
)
    requires
        same_on(a, b, 0, value_start, 0),
        0 <= from <= to < value_start,
        value_start <= stop <= a.len(),
        value_start <= limit <= b.len(),
        dotenv::skip_blank(a, from, stop) == to,
    ensures
        dotenv::skip_blank(b, from, limit) == to,
{
    lemma_blank(a, from, stop);
    assert forall|k: int| from <= k < to implies dotenv::blank(#[trigger] b[k]) by {
        assert(a[k] == b[k + 0]);
    }
    assert(a[to] == b[to + 0]);
    lemma_blank_run(b, from, to, limit);
}

proof fn lemma_head_value(a: Seq<u8>, b: Seq<u8>, equals: int, stop: int, limit: int, value_start: int)
    requires
        same_on(a, b, 0, value_start, 0),
        0 <= equals < value_start,
        value_start <= stop <= a.len(),
        value_start < limit <= b.len(),
        dotenv::skip_blank(a, equals + 1, stop) == value_start,
        !dotenv::blank(b[value_start]),
    ensures
        dotenv::skip_blank(b, equals + 1, limit) == value_start,
{
    lemma_blank(a, equals + 1, stop);
    assert forall|k: int| equals < k < value_start implies dotenv::blank(#[trigger] b[k]) by {
        assert(a[k] == b[k + 0]);
    }
    lemma_blank_run(b, equals + 1, value_start, limit);
}

proof fn lemma_head_name(
    a: Seq<u8>,
    b: Seq<u8>,
    start: int,
    first: int,
    next: int,
    stop: int,
    limit: int,
    value_start: int,
)
    requires
        same_on(a, b, 0, value_start, 0),
        0 <= start <= first < next < value_start,
        value_start <= stop <= a.len(),
        value_start <= limit <= b.len(),
        dotenv::skip_blank(a, start, stop) == first,
        dotenv::name_initial(a[first]),
        dotenv::name_end(a, first + 1, stop) == next,
    ensures
        dotenv::skip_blank(b, start, limit) == first,
        b[first] == a[first],
        dotenv::read_name(b, first, limit) == Some((a.subrange(first, next), next)),
{
    lemma_head_blank(a, b, start, first, stop, limit, value_start);
    lemma_name(a, first + 1, stop);
    assert(a[first] == b[first + 0]);
    assert(a[next] == b[next + 0]);
    assert forall|k: int| first < k < next implies dotenv::name_byte(#[trigger] b[k]) by {
        assert(a[k] == b[k + 0]);
    }
    lemma_name_run(b, first + 1, next, limit);
    let (x, y) = (a.subrange(first, next), b.subrange(first, next));
    assert forall|k: int| 0 <= k < next - first implies #[trigger] x[k] == y[k] by {
        assert(a[first + k] == b[first + k + 0]);
    }
    assert(x =~= y);
}

/// Behind the value of an entry the line goes on as if a quoted value stood before: its
/// end is found at the same place.
pub open spec fn goes_on(source: Seq<u8>, entry: EntryView) -> bool {
    dotenv::declaration_end(
        source,
        entry.value_end,
        written::outside(dotenv::byte_at(source, entry.value_end, HASH)),
    ) == entry.end
}

/// `b` is `a` with the value of an entry replaced.
pub(crate) open spec fn is_replaced(a: Seq<u8>, b: Seq<u8>, entry: EntryView, v: Seq<u8>) -> bool {
    &&& 0 <= entry.start < entry.end <= a.len()
    &&& dotenv::declaration_end(a, entry.start, dotenv::scan_start()) == entry.end
    &&& dotenv::read_declaration(a, entry.start, entry.end) == Declaration::Entry(entry)
    &&& b == document::spliced(
        a,
        entry.value_start,
        entry.value_end,
        document::replacement(a, entry, v),
    )
}

/// How much longer the source became.
pub(crate) open spec fn growth(a: Seq<u8>, entry: EntryView, v: Seq<u8>) -> int {
    document::replacement(a, entry, v).len() - (entry.value_end - entry.value_start)
}

/// What the replaced source holds where.
pub(crate) proof fn lemma_replaced_bytes(a: Seq<u8>, b: Seq<u8>, entry: EntryView, v: Seq<u8>)
    requires
        is_replaced(a, b, entry, v),
    ensures
        ({
            let inner = value::escaped(v);
            let close = entry.value_start + 1 + inner.len();
            let grown = growth(a, entry, v);
            let hash = dotenv::byte_at(a, entry.value_end, HASH);
            &&& same_on(a, b, 0, entry.value_start, 0)
            &&& same_on(a, b, entry.value_end, a.len() as int, grown)
            &&& b.len() == a.len() + grown
            &&& entry.value_end + grown == close + 1 + if hash {
                1int
            } else {
                0int
            }
            &&& b[entry.value_start] == DOUBLE_QUOTE
            &&& b.subrange(entry.value_start + 1, close) == inner
            &&& b[close] == DOUBLE_QUOTE
            &&& hash ==> b[close + 1] == SPACE
        }),
{
    let (vs, ve) = (entry.value_start, entry.value_end);
    let text = document::replacement(a, entry, v);
    let inner = value::escaped(v);
    let grown = growth(a, entry, v);
    let close = vs + 1 + inner.len();
    dotenv::lemma_declaration_end(a, entry.start, dotenv::scan_start());
    lemma_dissect(a, entry);
    assert forall|k: int| 0 <= k < text.len() implies #[trigger] text[k] == b[vs + k] by {}
    assert forall|k: int| 0 <= k < vs implies #[trigger] a[k] == b[k + 0] by {}
    assert forall|k: int| ve <= k < a.len() implies #[trigger] a[k] == b[k + grown] by {
        assert(b[k + grown] == a.skip(ve)[k - ve]);
    }
    assert(text[0] == DOUBLE_QUOTE);
    assert(text[close - vs] == DOUBLE_QUOTE);
    let part = b.subrange(vs + 1, close);
    assert forall|k: int| 0 <= k < inner.len() implies #[trigger] part[k] == inner[k] by {
        assert(text[k + 1] == inner[k]);
    }
    assert(part =~= inner);
}

/// The end of a declaration once its value was replaced.
pub(crate) proof fn lemma_replaced_end(a: Seq<u8>, b: Seq<u8>, entry: EntryView, v: Seq<u8>)
    requires
        is_replaced(a, b, entry, v),
        goes_on(a, entry),
    ensures
        dotenv::declaration_end(b, entry.start, dotenv::scan_start()) == entry.end + growth(
            a,
            entry,
            v,
        ),
{
    let (start, vs, ve) = (entry.start, entry.value_start, entry.value_end);
    let grown = growth(a, entry, v);
    let hash = dotenv::byte_at(a, ve, HASH);
    let close = vs + 1 + value::escaped(v).len();
    lemma_replaced_bytes(a, b, entry, v);
    dotenv::lemma_declaration_end(a, start, dotenv::scan_start());
    lemma_dissect(a, entry);
    lemma_content(a, start, entry.end);
    assert(dotenv::scan_start() == written::outside(true));
    lemma_no_line_feed(a, start, vs, true);
    assert forall|k: int| start <= k < vs implies heading(#[trigger] b[k]) && b[k] != LINE_FEED by {
        assert(a[k] == b[k + 0]);
    }
    lemma_scan_heading(b, start, vs, true);
    let w = went_past_blank(b[vs - 1]);
    assert(dotenv::scan_step(written::outside(w), DOUBLE_QUOTE) == written::inside());
    assert(dotenv::declaration_end(b, vs, written::outside(w)) == dotenv::declaration_end(
        b,
        vs + 1,
        written::inside(),
    ));
    written::lemma_scan_escaped(b, vs + 1, v);
    assert(dotenv::scan_step(written::inside(), DOUBLE_QUOTE) == written::outside(false));
    assert(dotenv::declaration_end(b, close, written::inside()) == dotenv::declaration_end(
        b,
        close + 1,
        written::outside(false),
    ));
    if hash {
        assert(dotenv::scan_step(written::outside(false), SPACE) == written::outside(true));
        assert(dotenv::declaration_end(b, close + 1, written::outside(false))
            == dotenv::declaration_end(b, close + 2, written::outside(true)));
    }
    lemma_moved_end(a, b, ve, a.len() as int, grown, ve, written::outside(hash));
}

/// What a declaration holds once its value was replaced.
pub(crate) proof fn lemma_replaced_entry(a: Seq<u8>, b: Seq<u8>, entry: EntryView, v: Seq<u8>)
    requires
        is_replaced(a, b, entry, v),
    ensures
        dotenv::read_declaration(b, entry.start, entry.end + growth(a, entry, v))
            == Declaration::Entry(
            revalued(entry, value::quoted(v).len() as int, growth(a, entry, v)),
        ),
{
    let (start, vs, ve) = (entry.start, entry.value_start, entry.value_end);
    let grown = growth(a, entry, v);
    let hash = dotenv::byte_at(a, ve, HASH);
    let close = vs + 1 + value::escaped(v).len();
    let stop = dotenv::content_end(a, start, entry.end);
    let end = entry.end + grown;
    let limit = dotenv::content_end(b, start, end);
    lemma_replaced_bytes(a, b, entry, v);
    dotenv::lemma_declaration_end(a, start, dotenv::scan_start());
    lemma_dissect(a, entry);
    lemma_content(a, start, entry.end);
    assert(limit == stop + grown) by {
        if ve <= entry.end - 1 {
            assert(a[entry.end - 1] == b[entry.end - 1 + grown]);
        }
        if ve <= entry.end - 2 {
            assert(a[entry.end - 2] == b[entry.end - 2 + grown]);
        }
    }
    lemma_head(a, b, entry, end);
    assert(dotenv::value_scan_end(b, vs, limit, None, false) == dotenv::value_scan_end(
        b,
        vs + 1,
        limit,
        Some(DOUBLE_QUOTE),
        false,
    ));
    written::lemma_value_escaped(b, vs + 1, limit, v);
    assert(dotenv::value_scan_end(b, close, limit, Some(DOUBLE_QUOTE), false)
        == dotenv::value_scan_end(b, close + 1, limit, None, false));
    if !hash && ve < stop {
        assert(a[ve] == b[ve + grown]);
    }
    assert(dotenv::value_scan_end(b, close + 1, limit, None, false) == close + 1);
}

/// A source stays UTF-8 when a value is replaced.
pub(crate) proof fn lemma_replaced_valid(a: Seq<u8>, b: Seq<u8>, entry: EntryView, v: Seq<u8>)
    requires
        is_replaced(a, b, entry, v),
        valid_utf8(a),
        valid_utf8(v),
    ensures
        valid_utf8(b),
{
    let text = document::replacement(a, entry, v);
    dotenv::lemma_declaration_end(a, entry.start, dotenv::scan_start());
    lemma_dissect(a, entry);
    lemma_content(a, entry.start, entry.end);
    lemma_entry_byte(a, entry);
    lemma_cut(a, entry.start);
    lemma_cut(a, entry.value_end);
    let head = a.subrange(entry.start, entry.value_start);
    assert forall|k: int| 0 <= k < head.len() implies #[trigger] head[k] < 0x80 by {
        assert(heading(a[entry.start + k]));
    }
    written::lemma_ascii_valid(head);
    written::lemma_escaped_valid(decode_utf8(v));
    decode_utf8_encode_utf8(v);
    written::lemma_ascii_valid(seq![DOUBLE_QUOTE]);
    written::lemma_ascii_valid(seq![SPACE]);
    valid_utf8_concat(seq![DOUBLE_QUOTE], value::escaped(v));
    valid_utf8_concat(seq![DOUBLE_QUOTE] + value::escaped(v), seq![DOUBLE_QUOTE]);
    valid_utf8_concat(value::quoted(v), seq![SPACE]);
    valid_utf8_concat(a.take(entry.start), head);
    assert(a.take(entry.value_start) =~= a.take(entry.start) + head);
    valid_utf8_concat(a.take(entry.value_start), text);
    valid_utf8_concat(a.take(entry.value_start) + text, a.skip(entry.value_end));
}

/// Entries with the value of the one at `i` replaced: those behind it have moved.
pub open spec fn replaced(entries: Seq<EntryView>, i: int, length: int, grown: int) -> Seq<EntryView> {
    entries.take(i) + seq![revalued(entries[i], length, grown)] + moved(
        entries.skip(i + 1),
        grown,
    )
}

/// The declaration with the new value, in the index.
#[verifier::rlimit(30)]
proof fn lemma_replaced_tail(a: Seq<u8>, b: Seq<u8>, entries: Seq<EntryView>, i: int, v: Seq<u8>)
    requires
        dotenv::index_from(a, 0) == Some(entries),
        0 <= i < entries.len(),
        is_replaced(a, b, entries[i], v),
        goes_on(a, entries[i]),
    ensures
        dotenv::index_from(b, entries[i].start as nat) == Some(
            seq![revalued(entries[i], value::quoted(v).len() as int, growth(a, entries[i], v))]
                + moved(entries.skip(i + 1), growth(a, entries[i], v)),
        ),
{
    let entry = entries[i];
    let grown = growth(a, entry, v);
    lemma_at(a, 0, i);
    lemma_replaced_bytes(a, b, entry, v);
    lemma_replaced_end(a, b, entry, v);
    lemma_replaced_entry(a, b, entry, v);
    dotenv::lemma_declaration_end(a, entry.start, dotenv::scan_start());
    lemma_dissect(a, entry);
    lemma_moved_index(a, b, entry.value_end, grown, entry.end as nat);
}

/// The index of a document whose value at `i` was replaced.
#[verifier::rlimit(30)]
pub(crate) proof fn lemma_replaced_index(a: Seq<u8>, b: Seq<u8>, entries: Seq<EntryView>, i: int, v: Seq<u8>)
    requires
        dotenv::index_from(a, 0) == Some(entries),
        0 <= i < entries.len(),
        is_replaced(a, b, entries[i], v),
        goes_on(a, entries[i]),
    ensures
        dotenv::index_from(b, 0) == Some(
            replaced(entries, i, value::quoted(v).len() as int, growth(a, entries[i], v)),
        ),
{
    let entry = entries[i];
    let grown = growth(a, entry, v);
    let length = value::quoted(v).len() as int;
    let tail = seq![revalued(entry, length, grown)] + moved(entries.skip(i + 1), grown);
    lemma_replaced_tail(a, b, entries, i, v);
    lemma_replaced_bytes(a, b, entry, v);
    dotenv::lemma_declaration_end(a, entry.start, dotenv::scan_start());
    lemma_dissect(a, entry);
    assert(same_on(a, b, 0, entry.start, 0));
    lemma_before(a, b, 0, i, tail);
    assert(entries.take(i) + tail =~= replaced(entries, i, length, grown));
}

/// To set a variable that is declared replaces its one value in the index: every other
/// declaration stands as it did, in the same order. This is so wherever the rest of the
/// line, behind the old value, ends where it did.
#[verifier::rlimit(30)]
pub proof fn law_set_replaces_one(document: DocumentView, key: Seq<char>, v: Seq<u8>, after: Seq<u8>)
    requires
        document.wf(),
        value::quotable(v),
        document::with_value(document, key, v, after),
        !document.lacks(key),
        forall|i: int| #[trigger]
            document.first_named(key, i) ==> goes_on(document.source, document.entries[i]),
    ensures
        exists|i: int| #[trigger]
            document.first_named(key, i) && dotenv::index_of(after) == Some(
                replaced(
                    document.entries,
                    i,
                    value::quoted(v).len() as int,
                    after.len() - document.source.len(),
                ),
            ),
{
    let a = document.source;
    let entries = document.entries;
    let i = choose|i: int| #[trigger]
        document.first_named(key, i) && after == document::spliced(
            a,
            entries[i].value_start,
            entries[i].value_end,
            document::replacement(a, entries[i], v),
        );
    let entry = entries[i];
    lemma_at(a, 0, i);
    lemma_replaced_index(a, after, entries, i, v);
    lemma_replaced_valid(a, after, entry, v);
    assert(after.len() - a.len() == growth(a, entry, v)) by {
        lemma_replaced_bytes(a, after, entry, v);
    }
}

/// A quote is open at the end of a document.
pub open spec fn quote_open(source: Seq<u8>, index: int, scan: Scan) -> bool
    decreases source.len() - index,
{
    if index >= source.len() {
        scan.quote is Some
    } else if source[index] == LINE_FEED && scan.quote is None {
        quote_open(source, index + 1, dotenv::scan_start())
    } else {
        quote_open(source, index + 1, dotenv::scan_step(scan, source[index]))
    }
}

/// A scan that is behind the first line feed of a document goes on like a new one.
proof fn lemma_quote_open_next(s: Seq<u8>, index: int, scan: Scan)
    requires
        0 <= index <= s.len(),
        dotenv::declaration_end(s, index, scan) < s.len(),
    ensures
        quote_open(s, index, scan) == quote_open(
            s,
            dotenv::declaration_end(s, index, scan),
            dotenv::scan_start(),
        ),
    decreases s.len() - index,
{
    if !(s[index] == LINE_FEED && scan.quote is None) {
        lemma_quote_open_next(s, index + 1, dotenv::scan_step(scan, s[index]));
    }
}

/// Entries of a document that a line ending was added to.
pub open spec fn stretched(entries: Seq<EntryView>, length: int, ending: int) -> Seq<EntryView> {
    Seq::new(
        entries.len(),
        |i: int|
            if entries[i].end == length {
                EntryView { end: length + ending, ..entries[i] }
            } else {
                entries[i]
            },
    )
}

/// `b` is `a` with something added: a line ending first, unless the last line is ended.
spec fn added_to(a: Seq<u8>, b: Seq<u8>, ending: int) -> bool {
    &&& same_on(a, b, 0, a.len() as int, 0)
    &&& if document::line_ended(a) {
        ending == 0
    } else {
        ending > 0 && written::ends_at(b, a.len() as int, ending)
    }
    &&& ending == 1 && a.len() > 0 ==> a.last() != CARRIAGE_RETURN
}

/// The last declaration ends with the line ending that was added.
proof fn lemma_added_end(a: Seq<u8>, b: Seq<u8>, ending: int, index: int, scan: Scan)
    requires
        added_to(a, b, ending),
        0 <= index <= a.len(),
        index < a.len() || ending > 0,
        scan.quote != Some(LINE_FEED),
        !quote_open(a, index, scan),
        dotenv::declaration_end(a, index, scan) == a.len(),
    ensures
        dotenv::declaration_end(b, index, scan) == a.len() + ending,
    decreases a.len() - index,
{
    reveal_with_fuel(dotenv::declaration_end, 3);
    if index < a.len() {
        assert(a[index] == b[index + 0]);
        if !(a[index] == LINE_FEED && scan.quote is None) {
            let next = dotenv::scan_step(scan, a[index]);
            if index + 1 == a.len() && ending == 0 {
                assert(a.last() == LINE_FEED);
                assert(next.quote is Some);
                assert(quote_open(a, index + 1, next));
            } else {
                lemma_added_end(a, b, ending, index + 1, next);
            }
        }
    } else if ending == 2 {
        assert(dotenv::scan_step(scan, CARRIAGE_RETURN).quote is None);
    }
}

/// The entries of a document that something was added to.
#[verifier::rlimit(30)]
proof fn lemma_added(a: Seq<u8>, b: Seq<u8>, ending: int, start: nat, tail: Seq<EntryView>)
    requires
        added_to(a, b, ending),
        dotenv::index_from(a, start) is Some,
        start < a.len(),
        !quote_open(a, start as int, dotenv::scan_start()),
        dotenv::index_from(b, (a.len() + ending) as nat) == Some(tail),
    ensures
        dotenv::index_from(b, start) == Some(
            stretched(dotenv::index_from(a, start)->Some_0, a.len() as int, ending) + tail,
        ),
    decreases a.len() - start,
{
    let n = a.len() as int;
    let entries = dotenv::index_from(a, start)->Some_0;
    let end = dotenv::declaration_end(a, start as int, dotenv::scan_start());
    let declaration = dotenv::read_declaration(a, start as int, end);
    dotenv::lemma_declaration_end(a, start as int, dotenv::scan_start());
    dotenv::lemma_read_declaration(a, start as int, end);
    let rest = dotenv::index_from(a, end as nat)->Some_0;
    if end < n {
        lemma_quote_open_next(a, start as int, dotenv::scan_start());
        lemma_moved_end(a, b, 0, n, 0, start as int, dotenv::scan_start());
        lemma_moved_declaration(a, b, 0, n, 0, start as int, end);
        lemma_added(a, b, ending, end as nat, tail);
        if let Declaration::Entry(entry) = declaration {
            assert(moved_entry(entry, 0) =~= entry);
            assert(stretched(seq![entry] + rest, n, ending) + tail =~= seq![entry] + (stretched(
                rest,
                n,
                ending,
            ) + tail));
        }
    } else {
        let stop = dotenv::content_end(a, start as int, n);
        let new_end = n + ending;
        lemma_added_end(a, b, ending, start as int, dotenv::scan_start());
        lemma_content(a, start as int, n);
        assert(rest == Seq::<EntryView>::empty());
        assert(a[n - 1] == b[n - 1 + 0]);
        if n - 1 > start {
            assert(a[n - 2] == b[n - 2 + 0]);
        }
        assert(dotenv::content_end(b, start as int, new_end) == stop);
        if stop < n {
            assert(a[stop] == b[stop + 0]);
        }
        lemma_moved_to(a, b, 0, n, 0, start as int, n, new_end);
        match declaration {
            Declaration::Entry(entry) => {
                let new = EntryView { end: new_end, ..entry };
                assert(EntryView { end: new_end, ..moved_entry(entry, 0) } =~= new);
                assert(stretched(seq![entry] + rest, n, ending) + tail =~= seq![new] + tail);
            },
            _ => {
                assert(stretched(entries, n, ending) + tail =~= tail);
            },
        }
    }
}

/// One declaration at the end of a document is one entry.
proof fn lemma_appended(head: Seq<u8>, pair: Pair, behind: Seq<u8>, s: Seq<u8>)
    requires
        s == head + environment::declared(pair) + behind,
        dotenv::valid_name(encode_utf8(pair.0)),
        behind.len() == 0 || behind == seq![LINE_FEED] || behind == seq![CARRIAGE_RETURN, LINE_FEED],
    ensures
        dotenv::index_from(s, head.len()) == Some(
            seq![written::entry_from(pair, head.len() as int, behind.len() as int)],
        ),
{
    let line = environment::declared(pair);
    let (p, d, e) = (head.len() as int, line.len() as int, behind.len() as int);
    let new = written::entry_from(pair, p, e);
    assert(s.subrange(p, p + d) =~= line);
    assert forall|k: int| 0 <= k < e implies #[trigger] behind[k] == s[p + d + k] by {}
    if e == 1 {
        assert(behind[0] == s[p + d]);
    } else if e == 2 {
        assert(behind[0] == s[p + d]);
        assert(behind[1] == s[p + d + 1]);
    }
    written::lemma_declared(s, p, pair, e);
    assert(dotenv::index_from(s, new.end as nat) == Some(Seq::<EntryView>::empty()));
    assert(seq![new] + Seq::<EntryView>::empty() =~= seq![new]);
}

/// A document stays UTF-8 when a declaration is added.
pub(crate) proof fn lemma_appended_valid(a: Seq<u8>, before: Seq<u8>, pair: Pair, behind: Seq<u8>)
    requires
        valid_utf8(a),
        forall|i: int| 0 <= i < before.len() ==> #[trigger] before[i] < 0x80,
        forall|i: int| 0 <= i < behind.len() ==> #[trigger] behind[i] < 0x80,
    ensures
        valid_utf8(a + before + environment::declared(pair) + behind),
{
    let line = environment::declared(pair);
    written::lemma_declared_valid(pair);
    written::lemma_ascii_valid(before);
    written::lemma_ascii_valid(behind);
    valid_utf8_concat(a, before);
    valid_utf8_concat(a + before, line);
    valid_utf8_concat(a + before + line, behind);
}

/// To set a variable that is not declared adds its one declaration to the index, behind
/// all others, and these stand as they did; the last line gets a line ending where it had
/// none. This is so wherever no quote is left open, and wherever the last line does not
/// end with half a line ending.
#[verifier::rlimit(30)]
pub proof fn law_set_adds_one(document: DocumentView, key: Seq<char>, v: Seq<char>, after: Seq<u8>)
    requires
        document.wf(),
        dotenv::valid_name(encode_utf8(key)),
        document::with_value(document, key, encode_utf8(v), after),
        document.lacks(key),
        !quote_open(document.source, 0, dotenv::scan_start()),
        document.source.len() > 0 && document.source.last() == CARRIAGE_RETURN
            ==> document::has_crlf(document.source),
    ensures
        ({
            let source = document.source;
            let length = source.len() as int;
            let ending = document::line_ending(source).len() as int;
            dotenv::index_of(after) == Some(
                if document::line_ended(source) {
                    document.entries.push(written::entry_from((key, v), length, ending))
                } else if length > 0 {
                    stretched(document.entries, length, ending).push(
                        written::entry_from((key, v), length + ending, 0),
                    )
                } else {
                    seq![written::entry_from((key, v), 0, 0)]
                },
            )
        }),
{
    let a = document.source;
    let n = a.len() as int;
    let pair = (key, v);
    let line = environment::declared(pair);
    let style = document::line_ending(a);
    let ended = document::line_ended(a);
    let before = if n > 0 && !ended {
        style
    } else {
        Seq::empty()
    };
    let behind = if ended {
        style
    } else {
        Seq::empty()
    };
    let ending = before.len() as int;
    let new = written::entry_from(pair, n + ending, behind.len() as int);
    assert(after =~= a + before + line + behind);
    lemma_appended(a + before, pair, behind, after);
    lemma_appended_valid(a, before, pair, behind);
    if n > 0 {
        assert(after =~= a + before + (line + behind));
        lemma_added_bytes(a, before, line + behind, after);
        lemma_added(a, after, ending, 0, seq![new]);
        if ended {
            assert(stretched(document.entries, n, 0) =~= document.entries);
        }
        assert(stretched(document.entries, n, ending) + seq![new] =~= stretched(
            document.entries,
            n,
            ending,
        ).push(new));
    }
}

/// What was added to a document stands behind it.
proof fn lemma_added_bytes(a: Seq<u8>, before: Seq<u8>, more: Seq<u8>, b: Seq<u8>)
    requires
        a.len() > 0,
        b == a + before + more,
        before == if document::line_ended(a) {
            Seq::empty()
        } else {
            document::line_ending(a)
        },
        a.last() == CARRIAGE_RETURN ==> document::has_crlf(a),
    ensures
        added_to(a, b, before.len() as int),
{
    let n = a.len() as int;
    assert forall|k: int| 0 <= k < n implies #[trigger] a[k] == b[k + 0] by {}
    assert forall|k: int| 0 <= k < before.len() implies #[trigger] before[k] == b[n + k] by {}
    if before.len() == 1 {
        assert(before[0] == b[n]);
    } else if before.len() == 2 {
        assert(before[0] == b[n]);
        assert(before[1] == b[n + 1]);
    }
}

} // verus!
