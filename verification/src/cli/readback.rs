//! What an edit of an orderly document does to what it says: what was set is read back, what
//! was removed is gone, and nothing else changes.
use vstd::prelude::*;
use vstd::utf8::*;

use crate::bytes;
use crate::cli::document;
use crate::cli::document::DocumentView;
use crate::cli::dotenv;
use crate::cli::dotenv::{
    Declaration, EntryView, Scan, BACKSLASH, CARRIAGE_RETURN, DOUBLE_QUOTE, HASH, LINE_FEED,
    SINGLE_QUOTE, SPACE, TAB,
};
use crate::cli::edits;
use crate::cli::environment;
use crate::cli::environment::Pair;
use crate::cli::plain;
use crate::cli::plain::Told;
use crate::cli::value;
use crate::cli::written;

verus! {

proof fn lemma_same_line(a: Seq<u8>, b: Seq<u8>, low: int, high: int, by: int, start: int, end: int)
    requires
        edits::same_on(a, b, low, high, by),
        low <= start <= end <= high,
    ensures
        a.subrange(start, end) == b.subrange(start + by, end + by),
{
    let (x, y) = (a.subrange(start, end), b.subrange(start + by, end + by));
    assert forall|k: int| 0 <= k < end - start implies #[trigger] x[k] == y[k] by {
        assert(a[start + k] == b[start + k + by]);
    }
    assert(x =~= y);
}

/// The variables behind an edit are the old ones.
proof fn lemma_behind(a: Seq<u8>, b: Seq<u8>, low: int, by: int, start: nat)
    requires
        edits::same_on(a, b, low, a.len() as int, by),
        b.len() == a.len() + by,
        low <= start <= a.len(),
    ensures
        plain::outline_from(b, (start + by) as nat) == plain::outline_from(a, start),
    decreases a.len() - start,
{
    if start < a.len() {
        let high = a.len() as int;
        let end = dotenv::declaration_end(a, start as int, dotenv::scan_start());
        dotenv::lemma_declaration_end(a, start as int, dotenv::scan_start());
        edits::lemma_moved_end(a, b, low, high, by, start as int, dotenv::scan_start());
        edits::lemma_moved_declaration(a, b, low, high, by, start as int, end);
        lemma_same_line(a, b, low, high, by, start as int, end);
        lemma_behind(a, b, low, by, end as nat);
    }
}

/// An orderly document has an index, with the same names.
pub(crate) proof fn lemma_indexed(s: Seq<u8>, start: nat)
    requires
        plain::outline_from(s, start) is Some,
    ensures
        dotenv::index_from(s, start) is Some,
        dotenv::index_from(s, start)->Some_0.len() == plain::outline_from(
            s,
            start,
        )->Some_0.len(),
        forall|i: int|
            0 <= i < plain::outline_from(s, start)->Some_0.len() ==> (
            #[trigger] dotenv::index_from(s, start)->Some_0[i]).name == plain::outline_from(
                s,
                start,
            )->Some_0[i].0,
    decreases s.len() - start,
{
    if start < s.len() {
        let end = dotenv::declaration_end(s, start as int, dotenv::scan_start());
        dotenv::lemma_declaration_end(s, start as int, dotenv::scan_start());
        lemma_indexed(s, end as nat);
        if let Declaration::Entry(entry) = dotenv::read_declaration(s, start as int, end) {
            let rest = dotenv::index_from(s, end as nat)->Some_0;
            let pairs = plain::outline_from(s, start)->Some_0;
            let behind = plain::outline_from(s, end as nat)->Some_0;
            assert forall|i: int| 0 <= i < pairs.len() implies (
            #[trigger] dotenv::index_from(s, start)->Some_0[i]).name == pairs[i].0 by {
                if i > 0 {
                    assert(rest[i - 1].name == behind[i - 1].0);
                }
            }
        }
    }
}

/// Where a variable of an orderly document stands, and what is behind it.
proof fn lemma_variable(s: Seq<u8>, start: nat, i: int)
    requires
        plain::outline_from(s, start) is Some,
        0 <= i < plain::outline_from(s, start)->Some_0.len(),
    ensures
        ({
            let pairs = plain::outline_from(s, start)->Some_0;
            let entry = dotenv::index_from(s, start)->Some_0[i];
            &&& start <= entry.start < entry.end <= s.len()
            &&& plain::line_value(
                s.subrange(entry.start, entry.end),
                entry.value_start - entry.start,
                entry.value_end - entry.start,
            ) == Some(pairs[i].1)
            &&& entry.name == pairs[i].0
            &&& plain::outline_from(s, entry.end as nat) == Some(pairs.skip(i + 1))
        }),
    decreases s.len() - start,
{
    let pairs = plain::outline_from(s, start)->Some_0;
    let end = dotenv::declaration_end(s, start as int, dotenv::scan_start());
    lemma_indexed(s, start);
    edits::lemma_at(s, start, i);
    dotenv::lemma_declaration_end(s, start as int, dotenv::scan_start());
    let entries = dotenv::index_from(s, start)->Some_0;
    let rest = dotenv::index_from(s, end as nat)->Some_0;
    let behind = plain::outline_from(s, end as nat)->Some_0;
    match dotenv::read_declaration(s, start as int, end) {
        Declaration::Entry(entry) => {
            dotenv::lemma_read_declaration(s, start as int, end);
            assert(entries == seq![entry] + rest);
            assert(pairs == seq![pairs[0]] + behind);
            if i == 0 {
                assert(pairs.skip(1) =~= behind);
            } else {
                lemma_variable(s, end as nat, i - 1);
                assert(entries[i] == rest[i - 1]);
                assert(pairs[i] == behind[i - 1]);
                assert(pairs.skip(i + 1) =~= behind.skip(i));
            }
        },
        _ => {
            lemma_variable(s, end as nat, i);
        },
    }
}

/// The variables before an edit are the old ones.
#[verifier::rlimit(60)]
proof fn lemma_before(a: Seq<u8>, b: Seq<u8>, start: nat, i: int, tail: Seq<Told>)
    requires
        plain::outline_from(a, start) is Some,
        0 <= i < plain::outline_from(a, start)->Some_0.len(),
        edits::same_on(a, b, 0, dotenv::index_from(a, start)->Some_0[i].start, 0),
        plain::outline_from(b, dotenv::index_from(a, start)->Some_0[i].start as nat) == Some(
            tail,
        ),
    ensures
        plain::outline_from(b, start) == Some(
            plain::outline_from(a, start)->Some_0.take(i) + tail,
        ),
    decreases a.len() - start,
{
    lemma_indexed(a, start);
    let entries = dotenv::index_from(a, start)->Some_0;
    let pairs = plain::outline_from(a, start)->Some_0;
    let high = entries[i].start;
    let end = dotenv::declaration_end(a, start as int, dotenv::scan_start());
    let declaration = dotenv::read_declaration(a, start as int, end);
    edits::lemma_at(a, start, i);
    dotenv::lemma_declaration_end(a, start as int, dotenv::scan_start());
    let rest = dotenv::index_from(a, end as nat)->Some_0;
    let behind = plain::outline_from(a, end as nat)->Some_0;
    if start < high {
        lemma_indexed(a, end as nat);
        match declaration {
            Declaration::Entry(entry) => {
                dotenv::lemma_read_declaration(a, start as int, end);
                assert(entries == seq![entry] + rest);
                assert(pairs == seq![pairs[0]] + behind);
                assert(entries[i] == rest[i - 1]);
                edits::lemma_at(a, end as nat, i - 1);
                edits::lemma_moved_end(a, b, 0, high, 0, start as int, dotenv::scan_start());
                edits::lemma_moved_declaration(a, b, 0, high, 0, start as int, end);
                assert(edits::moved_entry(entry, 0) =~= entry);
                lemma_same_line(a, b, 0, high, 0, start as int, end);
                lemma_before(a, b, end as nat, i - 1, tail);
                assert(pairs.take(i) + tail =~= seq![pairs[0]] + (behind.take(i - 1) + tail));
            },
            _ => {
                edits::lemma_at(a, end as nat, i);
                edits::lemma_moved_end(a, b, 0, high, 0, start as int, dotenv::scan_start());
                edits::lemma_moved_declaration(a, b, 0, high, 0, start as int, end);
                lemma_same_line(a, b, 0, high, 0, start as int, end);
                lemma_before(a, b, end as nat, i, tail);
            },
        }
    } else {
        if i > 0 {
            dotenv::law_index_laid_out(a, start);
            edits::lemma_at(a, start, 0);
            assert(entries[0].end <= entries[i].start);
        }
        assert(pairs.take(0) + tail =~= tail);
    }
}

/// The kinds of quotes.
spec fn quoting(quote: Option<u8>) -> bool {
    quote is None || quote == Some(SINGLE_QUOTE) || quote == Some(DOUBLE_QUOTE)
}

/// The text of a value does not end with white space.
proof fn lemma_last(text: Seq<u8>, quote: Option<u8>)
    requires
        quoting(quote),
        plain::closed(text, quote),
        text.len() > 0,
    ensures
        !dotenv::blank(text.last()),
    decreases text.len(),
{
    reveal_with_fuel(plain::closed, 2);
    let b = text[0];
    if quote == Some(b) {
        if text.len() > 1 {
            lemma_last(text.skip(1), None);
        }
    } else if quote is None && (b == SINGLE_QUOTE || b == DOUBLE_QUOTE) {
        assert(text.skip(1).len() > 0);
        lemma_last(text.skip(1), Some(b));
    } else if b == BACKSLASH {
        if text.len() > 2 {
            lemma_last(text.skip(2), quote);
        }
    } else {
        if text.len() > 1 {
            lemma_last(text.skip(1), quote);
        }
    }
}

/// What can be unquoted is closed.
proof fn lemma_closed(text: Seq<u8>, quote: Option<u8>)
    requires
        plain::unquoted(text, quote) is Some,
    ensures
        plain::closed(text, quote),
    decreases text.len(),
{
    if text.len() > 0 {
        let b = text[0];
        if quote == Some(b) {
            lemma_closed(text.skip(1), None);
        } else if quote is None && (b == SINGLE_QUOTE || b == DOUBLE_QUOTE) {
            lemma_closed(text.skip(1), Some(b));
        } else if b == BACKSLASH {
            lemma_closed(text.skip(2), quote);
        } else {
            lemma_closed(text.skip(1), quote);
        }
    }
}

/// What was escaped is unescaped again.
proof fn lemma_unescaped(v: Seq<u8>)
    ensures
        plain::unquoted(value::escaped(v) + seq![DOUBLE_QUOTE], Some(DOUBLE_QUOTE)) == Some(v),
    decreases v.len(),
{
    let close = seq![DOUBLE_QUOTE];
    if v.len() == 0 {
        assert(value::escaped(v) + close =~= close);
        assert(close.skip(1) =~= Seq::empty());
        assert(plain::unquoted(close.skip(1), None) == Some(Seq::<u8>::empty()));
        assert(v =~= Seq::empty());
    } else {
        let (head, rest) = (seq![v[0]], v.skip(1));
        assert(v =~= head + rest);
        written::lemma_escaped_concat(head, rest);
        lemma_unescaped(rest);
        assert(head.drop_last() =~= Seq::empty());
        assert(value::escaped(head.drop_last()) =~= Seq::empty());
        assert(value::escaped(head) =~= value::escaped_byte(v[0]));
        let text = value::escaped(v) + close;
        let tail = value::escaped(rest) + close;
        assert(text =~= value::escaped_byte(v[0]) + tail);
        let n = value::escaped_byte(v[0]).len() as int;
        assert(text.skip(n) =~= tail);
        assert(text[0] == value::escaped_byte(v[0])[0]);
        if n == 2 {
            assert(text[1] == value::escaped_byte(v[0])[1]);
        }
        assert(plain::unquoted(text, Some(DOUBLE_QUOTE)) == plain::preceded(
            v[0],
            plain::unquoted(tail, Some(DOUBLE_QUOTE)),
        ));
    }
}

/// What was quoted is unquoted again.
proof fn lemma_unquoted(v: Seq<u8>)
    ensures
        plain::unquoted(value::quoted(v), None) == Some(v),
        plain::closed(value::quoted(v), None),
{
    let text = value::quoted(v);
    lemma_unescaped(v);
    assert(text[0] == DOUBLE_QUOTE);
    assert(text.skip(1) =~= value::escaped(v) + seq![DOUBLE_QUOTE]);
    lemma_closed(text, None);
}

/// Where a run of blanks and tabs ends.
proof fn lemma_gap(line: Seq<u8>, at: int, stop: int)
    requires
        0 <= at <= stop <= line.len(),
    ensures
        at <= plain::gap_end(line, at, stop) <= stop,
        forall|k: int|
            at <= k < plain::gap_end(line, at, stop) ==> (#[trigger] line[k] == SPACE || line[k]
                == TAB),
        plain::gap_end(line, at, stop) < stop ==> line[plain::gap_end(line, at, stop)] != SPACE
            && line[plain::gap_end(line, at, stop)] != TAB,
    decreases stop - at,
{
    if at < stop && (line[at] == SPACE || line[at] == TAB) {
        lemma_gap(line, at + 1, stop);
    }
}

/// A run of blanks and tabs ends where it is seen to end.
proof fn lemma_gap_run(line: Seq<u8>, from: int, to: int, stop: int)
    requires
        0 <= from <= to <= stop <= line.len(),
        forall|k: int| from <= k < to ==> (#[trigger] line[k] == SPACE || line[k] == TAB),
        to == stop || (line[to] != SPACE && line[to] != TAB),
    ensures
        plain::gap_end(line, from, stop) == to,
    decreases to - from,
{
    if from < to {
        assert(line[from] == SPACE || line[from] == TAB);
        lemma_gap_run(line, from + 1, to, stop);
    }
}

/// Whether a mark behind a run of blanks is seen depends on their number alone.
proof fn lemma_spaced(line: Seq<u8>, from: int, at: int)
    requires
        0 < from <= at <= line.len(),
        forall|k: int| from <= k < at ==> (#[trigger] line[k] == SPACE || line[k] == TAB),
        !dotenv::blank(line[from - 1]),
    ensures
        plain::spaced(line.take(at)) == ((at - from) % 2 == 1),
        plain::noticed(line.take(at)) == ((at - from) % 2 == 1),
    decreases at - from,
{
    if from < at {
        assert(line.take(at).drop_last() =~= line.take(at - 1));
        assert(line[at - 1] == SPACE || line[at - 1] == TAB);
        lemma_spaced(line, from, at - 1);
    }
}

/// A line stays finished when its value is replaced by a quoted one.
#[verifier::rlimit(30)]
proof fn lemma_finished(line: Seq<u8>, at: int, front: Seq<u8>, new: Seq<u8>)
    requires
        0 < at <= plain::content(line),
        plain::finished(line, at),
        front.len() > 0,
        front.last() == DOUBLE_QUOTE,
        new == front + (if dotenv::byte_at(line, at, HASH) {
            seq![SPACE]
        } else {
            Seq::empty()
        }) + line.skip(at),
        at < plain::content(line) && line[at] != HASH ==> !dotenv::blank(line[at - 1]),
    ensures
        plain::finished(new, front.len() as int),
{
    let hash = dotenv::byte_at(line, at, HASH);
    let n = front.len() as int;
    let grown = new.len() - line.len();
    let stop = plain::content(line);
    let mark = plain::gap_end(line, at, stop);
    assert forall|k: int| at <= k < line.len() implies #[trigger] line[k] == new[k + grown] by {
        assert(line.skip(at)[k - at] == line[k]);
    }
    assert(new[n - 1] == front[n - 1]);
    edits::lemma_content(line, 0, line.len() as int);
    lemma_gap(line, at, stop);
    if hash {
        assert(line[at] == new[at + grown]);
    }
    if at < line.len() {
        assert(line[line.len() - 1] == new[new.len() - 1]);
        if at < line.len() - 1 {
            assert(line[line.len() - 2] == new[line.len() - 2 + grown]);
        }
    }
    assert(plain::content(new) == stop + grown);
    if hash {
        assert(mark == at);
        assert(new[n] == SPACE);
        lemma_gap_run(new, n, n + 1, stop + grown);
        lemma_spaced(new, n, n + 1);
    } else {
        assert forall|k: int| n <= k < mark + grown implies (#[trigger] new[k] == SPACE || new[k]
            == TAB) by {
            assert(line[k - grown] == new[k - grown + grown]);
        }
        if mark < stop {
            assert(line[mark] == new[mark + grown]);
        }
        lemma_gap_run(new, n, mark + grown, stop + grown);
        if at < stop {
            lemma_spaced(line, at, mark);
            lemma_spaced(new, n, mark + grown);
        } else if at == line.len() {
            assert(new.last() == DOUBLE_QUOTE);
        }
        assert(line.take(line.len() as int) =~= line);
        assert(new.take(new.len() as int) =~= new);
    }
    assert(plain::gap_end(new, n, stop + grown) == mark + grown);
    if mark < stop {
        assert forall|k: int| mark + grown <= k < stop + grown implies #[trigger] new[k]
            != LINE_FEED by {
            assert(line[k - grown] == new[k - grown + grown]);
        }
        assert(new.subrange(mark + grown, stop + grown) =~= line.subrange(mark, stop));
    }
}

/// A scan in a comment.
spec fn commenting() -> Scan {
    Scan { quote: None, escaped: false, comment: true, whitespace: true }
}

/// A scan in a comment stays there up to the end of the line.
proof fn lemma_commenting(s: Seq<u8>, from: int, to: int)
    requires
        0 <= from <= to <= s.len(),
        forall|k: int| from <= k < to ==> #[trigger] s[k] != LINE_FEED,
    ensures
        dotenv::declaration_end(s, from, commenting()) == dotenv::declaration_end(
            s,
            to,
            commenting(),
        ),
    decreases to - from,
{
    if from < to {
        assert(s[from] != LINE_FEED);
        lemma_commenting(s, from + 1, to);
    }
}

/// A declaration ends with its line ending, or with the document.
pub(crate) proof fn lemma_line_ending(s: Seq<u8>, start: int, end: int, scan: Scan)
    requires
        0 <= start < end <= s.len(),
        end == s.len() || s[end - 1] == LINE_FEED,
        scan.quote is None,
        scan.comment || !scan.escaped,
    ensures
        dotenv::declaration_end(s, dotenv::content_end(s, start, end), scan) == end,
{
    reveal_with_fuel(dotenv::declaration_end, 3);
    edits::lemma_content(s, start, end);
}

/// Behind a value a declaration goes on to the end of its line.
pub(crate) proof fn lemma_rest(s: Seq<u8>, start: int, at: int, end: int, mark: int, whitespace: bool)
    requires
        0 <= start < end <= s.len(),
        end == s.len() || s[end - 1] == LINE_FEED,
        start <= at <= mark <= dotenv::content_end(s, start, end),
        forall|k: int| at <= k < mark ==> (#[trigger] s[k] == SPACE || s[k] == TAB),
        mark == dotenv::content_end(s, start, end) || (s[mark] == HASH && (mark > at || whitespace)
            && forall|k: int|
            mark <= k < dotenv::content_end(s, start, end) ==> #[trigger] s[k] != LINE_FEED),
    ensures
        dotenv::declaration_end(s, at, written::outside(whitespace)) == end,
{
    let stop = dotenv::content_end(s, start, end);
    edits::lemma_content(s, start, end);
    edits::lemma_scan_heading(s, at, mark, whitespace);
    let w = if at < mark {
        edits::went_past_blank(s[mark - 1])
    } else {
        whitespace
    };
    if at < mark {
        assert(s[mark - 1] == SPACE || s[mark - 1] == TAB);
    }
    if mark == stop {
        lemma_line_ending(s, start, end, written::outside(w));
    } else {
        assert(dotenv::scan_step(written::outside(w), s[mark]) == commenting());
        assert(dotenv::declaration_end(s, mark, written::outside(w)) == dotenv::declaration_end(
            s,
            mark + 1,
            commenting(),
        ));
        lemma_commenting(s, mark + 1, stop);
        lemma_line_ending(s, start, end, commenting());
    }
}

/// What closes its quotes leads to the end of the line.
proof fn lemma_settled(s: Seq<u8>, start: int, from: int, end: int, scan: Scan)
    requires
        0 <= start < end <= s.len(),
        end == s.len() || s[end - 1] == LINE_FEED,
        start <= from <= dotenv::content_end(s, start, end),
        !scan.comment,
        plain::settles(
            s.subrange(from, dotenv::content_end(s, start, end)),
            scan.quote,
            scan.escaped,
        ),
        forall|k: int|
            from <= k < dotenv::content_end(s, start, end) ==> #[trigger] s[k] != LINE_FEED,
    ensures
        dotenv::declaration_end(s, from, scan) == end,
    decreases dotenv::content_end(s, start, end) - from,
{
    let stop = dotenv::content_end(s, start, end);
    let text = s.subrange(from, stop);
    edits::lemma_content(s, start, end);
    if from == stop {
        lemma_line_ending(s, start, end, scan);
    } else {
        let next = dotenv::scan_step(scan, s[from]);
        assert(text[0] == s[from]);
        assert(text.skip(1) =~= s.subrange(from + 1, stop));
        assert(dotenv::declaration_end(s, from, scan) == dotenv::declaration_end(
            s,
            from + 1,
            next,
        ));
        if next.comment {
            assert(next == commenting());
            lemma_commenting(s, from + 1, stop);
            lemma_line_ending(s, start, end, commenting());
        } else {
            lemma_settled(s, start, from + 1, end, next);
        }
    }
}

/// The content of a line stops where that of the declaration does.
proof fn lemma_line(s: Seq<u8>, start: int, end: int)
    requires
        0 <= start < end <= s.len(),
    ensures
        plain::content(s.subrange(start, end)) == dotenv::content_end(s, start, end) - start,
        s.subrange(start, end).last() == s[end - 1],
        s.subrange(start, end).len() == end - start,
{
    let line = s.subrange(start, end);
    assert(line[line.len() - 1] == s[end - 1]);
    if end - 1 > start {
        assert(line[line.len() - 2] == s[end - 2]);
    }
}

/// The end of an orderly declaration does not depend on its value.
proof fn lemma_goes_on(s: Seq<u8>, entry: EntryView)
    requires
        0 <= entry.start < entry.end <= s.len(),
        entry.end == s.len() || s[entry.end - 1] == LINE_FEED,
        dotenv::read_declaration(s, entry.start, entry.end) == Declaration::Entry(entry),
        plain::finished(s.subrange(entry.start, entry.end), entry.value_end - entry.start),
    ensures
        edits::goes_on(s, entry),
{
    let (start, end, at) = (entry.start, entry.end, entry.value_end);
    let line = s.subrange(start, end);
    let stop = dotenv::content_end(s, start, end);
    edits::lemma_content(s, start, end);
    edits::lemma_dissect(s, entry);
    lemma_line(s, start, end);
    lemma_gap(line, at - start, stop - start);
    let mark = plain::gap_end(line, at - start, stop - start) + start;
    assert forall|k: int| at <= k < mark implies (#[trigger] s[k] == SPACE || s[k] == TAB) by {
        assert(line[k - start] == s[k]);
    }
    if mark < stop {
        assert(line[mark - start] == s[mark]);
        assert forall|k: int| mark <= k < stop implies #[trigger] s[k] != LINE_FEED by {
            assert(line[k - start] == s[k]);
        }
    }
    lemma_rest(s, start, at, end, mark, dotenv::byte_at(s, at, HASH));
}

/// The line of a declaration whose value was replaced.
#[verifier::rlimit(30)]
proof fn lemma_new_line(a: Seq<u8>, b: Seq<u8>, entry: EntryView, text: Seq<char>)
    requires
        edits::is_replaced(a, b, entry, encode_utf8(text)),
        plain::line_value(
            a.subrange(entry.start, entry.end),
            entry.value_start - entry.start,
            entry.value_end - entry.start,
        ) is Some,
    ensures
        ({
            let raw = encode_utf8(text);
            let end = entry.end + edits::growth(a, entry, raw);
            &&& entry.start < end <= b.len()
            &&& plain::line_value(
                b.subrange(entry.start, end),
                entry.value_start - entry.start,
                entry.value_start - entry.start + value::quoted(raw).len(),
            ) == Some(Some(text))
        }),
{
    let (start, vs, ve) = (entry.start, entry.value_start, entry.value_end);
    let raw = encode_utf8(text);
    let quoted = value::quoted(raw);
    let grown = edits::growth(a, entry, raw);
    let end = entry.end + grown;
    let stop = dotenv::content_end(a, start, entry.end);
    let line = a.subrange(start, entry.end);
    dotenv::lemma_declaration_end(a, start, dotenv::scan_start());
    edits::lemma_content(a, start, entry.end);
    edits::lemma_dissect(a, entry);
    lemma_line(a, start, entry.end);
    let new = b.subrange(start, end);
    let front = line.take(vs - start) + quoted;
    let at = ve - start;
    let hash = dotenv::byte_at(line, at, HASH);
    if ve < entry.end {
        assert(line[at] == a[ve]);
    }
    assert(hash == dotenv::byte_at(a, ve, HASH));
    let space: Seq<u8> = if hash {
        seq![SPACE]
    } else {
        Seq::empty()
    };
    assert(document::replacement(a, entry, raw) =~= quoted + space);
    assert(new =~= front + space + line.skip(at)) by {
        assert(b =~= a.take(vs) + (quoted + space) + a.skip(ve));
    }
    assert(front.last() == DOUBLE_QUOTE);
    if at < plain::content(line) && line[at] != HASH {
        let old_text = line.subrange(vs - start, at);
        if old_text.len() > 0 {
            lemma_last(old_text, None);
            assert(old_text.last() == line[at - 1]);
        } else {
            lemma_empty_value(a, entry);
        }
    }
    lemma_finished(line, at, front, new);
    let n = vs - start;
    assert(new.subrange(n, n + quoted.len()) =~= quoted);
    lemma_unquoted(raw);
    encode_utf8_valid_utf8(text);
    decode_utf8_encode_utf8(raw);
    bytes::lemma_text_injective(decode_utf8(raw), text);
}

/// Where a value is empty, its line stops or a comment follows at once.
proof fn lemma_empty_value(s: Seq<u8>, entry: EntryView)
    requires
        0 <= entry.start < entry.end <= s.len(),
        entry.end == s.len() || s[entry.end - 1] == LINE_FEED,
        dotenv::read_declaration(s, entry.start, entry.end) == Declaration::Entry(entry),
        entry.value_start == entry.value_end,
    ensures
        entry.value_end == dotenv::content_end(s, entry.start, entry.end) || s[entry.value_end]
            == HASH,
{
    let (start, end) = (entry.start, entry.end);
    let stop = dotenv::content_end(s, start, end);
    edits::lemma_content(s, start, end);
    edits::lemma_dissect(s, entry);
    lemma_value_start(s, entry);
    if entry.value_end < stop && s[entry.value_end] != HASH {
        assert(!dotenv::blank(s[entry.value_start]));
    }
}

/// A value does not begin with white space, and a comment is no value.
pub(crate) proof fn lemma_value_start(s: Seq<u8>, entry: EntryView)
    requires
        0 <= entry.start < entry.end <= s.len(),
        entry.end == s.len() || s[entry.end - 1] == LINE_FEED,
        dotenv::read_declaration(s, entry.start, entry.end) == Declaration::Entry(entry),
    ensures
        entry.value_start < dotenv::content_end(s, entry.start, entry.end) ==> !dotenv::blank(
            s[entry.value_start],
        ),
        entry.value_end == dotenv::value_end(
            s,
            entry.value_start,
            dotenv::content_end(s, entry.start, entry.end),
        ),
{
    let (start, end) = (entry.start, entry.end);
    let stop = dotenv::content_end(s, start, end);
    edits::lemma_content(s, start, end);
    edits::lemma_blank(s, start, stop);
    let first = dotenv::skip_blank(s, start, stop);
    edits::lemma_name(s, first + 1, stop);
    let next = dotenv::name_end(s, first + 1, stop);
    edits::lemma_blank(s, next, stop);
    let index = dotenv::skip_blank(s, next, stop);
    if s.subrange(first, next) == bytes::text("export") && !dotenv::byte_at(
        s,
        index,
        dotenv::EQUALS,
    ) {
        edits::lemma_name(s, index + 1, stop);
        let after = dotenv::name_end(s, index + 1, stop);
        edits::lemma_blank(s, after, stop);
        edits::lemma_blank(s, dotenv::skip_blank(s, after, stop) + 1, stop);
    } else {
        edits::lemma_blank(s, index + 1, stop);
    }
}

/// The variables of an orderly document from a replaced value on.
#[verifier::rlimit(30)]
proof fn lemma_revalued_tail(a: Seq<u8>, b: Seq<u8>, entry: EntryView, text: Seq<char>)
    requires
        edits::is_replaced(a, b, entry, encode_utf8(text)),
        plain::line_value(
            a.subrange(entry.start, entry.end),
            entry.value_start - entry.start,
            entry.value_end - entry.start,
        ) is Some,
        plain::outline_from(a, entry.end as nat) is Some,
    ensures
        edits::goes_on(a, entry),
        plain::outline_from(b, entry.start as nat) == Some(
            seq![(entry.name, Some(text))] + plain::outline_from(a, entry.end as nat)->Some_0,
        ),
{
    let raw = encode_utf8(text);
    let grown = edits::growth(a, entry, raw);
    let end = entry.end + grown;
    assert(edits::goes_on(a, entry)) by {
        dotenv::lemma_declaration_end(a, entry.start, dotenv::scan_start());
        lemma_goes_on(a, entry);
    }
    assert(dotenv::declaration_end(b, entry.start, dotenv::scan_start()) == end) by {
        edits::lemma_replaced_end(a, b, entry, raw);
    }
    assert(dotenv::read_declaration(b, entry.start, end) == Declaration::Entry(
        edits::revalued(entry, value::quoted(raw).len() as int, grown),
    )) by {
        edits::lemma_replaced_entry(a, b, entry, raw);
    }
    assert(plain::outline_from(b, end as nat) == plain::outline_from(a, entry.end as nat)) by {
        edits::lemma_replaced_bytes(a, b, entry, raw);
        dotenv::lemma_declaration_end(a, entry.start, dotenv::scan_start());
        edits::lemma_dissect(a, entry);
        lemma_behind(a, b, entry.value_end, grown, entry.end as nat);
    }
    lemma_new_line(a, b, entry, text);
}

/// The variables of an orderly document whose value at `i` was replaced.
pub(crate) proof fn lemma_revalued(a: Seq<u8>, b: Seq<u8>, i: int, text: Seq<char>)
    requires
        plain::outline_from(a, 0) is Some,
        0 <= i < plain::outline_from(a, 0)->Some_0.len(),
        edits::is_replaced(a, b, dotenv::index_from(a, 0)->Some_0[i], encode_utf8(text)),
    ensures
        ({
            let pairs = plain::outline_from(a, 0)->Some_0;
            let entries = dotenv::index_from(a, 0)->Some_0;
            let raw = encode_utf8(text);
            &&& dotenv::index_from(b, 0) == Some(
                edits::replaced(
                    entries,
                    i,
                    value::quoted(raw).len() as int,
                    edits::growth(a, entries[i], raw),
                ),
            )
            &&& plain::outline_from(b, 0) == Some(pairs.update(i, (pairs[i].0, Some(text))))
        }),
{
    let pairs = plain::outline_from(a, 0)->Some_0;
    let raw = encode_utf8(text);
    lemma_indexed(a, 0);
    lemma_variable(a, 0, i);
    let entries = dotenv::index_from(a, 0)->Some_0;
    let entry = entries[i];
    lemma_revalued_tail(a, b, entry, text);
    edits::lemma_replaced_index(a, b, entries, i, raw);
    assert(edits::same_on(a, b, 0, entry.start, 0)) by {
        edits::lemma_replaced_bytes(a, b, entry, raw);
        dotenv::lemma_declaration_end(a, entry.start, dotenv::scan_start());
        edits::lemma_dissect(a, entry);
    }
    let tail = seq![(pairs[i].0, Some(text))] + pairs.skip(i + 1);
    lemma_before(a, b, 0, i, tail);
    assert(pairs.take(i) + tail =~= pairs.update(i, (pairs[i].0, Some(text))));
}

/// The text of a value takes a scan through its quotes and out of them.
proof fn lemma_scan_value(s: Seq<u8>, p: int, text: Seq<u8>, quote: Option<u8>, whitespace: bool)
    requires
        0 <= p,
        p + text.len() <= s.len(),
        s.subrange(p, p + text.len()) == text,
        quoting(quote),
        text.len() > 0,
        plain::closed(text, quote),
        whitespace ==> quote is None && text[0] != HASH,
    ensures
        dotenv::declaration_end(
            s,
            p,
            Scan { quote, escaped: false, comment: false, whitespace },
        ) == dotenv::declaration_end(s, p + text.len(), written::outside(false)),
    decreases text.len(),
{
    reveal_with_fuel(plain::closed, 2);
    let scan = Scan { quote, escaped: false, comment: false, whitespace };
    let b = text[0];
    assert(s.subrange(p, p + text.len())[0] == s[p]);
    let next = dotenv::scan_step(scan, b);
    assert(dotenv::declaration_end(s, p, scan) == dotenv::declaration_end(s, p + 1, next));
    assert(s.subrange(p + 1, p + text.len()) =~= text.skip(1));
    if quote == Some(b) {
        assert(next == written::outside(false));
        if text.len() > 1 {
            lemma_scan_value(s, p + 1, text.skip(1), None, false);
        }
    } else if quote is None && (b == SINGLE_QUOTE || b == DOUBLE_QUOTE) {
        assert(next == Scan { quote: Some(b), escaped: false, comment: false, whitespace: false });
        assert(text.skip(1).len() > 0);
        lemma_scan_value(s, p + 1, text.skip(1), Some(b), false);
    } else if b == BACKSLASH {
        assert(s.subrange(p, p + text.len())[1] == s[p + 1]);
        assert(next == Scan { quote, escaped: true, comment: false, whitespace: false });
        let after = dotenv::scan_step(next, text[1]);
        assert(after == Scan { quote, escaped: false, comment: false, whitespace: false });
        assert(dotenv::declaration_end(s, p + 1, next) == dotenv::declaration_end(
            s,
            p + 2,
            after,
        ));
        assert(s.subrange(p + 2, p + text.len()) =~= text.skip(2));
        if text.len() > 2 {
            lemma_scan_value(s, p + 2, text.skip(2), quote, false);
        }
    } else {
        assert(next == Scan { quote, escaped: false, comment: false, whitespace: false });
        if text.len() > 1 {
            lemma_scan_value(s, p + 1, text.skip(1), quote, false);
        }
    }
}

/// `b` goes on where `a` ends, on a line of its own.
spec fn goes_further(a: Seq<u8>, b: Seq<u8>, ending: int) -> bool {
    &&& edits::same_on(a, b, 0, a.len() as int, 0)
    &&& if document::line_ended(a) {
        ending == 0
    } else {
        0 < ending <= 2 && written::ends_at(b, a.len() as int, ending)
    }
}

/// Where the last declaration of a document ends once the document goes further.
proof fn lemma_last_content(a: Seq<u8>, b: Seq<u8>, ending: int, start: int)
    requires
        goes_further(a, b, ending),
        0 <= start < a.len(),
        ending > 0 ==> a.last() != CARRIAGE_RETURN,
    ensures
        dotenv::content_end(b, start, a.len() + ending) == dotenv::content_end(
            a,
            start,
            a.len() as int,
        ),
        a.len() + ending <= b.len(),
        a.len() + ending == b.len() || b[a.len() + ending - 1] == LINE_FEED,
{
    let n = a.len() as int;
    assert(a[n - 1] == b[n - 1 + 0]);
    if n - 1 > start {
        assert(a[n - 2] == b[n - 2 + 0]);
    }
}

/// An orderly line does not end with half a line ending.
proof fn lemma_no_half(s: Seq<u8>, start: int, entry: Option<EntryView>)
    requires
        0 <= start < s.len(),
        match entry {
            None => plain::note(s.subrange(start, s.len() as int)),
            Some(e) => plain::finished(s.subrange(start, s.len() as int), e.value_end - start),
        },
    ensures
        s.last() == LINE_FEED || s.last() != CARRIAGE_RETURN,
{
    lemma_line(s, start, s.len() as int);
}

/// Where the last declaration ends, of a variable, once the document goes further.
#[verifier::rlimit(30)]
proof fn lemma_last_entry(a: Seq<u8>, b: Seq<u8>, ending: int, entry: EntryView)
    requires
        goes_further(a, b, ending),
        0 <= entry.start < a.len(),
        entry.end == a.len(),
        dotenv::declaration_end(a, entry.start, dotenv::scan_start()) == entry.end,
        dotenv::read_declaration(a, entry.start, entry.end) == Declaration::Entry(entry),
        plain::line_value(
            a.subrange(entry.start, entry.end),
            entry.value_start - entry.start,
            entry.value_end - entry.start,
        ) is Some,
    ensures
        dotenv::declaration_end(b, entry.start, dotenv::scan_start()) == entry.end + ending,
{
    let (start, vs, ve) = (entry.start, entry.value_start, entry.value_end);
    let n = a.len() as int;
    let end = n + ending;
    let line = a.subrange(start, n);
    let stop = dotenv::content_end(a, start, n);
    lemma_no_half(a, start, Some(entry));
    lemma_last_content(a, b, ending, start);
    edits::lemma_content(a, start, n);
    edits::lemma_dissect(a, entry);
    lemma_line(a, start, n);
    lemma_value_start(a, entry);
    assert(dotenv::scan_start() == written::outside(true));
    edits::lemma_no_line_feed(a, start, vs, true);
    assert forall|k: int| start <= k < vs implies edits::heading(#[trigger] b[k]) && b[k]
        != LINE_FEED by {
        assert(a[k] == b[k + 0]);
    }
    edits::lemma_scan_heading(b, start, vs, true);
    let w = edits::went_past_blank(b[vs - 1]);
    let text = line.subrange(vs - start, ve - start);
    if vs < ve {
        assert(b.subrange(vs, ve) =~= text) by {
            assert forall|k: int| vs <= k < ve implies #[trigger] a[k] == b[k] by {
                assert(a[k] == b[k + 0]);
            }
        }
        assert(text[0] == a[vs]);
        lemma_scan_value(b, vs, text, None, w);
    }
    let whitespace = vs == ve && w;
    lemma_gap(line, ve - start, stop - start);
    let mark = plain::gap_end(line, ve - start, stop - start) + start;
    assert forall|k: int| ve <= k < mark implies (#[trigger] b[k] == SPACE || b[k] == TAB) by {
        assert(line[k - start] == a[k]);
        assert(a[k] == b[k + 0]);
    }
    if mark < stop {
        assert(line[mark - start] == a[mark]);
        assert(a[mark] == b[mark + 0]);
        assert forall|k: int| mark <= k < stop implies #[trigger] b[k] != LINE_FEED by {
            assert(line[k - start] == a[k]);
            assert(a[k] == b[k + 0]);
        }
    }
    if mark == stop || mark > ve || whitespace {
        lemma_rest(b, start, ve, end, mark, whitespace);
    } else {
        edits::lemma_value(a, vs, stop, None, false);
        assert(vs == ve);
        assert(line.take(mark - start).last() == a[vs - 1]);
        assert(a[vs - 1] == b[vs - 1 + 0]);
        assert(!plain::noticed(line.take(mark - start)));
        assert(b.subrange(mark, stop) =~= line.subrange(mark - start, stop - start)) by {
            assert forall|k: int| mark <= k < stop implies #[trigger] b[k] == line[k - start] by {
                assert(a[k] == b[k + 0]);
            }
        }
        lemma_settled(b, start, mark, end, written::outside(w));
    }
}

/// Where the last declaration ends, of nothing, once the document goes further.
proof fn lemma_last_note(a: Seq<u8>, b: Seq<u8>, ending: int, start: int)
    requires
        goes_further(a, b, ending),
        0 <= start < a.len(),
        dotenv::declaration_end(a, start, dotenv::scan_start()) == a.len(),
        plain::note(a.subrange(start, a.len() as int)),
    ensures
        dotenv::declaration_end(b, start, dotenv::scan_start()) == a.len() + ending,
{
    let n = a.len() as int;
    let end = n + ending;
    let line = a.subrange(start, n);
    let stop = dotenv::content_end(a, start, n);
    lemma_no_half(a, start, None);
    lemma_last_content(a, b, ending, start);
    edits::lemma_content(a, start, n);
    lemma_line(a, start, n);
    assert(dotenv::scan_start() == written::outside(true));
    if dotenv::skip_blank(line, 0, stop - start) == stop - start {
        edits::lemma_blank(line, 0, stop - start);
        assert forall|k: int| start <= k < stop implies edits::heading(#[trigger] a[k]) by {
            assert(line[k - start] == a[k]);
        }
        edits::lemma_no_line_feed(a, start, stop, true);
        assert forall|k: int| start <= k < stop implies edits::heading(#[trigger] b[k]) && b[k]
            != LINE_FEED by {
            assert(a[k] == b[k + 0]);
        }
        edits::lemma_scan_heading(b, start, stop, true);
        let w = if start < stop {
            edits::went_past_blank(b[stop - 1])
        } else {
            true
        };
        lemma_line_ending(b, start, end, written::outside(w));
    } else {
        lemma_gap(line, 0, stop - start);
        let mark = plain::gap_end(line, 0, stop - start) + start;
        assert forall|k: int| start <= k < mark implies (#[trigger] b[k] == SPACE || b[k] == TAB) by {
            assert(line[k - start] == a[k]);
            assert(a[k] == b[k + 0]);
        }
        assert(line[mark - start] == a[mark]);
        assert(a[mark] == b[mark + 0]);
        assert forall|k: int| mark <= k < stop implies #[trigger] b[k] != LINE_FEED by {
            assert(line[k - start] == a[k]);
            assert(a[k] == b[k + 0]);
        }
        lemma_rest(b, start, start, end, mark, true);
    }
}

/// A line that gets a line ending says what it said.
proof fn lemma_ended_line(line: Seq<u8>, ending: Seq<u8>, at: int)
    requires
        line.len() > 0,
        line.last() != LINE_FEED,
        line.last() != CARRIAGE_RETURN,
        ending == seq![LINE_FEED] || ending == seq![CARRIAGE_RETURN, LINE_FEED],
        0 <= at <= plain::content(line),
    ensures
        plain::finished(line, at) ==> plain::finished(line + ending, at),
        plain::note(line) ==> plain::note(line + ending),
{
    let new = line + ending;
    let n = line.len() as int;
    assert(new[n - 1] == line[n - 1]);
    assert(ending.last() == LINE_FEED);
    assert(new.last() == LINE_FEED);
    assert(new[n] == ending[0]);
    assert(plain::content(line) == n);
    assert(plain::content(new) == n);
    assert forall|k: int| 0 <= k < n implies #[trigger] new[k] == line[k] by {}
    lemma_gap(line, at, n);
    lemma_gap(line, 0, n);
    let (x, y) = (plain::gap_end(line, at, n), plain::gap_end(line, 0, n));
    assert forall|k: int| at <= k < x implies (#[trigger] new[k] == SPACE || new[k] == TAB) by {
        assert(new[k] == line[k]);
    }
    assert forall|k: int| 0 <= k < y implies (#[trigger] new[k] == SPACE || new[k] == TAB) by {
        assert(new[k] == line[k]);
    }
    lemma_gap_run(new, at, x, n);
    lemma_gap_run(new, 0, y, n);
    assert(new.take(x) =~= line.take(x));
    assert(new.subrange(x, n) =~= line.subrange(x, n));
    assert(edits::same_on(line, new, 0, n, 0)) by {
        assert forall|k: int| 0 <= k < n implies #[trigger] line[k] == new[k + 0] by {}
    }
    edits::lemma_moved_blank(line, new, 0, n, 0, 0, n);
}

/// The variables of an orderly document that goes further: the old ones, and what is added.
#[verifier::rlimit(60)]
proof fn lemma_further(a: Seq<u8>, b: Seq<u8>, ending: int, start: nat, tail: Seq<Told>)
    requires
        goes_further(a, b, ending),
        plain::outline_from(a, start) is Some,
        start < a.len(),
        plain::outline_from(b, (a.len() + ending) as nat) == Some(tail),
    ensures
        plain::outline_from(b, start) == Some(
            plain::outline_from(a, start)->Some_0 + tail,
        ),
    decreases a.len() - start,
{
    let n = a.len() as int;
    let pairs = plain::outline_from(a, start)->Some_0;
    let end = dotenv::declaration_end(a, start as int, dotenv::scan_start());
    let declaration = dotenv::read_declaration(a, start as int, end);
    dotenv::lemma_declaration_end(a, start as int, dotenv::scan_start());
    dotenv::lemma_read_declaration(a, start as int, end);
    let behind = plain::outline_from(a, end as nat)->Some_0;
    if end < n {
        edits::lemma_moved_end(a, b, 0, n, 0, start as int, dotenv::scan_start());
        edits::lemma_moved_declaration(a, b, 0, n, 0, start as int, end);
        lemma_same_line(a, b, 0, n, 0, start as int, end);
        lemma_further(a, b, ending, end as nat, tail);
        if let Declaration::Entry(entry) = declaration {
            assert(edits::moved_entry(entry, 0) =~= entry);
            assert(pairs + tail =~= seq![pairs[0]] + (behind + tail));
        }
    } else {
        assert(behind == Seq::<Told>::empty());
        lemma_further_last(a, b, ending, start as int);
        match declaration {
            Declaration::Entry(entry) => {
                assert(pairs + tail =~= seq![pairs[0]] + tail);
            },
            _ => {
                assert(pairs + tail =~= tail);
            },
        }
    }
}

/// The last line of an orderly document that goes further says what it said.
#[verifier::rlimit(60)]
proof fn lemma_further_last(a: Seq<u8>, b: Seq<u8>, ending: int, start: int)
    requires
        goes_further(a, b, ending),
        0 <= start < a.len(),
        dotenv::declaration_end(a, start, dotenv::scan_start()) == a.len(),
        match dotenv::read_declaration(a, start, a.len() as int) {
            Declaration::Invalid => false,
            Declaration::Nothing => plain::note(a.subrange(start, a.len() as int)),
            Declaration::Entry(entry) => plain::line_value(
                a.subrange(start, a.len() as int),
                entry.value_start - start,
                entry.value_end - start,
            ) is Some,
        },
    ensures
        dotenv::declaration_end(b, start, dotenv::scan_start()) == a.len() + ending,
        a.len() + ending <= b.len(),
        match dotenv::read_declaration(a, start, a.len() as int) {
            Declaration::Invalid => true,
            Declaration::Nothing => dotenv::read_declaration(b, start, a.len() + ending)
                == Declaration::Nothing && plain::note(b.subrange(start, a.len() + ending)),
            Declaration::Entry(entry) => dotenv::read_declaration(b, start, a.len() + ending)
                == Declaration::Entry(
                EntryView { end: a.len() + ending, ..entry },
            ) && plain::line_value(
                b.subrange(start, a.len() + ending),
                entry.value_start - start,
                entry.value_end - start,
            ) == plain::line_value(
                a.subrange(start, a.len() as int),
                entry.value_start - start,
                entry.value_end - start,
            ),
        },
{
    let n = a.len() as int;
    let end = n + ending;
    let stop = dotenv::content_end(a, start, n);
    let (line, new) = (a.subrange(start, n), b.subrange(start, end));
    let declaration = dotenv::read_declaration(a, start, n);
    dotenv::lemma_read_declaration(a, start, n);
    lemma_no_half(
        a,
        start,
        match declaration {
            Declaration::Entry(entry) => Some(entry),
            _ => None,
        },
    );
    lemma_last_content(a, b, ending, start);
    edits::lemma_content(a, start, n);
    if stop < n {
        assert(a[stop] == b[stop + 0]);
    }
    edits::lemma_moved_to(a, b, 0, n, 0, start, n, end);
    lemma_line(a, start, n);
    lemma_same_line(a, b, 0, n, 0, start, n);
    let more = b.subrange(n, end);
    assert(new =~= line + more);
    if ending == 0 {
        assert(new =~= line);
    } else {
        assert(more =~= seq![LINE_FEED] || more =~= seq![CARRIAGE_RETURN, LINE_FEED]);
    }
    match declaration {
        Declaration::Entry(entry) => {
            assert(edits::moved_entry(entry, 0) =~= entry);
            edits::lemma_dissect(a, entry);
            lemma_last_entry(a, b, ending, entry);
            let (from, to) = (entry.value_start - start, entry.value_end - start);
            assert(new.subrange(from, to) =~= line.subrange(from, to));
            if ending > 0 {
                lemma_ended_line(line, more, to);
            }
        },
        _ => {
            lemma_last_note(a, b, ending, start);
            if ending > 0 {
                lemma_ended_line(line, more, 0);
            }
        },
    }
}

/// A declaration as the tool writes it, at the end of a document, is orderly.
proof fn lemma_declared(head: Seq<u8>, pair: Pair, behind: Seq<u8>, s: Seq<u8>)
    requires
        s == head + environment::declared(pair) + behind,
        dotenv::valid_name(encode_utf8(pair.0)),
        behind.len() == 0 || behind == seq![LINE_FEED] || behind == seq![CARRIAGE_RETURN, LINE_FEED],
    ensures
        plain::outline_from(s, head.len()) == Some(seq![(pair.0, Some(pair.1))]),
{
    let declared = environment::declared(pair);
    let (p, d, e) = (head.len() as int, declared.len() as int, behind.len() as int);
    let new = written::entry_from(pair, p, e);
    assert(s.subrange(p, p + d) =~= declared);
    assert forall|k: int| 0 <= k < e implies #[trigger] behind[k] == s[p + d + k] by {}
    if e == 1 {
        assert(behind[0] == s[p + d]);
    } else if e == 2 {
        assert(behind[0] == s[p + d]);
        assert(behind[1] == s[p + d + 1]);
    }
    written::lemma_declared(s, p, pair, e);
    assert(s.subrange(p, new.end) =~= declared + behind);
    lemma_declared_line(pair, behind);
    assert(plain::outline_from(s, new.end as nat) == Some(Seq::<Told>::empty()));
    let told: Seq<Told> = seq![(pair.0, Some(pair.1))];
    assert(told + Seq::<Told>::empty() =~= told);
}

/// What a line says that the tool wrote.
proof fn lemma_declared_line(pair: Pair, behind: Seq<u8>)
    requires
        behind.len() == 0 || behind == seq![LINE_FEED] || behind == seq![CARRIAGE_RETURN, LINE_FEED],
    ensures
        plain::line_value(
            environment::declared(pair) + behind,
            encode_utf8(pair.0).len() as int + 1,
            environment::declared(pair).len() as int,
        ) == Some(Some(pair.1)),
{
    let declared = environment::declared(pair);
    let (d, e) = (declared.len() as int, behind.len() as int);
    let line = declared + behind;
    let raw = encode_utf8(pair.1);
    let quoted = value::quoted(raw);
    let from = encode_utf8(pair.0).len() as int + 1;
    assert(line.subrange(from, d) =~= quoted);
    assert(declared.last() == quoted.last());
    assert(quoted.last() == DOUBLE_QUOTE);
    assert(line[d - 1] == declared[d - 1]);
    if e > 0 {
        assert(line.last() == behind.last());
        assert(line[d] == behind[0]);
    }
    assert(plain::content(line) == d);
    assert(plain::finished(line, d));
    lemma_unquoted(raw);
    encode_utf8_valid_utf8(pair.1);
    decode_utf8_encode_utf8(raw);
    bytes::lemma_text_injective(decode_utf8(raw), pair.1);
}

/// What a document says once a variable was set: the first one of that name has the value,
/// or a new one stands behind the others.
pub open spec fn told_with(
    before: DocumentView,
    key: Seq<char>,
    text: Seq<char>,
    now: Seq<Told>,
) -> bool {
    let all = plain::outline(before.source)->Some_0;
    if before.lacks(key) {
        now == all.push((key, Some(text)))
    } else {
        exists|i: int| #[trigger]
            before.first_named(key, i) && now == all.update(i, (all[i].0, Some(text)))
    }
}

/// What a document says once a variable was removed.
pub open spec fn told_without(before: DocumentView, key: Seq<char>, now: Seq<Told>) -> bool {
    let all = plain::outline(before.source)->Some_0;
    if before.lacks(key) {
        now == all
    } else {
        exists|i: int| #[trigger] before.first_named(key, i) && now == all.remove(i)
    }
}

/// The entries of an orderly document are named like its variables.
pub(crate) proof fn lemma_same_names(before: DocumentView)
    requires
        before.wf(),
        plain::outline(before.source) is Some,
    ensures
        ({
            let all = plain::outline(before.source)->Some_0;
            &&& dotenv::index_from(before.source, 0) == Some(before.entries)
            &&& before.entries.len() == all.len()
            &&& forall|i: int|
                0 <= i < all.len() ==> (#[trigger] before.entries[i]).name == all[i].0
        }),
{
    lemma_indexed(before.source, 0);
}

/// An orderly document with a declaration added.
#[verifier::rlimit(60)]
proof fn lemma_set_adds(before: DocumentView, key: Seq<char>, text: Seq<char>, after: Seq<u8>)
    requires
        before.wf(),
        plain::outline(before.source) is Some,
        dotenv::valid_name(encode_utf8(key)),
        after == document::appended(
            before.source,
            encode_utf8(key),
            value::quoted(encode_utf8(text)),
        ),
    ensures
        plain::outline(after) == Some(
            plain::outline(before.source)->Some_0.push((key, Some(text))),
        ),
{
    let a = before.source;
    let n = a.len() as int;
    let all = plain::outline(a)->Some_0;
    let pair = (key, text);
    let told: Told = (key, Some(text));
    let line = environment::declared(pair);
    let style = document::line_ending(a);
    let ended = document::line_ended(a);
    let gap = if n > 0 && !ended {
        style
    } else {
        Seq::empty()
    };
    let behind = if ended {
        style
    } else {
        Seq::empty()
    };
    assert(after =~= a + gap + line + behind);
    lemma_declared(a + gap, pair, behind, after);
    edits::lemma_appended_valid(a, gap, pair, behind);
    if n > 0 {
        let ending = gap.len() as int;
        assert forall|k: int| 0 <= k < n implies #[trigger] a[k] == after[k + 0] by {}
        assert forall|k: int| 0 <= k < ending implies #[trigger] gap[k] == after[n + k] by {}
        if ending == 1 {
            assert(gap[0] == after[n]);
        } else if ending == 2 {
            assert(gap[0] == after[n]);
            assert(gap[1] == after[n + 1]);
        }
        assert(goes_further(a, after, ending));
        lemma_further(a, after, ending, 0, seq![told]);
        assert(all + seq![told] =~= all.push(told));
    } else {
        assert(all.push(told) =~= seq![told]);
        assert((a + gap).len() == 0);
    }
}

/// To set a variable in an orderly document sets it in what the document says, and the
/// document stays orderly: every reading of the changed document gives that variable with
/// that value, and says of all others what it said.
pub proof fn law_set_reads_back(
    before: DocumentView,
    key: Seq<char>,
    text: Seq<char>,
    after: Seq<u8>,
    read: Seq<Option<Pair>>,
) -> (now: Seq<Told>)
    requires
        before.wf(),
        plain::outline(before.source) is Some,
        dotenv::valid_name(encode_utf8(key)),
        document::with_value(before, key, encode_utf8(text), after),
        environment::reads_as(after, read),
    ensures
        plain::outline(after) == Some(now),
        plain::tells(now, read),
        told_with(before, key, text, now),
{
    let a = before.source;
    let all = plain::outline(a)->Some_0;
    lemma_same_names(before);
    if before.lacks(key) {
        lemma_set_adds(before, key, text, after);
        all.push((key, Some(text)))
    } else {
        let raw = encode_utf8(text);
        let i = choose|i: int| #[trigger]
            before.first_named(key, i) && after == document::spliced(
                a,
                before.entries[i].value_start,
                before.entries[i].value_end,
                document::replacement(a, before.entries[i], raw),
            );
        edits::lemma_at(a, 0, i);
        lemma_revalued(a, after, i, text);
        encode_utf8_valid_utf8(text);
        edits::lemma_replaced_valid(a, after, before.entries[i], raw);
        all.update(i, (all[i].0, Some(text)))
    }
}

/// To remove a variable from an orderly document removes it from what the document says,
/// and the document stays orderly: every reading of the changed document says of the other
/// variables what it said.
pub proof fn law_unset_reads_back(
    before: DocumentView,
    key: Seq<char>,
    after: Seq<u8>,
    read: Seq<Option<Pair>>,
) -> (now: Seq<Told>)
    requires
        before.wf(),
        plain::outline(before.source) is Some,
        document::without_declaration(before, key, after),
        environment::reads_as(after, read),
    ensures
        plain::outline(after) == Some(now),
        plain::tells(now, read),
        told_without(before, key, now),
{
    let a = before.source;
    let all = plain::outline(a)->Some_0;
    lemma_same_names(before);
    if before.lacks(key) {
        all
    } else {
        let i = choose|i: int| #[trigger]
            before.first_named(key, i) && after == document::spliced(
                a,
                before.entries[i].start,
                before.entries[i].end,
                Seq::empty(),
            );
        let entry = before.entries[i];
        let by = entry.start - entry.end;
        edits::lemma_at(a, 0, i);
        lemma_variable(a, 0, i);
        assert(after =~= a.take(entry.start) + a.skip(entry.end));
        assert(edits::same_on(a, after, entry.end, a.len() as int, by));
        lemma_behind(a, after, entry.end, by, entry.end as nat);
        assert(edits::same_on(a, after, 0, entry.start, 0));
        lemma_before(a, after, 0, i, all.skip(i + 1));
        assert(all.take(i) + all.skip(i + 1) =~= all.remove(i));
        assert(valid_utf8(after)) by {
            if entry.end < a.len() {
                edits::lemma_first_byte(a, entry.end as nat);
            }
            edits::lemma_entry_byte(a, entry);
            edits::lemma_cut(a, entry.start);
            edits::lemma_cut(a, entry.end);
            valid_utf8_concat(a.take(entry.start), a.skip(entry.end));
        }
        all.remove(i)
    }
}

} // verus!
