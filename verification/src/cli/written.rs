//! A declaration in the form that the tool itself writes: its value in double quotes.
use vstd::prelude::*;
use vstd::utf8::*;

use crate::bytes;
use crate::cli::dotenv;
use crate::cli::dotenv::{
    Declaration, EntryView, Scan, CARRIAGE_RETURN, DOUBLE_QUOTE, EQUALS, LINE_FEED,
};
use crate::cli::environment;
use crate::cli::environment::Pair;
use crate::cli::value;

verus! {

/// A scan between double quotes.
pub open spec fn inside() -> Scan {
    Scan { quote: Some(DOUBLE_QUOTE), escaped: false, comment: false, whitespace: false }
}

/// A scan outside quotes.
pub open spec fn outside(whitespace: bool) -> Scan {
    Scan { quote: None, escaped: false, comment: false, whitespace }
}

proof fn lemma_scan_name(s: Seq<u8>, p: int, n: int, w: bool)
    requires
        0 <= p,
        0 <= n,
        p + n <= s.len(),
        forall|k: int| p <= k < p + n ==> dotenv::name_byte(#[trigger] s[k]),
    ensures
        dotenv::declaration_end(s, p, outside(w)) == dotenv::declaration_end(
            s,
            p + n,
            outside(w && n == 0),
        ),
    decreases n,
{
    if n > 0 {
        assert(dotenv::name_byte(s[p]));
        assert(dotenv::scan_step(outside(w), s[p]) == outside(false));
        lemma_scan_name(s, p + 1, n - 1, false);
    }
}

pub(crate) proof fn lemma_scan_escaped(s: Seq<u8>, p: int, v: Seq<u8>)
    requires
        0 <= p,
        p + value::escaped(v).len() <= s.len(),
        s.subrange(p, p + value::escaped(v).len()) == value::escaped(v),
    ensures
        dotenv::declaration_end(s, p, inside()) == dotenv::declaration_end(
            s,
            p + value::escaped(v).len(),
            inside(),
        ),
    decreases v.len(),
{
    if v.len() > 0 {
        let front = value::escaped(v.drop_last());
        let tail = value::escaped_byte(v.last());
        let x = p + front.len();
        let whole = value::escaped(v);
        assert(whole == front + tail);
        assert(s.subrange(p, x) =~= front) by {
            assert forall|k: int| 0 <= k < front.len() implies s[p + k] == front[k] by {
                assert(s.subrange(p, p + whole.len())[k] == whole[k]);
            }
        }
        lemma_scan_escaped(s, p, v.drop_last());
        assert forall|k: int| 0 <= k < tail.len() implies s[x + k] == #[trigger] tail[k] by {
            assert(s.subrange(p, p + whole.len())[front.len() + k] == whole[front.len() + k]);
        }
        assert(s[x] == tail[0]);
        if tail.len() == 2 {
            assert(s[x + 1] == tail[1]);
            let between = Scan { escaped: true, ..inside() };
            assert(dotenv::scan_step(inside(), s[x]) == between);
            assert(dotenv::scan_step(between, s[x + 1]) == inside());
            assert(dotenv::declaration_end(s, x, inside()) == dotenv::declaration_end(
                s,
                x + 1,
                between,
            ));
            assert(dotenv::declaration_end(s, x + 1, between) == dotenv::declaration_end(
                s,
                x + 2,
                inside(),
            ));
        } else {
            assert(dotenv::scan_step(inside(), s[x]) == inside());
        }
    }
}

pub(crate) proof fn lemma_value_escaped(s: Seq<u8>, p: int, end: int, v: Seq<u8>)
    requires
        0 <= p,
        p + value::escaped(v).len() <= end <= s.len(),
        s.subrange(p, p + value::escaped(v).len()) == value::escaped(v),
    ensures
        dotenv::value_scan_end(s, p, end, Some(DOUBLE_QUOTE), false) == dotenv::value_scan_end(
            s,
            p + value::escaped(v).len(),
            end,
            Some(DOUBLE_QUOTE),
            false,
        ),
    decreases v.len(),
{
    if v.len() > 0 {
        let front = value::escaped(v.drop_last());
        let tail = value::escaped_byte(v.last());
        let x = p + front.len();
        let whole = value::escaped(v);
        assert(whole == front + tail);
        assert(s.subrange(p, x) =~= front) by {
            assert forall|k: int| 0 <= k < front.len() implies s[p + k] == front[k] by {
                assert(s.subrange(p, p + whole.len())[k] == whole[k]);
            }
        }
        lemma_value_escaped(s, p, end, v.drop_last());
        assert forall|k: int| 0 <= k < tail.len() implies s[x + k] == #[trigger] tail[k] by {
            assert(s.subrange(p, p + whole.len())[front.len() + k] == whole[front.len() + k]);
        }
        assert(s[x] == tail[0]);
        if tail.len() == 2 {
            assert(s[x + 1] == tail[1]);
            assert(dotenv::value_scan_end(s, x, end, Some(DOUBLE_QUOTE), false)
                == dotenv::value_scan_end(s, x + 1, end, Some(DOUBLE_QUOTE), true));
            assert(dotenv::value_scan_end(s, x + 1, end, Some(DOUBLE_QUOTE), true)
                == dotenv::value_scan_end(s, x + 2, end, Some(DOUBLE_QUOTE), false));
        }
    }
}

/// The length of a declaration.
pub open spec fn declared_length(pair: Pair) -> int {
    environment::declared(pair).len() as int
}

/// The place of a declaration that begins at `p` and has a line ending of some length.
pub open spec fn entry_from(pair: Pair, p: int, ending: int) -> EntryView {
    EntryView {
        name: pair.0,
        start: p,
        end: p + declared_length(pair) + ending,
        value_start: p + encode_utf8(pair.0).len() + 1,
        value_end: p + declared_length(pair),
    }
}

/// A line ending of some length, or the end of the document, stands at a place.
pub open spec fn ends_at(s: Seq<u8>, at: int, ending: int) -> bool {
    ||| ending == 0 && at == s.len()
    ||| ending == 1 && at < s.len() && s[at] == LINE_FEED
    ||| ending == 2 && at + 1 < s.len() && s[at] == CARRIAGE_RETURN && s[at + 1] == LINE_FEED
}

pub(crate) proof fn lemma_declared(s: Seq<u8>, p: int, pair: Pair, ending: int)
    requires
        0 <= p,
        p + declared_length(pair) <= s.len(),
        s.subrange(p, p + declared_length(pair)) == environment::declared(pair),
        dotenv::valid_name(encode_utf8(pair.0)),
        ends_at(s, p + declared_length(pair), ending),
    ensures
        ({
            let entry = entry_from(pair, p, ending);
            &&& dotenv::declaration_end(s, p, dotenv::scan_start()) == entry.end
            &&& dotenv::read_declaration(s, p, entry.end) == Declaration::Entry(entry)
        }),
{
    let d = declared_length(pair);
    let line = environment::declared(pair);
    let name = encode_utf8(pair.0);
    let v = encode_utf8(pair.1);
    let inner = value::escaped(v);
    let n = name.len() as int;
    assert(line =~= name + seq![EQUALS] + (seq![DOUBLE_QUOTE] + inner + seq![DOUBLE_QUOTE]));
    assert(d == n + inner.len() + 3);
    assert forall|k: int| 0 <= k < d implies s[p + k] == #[trigger] line[k] by {
        assert(s.subrange(p, p + d)[k] == line[k]);
    }
    assert forall|k: int| p <= k < p + n implies dotenv::name_byte(#[trigger] s[k]) by {
        assert(s[p + (k - p)] == line[k - p]);
        assert(line[k - p] == name[k - p]);
    }
    assert(line[n] == EQUALS && line[n + 1] == DOUBLE_QUOTE && line[d - 1] == DOUBLE_QUOTE);
    assert(s[p + n] == EQUALS && s[p + n + 1] == DOUBLE_QUOTE && s[p + d - 1] == DOUBLE_QUOTE);
    assert(s.subrange(p + n + 2, p + n + 2 + inner.len()) =~= inner) by {
        assert forall|k: int| 0 <= k < inner.len() implies s[p + n + 2 + k] == inner[k] by {
            assert(line[n + 2 + k] == inner[k]);
        }
    }
    let end = p + d + ending;
    // The end of the declaration.
    lemma_scan_name(s, p, n, true);
    assert(dotenv::scan_start() == outside(true));
    assert(dotenv::scan_step(outside(false), EQUALS) == outside(false));
    assert(dotenv::declaration_end(s, p + n, outside(false)) == dotenv::declaration_end(
        s,
        p + n + 1,
        outside(false),
    ));
    assert(dotenv::scan_step(outside(false), DOUBLE_QUOTE) == inside());
    assert(dotenv::declaration_end(s, p + n + 1, outside(false)) == dotenv::declaration_end(
        s,
        p + n + 2,
        inside(),
    ));
    lemma_scan_escaped(s, p + n + 2, v);
    assert(dotenv::scan_step(inside(), DOUBLE_QUOTE) == outside(false));
    assert(dotenv::declaration_end(s, p + d - 1, inside()) == dotenv::declaration_end(
        s,
        p + d,
        outside(false),
    ));
    if ending == 2 {
        assert(dotenv::scan_step(outside(false), CARRIAGE_RETURN) == outside(true));
        assert(dotenv::declaration_end(s, p + d, outside(false)) == dotenv::declaration_end(
            s,
            p + d + 1,
            outside(true),
        ));
    }
    assert(dotenv::declaration_end(s, p, dotenv::scan_start()) == end);
    // What stands in it.
    let stop = dotenv::content_end(s, p, end);
    assert(stop == p + d);
    assert(dotenv::name_initial(s[p])) by {
        assert(line[0] == name[0]);
        assert(s[p + 0] == line[0]);
    }
    assert(dotenv::skip_blank(s, p, stop) == p);
    lemma_name_run(s, p + 1, p + n, stop);
    assert(dotenv::name_end(s, p + 1, stop) == p + n);
    assert(s.subrange(p, p + n) =~= name) by {
        assert forall|k: int| 0 <= k < n implies s[p + k] == name[k] by {
            assert(line[k] == name[k]);
        }
    }
    assert(dotenv::skip_blank(s, p + n, stop) == p + n);
    assert(dotenv::skip_blank(s, p + n + 1, stop) == p + n + 1);
    lemma_value_escaped(s, p + n + 2, stop, v);
    assert(dotenv::value_scan_end(s, p + n + 1, stop, None, false) == dotenv::value_scan_end(
        s,
        p + n + 2,
        stop,
        Some(DOUBLE_QUOTE),
        false,
    ));
    assert(dotenv::value_scan_end(s, p + d - 1, stop, Some(DOUBLE_QUOTE), false)
        == dotenv::value_scan_end(s, p + d, stop, None, false));
    assert(dotenv::value_end(s, p + n + 1, stop) == p + d);
    lemma_name_chars(pair.0);
}

/// A run of name bytes ends where another byte stands.
proof fn lemma_name_run(s: Seq<u8>, from: int, to: int, end: int)
    requires
        0 <= from <= to < end <= s.len(),
        forall|k: int| from <= k < to ==> dotenv::name_byte(#[trigger] s[k]),
        !dotenv::name_byte(s[to]),
    ensures
        dotenv::name_end(s, from, end) == to,
    decreases to - from,
{
    if from < to {
        lemma_name_run(s, from + 1, to, end);
    }
}

/// A name is ASCII.
pub(crate) proof fn lemma_name_chars(name: Seq<char>)
    requires
        dotenv::valid_name(encode_utf8(name)),
    ensures
        bytes::ascii_chars(encode_utf8(name)) == name,
{
    let raw = encode_utf8(name);
    assert forall|i: int| 0 <= i < raw.len() implies #[trigger] raw[i] < 0x80 by {
        if i > 0 {
            assert(dotenv::name_byte(raw[i]));
        }
    }
    bytes::lemma_ascii_chars(raw);
    bytes::lemma_text_injective(bytes::ascii_chars(raw), name);
}

/// Escaping one behind the other.
pub(crate) proof fn lemma_escaped_concat(a: Seq<u8>, b: Seq<u8>)
    ensures
        value::escaped(a + b) == value::escaped(a) + value::escaped(b),
    decreases b.len(),
{
    if b.len() == 0 {
        assert(a + b =~= a);
        assert(value::escaped(a) + value::escaped(b) =~= value::escaped(a));
    } else {
        assert((a + b).drop_last() =~= a + b.drop_last());
        lemma_escaped_concat(a, b.drop_last());
        assert(value::escaped(a + b) =~= value::escaped(a) + value::escaped(b));
    }
}

/// Text stays text when it is escaped.
pub(crate) proof fn lemma_escaped_valid(text: Seq<char>)
    ensures
        valid_utf8(value::escaped(encode_utf8(text))),
    decreases text.len(),
{
    if text.len() == 0 {
        assert(encode_utf8(text) =~= Seq::empty());
        encode_utf8_valid_utf8(text);
        assert(value::escaped(encode_utf8(text)) =~= encode_utf8(text));
    } else {
        let front = text.drop_last();
        let last = seq![text.last()];
        let raw = encode_utf8(last);
        assert(text =~= front + last);
        bytes::lemma_encode_concat(front, last);
        lemma_escaped_concat(encode_utf8(front), raw);
        lemma_escaped_valid(front);
        if text.last() <= '\u{7f}' {
            lemma_narrow(text.last());
            is_ascii_chars_encode_utf8(last);
            assert(raw =~= seq![raw[0]]);
            assert(raw.drop_last() =~= Seq::empty());
            assert(value::escaped(raw.drop_last()) =~= Seq::empty());
            assert(raw.last() == raw[0]);
            assert(value::escaped(raw) =~= value::escaped_byte(raw[0]));
            let escaped = bytes::ascii_chars(value::escaped(raw));
            assert(raw[0] < 0x80);
            bytes::lemma_ascii_chars(value::escaped(raw));
            encode_utf8_valid_utf8(escaped);
        } else {
            lemma_wide(text.last());
            value::lemma_plain(raw);
            encode_utf8_valid_utf8(last);
        }
        valid_utf8_concat(value::escaped(encode_utf8(front)), value::escaped(raw));
    }
}

proof fn lemma_narrow(c: char)
    requires
        c <= '\u{7f}',
    ensures
        is_ascii_chars(seq![c]),
{
    assert('\0' <= c);
    assert forall|i: int| 0 <= i < seq![c].len() implies '\0' <= #[trigger] seq![c][i]
        && seq![c][i] <= '\u{7f}' by {
        assert(seq![c][i] == c);
    }
}

/// No byte of a character beyond ASCII needs a backslash.
proof fn lemma_wide(c: char)
    requires
        c > '\u{7f}',
    ensures
        forall|i: int|
            0 <= i < encode_utf8(seq![c]).len() ==> value::escaped_byte(
                #[trigger] encode_utf8(seq![c])[i],
            ) == seq![encode_utf8(seq![c])[i]],
{
    let s = c as u32;
    char_is_scalar(c);
    assert(seq![c].drop_first() =~= Seq::empty());
    assert(encode_utf8(Seq::<char>::empty()) =~= Seq::empty());
    assert(encode_utf8(seq![c]) =~= encode_scalar(s));
    assert(0xC0 | ((s >> 6) & 0x1F) as u8 >= 0x80) by (bit_vector);
    assert(0xE0 | ((s >> 12) & 0x0F) as u8 >= 0x80) by (bit_vector);
    assert(0xF0 | ((s >> 18) & 0x07) as u8 >= 0x80) by (bit_vector);
    assert(0x80 | (s & 0x3F) as u8 >= 0x80) by (bit_vector);
    assert(0x80 | ((s >> 6) & 0x3F) as u8 >= 0x80) by (bit_vector);
    assert(0x80 | ((s >> 12) & 0x3F) as u8 >= 0x80) by (bit_vector);
    assert forall|i: int| 0 <= i < encode_scalar(s).len() implies #[trigger] encode_scalar(s)[i]
        >= 0x80 by {}
}

pub(crate) proof fn lemma_ascii_valid(raw: Seq<u8>)
    requires
        forall|i: int| 0 <= i < raw.len() ==> #[trigger] raw[i] < 0x80,
    ensures
        valid_utf8(raw),
{
    bytes::lemma_ascii_chars(raw);
    encode_utf8_valid_utf8(bytes::ascii_chars(raw));
}

pub(crate) proof fn lemma_declared_valid(pair: Pair)
    ensures
        valid_utf8(environment::declared(pair)),
{
    let inner = value::escaped(encode_utf8(pair.1));
    lemma_escaped_valid(pair.1);
    encode_utf8_valid_utf8(pair.0);
    lemma_ascii_valid(seq![EQUALS]);
    lemma_ascii_valid(seq![DOUBLE_QUOTE]);
    valid_utf8_concat(encode_utf8(pair.0), seq![EQUALS]);
    valid_utf8_concat(seq![DOUBLE_QUOTE], inner);
    valid_utf8_concat(seq![DOUBLE_QUOTE] + inner, seq![DOUBLE_QUOTE]);
    valid_utf8_concat(
        encode_utf8(pair.0) + seq![EQUALS],
        value::quoted(encode_utf8(pair.1)),
    );
}

} // verus!
