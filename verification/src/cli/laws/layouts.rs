//! What a document looks like, row for row, and where its variables stand.
use vstd::prelude::*;
use vstd::utf8::*;

use crate::bytes;
use crate::cli::dotenv;
use crate::cli::dotenv::{index_environment, Declaration, EntryView, EnvEntry, Scan};
use crate::cli::edits;
use crate::cli::error::CliResult;
use crate::cli::laws::names;
use crate::cli::readback;
use crate::cli::written;

verus! {

/// A byte as it stands in a value: by itself, or behind a backslash.
pub enum Atom {
    Plain(u8),
    Escaped(u8),
}

/// A part of a value: one byte outside quotes, or bytes between single or double quotes.
pub enum Part {
    Bare(Atom),
    Single(Seq<Atom>),
    Double(Seq<Atom>),
}

/// A row of a document: a declaration, or nothing but white space or a comment.
pub enum Row {
    Note { indent: Seq<u8>, comment: Option<Seq<u8>>, ending: Seq<u8> },
    Declares(Line),
}

/// A declaration: an indent, perhaps `export` and blanks, a name, blanks, an equals sign,
/// blanks, a value, blanks, perhaps a comment, a line ending.
pub struct Line {
    pub indent: Seq<u8>,
    pub export: Option<Seq<u8>>,
    pub name: Seq<char>,
    pub before: Seq<u8>,
    pub after: Seq<u8>,
    pub value: Seq<Part>,
    pub gap: Seq<u8>,
    pub comment: Option<Seq<u8>>,
    pub ending: Seq<u8>,
}

/// The bytes of an atom.
pub open spec fn atom_text(atom: Atom) -> Seq<u8> {
    match atom {
        Atom::Plain(b) => seq![b],
        Atom::Escaped(b) => seq![0x5Cu8, b],
    }
}

/// The bytes of atoms, one behind the other.
pub open spec fn atoms_text(atoms: Seq<Atom>) -> Seq<u8>
    decreases atoms.len(),
{
    if atoms.len() == 0 {
        Seq::empty()
    } else {
        atom_text(atoms[0]) + atoms_text(atoms.skip(1))
    }
}

/// The bytes of a part.
pub open spec fn part_text(part: Part) -> Seq<u8> {
    match part {
        Part::Bare(atom) => atom_text(atom),
        Part::Single(atoms) => seq![0x27u8] + atoms_text(atoms) + seq![0x27u8],
        Part::Double(atoms) => seq![0x22u8] + atoms_text(atoms) + seq![0x22u8],
    }
}

/// The bytes of a value.
pub open spec fn value_text(parts: Seq<Part>) -> Seq<u8>
    decreases parts.len(),
{
    if parts.len() == 0 {
        Seq::empty()
    } else {
        part_text(parts[0]) + value_text(parts.skip(1))
    }
}

/// Nothing but blanks and tabs.
pub open spec fn blanks(text: Seq<u8>) -> bool {
    forall|i: int| 0 <= i < text.len() ==> (#[trigger] text[i] == 0x20 || text[i] == 0x09)
}

/// Nothing but white space within a line: blanks, tabs, form feeds and carriage returns.
pub open spec fn white(text: Seq<u8>) -> bool {
    forall|i: int|
        0 <= i < text.len() ==> (#[trigger] text[i] == 0x20 || text[i] == 0x09 || text[i] == 0x0C
            || text[i] == 0x0D)
}

/// The last byte, where there is one, is a blank or a tab.
pub open spec fn ends_blank(text: Seq<u8>) -> bool {
    text.len() > 0 ==> text.last() == 0x20 || text.last() == 0x09
}

/// The bytes before the value of a line.
pub open spec fn head_text(line: Line) -> Seq<u8> {
    line.indent + (match line.export {
        Some(gap) => seq![0x65u8, 0x78u8, 0x70u8, 0x6Fu8, 0x72u8, 0x74u8] + gap,
        None => Seq::empty(),
    }) + encode_utf8(line.name) + line.before + seq![0x3Du8] + line.after
}

/// The bytes of a comment.
pub open spec fn comment_text(comment: Option<Seq<u8>>) -> Seq<u8> {
    match comment {
        Some(text) => seq![0x23u8] + text,
        None => Seq::empty(),
    }
}

/// The bytes of a row.
pub open spec fn row_text(row: Row) -> Seq<u8> {
    match row {
        Row::Note { indent, comment, ending } => indent + comment_text(comment) + ending,
        Row::Declares(line) => head_text(line) + value_text(line.value) + line.gap + comment_text(
            line.comment,
        ) + line.ending,
    }
}

/// The bytes of a document.
pub open spec fn text_of(rows: Seq<Row>) -> Seq<u8>
    decreases rows.len(),
{
    if rows.len() == 0 {
        Seq::empty()
    } else {
        row_text(rows[0]) + text_of(rows.skip(1))
    }
}

/// No atom ends the quotes that it stands in.
pub open spec fn kept_in(atoms: Seq<Atom>, quote: u8) -> bool {
    forall|i: int|
        0 <= i < atoms.len() ==> (#[trigger] atoms[i] matches Atom::Plain(b) ==> b != quote && b
            != 0x5C)
}

/// A part that neither begins nor ends anything but itself.
pub open spec fn sound_part(part: Part) -> bool {
    match part {
        Part::Bare(Atom::Plain(b)) => b != 0x20 && b != 0x09 && b != 0x0A && b != 0x0C && b != 0x0D
            && b != 0x22 && b != 0x27 && b != 0x5C,
        Part::Bare(Atom::Escaped(b)) => b != 0x0A && b != 0x0D,
        Part::Single(atoms) => kept_in(atoms, 0x27),
        Part::Double(atoms) => kept_in(atoms, 0x22),
    }
}

/// The end of a line: a line feed, one behind a carriage return, or the end of the document.
pub open spec fn line_end(ending: Seq<u8>, last: bool) -> bool {
    ||| ending == seq![0x0Au8]
    ||| ending == seq![0x0Du8, 0x0Au8]
    ||| last && ending.len() == 0
}

/// A text without a line feed that does not end with a carriage return.
pub open spec fn one_line(text: Seq<u8>) -> bool {
    &&& forall|i: int| 0 <= i < text.len() ==> #[trigger] text[i] != 0x0A
    &&& text.len() > 0 ==> text.last() != 0x0D
}

/// A line as it can be written.
pub open spec fn sound_line(line: Line, last: bool) -> bool {
    &&& white(line.indent) && white(line.before) && white(line.after) && blanks(line.gap)
    &&& line.export matches Some(gap) ==> gap.len() > 0 && white(gap)
    &&& names::spelled(line.name)
    &&& forall|i: int| 0 <= i < line.value.len() ==> sound_part(#[trigger] line.value[i])
    &&& line.value.len() > 0 ==> value_text(line.value)[0] != 0x23
    &&& line.value.len() == 0 ==> line.gap.len() == 0 && ends_blank(line.after)
    &&& line.comment matches Some(text) ==> one_line(text) && (line.gap.len() > 0 || (
    line.value.len() == 0 && line.after.len() > 0))
    &&& line_end(line.ending, last)
}

/// A row as it can be written.
pub open spec fn sound_row(row: Row, last: bool) -> bool {
    match row {
        Row::Note { indent, comment, ending } => {
            &&& white(indent)
            &&& comment is None ==> ends_blank(indent)
            &&& comment matches Some(text) ==> one_line(text) && (indent.len() > 0 ==> indent.last()
                != 0x0C)
            &&& line_end(ending, last)
            &&& ending.len() == 0 ==> indent.len() > 0 || comment is Some
        },
        Row::Declares(line) => sound_line(line, last),
    }
}

/// Rows as they can be written: each is ended, but perhaps the last.
pub open spec fn sound(rows: Seq<Row>) -> bool {
    forall|i: int|
        0 <= i < rows.len() ==> sound_row(#[trigger] rows[i], i + 1 == rows.len())
}

/// The place of a line that begins at `at`.
pub open spec fn place(line: Line, at: int) -> EntryView {
    EntryView {
        name: line.name,
        start: at,
        end: at + row_text(Row::Declares(line)).len(),
        value_start: at + head_text(line).len(),
        value_end: at + head_text(line).len() + value_text(line.value).len(),
    }
}

/// The places of the declarations among rows that begin at `at`.
pub open spec fn places(rows: Seq<Row>, at: int) -> Seq<EntryView>
    decreases rows.len(),
{
    if rows.len() == 0 {
        Seq::empty()
    } else {
        let rest = places(rows.skip(1), at + row_text(rows[0]).len());
        match rows[0] {
            Row::Note { .. } => rest,
            Row::Declares(line) => seq![place(line, at)] + rest,
        }
    }
}

spec fn within(quote: u8) -> Scan {
    Scan { quote: Some(quote), escaped: false, comment: false, whitespace: false }
}

/// A text stands at a place.
spec fn stands(s: Seq<u8>, at: int, text: Seq<u8>) -> bool {
    0 <= at && at + text.len() <= s.len() && s.subrange(at, at + text.len()) == text
}

proof fn lemma_stands(s: Seq<u8>, at: int, a: Seq<u8>, b: Seq<u8>)
    requires
        stands(s, at, a + b),
    ensures
        stands(s, at, a),
        stands(s, at + a.len(), b),
        forall|k: int| 0 <= k < a.len() ==> s[at + k] == #[trigger] a[k],
        forall|k: int| 0 <= k < b.len() ==> s[at + a.len() + k] == #[trigger] b[k],
{
    let all = s.subrange(at, at + (a + b).len());
    assert forall|k: int| 0 <= k < a.len() implies s[at + k] == #[trigger] a[k] by {
        assert(all[k] == (a + b)[k]);
    }
    assert forall|k: int| 0 <= k < b.len() implies s[at + a.len() + k] == #[trigger] b[k] by {
        assert(all[a.len() + k] == (a + b)[a.len() + k]);
    }
    assert(s.subrange(at, at + a.len()) =~= a);
    assert(s.subrange(at + a.len(), at + a.len() + b.len()) =~= b);
}

proof fn lemma_bytes(s: Seq<u8>, at: int, a: Seq<u8>)
    requires
        stands(s, at, a),
    ensures
        forall|k: int| 0 <= k < a.len() ==> s[at + k] == #[trigger] a[k],
{
    assert forall|k: int| 0 <= k < a.len() implies s[at + k] == #[trigger] a[k] by {
        assert(s.subrange(at, at + a.len())[k] == a[k]);
    }
}

/// Atoms leave a scan within its quotes.
proof fn lemma_atoms(s: Seq<u8>, x: int, stop: int, atoms: Seq<Atom>, quote: u8)
    requires
        stands(s, x, atoms_text(atoms)),
        x + atoms_text(atoms).len() <= stop <= s.len(),
        kept_in(atoms, quote),
        quote == 0x22 || quote == 0x27,
    ensures
        dotenv::declaration_end(s, x, within(quote)) == dotenv::declaration_end(
            s,
            x + atoms_text(atoms).len(),
            within(quote),
        ),
        dotenv::value_scan_end(s, x, stop, Some(quote), false) == dotenv::value_scan_end(
            s,
            x + atoms_text(atoms).len(),
            stop,
            Some(quote),
            false,
        ),
    decreases atoms.len(),
{
    if atoms.len() > 0 {
        let (a, rest) = (atom_text(atoms[0]), atoms.skip(1));
        lemma_stands(s, x, a, atoms_text(rest));
        assert(s[x + 0] == a[0]);
        assert forall|i: int| 0 <= i < rest.len() implies (#[trigger] rest[i] matches Atom::Plain(
            b,
        ) ==> b != quote && b != 0x5C) by {
            assert(rest[i] == atoms[i + 1]);
        }
        lemma_atoms(s, x + a.len(), stop, rest, quote);
        match atoms[0] {
            Atom::Plain(b) => {
                assert(atoms[0] matches Atom::Plain(b) && b != quote && b != 0x5C);
                assert(dotenv::scan_step(within(quote), b) == within(quote));
            },
            Atom::Escaped(b) => {
                let between = Scan { escaped: true, ..within(quote) };
                assert(s[x + 1] == a[1]);
                assert(dotenv::scan_step(within(quote), 0x5C) == between);
                assert(dotenv::scan_step(between, b) == within(quote));
                assert(dotenv::declaration_end(s, x, within(quote)) == dotenv::declaration_end(
                    s,
                    x + 1,
                    between,
                ));
                assert(dotenv::declaration_end(s, x + 1, between) == dotenv::declaration_end(
                    s,
                    x + 2,
                    within(quote),
                ));
                assert(dotenv::value_scan_end(s, x, stop, Some(quote), false)
                    == dotenv::value_scan_end(s, x + 1, stop, Some(quote), true));
                assert(dotenv::value_scan_end(s, x + 1, stop, Some(quote), true)
                    == dotenv::value_scan_end(s, x + 2, stop, Some(quote), false));
            },
        }
    }
}

/// A quoted part takes a scan into its quotes and out of them.
proof fn lemma_quoted(s: Seq<u8>, x: int, stop: int, atoms: Seq<Atom>, quote: u8, w: bool)
    requires
        stands(s, x, seq![quote] + atoms_text(atoms) + seq![quote]),
        x + atoms_text(atoms).len() + 2 <= stop <= s.len(),
        kept_in(atoms, quote),
        quote == 0x22 || quote == 0x27,
    ensures
        dotenv::declaration_end(s, x, written::outside(w)) == dotenv::declaration_end(
            s,
            x + atoms_text(atoms).len() + 2,
            written::outside(false),
        ),
        dotenv::value_scan_end(s, x, stop, None, false) == dotenv::value_scan_end(
            s,
            x + atoms_text(atoms).len() + 2,
            stop,
            None,
            false,
        ),
{
    let inner = atoms_text(atoms);
    let y = x + 1 + inner.len();
    lemma_stands(s, x, seq![quote] + inner, seq![quote]);
    lemma_stands(s, x, seq![quote], inner);
    assert(s[x + 0] == seq![quote][0]);
    assert(s[y + 0] == seq![quote][0]);
    lemma_atoms(s, x + 1, stop, atoms, quote);
    assert(dotenv::scan_step(written::outside(w), quote) == within(quote));
    assert(dotenv::scan_step(within(quote), quote) == written::outside(false));
    assert(dotenv::declaration_end(s, x, written::outside(w)) == dotenv::declaration_end(
        s,
        x + 1,
        within(quote),
    ));
    assert(dotenv::declaration_end(s, y, within(quote)) == dotenv::declaration_end(
        s,
        y + 1,
        written::outside(false),
    ));
    assert(dotenv::value_scan_end(s, x, stop, None, false) == dotenv::value_scan_end(
        s,
        x + 1,
        stop,
        Some(quote),
        false,
    ));
    assert(dotenv::value_scan_end(s, y, stop, Some(quote), false) == dotenv::value_scan_end(
        s,
        y + 1,
        stop,
        None,
        false,
    ));
}

/// One part takes a scan from outside quotes to outside quotes.
proof fn lemma_part(s: Seq<u8>, x: int, stop: int, part: Part, w: bool)
    requires
        stands(s, x, part_text(part)),
        x + part_text(part).len() <= stop <= s.len(),
        sound_part(part),
        w ==> part_text(part)[0] != 0x23,
    ensures
        part_text(part).len() > 0,
        dotenv::declaration_end(s, x, written::outside(w)) == dotenv::declaration_end(
            s,
            x + part_text(part).len(),
            written::outside(false),
        ),
        dotenv::value_scan_end(s, x, stop, None, false) == dotenv::value_scan_end(
            s,
            x + part_text(part).len(),
            stop,
            None,
            false,
        ),
{
    let text = part_text(part);
    lemma_bytes(s, x, text);
    match part {
        Part::Bare(Atom::Plain(b)) => {
            assert(s[x + 0] == text[0]);
            assert(dotenv::scan_step(written::outside(w), b) == written::outside(false));
        },
        Part::Bare(Atom::Escaped(b)) => {
            let between = Scan { escaped: true, ..written::outside(false) };
            assert(s[x + 0] == text[0]);
            assert(s[x + 1] == text[1]);
            assert(dotenv::scan_step(written::outside(w), 0x5C) == between);
            assert(dotenv::scan_step(between, b) == written::outside(false));
            assert(dotenv::declaration_end(s, x, written::outside(w)) == dotenv::declaration_end(
                s,
                x + 1,
                between,
            ));
            assert(dotenv::declaration_end(s, x + 1, between) == dotenv::declaration_end(
                s,
                x + 2,
                written::outside(false),
            ));
            assert(dotenv::value_scan_end(s, x, stop, None, false) == dotenv::value_scan_end(
                s,
                x + 1,
                stop,
                None,
                true,
            ));
            assert(dotenv::value_scan_end(s, x + 1, stop, None, true) == dotenv::value_scan_end(
                s,
                x + 2,
                stop,
                None,
                false,
            ));
        },
        Part::Single(atoms) => {
            lemma_quoted(s, x, stop, atoms, 0x27, w);
        },
        Part::Double(atoms) => {
            lemma_quoted(s, x, stop, atoms, 0x22, w);
        },
    }
}

/// A value takes a scan from outside quotes to outside quotes.
proof fn lemma_value(s: Seq<u8>, x: int, stop: int, parts: Seq<Part>, w: bool)
    requires
        stands(s, x, value_text(parts)),
        x + value_text(parts).len() <= stop <= s.len(),
        forall|i: int| 0 <= i < parts.len() ==> sound_part(#[trigger] parts[i]),
        parts.len() > 0,
        w ==> value_text(parts)[0] != 0x23,
    ensures
        value_text(parts).len() > 0,
        dotenv::declaration_end(s, x, written::outside(w)) == dotenv::declaration_end(
            s,
            x + value_text(parts).len(),
            written::outside(false),
        ),
        dotenv::value_scan_end(s, x, stop, None, false) == dotenv::value_scan_end(
            s,
            x + value_text(parts).len(),
            stop,
            None,
            false,
        ),
    decreases parts.len(),
{
    let (a, rest) = (part_text(parts[0]), parts.skip(1));
    lemma_stands(s, x, a, value_text(rest));
    assert(sound_part(parts[0]));
    lemma_part_length(parts[0]);
    assert(value_text(parts)[0] == a[0]);
    lemma_part(s, x, stop, parts[0], w);
    if rest.len() > 0 {
        assert forall|i: int| 0 <= i < rest.len() implies sound_part(#[trigger] rest[i]) by {
            assert(rest[i] == parts[i + 1]);
        }
        lemma_value(s, x + a.len(), stop, rest, false);
    }
}

proof fn lemma_part_length(part: Part)
    ensures
        part_text(part).len() > 0,
{
}

/// What a value does not begin and end with.
proof fn lemma_value_ends(parts: Seq<Part>)
    requires
        forall|i: int| 0 <= i < parts.len() ==> sound_part(#[trigger] parts[i]),
        parts.len() > 0,
    ensures
        value_text(parts).len() > 0,
        !dotenv::blank(value_text(parts)[0]),
        value_text(parts).last() != 0x0A,
        value_text(parts).last() != 0x0D,
    decreases parts.len(),
{
    let (a, rest) = (part_text(parts[0]), parts.skip(1));
    assert(sound_part(parts[0]));
    lemma_part_length(parts[0]);
    assert(value_text(parts)[0] == a[0]);
    if rest.len() > 0 {
        assert forall|i: int| 0 <= i < rest.len() implies sound_part(#[trigger] rest[i]) by {
            assert(rest[i] == parts[i + 1]);
        }
        lemma_value_ends(rest);
        assert(value_text(parts).last() == value_text(rest).last());
    } else {
        assert(value_text(parts).last() == a.last());
    }
}

/// The six bytes of `export`.
spec fn export_word() -> Seq<u8> {
    seq![0x65u8, 0x78u8, 0x70u8, 0x6Fu8, 0x72u8, 0x74u8]
}

proof fn lemma_export_word()
    ensures
        bytes::text("export") == export_word(),
{
    reveal_strlit("export");
    let word = "export"@;
    assert(is_ascii_chars(word));
    is_ascii_chars_encode_utf8(word);
    assert(bytes::text("export") =~= export_word());
}

/// A name that stands behind blanks is read whole.
proof fn lemma_name_read(s: Seq<u8>, from: int, at: int, name: Seq<u8>, stop: int)
    requires
        0 <= from <= at,
        dotenv::valid_name(name),
        stands(s, at, name),
        at + name.len() < stop <= s.len(),
        forall|k: int| from <= k < at ==> dotenv::blank(#[trigger] s[k]),
        !dotenv::name_byte(s[at + name.len()]),
    ensures
        dotenv::skip_blank(s, from, stop) == at,
        dotenv::read_name(s, at, stop) == Some((name, at + name.len())),
        !dotenv::byte_at(s, at, 0x3D),
        s[at] != 0x23,
{
    lemma_bytes(s, at, name);
    assert(s[at + 0] == name[0]);
    edits::lemma_blank_run(s, from, at, stop);
    assert forall|k: int| at + 1 <= k < at + name.len() implies dotenv::name_byte(
        #[trigger] s[k],
    ) by {
        assert(s[at + (k - at)] == name[k - at]);
    }
    edits::lemma_name_run(s, at + 1, at + name.len(), stop);
    assert(s.subrange(at, at + name.len()) == name);
}

/// What stands before a value is read as a name and an equals sign.
proof fn lemma_head(s: Seq<u8>, p: int, end: int, line: Line)
    requires
        stands(s, p, head_text(line)),
        names::spelled(line.name),
        white(line.indent) && white(line.before) && white(line.after),
        line.export matches Some(gap) ==> gap.len() > 0 && white(gap),
        p + head_text(line).len() <= dotenv::content_end(s, p, end) <= s.len(),
        ({
            let vs = p + head_text(line).len();
            vs == dotenv::content_end(s, p, end) || !dotenv::blank(s[vs])
        }),
    ensures
        ({
            let vs = p + head_text(line).len();
            &&& dotenv::read_declaration(s, p, end) == Declaration::Entry(
                EntryView {
                    name: line.name,
                    start: p,
                    end,
                    value_start: vs,
                    value_end: dotenv::value_end(s, vs, dotenv::content_end(s, p, end)),
                },
            )
            &&& vs > p
            &&& forall|k: int| p <= k < vs ==> edits::heading(#[trigger] s[k]) && s[k] != 0x0A
            &&& line.after.len() > 0 && ends_blank(line.after) ==> edits::went_past_blank(s[vs - 1])
        }),
{
    let stop = dotenv::content_end(s, p, end);
    let raw = encode_utf8(line.name);
    let word: Seq<u8> = match line.export {
        Some(gap) => export_word() + gap,
        None => Seq::empty(),
    };
    let eq = seq![0x3Du8];
    let b = p + line.indent.len() + word.len();
    let n = b + raw.len();
    let q = n + line.before.len();
    let vs = q + 1 + line.after.len();
    names::lemma_spelled(line.name);
    written::lemma_name_chars(line.name);
    lemma_stands(s, p, line.indent + word + raw + line.before + eq, line.after);
    lemma_stands(s, p, line.indent + word + raw + line.before, eq);
    lemma_stands(s, p, line.indent + word + raw, line.before);
    lemma_stands(s, p, line.indent + word, raw);
    lemma_stands(s, p, line.indent, word);
    assert(s[q + 0] == eq[0]);
    assert forall|k: int| q < k < vs implies dotenv::blank(#[trigger] s[k]) && s[k] != 0x0A by {
        assert(s[q + 1 + (k - q - 1)] == line.after[k - q - 1]);
    }
    assert forall|k: int| n <= k < q implies dotenv::blank(#[trigger] s[k]) && s[k] != 0x0A by {
        assert(s[n + (k - n)] == line.before[k - n]);
    }
    assert forall|k: int| p <= k < p + line.indent.len() implies dotenv::blank(#[trigger] s[k])
        && s[k] != 0x0A by {
        assert(s[p + (k - p)] == line.indent[k - p]);
    }
    assert forall|k: int| b <= k < n implies dotenv::name_byte(#[trigger] s[k]) by {
        assert(s[b + (k - b)] == raw[k - b]);
        if k > b {
            assert(dotenv::name_byte(raw[k - b]));
        }
    }
    edits::lemma_blank_run(s, n, q, stop);
    edits::lemma_blank_run(s, q + 1, vs, stop);
    if line.after.len() > 0 {
        assert(s[q + 1 + (line.after.len() - 1)] == line.after[line.after.len() - 1]);
    }
    lemma_export_word();
    match line.export {
        None => {
            lemma_name_read(s, p, b, raw, stop);
        },
        Some(gap) => {
            let a = p + line.indent.len() as int;
            lemma_stands(s, a, export_word(), gap);
            assert forall|k: int| a + 6 <= k < b implies dotenv::blank(#[trigger] s[k]) && s[k]
                != 0x0A by {
                assert(s[a + 6 + (k - a - 6)] == gap[k - a - 6]);
            }
            assert forall|k: int| a <= k < a + 6 implies dotenv::name_byte(#[trigger] s[k]) by {
                assert(s[a + (k - a)] == export_word()[k - a]);
            }
            assert(dotenv::blank(s[a + 6]));
            assert(dotenv::valid_name(export_word()));
            lemma_name_read(s, p, a, export_word(), stop);
            lemma_name_read(s, a + 6, b, raw, stop);
        },
    }
    assert(dotenv::byte_at(s, q, 0x3D));
    assert forall|k: int| p <= k < vs implies edits::heading(#[trigger] s[k]) && s[k] != 0x0A by {
        if k < p + line.indent.len() {
        } else if k < b {
        } else if k < n {
            assert(dotenv::name_byte(s[k]));
        } else if k < q {
        } else if k > q {
        }
    }
}

/// Where the content of a row stops, and what follows.
proof fn lemma_stop(s: Seq<u8>, p: int, c: int, ending: Seq<u8>)
    requires
        0 <= p <= c,
        stands(s, c, ending),
        line_end(ending, true),
        p < c + ending.len(),
        ending.len() == 0 ==> c == s.len(),
        c > p ==> s[c - 1] != 0x0A && s[c - 1] != 0x0D,
    ensures
        dotenv::content_end(s, p, c + ending.len()) == c,
        c + ending.len() == s.len() || s[c + ending.len() - 1] == 0x0A,
        c < s.len() ==> s[c] == 0x0A || s[c] == 0x0D,
{
    lemma_bytes(s, c, ending);
    if ending == seq![0x0Au8] {
        assert(s[c + 0] == ending[0]);
    } else if ending == seq![0x0Du8, 0x0Au8] {
        assert(s[c + 0] == ending[0]);
        assert(s[c + 1] == ending[1]);
    }
}

/// A line that stands in a document is found as it is.
#[verifier::rlimit(30)]
proof fn lemma_line(s: Seq<u8>, p: int, line: Line)
    requires
        stands(s, p, row_text(Row::Declares(line))),
        sound_line(line, true),
        line.ending.len() == 0 ==> p + row_text(Row::Declares(line)).len() == s.len(),
    ensures
        dotenv::declaration_end(s, p, dotenv::scan_start()) == place(line, p).end,
        dotenv::read_declaration(s, p, place(line, p).end) == Declaration::Entry(place(line, p)),
        place(line, p).end > p,
{
    let (head, text) = (head_text(line), value_text(line.value));
    let comment = comment_text(line.comment);
    let vs = p + head.len();
    let ve = vs + text.len();
    let g = ve + line.gap.len();
    let c = g + comment.len();
    let end = c + line.ending.len();
    lemma_stands(s, p, head + text + line.gap + comment, line.ending);
    lemma_stands(s, p, head + text + line.gap, comment);
    lemma_stands(s, p, head + text, line.gap);
    lemma_stands(s, p, head, text);
    assert(head.len() > 0);
    lemma_head_last(s, p, line);
    if line.value.len() > 0 {
        lemma_value_ends(line.value);
        assert(s[vs + 0] == text[0]);
        assert(s[vs + (text.len() - 1)] == text[text.len() - 1]);
    }
    assert forall|k: int| ve <= k < g implies (#[trigger] s[k] == 0x20 || s[k] == 0x09) by {
        assert(s[ve + (k - ve)] == line.gap[k - ve]);
    }
    assert forall|k: int| g <= k < c implies #[trigger] s[k] != 0x0A by {
        assert(s[g + (k - g)] == comment[k - g]);
        if k > g {
            assert(comment[k - g] == line.comment->Some_0[k - g - 1]);
        }
    }
    if c > g {
        assert(s[g + 0] == comment[0]);
        assert(s[g + (c - 1 - g)] == comment[c - 1 - g]);
        if c - 1 > g {
            assert(comment[c - 1 - g] == line.comment->Some_0.last());
        }
    }
    lemma_stop(s, p, c, line.ending);
    assert(line.value.len() == 0 ==> text.len() == 0);
    lemma_head(s, p, end, line);
    edits::lemma_scan_heading(s, p, vs, true);
    let w = edits::went_past_blank(s[vs - 1]);
    assert(dotenv::scan_start() == written::outside(true));
    if line.value.len() > 0 {
        lemma_value(s, vs, c, line.value, w);
        readback::lemma_rest(s, p, ve, end, g, false);
    } else {
        readback::lemma_rest(s, p, ve, end, g, w);
    }
}

/// The last byte before a value ends no line.
proof fn lemma_head_last(s: Seq<u8>, p: int, line: Line)
    requires
        stands(s, p, head_text(line)),
        white(line.after),
    ensures
        head_text(line).len() > 0,
        s[p + head_text(line).len() - 1] != 0x0A,
        ends_blank(line.after) ==> s[p + head_text(line).len() - 1] != 0x0D,
{
    let head = head_text(line);
    lemma_bytes(s, p, head);
    assert(s[p + (head.len() - 1)] == head[head.len() - 1]);
    if line.after.len() > 0 {
        assert(head.last() == line.after[line.after.len() - 1]);
    }
}

/// A row without a declaration is passed by.
proof fn lemma_note(s: Seq<u8>, p: int, indent: Seq<u8>, comment: Option<Seq<u8>>, ending: Seq<u8>)
    requires
        ({
            let row = Row::Note { indent, comment, ending };
            &&& stands(s, p, row_text(row))
            &&& sound_row(row, true)
            &&& ending.len() == 0 ==> p + row_text(row).len() == s.len()
        }),
    ensures
        ({
            let end = p + row_text(Row::Note { indent, comment, ending }).len();
            &&& dotenv::declaration_end(s, p, dotenv::scan_start()) == end
            &&& dotenv::read_declaration(s, p, end) == Declaration::Nothing
            &&& end > p
        }),
{
    let mark = comment_text(comment);
    let g = p + indent.len();
    let c = g + mark.len();
    let end = c + ending.len();
    lemma_stands(s, p, indent + mark, ending);
    lemma_stands(s, p, indent, mark);
    assert forall|k: int| p <= k < g implies dotenv::blank(#[trigger] s[k]) && edits::heading(s[k])
        && s[k] != 0x0A by {
        assert(s[p + (k - p)] == indent[k - p]);
    }
    if g > p {
        assert(s[p + (g - 1 - p)] == indent[g - 1 - p]);
        assert(edits::went_past_blank(s[g - 1]));
    }
    assert forall|k: int| g <= k < c implies #[trigger] s[k] != 0x0A by {
        assert(s[g + (k - g)] == mark[k - g]);
        if k > g {
            assert(mark[k - g] == comment->Some_0[k - g - 1]);
        }
    }
    if c > g {
        assert(s[g + 0] == mark[0]);
        assert(s[g + (c - 1 - g)] == mark[c - 1 - g]);
        if c - 1 > g {
            assert(mark[c - 1 - g] == comment->Some_0.last());
        }
    }
    lemma_stop(s, p, c, ending);
    assert(dotenv::scan_start() == written::outside(true));
    edits::lemma_scan_heading(s, p, g, true);
    readback::lemma_rest(s, p, g, end, g, true);
    edits::lemma_blank_run(s, p, g, c);
}

/// Every row has a line ending.
pub open spec fn all_ended(rows: Seq<Row>) -> bool {
    forall|i: int| 0 <= i < rows.len() ==> sound_row(#[trigger] rows[i], false)
}

/// Rows are found as they are, whatever stands behind them.
proof fn lemma_rows_before(s: Seq<u8>, at: nat, rows: Seq<Row>, behind: Seq<u8>)
    requires
        sound(rows),
        behind.len() == 0 || all_ended(rows),
        at + text_of(rows).len() + behind.len() == s.len(),
        s.subrange(at as int, s.len() as int) == text_of(rows) + behind,
    ensures
        dotenv::index_from(s, at) == match dotenv::index_from(s, at + text_of(rows).len()) {
            Some(rest) => Some(places(rows, at as int) + rest),
            None => None,
        },
    decreases rows.len(),
{
    if rows.len() == 0 {
        if let Some(rest) = dotenv::index_from(s, at) {
            assert(places(rows, at as int) + rest =~= rest);
        }
    } else {
        let row = rows[0];
        let rest = rows.skip(1);
        let end = at + row_text(row).len();
        assert(sound_row(rows[0], 0 + 1 == rows.len()));
        assert(sound_row(row, true));
        assert(text_of(rows) + behind =~= row_text(row) + (text_of(rest) + behind));
        lemma_stands(s, at as int, row_text(row), text_of(rest) + behind);
        assert forall|i: int| 0 <= i < rest.len() implies sound_row(
            #[trigger] rest[i],
            i + 1 == rest.len(),
        ) by {
            assert(rest[i] == rows[i + 1]);
        }
        assert forall|i: int| behind.len() > 0 && 0 <= i < rest.len() implies sound_row(
            #[trigger] rest[i],
            false,
        ) by {
            assert(rest[i] == rows[i + 1]);
        }
        if behind.len() > 0 {
            assert(sound_row(rows[0], false));
        }
        if rest.len() == 0 {
            assert(text_of(rest).len() == 0);
        }
        match row {
            Row::Note { indent, comment, ending } => {
                lemma_note(s, at as int, indent, comment, ending);
            },
            Row::Declares(line) => {
                lemma_line(s, at as int, line);
            },
        }
        lemma_rows_before(s, end as nat, rest, behind);
        let last = dotenv::index_from(s, at + text_of(rows).len());
        if let Some(tail) = last {
            match row {
                Row::Declares(line) => {
                    let first = seq![place(line, at as int)];
                    assert(first + (places(rest, end as int) + tail) =~= first + places(
                        rest,
                        end as int,
                    ) + tail);
                },
                _ => {},
            }
        }
    }
}

/// The rows of a document are found as they are.
pub(crate) proof fn lemma_rows(s: Seq<u8>, rows: Seq<Row>)
    requires
        sound(rows),
        s == text_of(rows),
    ensures
        dotenv::index_from(s, 0) == Some(places(rows, 0)),
{
    let none = Seq::<u8>::empty();
    assert(s.subrange(0, s.len() as int) =~= text_of(rows) + none);
    lemma_rows_before(s, 0, rows, none);
    assert(places(rows, 0) + Seq::<EntryView>::empty() =~= places(rows, 0));
}

/// A document is found as it is written: one entry for each declaration, in their order,
/// with its name, the bytes of its row and the bytes of its value, and none for anything
/// else. An indent, `export`, white space around the equals sign, quotes of either kind over
/// several lines, backslashes, comments, blank rows and line endings of either style may
/// stand in it.
pub proof fn law_documents_indexed(
    rows: Seq<Row>,
    source: &[u8],
    result: CliResult<Vec<EnvEntry>>,
)
    requires
        call_ensures(index_environment, (source,), result),
        sound(rows),
        source@ == text_of(rows),
        valid_utf8(source@),
    ensures
        result matches Ok(entries) && dotenv::entry_views(entries@) == places(rows, 0),
{
    lemma_rows(source@, rows);
}

/// A document is refused where a row begins with anything but white space, a comment, a
/// letter or an underscore, and where it is not UTF-8.
pub proof fn law_documents_refused(
    rows: Seq<Row>,
    first: u8,
    behind: Seq<u8>,
    source: &[u8],
    result: CliResult<Vec<EnvEntry>>,
)
    requires
        call_ensures(index_environment, (source,), result),
        !valid_utf8(source@) || (sound(rows) && all_ended(rows) && source@ == text_of(rows) + seq![
            first,
        ] + behind && !(0x41 <= first <= 0x5A || 0x61 <= first <= 0x7A || first == 0x5F || first
            == 0x09 || first == 0x0A || first == 0x0C || first == 0x0D || first == 0x20 || first
            == 0x23)),
    ensures
        result matches Err(e) && e is InvalidEnvironment,
{
    if valid_utf8(source@) {
        let s = source@;
        let tail = seq![first] + behind;
        let at = text_of(rows).len() as int;
        assert(s.subrange(0, s.len() as int) =~= text_of(rows) + tail);
        lemma_rows_before(s, 0, rows, tail);
        assert(s[at] == first);
        let end = dotenv::declaration_end(s, at, dotenv::scan_start());
        dotenv::lemma_declaration_end(s, at, dotenv::scan_start());
        assert(dotenv::content_end(s, at, end) > at);
        assert(dotenv::skip_blank(s, at, dotenv::content_end(s, at, end)) == at);
        assert(dotenv::read_declaration(s, at, end) == Declaration::Invalid);
        assert(dotenv::index_from(s, at as nat) is None);
    }
}

/// A document is refused where something else than an equals sign stands behind the name of
/// a declaration.
pub proof fn law_declarations_refused(
    rows: Seq<Row>,
    name: Seq<char>,
    gap: Seq<u8>,
    other: u8,
    behind: Seq<u8>,
    source: &[u8],
    result: CliResult<Vec<EnvEntry>>,
)
    requires
        call_ensures(index_environment, (source,), result),
        sound(rows),
        all_ended(rows),
        names::spelled(name),
        name != "export"@,
        blanks(gap),
        source@ == text_of(rows) + encode_utf8(name) + gap + seq![other] + behind,
        !(0x30 <= other <= 0x39 || 0x41 <= other <= 0x5A || 0x61 <= other <= 0x7A || other == 0x5F
            || other == 0x2E) || gap.len() > 0,
        other != 0x3D && other != 0x20 && other != 0x09 && other != 0x0A && other != 0x0C && other
            != 0x0D,
    ensures
        result matches Err(e) && e is InvalidEnvironment,
{
    let s = source@;
    let raw = encode_utf8(name);
    let tail = raw + gap + seq![other] + behind;
    let at = text_of(rows).len() as int;
    let (n, q) = (at + raw.len(), at + raw.len() + gap.len());
    names::lemma_spelled(name);
    assert(s =~= text_of(rows) + tail);
    assert(s.subrange(0, s.len() as int) =~= text_of(rows) + tail);
    lemma_rows_before(s, 0, rows, tail);
    assert(s[q] == other);
    assert(s.subrange(at, n) =~= raw);
    assert forall|k: int| n <= k < q implies (#[trigger] s[k] == 0x20 || s[k] == 0x09) by {
        assert(s[k] == gap[k - n]);
    }
    assert forall|k: int| at <= k < n implies dotenv::name_byte(#[trigger] s[k]) by {
        assert(s[k] == raw[k - at]);
        if k > at {
            assert(dotenv::name_byte(raw[k - at]));
        }
    }
    let end = dotenv::declaration_end(s, at, dotenv::scan_start());
    lemma_end_behind(s, at, q, true);
    dotenv::lemma_declaration_end(s, at, dotenv::scan_start());
    let stop = dotenv::content_end(s, at, end);
    assert(stop > q);
    lemma_name_read(s, at, at, raw, stop);
    edits::lemma_blank_run(s, n, q, stop);
    assert(raw != bytes::text("export")) by {
        if raw == bytes::text("export") {
            bytes::lemma_text_injective(name, "export"@);
        }
    }
    assert(dotenv::read_declaration(s, at, end) == Declaration::Invalid);
    assert(dotenv::index_from(s, at as nat) is None);
}

/// A declaration goes on behind its name.
proof fn lemma_end_behind(s: Seq<u8>, from: int, to: int, w: bool)
    requires
        0 <= from <= to < s.len(),
        forall|k: int|
            from <= k < to ==> dotenv::name_byte(#[trigger] s[k]) || s[k] == 0x20 || s[k] == 0x09,
        s[to] != 0x0A && s[to] != 0x0D,
    ensures
        dotenv::declaration_end(s, from, written::outside(w)) > to,
        dotenv::content_end(s, from, dotenv::declaration_end(s, from, written::outside(w))) > to,
    decreases to - from,
{
    let end = dotenv::declaration_end(s, from, written::outside(w));
    dotenv::lemma_declaration_end(s, from, written::outside(w));
    if from < to {
        assert(dotenv::name_byte(s[from]) || s[from] == 0x20 || s[from] == 0x09);
        assert(dotenv::scan_step(written::outside(w), s[from]) == written::outside(
            edits::went_past_blank(s[from]),
        ));
        lemma_end_behind(s, from + 1, to, edits::went_past_blank(s[from]));
    } else if s.len() > to + 1 {
        dotenv::lemma_declaration_end(s, to + 1, dotenv::scan_step(written::outside(w), s[to]));
    }
}

} // verus!
