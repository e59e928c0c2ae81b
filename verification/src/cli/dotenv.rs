//! Where the declarations, names and values of a dotenv document stand.
//!
//! The values themselves are read elsewhere; the index is what lets one value be
//! replaced, or one declaration removed, with every other byte left alone.
use vstd::prelude::*;
use vstd::utf8::*;

use crate::bytes;
use crate::cli::error::{CliError, CliResult};

verus! {

pub const TAB: u8 = 0x09;

pub const LINE_FEED: u8 = 0x0A;

pub const CARRIAGE_RETURN: u8 = 0x0D;

pub const SPACE: u8 = 0x20;

pub const DOUBLE_QUOTE: u8 = 0x22;

pub const HASH: u8 = 0x23;

pub const SINGLE_QUOTE: u8 = 0x27;

pub const EQUALS: u8 = 0x3D;

pub const BACKSLASH: u8 = 0x5C;

/// One variable of a document: its name, the bytes of its whole declaration with
/// the line ending, and the bytes of its value.
pub struct EnvEntry {
    pub name: String,
    pub start: usize,
    pub end: usize,
    pub value_start: usize,
    pub value_end: usize,
}

/// An entry as contracts see it.
#[verifier::ext_equal]
pub struct EntryView {
    pub name: Seq<char>,
    pub start: int,
    pub end: int,
    pub value_start: int,
    pub value_end: int,
}

impl View for EnvEntry {
    type V = EntryView;

    open spec fn view(&self) -> EntryView {
        EntryView {
            name: self.name@,
            start: self.start as int,
            end: self.end as int,
            value_start: self.value_start as int,
            value_end: self.value_end as int,
        }
    }
}

/// The entries of a list.
pub open spec fn entry_views(entries: Seq<EnvEntry>) -> Seq<EntryView> {
    Seq::new(entries.len(), |i: int| entries[i]@)
}

/// ASCII white space.
pub open spec fn blank(b: u8) -> bool {
    b == SPACE || b == TAB || b == LINE_FEED || b == 0x0C || b == CARRIAGE_RETURN
}

/// A byte that may begin a name.
pub open spec fn name_initial(b: u8) -> bool {
    0x41 <= b <= 0x5A || 0x61 <= b <= 0x7A || b == 0x5F
}

/// A byte that may stand in a name.
pub open spec fn name_byte(b: u8) -> bool {
    name_initial(b) || 0x30 <= b <= 0x39 || b == 0x2E
}

/// A whole name: `[A-Za-z_][A-Za-z0-9_.]*`.
pub open spec fn valid_name(name: Seq<u8>) -> bool {
    &&& name.len() > 0
    &&& name_initial(name[0])
    &&& forall|i: int| 0 < i < name.len() ==> name_byte(#[trigger] name[i])
}

/// Where a scan through a declaration is: inside which quotes, behind a backslash,
/// in a comment, behind white space.
pub struct Scan {
    pub quote: Option<u8>,
    pub escaped: bool,
    pub comment: bool,
    pub whitespace: bool,
}

/// A scan at the beginning of a declaration.
pub open spec fn scan_start() -> Scan {
    Scan { quote: None, escaped: false, comment: false, whitespace: true }
}

/// A scan one byte further.
pub open spec fn scan_step(scan: Scan, b: u8) -> Scan {
    if scan.comment {
        scan
    } else if scan.escaped {
        Scan { escaped: false, ..scan }
    } else {
        match scan.quote {
            Some(delimiter) => if b == BACKSLASH {
                Scan { escaped: true, ..scan }
            } else if b == delimiter {
                Scan { quote: None, ..scan }
            } else {
                scan
            },
            None => if b == HASH && scan.whitespace {
                Scan { comment: true, ..scan }
            } else if b == SINGLE_QUOTE || b == DOUBLE_QUOTE {
                Scan { quote: Some(b), whitespace: false, ..scan }
            } else if b == BACKSLASH {
                Scan { escaped: true, whitespace: false, ..scan }
            } else {
                Scan { whitespace: b == SPACE || b == TAB || b == CARRIAGE_RETURN, ..scan }
            },
        }
    }
}

/// The end of a declaration: behind the first line feed outside quotes, or the end
/// of the document.
pub open spec fn declaration_end(source: Seq<u8>, index: int, scan: Scan) -> int
    decreases source.len() - index,
{
    if index >= source.len() {
        source.len() as int
    } else if source[index] == LINE_FEED && scan.quote is None {
        index + 1
    } else {
        declaration_end(source, index + 1, scan_step(scan, source[index]))
    }
}

/// The end of a declaration without its line ending.
pub open spec fn content_end(source: Seq<u8>, start: int, end: int) -> int {
    if end > start && source[end - 1] == LINE_FEED {
        if end - 1 > start && source[end - 2] == CARRIAGE_RETURN {
            end - 2
        } else {
            end - 1
        }
    } else {
        end
    }
}

/// The first position from `start` on that holds no white space, `end` at most.
pub open spec fn skip_blank(source: Seq<u8>, start: int, end: int) -> int
    decreases end - start,
{
    if start < end && blank(source[start]) {
        skip_blank(source, start + 1, end)
    } else {
        start
    }
}

/// The first position from `index` on that holds no byte of a name, `end` at most.
pub open spec fn name_end(source: Seq<u8>, index: int, end: int) -> int
    decreases end - index,
{
    if index < end && name_byte(source[index]) {
        name_end(source, index + 1, end)
    } else {
        index
    }
}

/// The name that stands at `start`, with its end.
pub open spec fn read_name(source: Seq<u8>, start: int, end: int) -> Option<(Seq<u8>, int)> {
    if start == end || !name_initial(source[start]) {
        None
    } else {
        let stop = name_end(source, start + 1, end);
        Some((source.subrange(start, stop), stop))
    }
}

/// The end of a value scan: the first blank or tab outside quotes and not behind a
/// backslash, `end` at most.
pub open spec fn value_scan_end(
    source: Seq<u8>,
    index: int,
    end: int,
    quote: Option<u8>,
    escaped: bool,
) -> int
    decreases end - index,
{
    if index >= end {
        end
    } else if escaped {
        value_scan_end(source, index + 1, end, quote, false)
    } else {
        let b = source[index];
        match quote {
            Some(delimiter) => if b == BACKSLASH {
                value_scan_end(source, index + 1, end, quote, true)
            } else if b == delimiter {
                value_scan_end(source, index + 1, end, None, false)
            } else {
                value_scan_end(source, index + 1, end, quote, false)
            },
            None => if b == BACKSLASH {
                value_scan_end(source, index + 1, end, quote, true)
            } else if b == SINGLE_QUOTE || b == DOUBLE_QUOTE {
                value_scan_end(source, index + 1, end, Some(b), false)
            } else if b == SPACE || b == TAB {
                index
            } else {
                value_scan_end(source, index + 1, end, quote, false)
            },
        }
    }
}

/// The end of the value at `start`; a comment is no value.
pub open spec fn value_end(source: Seq<u8>, start: int, end: int) -> int {
    if byte_at(source, start, HASH) {
        start
    } else {
        value_scan_end(source, start, end, None, false)
    }
}

/// `source` holds `b` at `index`.
pub open spec fn byte_at(source: Seq<u8>, index: int, b: u8) -> bool {
    0 <= index < source.len() && source[index] == b
}

/// What a declaration holds: an error, nothing (a blank line or a comment), or an
/// entry.
pub enum Declaration {
    Invalid,
    Nothing,
    Entry(EntryView),
}

/// The rest of a declaration behind its name.
pub open spec fn read_assignment(
    source: Seq<u8>,
    start: int,
    end: int,
    name: Seq<u8>,
    index: int,
) -> Declaration {
    let stop = content_end(source, start, end);
    if !byte_at(source, index, EQUALS) {
        Declaration::Invalid
    } else {
        let value_start = skip_blank(source, index + 1, stop);
        Declaration::Entry(
            EntryView {
                name: bytes::ascii_chars(name),
                start,
                end,
                value_start,
                value_end: value_end(source, value_start, stop),
            },
        )
    }
}

/// What stands in the declaration from `start` to `end`: an optional `export`, a
/// name, an equals sign and a value.
pub open spec fn read_declaration(source: Seq<u8>, start: int, end: int) -> Declaration {
    let stop = content_end(source, start, end);
    let first = skip_blank(source, start, stop);
    if first == stop || source[first] == HASH {
        Declaration::Nothing
    } else {
        match read_name(source, first, stop) {
            None => Declaration::Invalid,
            Some((name, next)) => {
                let index = skip_blank(source, next, stop);
                if name == bytes::text("export") && !byte_at(source, index, EQUALS) {
                    match read_name(source, index, stop) {
                        None => Declaration::Invalid,
                        Some((exported, next)) => read_assignment(
                            source,
                            start,
                            end,
                            exported,
                            skip_blank(source, next, stop),
                        ),
                    }
                } else {
                    read_assignment(source, start, end, name, index)
                }
            },
        }
    }
}

/// The entries of the declarations from `start` on, `None` where one is invalid.
pub open spec fn index_from(source: Seq<u8>, start: nat) -> Option<Seq<EntryView>>
    decreases source.len() - start,
{
    if start >= source.len() {
        Some(Seq::empty())
    } else {
        let end = declaration_end(source, start as int, scan_start());
        proof {
            lemma_declaration_end(source, start as int, scan_start());
        }
        match (read_declaration(source, start as int, end), index_from(source, end as nat)) {
            (Declaration::Invalid, _) => None,
            (_, None) => None,
            (Declaration::Nothing, Some(rest)) => Some(rest),
            (Declaration::Entry(entry), Some(rest)) => Some(seq![entry] + rest),
        }
    }
}

/// The entries of a document, `None` where it is not UTF-8 or a declaration is
/// invalid.
pub open spec fn index_of(source: Seq<u8>) -> Option<Seq<EntryView>> {
    if valid_utf8(source) {
        index_from(source, 0)
    } else {
        None
    }
}

/// An entry that stands in a document: its value lies in its declaration, its name
/// is one.
pub open spec fn placed(source: Seq<u8>, entry: EntryView) -> bool {
    &&& 0 <= entry.start <= entry.value_start <= entry.value_end <= entry.end <= source.len()
    &&& valid_name(encode_utf8(entry.name))
}

/// The entries stand one behind the other, none of them before `start`.
pub open spec fn laid_out(source: Seq<u8>, entries: Seq<EntryView>, start: int) -> bool {
    &&& forall|i: int| 0 <= i < entries.len() ==> placed(source, #[trigger] entries[i])
    &&& forall|i: int| 0 <= i < entries.len() ==> start <= (#[trigger] entries[i]).start
    &&& forall|i: int, j: int|
        0 <= i < j < entries.len() ==> (#[trigger] entries[i]).end <= (#[trigger] entries[j]).start
}

/// A declaration is not empty, and ends with a line feed or the document.
pub proof fn lemma_declaration_end(source: Seq<u8>, index: int, scan: Scan)
    requires
        0 <= index < source.len(),
    ensures
        index < declaration_end(source, index, scan) <= source.len(),
        declaration_end(source, index, scan) == source.len() || source[declaration_end(
            source,
            index,
            scan,
        ) - 1] == LINE_FEED,
    decreases source.len() - index,
{
    reveal_with_fuel(declaration_end, 2);
    if index + 1 < source.len() {
        lemma_declaration_end(source, index + 1, scan_step(scan, source[index]));
    }
}

proof fn lemma_skip_blank(source: Seq<u8>, start: int, end: int)
    requires
        start <= end,
    ensures
        start <= skip_blank(source, start, end) <= end,
    decreases end - start,
{
    if start < end && blank(source[start]) {
        lemma_skip_blank(source, start + 1, end);
    }
}

proof fn lemma_name_end(source: Seq<u8>, index: int, end: int)
    requires
        index <= end,
    ensures
        index <= name_end(source, index, end) <= end,
        forall|k: int| index <= k < name_end(source, index, end) ==> name_byte(#[trigger] source[k]),
    decreases end - index,
{
    if index < end && name_byte(source[index]) {
        lemma_name_end(source, index + 1, end);
    }
}

proof fn lemma_value_scan_end(
    source: Seq<u8>,
    index: int,
    end: int,
    quote: Option<u8>,
    escaped: bool,
)
    requires
        index <= end,
    ensures
        index <= value_scan_end(source, index, end, quote, escaped) <= end,
    decreases end - index,
{
    if index < end {
        let b = source[index];
        lemma_value_scan_end(source, index + 1, end, quote, false);
        lemma_value_scan_end(source, index + 1, end, quote, true);
        lemma_value_scan_end(source, index + 1, end, None, false);
        lemma_value_scan_end(source, index + 1, end, Some(b), false);
    }
}

/// A name that was read is a name.
proof fn lemma_read_name(source: Seq<u8>, start: int, end: int)
    requires
        0 <= start <= end <= source.len(),
    ensures
        read_name(source, start, end) matches Some((name, next)) ==> start < next <= end
            && valid_name(name) && encode_utf8(bytes::ascii_chars(name)) == name && name
            == source.subrange(start, next),
{
    if let Some((name, next)) = read_name(source, start, end) {
        lemma_name_end(source, start + 1, end);
        assert forall|i: int| 0 < i < name.len() implies name_byte(#[trigger] name[i]) by {
            assert(name[i] == source[start + i]);
        }
        assert forall|i: int| 0 <= i < name.len() implies #[trigger] name[i] < 0x80 by {
            if i > 0 {
                assert(name_byte(name[i]));
            }
        }
        bytes::lemma_ascii_chars(name);
    }
}

/// The entry of a declaration stands in it.
pub proof fn lemma_read_declaration(source: Seq<u8>, start: int, end: int)
    requires
        0 <= start < end <= source.len(),
        end == source.len() || source[end - 1] == LINE_FEED,
    ensures
        read_declaration(source, start, end) matches Declaration::Entry(entry) ==> placed(
            source,
            entry,
        ) && entry.start == start && entry.end == end,
{
    let stop = content_end(source, start, end);
    let first = skip_blank(source, start, stop);
    lemma_skip_blank(source, start, stop);
    if first != stop && source[first] != HASH {
        lemma_read_name(source, first, stop);
        if let Some((name, next)) = read_name(source, first, stop) {
            let index = skip_blank(source, next, stop);
            lemma_skip_blank(source, next, stop);
            if name == bytes::text("export") && !byte_at(source, index, EQUALS) {
                lemma_read_name(source, index, stop);
                if let Some((exported, after)) = read_name(source, index, stop) {
                    lemma_skip_blank(source, after, stop);
                    lemma_read_assignment(
                        source,
                        start,
                        end,
                        exported,
                        skip_blank(source, after, stop),
                    );
                }
            } else {
                lemma_read_assignment(source, start, end, name, index);
            }
        }
    }
}

proof fn lemma_read_assignment(source: Seq<u8>, start: int, end: int, name: Seq<u8>, index: int)
    requires
        0 <= start < end <= source.len(),
        end == source.len() || source[end - 1] == LINE_FEED,
        start <= index <= content_end(source, start, end),
        valid_name(name),
        encode_utf8(bytes::ascii_chars(name)) == name,
    ensures
        read_assignment(source, start, end, name, index) matches Declaration::Entry(entry)
            ==> placed(source, entry) && entry.start == start && entry.end == end,
{
    let stop = content_end(source, start, end);
    if byte_at(source, index, EQUALS) {
        lemma_skip_blank(source, index + 1, stop);
        lemma_value_scan_end(source, skip_blank(source, index + 1, stop), stop, None, false);
    }
}

/// The entries of a document stand one behind the other: each declaration with its
/// own value, in the order of the document, none overlapping another.
pub proof fn law_index_laid_out(source: Seq<u8>, start: nat)
    requires
        index_from(source, start) is Some,
    ensures
        laid_out(source, index_from(source, start)->Some_0, start as int),
    decreases source.len() - start,
{
    if start < source.len() {
        let end = declaration_end(source, start as int, scan_start());
        lemma_declaration_end(source, start as int, scan_start());
        lemma_read_declaration(source, start as int, end);
        law_index_laid_out(source, end as nat);
        let rest = index_from(source, end as nat)->Some_0;
        if let Declaration::Entry(entry) = read_declaration(source, start as int, end) {
            let all = seq![entry] + rest;
            assert forall|i: int| 0 <= i < all.len() implies placed(source, #[trigger] all[i])
                && start <= all[i].start by {
                if i > 0 {
                    assert(all[i] == rest[i - 1]);
                }
            }
            assert forall|i: int, j: int| 0 <= i < j < all.len() implies (#[trigger] all[i]).end
                <= (#[trigger] all[j]).start by {
                assert(all[j] == rest[j - 1]);
                if i > 0 {
                    assert(all[i] == rest[i - 1]);
                }
            }
        }
    }
}

/// Whether a byte is ASCII white space.
fn is_blank(b: u8) -> (yes: bool)
    ensures
        yes == blank(b),
{
    b == SPACE || b == TAB || b == LINE_FEED || b == 0x0C || b == CARRIAGE_RETURN
}

/// Whether a byte may begin a name.
fn is_name_initial(b: u8) -> (yes: bool)
    ensures
        yes == name_initial(b),
{
    (0x41 <= b && b <= 0x5A) || (0x61 <= b && b <= 0x7A) || b == 0x5F
}

/// Whether a byte may stand in a name.
fn is_name_byte(b: u8) -> (yes: bool)
    ensures
        yes == name_byte(b),
{
    is_name_initial(b) || (0x30 <= b && b <= 0x39) || b == 0x2E
}

/// Whether `source` holds `b` at `index`.
fn has_byte(source: &[u8], index: usize, b: u8) -> (yes: bool)
    ensures
        yes == byte_at(source@, index as int, b),
{
    index < source.len() && source[index] == b
}

/// Refuses what is no name: `[A-Za-z_][A-Za-z0-9_.]*`.
pub fn validate_variable_name(key: &str) -> (checked: CliResult<()>)
    ensures
        checked is Ok == valid_name(encode_utf8(key@)),
        checked matches Err(e) ==> (e matches CliError::InvalidVariableName(name) && name@ == key@),
{
    let raw: &[u8] = key.as_bytes();
    if raw.len() == 0 || !is_name_initial(raw[0]) {
        return Err(CliError::InvalidVariableName(key.to_owned()));
    }
    let mut i: usize = 1;
    while i < raw.len()
        invariant
            raw@ == encode_utf8(key@),
            1 <= i <= raw@.len(),
            forall|j: int| 0 < j < i ==> name_byte(#[trigger] raw@[j]),
        decreases raw@.len() - i,
    {
        if !is_name_byte(raw[i]) {
            return Err(CliError::InvalidVariableName(key.to_owned()));
        }
        i = i + 1;
    }
    Ok(())
}

fn skip_environment_whitespace(source: &[u8], start: usize, end: usize) -> (index: usize)
    requires
        start <= end <= source@.len(),
    ensures
        index == skip_blank(source@, start as int, end as int),
        start <= index <= end,
{
    let mut index: usize = start;
    while index < end && is_blank(source[index])
        invariant
            start <= index <= end <= source@.len(),
            skip_blank(source@, index as int, end as int) == skip_blank(
                source@,
                start as int,
                end as int,
            ),
        decreases end - index,
    {
        index = index + 1;
    }
    index
}

fn parse_environment_name(source: &[u8], start: usize, end: usize) -> (parsed: CliResult<
    (String, usize),
>)
    requires
        start <= end <= source@.len(),
    ensures
        parsed is Ok == (read_name(source@, start as int, end as int) is Some),
        parsed matches Ok((name, next)) ==> read_name(source@, start as int, end as int) == Some(
            (encode_utf8(name@), next as int),
        ) && start < next <= end && name@ == bytes::ascii_chars(encode_utf8(name@)) && valid_name(
            encode_utf8(name@),
        ),
        parsed matches Err(e) ==> e is InvalidEnvironment,
{
    if start == end || !is_name_initial(source[start]) {
        return Err(CliError::InvalidEnvironment);
    }
    let mut index: usize = start + 1;
    while index < end && is_name_byte(source[index])
        invariant
            start < index <= end <= source@.len(),
            name_end(source@, index as int, end as int) == name_end(
                source@,
                start + 1,
                end as int,
            ),
        decreases end - index,
    {
        index = index + 1;
    }
    let raw: Vec<u8> = bytes::copy_range(source, start, index);
    proof {
        lemma_read_name(source@, start as int, end as int);
        assert forall|i: int| 0 <= i < raw@.len() implies #[trigger] raw@[i] < 0x80 by {
            if i > 0 {
                assert(name_byte(raw@[i]));
            }
        }
    }
    let name: String = bytes::ascii_string(raw.as_slice());
    Ok((name, index))
}

fn environment_declaration_end(source: &[u8], start: usize) -> (end: usize)
    requires
        start < source@.len(),
    ensures
        end == declaration_end(source@, start as int, scan_start()),
        start < end <= source@.len(),
        end == source@.len() || source@[end - 1] == LINE_FEED,
{
    let mut quote: Option<u8> = None;
    let mut escaped: bool = false;
    let mut comment: bool = false;
    let mut whitespace: bool = true;
    let mut index: usize = start;
    proof {
        lemma_declaration_end(source@, start as int, scan_start());
    }
    while index < source.len()
        invariant
            start <= index <= source@.len(),
            start < source@.len(),
            start < declaration_end(source@, start as int, scan_start()) <= source@.len(),
            declaration_end(source@, start as int, scan_start()) == source@.len()
                || source@[declaration_end(source@, start as int, scan_start()) - 1] == LINE_FEED,
            declaration_end(
                source@,
                index as int,
                (Scan { quote, escaped, comment, whitespace }),
            ) == declaration_end(source@, start as int, scan_start()),
        decreases source@.len() - index,
    {
        let byte: u8 = source[index];
        if byte == LINE_FEED && quote.is_none() {
            return index + 1;
        }
        let ghost before = Scan { quote, escaped, comment, whitespace };
        if comment {
        } else if escaped {
            escaped = false;
        } else if let Some(delimiter) = quote {
            if byte == BACKSLASH {
                escaped = true;
            } else if byte == delimiter {
                quote = None;
            }
        } else if byte == HASH && whitespace {
            comment = true;
        } else if byte == SINGLE_QUOTE || byte == DOUBLE_QUOTE {
            quote = Some(byte);
            whitespace = false;
        } else if byte == BACKSLASH {
            escaped = true;
            whitespace = false;
        } else {
            whitespace = byte == SPACE || byte == TAB || byte == CARRIAGE_RETURN;
        }
        assert((Scan { quote, escaped, comment, whitespace }) == scan_step(before, byte));
        index = index + 1;
    }
    source.len()
}

fn environment_value_end(source: &[u8], start: usize, end: usize) -> (stop: usize)
    requires
        start <= end <= source@.len(),
    ensures
        stop == value_end(source@, start as int, end as int),
        start <= stop <= end,
{
    if has_byte(source, start, HASH) {
        return start;
    }
    let mut quote: Option<u8> = None;
    let mut escaped: bool = false;
    let mut index: usize = start;
    while index < end
        invariant
            start <= index <= end <= source@.len(),
            !byte_at(source@, start as int, HASH),
            value_scan_end(source@, index as int, end as int, quote, escaped) == value_scan_end(
                source@,
                start as int,
                end as int,
                None,
                false,
            ),
        decreases end - index,
    {
        let byte: u8 = source[index];
        if escaped {
            escaped = false;
        } else if let Some(delimiter) = quote {
            if byte == BACKSLASH {
                escaped = true;
            } else if byte == delimiter {
                quote = None;
            }
        } else if byte == BACKSLASH {
            escaped = true;
        } else if byte == SINGLE_QUOTE || byte == DOUBLE_QUOTE {
            quote = Some(byte);
        } else if byte == SPACE || byte == TAB {
            return index;
        }
        index = index + 1;
    }
    end
}

fn index_assignment(
    source: &[u8],
    start: usize,
    end: usize,
    stop: usize,
    name: String,
    index: usize,
) -> (indexed: CliResult<Option<EnvEntry>>)
    requires
        start < end <= source@.len(),
        end == source@.len() || source@[end - 1] == LINE_FEED,
        stop == content_end(source@, start as int, end as int),
        start <= index <= stop,
        name@ == bytes::ascii_chars(encode_utf8(name@)),
    ensures
        indexed is Ok == (read_assignment(
            source@,
            start as int,
            end as int,
            encode_utf8(name@),
            index as int,
        ) is Entry),
        indexed matches Ok(found) ==> (found matches Some(entry) && read_assignment(
            source@,
            start as int,
            end as int,
            encode_utf8(name@),
            index as int,
        ) == Declaration::Entry(entry@)),
        indexed matches Err(e) ==> e is InvalidEnvironment,
{
    if !has_byte(source, index, EQUALS) {
        return Err(CliError::InvalidEnvironment);
    }
    let value_start: usize = skip_environment_whitespace(source, index + 1, stop);
    let value_end: usize = environment_value_end(source, value_start, stop);
    Ok(Some(EnvEntry { name, start, end, value_start, value_end }))
}

fn index_environment_declaration(source: &[u8], start: usize, end: usize) -> (indexed: CliResult<
    Option<EnvEntry>,
>)
    requires
        start < end <= source@.len(),
        end == source@.len() || source@[end - 1] == LINE_FEED,
    ensures
        indexed is Err == (read_declaration(source@, start as int, end as int) is Invalid),
        indexed matches Ok(None) ==> read_declaration(source@, start as int, end as int) is Nothing,
        indexed matches Ok(Some(entry)) ==> read_declaration(source@, start as int, end as int)
            == Declaration::Entry(entry@),
        indexed matches Err(e) ==> e is InvalidEnvironment,
{
    let mut stop: usize = end;
    if source[stop - 1] == LINE_FEED {
        stop = stop - 1;
        if stop > start && source[stop - 1] == CARRIAGE_RETURN {
            stop = stop - 1;
        }
    }
    assert(stop == content_end(source@, start as int, end as int));
    let first: usize = skip_environment_whitespace(source, start, stop);
    if first == stop || source[first] == HASH {
        return Ok(None);
    }
    match parse_environment_name(source, first, stop) {
        Err(_) => Err(CliError::InvalidEnvironment),
        Ok((name, next)) => {
            let index: usize = skip_environment_whitespace(source, next, stop);
            let exported: bool = bytes::same_text(name.as_str(), "export");
            proof {
                if encode_utf8(name@) == bytes::text("export") {
                    bytes::lemma_text_injective(name@, "export"@);
                }
            }
            if exported && !has_byte(source, index, EQUALS) {
                match parse_environment_name(source, index, stop) {
                    Err(_) => Err(CliError::InvalidEnvironment),
                    Ok((name, next)) => {
                        let index: usize = skip_environment_whitespace(source, next, stop);
                        index_assignment(source, start, end, stop, name, index)
                    },
                }
            } else {
                index_assignment(source, start, end, stop, name, index)
            }
        },
    }
}

/// Finds every declaration of a document with its name and its value.
pub fn index_environment(source: &[u8]) -> (indexed: CliResult<Vec<EnvEntry>>)
    ensures
        indexed is Ok == (index_of(source@) is Some),
        indexed matches Ok(entries) ==> index_of(source@) == Some(entry_views(entries@)),
        indexed matches Err(e) ==> e is InvalidEnvironment,
{
    if bytes::utf8_text(source).is_none() {
        return Err(CliError::InvalidEnvironment);
    }
    let mut entries: Vec<EnvEntry> = Vec::new();
    let mut start: usize = 0;
    let ghost whole = index_from(source@, 0);
    assert(index_from(source@, 0) matches Some(rest) ==> rest =~= entry_views(entries@) + rest);
    while start < source.len()
        invariant
            start <= source@.len(),
            valid_utf8(source@),
            whole == index_from(source@, 0),
            whole is Some == (index_from(source@, start as nat) is Some),
            index_from(source@, start as nat) matches Some(rest) ==> whole == Some(
                entry_views(entries@) + rest,
            ),
        decreases source@.len() - start,
    {
        let end: usize = environment_declaration_end(source, start);
        let ghost before = entries@;
        match index_environment_declaration(source, start, end) {
            Err(_) => {
                return Err(CliError::InvalidEnvironment);
            },
            Ok(None) => {},
            Ok(Some(entry)) => {
                entries.push(entry);
                proof {
                    if let Some(rest) = index_from(source@, end as nat) {
                        assert(entry_views(entries@) + rest =~= entry_views(before) + (seq![entry@]
                            + rest));
                    }
                }
            },
        }
        start = end;
    }
    assert(whole matches Some(found) ==> found =~= entry_views(entries@));
    Ok(entries)
}

} // verus!
