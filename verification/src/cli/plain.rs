//! What a document says by itself. An orderly document is one whose lines can be told
//! apart: every quote is closed, and what stands behind a value is white space or a comment
//! that cannot be taken for anything else. It is plain where no value draws on another
//! variable, so that all its variables can be told from the document alone.
use vstd::prelude::*;
use vstd::utf8::*;

use crate::cli::dotenv;
use crate::cli::dotenv::{
    Declaration, BACKSLASH, CARRIAGE_RETURN, DOUBLE_QUOTE, HASH, LINE_FEED, SINGLE_QUOTE, SPACE,
    TAB,
};
use crate::cli::environment::Pair;
use crate::cli::value::DOLLAR;

verus! {

/// A text begins with white space, of ASCII or beyond.
pub open spec fn spacing(text: Seq<u8>) -> bool {
    let b = text[0];
    ||| dotenv::blank(b) || b == 0x0B
    ||| text.len() > 1 && b == 0xC2 && (text[1] == 0x85 || text[1] == 0xA0)
    ||| text.len() > 2 && b == 0xE1 && text[1] == 0x9A && text[2] == 0x80
    ||| text.len() > 2 && b == 0xE2 && text[1] == 0x80 && (0x80 <= text[2] <= 0x8A || text[2]
        == 0xA8 || text[2] == 0xA9 || text[2] == 0xAF)
    ||| text.len() > 2 && b == 0xE2 && text[1] == 0x81 && text[2] == 0x9F
    ||| text.len() > 2 && b == 0xE3 && text[1] == 0x80 && text[2] == 0x80
}

/// A byte that may stand behind a backslash.
pub open spec fn escapable(b: u8) -> bool {
    b == BACKSLASH || b == SINGLE_QUOTE || b == DOUBLE_QUOTE || b == DOLLAR || b == SPACE || b
        == 0x6E
}

/// What a byte behind a backslash stands for.
pub open spec fn unescaped(b: u8) -> u8 {
    if b == 0x6E {
        LINE_FEED
    } else {
        b
    }
}

/// One more byte in front.
pub open spec fn preceded(b: u8, rest: Option<Seq<u8>>) -> Option<Seq<u8>> {
    match rest {
        None => None,
        Some(bytes) => Some(seq![b] + bytes),
    }
}

/// What the text of a value stands for, within quotes of some kind or outside: quotes are
/// left out, and escapes are undone but within single quotes. `None` where a quote stays
/// open, where a dollar sign asks for another variable, and where white space stands
/// outside quotes.
pub open spec fn unquoted(text: Seq<u8>, quote: Option<u8>) -> Option<Seq<u8>>
    decreases text.len(),
{
    if text.len() == 0 {
        if quote is None {
            Some(Seq::empty())
        } else {
            None
        }
    } else {
        let b = text[0];
        if quote == Some(b) {
            unquoted(text.skip(1), None)
        } else if quote is None && (b == SINGLE_QUOTE || b == DOUBLE_QUOTE) {
            unquoted(text.skip(1), Some(b))
        } else if b == BACKSLASH {
            if text.len() < 2 {
                None
            } else if quote == Some(SINGLE_QUOTE) {
                if text[1] == SINGLE_QUOTE {
                    None
                } else {
                    preceded(b, preceded(text[1], unquoted(text.skip(2), quote)))
                }
            } else if !escapable(text[1]) || (quote is None && text[1] == SPACE && text.len() == 2) {
                None
            } else {
                preceded(unescaped(text[1]), unquoted(text.skip(2), quote))
            }
        } else if (quote is None && spacing(text)) || (quote != Some(SINGLE_QUOTE) && b == DOLLAR) {
            None
        } else {
            preceded(b, unquoted(text.skip(1), quote))
        }
    }
}

/// The text of a value is closed, within quotes of some kind or outside: no quote stays
/// open, and no white space stands outside quotes.
pub open spec fn closed(text: Seq<u8>, quote: Option<u8>) -> bool
    decreases text.len(),
{
    if text.len() == 0 {
        quote is None
    } else {
        let b = text[0];
        if quote == Some(b) {
            closed(text.skip(1), None)
        } else if quote is None && (b == SINGLE_QUOTE || b == DOUBLE_QUOTE) {
            closed(text.skip(1), Some(b))
        } else if b == BACKSLASH {
            &&& text.len() >= 2
            &&& quote is None ==> text[1] != LINE_FEED && !(text.len() == 2 && dotenv::blank(
                text[1],
            ))
            &&& closed(text.skip(2), quote)
        } else {
            &&& quote is None ==> !spacing(text)
            &&& closed(text.skip(1), quote)
        }
    }
}

/// The first position from `at` on that holds no blank or tab, `stop` at most.
pub open spec fn gap_end(line: Seq<u8>, at: int, stop: int) -> int
    decreases stop - at,
{
    if at < stop && (line[at] == SPACE || line[at] == TAB) {
        gap_end(line, at + 1, stop)
    } else {
        at
    }
}

/// An odd number of blanks ends a text.
pub open spec fn spaced(text: Seq<u8>) -> bool
    decreases text.len(),
{
    text.len() > 0 && (text.last() == SPACE || text.last() == TAB || text.last() == 0x0C)
        && !spaced(text.drop_last())
}

/// Behind a text a mark begins a comment, whatever stands in it.
pub open spec fn noticed(text: Seq<u8>) -> bool {
    spaced(text) && text.last() != 0x0C
}

/// A text closes every quote that it opens, from within quotes of some kind or behind a
/// backslash.
pub open spec fn settles(text: Seq<u8>, quote: Option<u8>, escaped: bool) -> bool
    decreases text.len(),
{
    if text.len() == 0 {
        quote is None && !escaped
    } else {
        let (b, rest) = (text[0], text.skip(1));
        if escaped {
            settles(rest, quote, false)
        } else if b == BACKSLASH {
            settles(rest, quote, true)
        } else if quote == Some(b) {
            settles(rest, None, false)
        } else if quote is None && (b == SINGLE_QUOTE || b == DOUBLE_QUOTE) {
            settles(rest, Some(b), false)
        } else {
            settles(rest, quote, false)
        }
    }
}

/// Where the content of a line stops, before its line ending.
pub open spec fn content(line: Seq<u8>) -> int {
    dotenv::content_end(line, 0, line.len() as int)
}

/// The line has a line ending.
pub open spec fn ended(line: Seq<u8>) -> bool {
    line.last() == LINE_FEED
}

/// What stands in a line behind a value that ends at `at`: blanks, and a comment where
/// there is more.
pub open spec fn finished(line: Seq<u8>, at: int) -> bool {
    let stop = content(line);
    let mark = gap_end(line, at, stop);
    if mark >= stop {
        ended(line) || (!spaced(line) && line.last() != CARRIAGE_RETURN)
    } else {
        &&& line[mark] == HASH
        &&& forall|k: int| mark <= k < stop ==> #[trigger] line[k] != LINE_FEED
        &&& if noticed(line.take(mark)) {
            ended(line) || line.last() != CARRIAGE_RETURN
        } else {
            &&& settles(line.subrange(mark, stop), None, false)
            &&& ended(line) || 0x21 <= line.last() <= 0x7E
        }
    }
}

/// What a line declares whose value stands from `from` to `to`: a value, or one that
/// cannot be told from the line alone. `None` where the line is not orderly.
pub open spec fn line_value(line: Seq<u8>, from: int, to: int) -> Option<Option<Seq<char>>> {
    let text = line.subrange(from, to);
    if closed(text, None) && finished(line, to) {
        match unquoted(text, None) {
            Some(raw) => if valid_utf8(raw) {
                Some(Some(decode_utf8(raw)))
            } else {
                Some(None)
            },
            None => Some(None),
        }
    } else {
        None
    }
}

/// A line that declares nothing: white space, or a comment.
pub open spec fn note(line: Seq<u8>) -> bool {
    let stop = content(line);
    if dotenv::skip_blank(line, 0, stop) == stop {
        ended(line) || (!spaced(line) && line.last() != CARRIAGE_RETURN)
    } else {
        let mark = gap_end(line, 0, stop);
        &&& mark < stop
        &&& line[mark] == HASH
        &&& forall|k: int| mark <= k < stop ==> #[trigger] line[k] != LINE_FEED
        &&& ended(line) || line.last() != CARRIAGE_RETURN
    }
}

/// What a document says of a variable: its name, and its value where that can be told from
/// the document alone.
pub type Told = (Seq<char>, Option<Seq<char>>);

/// What the lines from `start` on say, `None` where one is not orderly.
pub open spec fn outline_from(source: Seq<u8>, start: nat) -> Option<Seq<Told>>
    decreases source.len() - start,
{
    if start >= source.len() {
        Some(Seq::empty())
    } else {
        let end = dotenv::declaration_end(source, start as int, dotenv::scan_start());
        proof {
            dotenv::lemma_declaration_end(source, start as int, dotenv::scan_start());
        }
        let line = source.subrange(start as int, end);
        match (
            dotenv::read_declaration(source, start as int, end),
            outline_from(source, end as nat),
        ) {
            (Declaration::Invalid, _) => None,
            (_, None) => None,
            (Declaration::Nothing, Some(rest)) => if note(line) {
                Some(rest)
            } else {
                None
            },
            (Declaration::Entry(entry), Some(rest)) => match line_value(
                line,
                entry.value_start - start,
                entry.value_end - start,
            ) {
                None => None,
                Some(text) => Some(seq![(entry.name, text)] + rest),
            },
        }
    }
}

/// What an orderly document says, variable for variable; `None` where it is not orderly.
pub open spec fn outline(source: Seq<u8>) -> Option<Seq<Told>> {
    if valid_utf8(source) {
        outline_from(source, 0)
    } else {
        None
    }
}

/// The variables of a plain document, `None` where it is not plain.
pub open spec fn variables(source: Seq<u8>) -> Option<Seq<Pair>> {
    match outline(source) {
        Some(all) => if forall|i: int| 0 <= i < all.len() ==> (#[trigger] all[i]).1 is Some {
            Some(Seq::new(all.len(), |i: int| (all[i].0, all[i].1->Some_0)))
        } else {
            None
        },
        None => None,
    }
}

/// A reading gives what is told: each variable under its name and, where its value is told,
/// with that value. A value that is not told may be anything, and may not be readable.
pub open spec fn tells(all: Seq<Told>, read: Seq<Option<Pair>>) -> bool {
    &&& read.len() == all.len()
    &&& forall|i: int|
        0 <= i < all.len() ==> match all[i].1 {
            Some(text) => #[trigger] read[i] == Some((all[i].0, text)),
            None => read[i] matches Some(pair) ==> pair.0 == all[i].0,
        }
}

} // verus!
