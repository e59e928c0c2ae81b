//! What protecting and revealing does to an orderly document: each variable keeps its name
//! and place, what stands outside the values stays, and what was protected is revealed
//! again.
use vstd::prelude::*;
use vstd::utf8::*;

use crate::bytes;
use crate::cli::commands;
use crate::cli::document;
use crate::cli::document::DocumentView;
use crate::cli::dotenv;
use crate::cli::dotenv::{EntryView, HASH, SPACE};
use crate::cli::edits;
use crate::cli::environment;
use crate::cli::environment::{NamePolicy, Pair};
use crate::cli::error::{CliError, CliResult};
use crate::cli::plain;
use crate::cli::plain::Told;
use crate::cli::protection;
use crate::cli::protection::{Replacement, ReplacementView};
use crate::cli::readback;
use crate::cli::value;
use crate::cli::value::{MAX_ENCRYPTED_ENV_FILE_SIZE, MAX_ENV_FILE_SIZE};
use crate::error::XSecResult;

verus! {

/// What stands in a source before the value at `k`, behind the value before it; the end
/// of the source where there is no such value.
pub open spec fn piece(source: Seq<u8>, entries: Seq<EntryView>, k: int) -> Seq<u8> {
    source.subrange(
        if k == 0 {
            0
        } else {
            entries[k - 1].value_end
        },
        if k == entries.len() {
            source.len() as int
        } else {
            entries[k].value_start
        },
    )
}

/// The text of the value at `k`.
pub open spec fn span(source: Seq<u8>, entries: Seq<EntryView>, k: int) -> Seq<u8> {
    source.subrange(entries[k].value_start, entries[k].value_end)
}

/// What stands before a value was kept; a blank came in where a comment followed the
/// value before it at once.
pub open spec fn kept(k: int, old_piece: Seq<u8>, new_piece: Seq<u8>) -> bool {
    ||| new_piece == old_piece
    ||| k > 0 && dotenv::byte_at(old_piece, 0, HASH) && new_piece == seq![SPACE] + old_piece
}

/// Everything outside the values was kept, in its order.
pub open spec fn frame_kept(
    before: Seq<u8>,
    entries: Seq<EntryView>,
    after: Seq<u8>,
    new_entries: Seq<EntryView>,
) -> bool {
    &&& new_entries.len() == entries.len()
    &&& forall|k: int|
        0 <= k <= entries.len() ==> #[trigger] kept(
            k,
            piece(before, entries, k),
            piece(after, new_entries, k),
        )
}

proof fn lemma_frame_trans(
    a: Seq<u8>,
    ea: Seq<EntryView>,
    b: Seq<u8>,
    eb: Seq<EntryView>,
    c: Seq<u8>,
    ec: Seq<EntryView>,
)
    requires
        frame_kept(a, ea, b, eb),
        frame_kept(b, eb, c, ec),
    ensures
        frame_kept(a, ea, c, ec),
{
    assert forall|k: int| 0 <= k <= ea.len() implies #[trigger] kept(
        k,
        piece(a, ea, k),
        piece(c, ec, k),
    ) by {
        assert(kept(k, piece(a, ea, k), piece(b, eb, k)));
        assert(kept(k, piece(b, eb, k), piece(c, ec, k)));
        if piece(b, eb, k) != piece(a, ea, k) {
            assert(piece(b, eb, k)[0] == SPACE);
        }
    }
}

/// A replaced value leaves everything else where it was.
#[verifier::rlimit(30)]
proof fn lemma_replaced_frame(a: Seq<u8>, b: Seq<u8>, entries: Seq<EntryView>, i: int, raw: Seq<u8>)
    requires
        dotenv::index_from(a, 0) == Some(entries),
        0 <= i < entries.len(),
        edits::is_replaced(a, b, entries[i], raw),
    ensures
        ({
            let now = edits::replaced(
                entries,
                i,
                value::quoted(raw).len() as int,
                edits::growth(a, entries[i], raw),
            );
            &&& frame_kept(a, entries, b, now)
            &&& span(b, now, i) == value::quoted(raw)
            &&& forall|k: int|
                0 <= k < entries.len() && k != i ==> #[trigger] span(b, now, k) == span(
                    a,
                    entries,
                    k,
                )
        }),
{
    let entry = entries[i];
    let quoted = value::quoted(raw);
    let grown = edits::growth(a, entry, raw);
    let now = edits::replaced(entries, i, quoted.len() as int, grown);
    dotenv::law_index_laid_out(a, 0);
    assert(dotenv::placed(a, entry));
    let text = document::replacement(a, entry, raw);
    assert(b.len() == a.len() + grown);
    assert forall|k: int| 0 <= k < entries.len() implies #[trigger] now[k] == (if k < i {
        entries[k]
    } else if k == i {
        edits::revalued(entry, quoted.len() as int, grown)
    } else {
        edits::moved_entry(entries[k], grown)
    }) by {}
    assert(now.len() == entries.len());
    assert forall|k: int| 0 <= k < entries.len() && k != i implies #[trigger] span(b, now, k)
        == span(a, entries, k) by {
        assert(now[k] == (if k < i {
            entries[k]
        } else {
            edits::moved_entry(entries[k], grown)
        }));
        assert(dotenv::placed(a, entries[k]));
        if k < i {
            assert(entries[k].end <= entries[i].start);
        } else {
            assert(entries[i].end <= entries[k].start);
        }
        assert(span(b, now, k) =~= span(a, entries, k));
    }
    assert(span(b, now, i) =~= quoted);
    assert forall|k: int| 0 <= k <= entries.len() implies #[trigger] kept(
        k,
        piece(a, entries, k),
        piece(b, now, k),
    ) by {
        if k < entries.len() {
            assert(dotenv::placed(a, entries[k]));
            assert(now[k].value_start == entries[k].value_start + if k > i {
                grown
            } else {
                0
            });
        }
        if k > 0 {
            assert(dotenv::placed(a, entries[k - 1]));
            assert(now[k - 1] == (if k - 1 < i {
                entries[k - 1]
            } else if k - 1 == i {
                edits::revalued(entry, quoted.len() as int, grown)
            } else {
                edits::moved_entry(entries[k - 1], grown)
            }));
        }
        if 0 < k < entries.len() {
            assert(entries[k - 1].end <= entries[k].start);
        }
        if k < i {
            assert(entries[k].end <= entries[i].start);
        }
        if k > i + 1 {
            assert(entries[i].end <= entries[k - 1].start);
        }
        if k == i + 1 {
            if dotenv::byte_at(a, entry.value_end, HASH) {
                assert(piece(b, now, k) =~= seq![SPACE] + piece(a, entries, k));
                lemma_comment_before(a, entries, i);
            } else {
                assert(piece(b, now, k) =~= piece(a, entries, k));
            }
        } else {
            assert(piece(b, now, k) =~= piece(a, entries, k));
        }
    }
}

/// A comment that follows a value at once stands before the next value.
proof fn lemma_comment_before(a: Seq<u8>, entries: Seq<EntryView>, i: int)
    requires
        dotenv::index_from(a, 0) == Some(entries),
        0 <= i < entries.len(),
        dotenv::byte_at(a, entries[i].value_end, HASH),
    ensures
        dotenv::byte_at(piece(a, entries, i + 1), 0, HASH),
        entries[i].value_start == entries[i].value_end,
{
    let entry = entries[i];
    dotenv::law_index_laid_out(a, 0);
    edits::lemma_at(a, 0, i);
    dotenv::lemma_declaration_end(a, entry.start, dotenv::scan_start());
    edits::lemma_dissect(a, entry);
    edits::lemma_content(a, entry.start, entry.end);
    readback::lemma_value_start(a, entry);
    let stop = dotenv::content_end(a, entry.start, entry.end);
    edits::lemma_value(a, entry.value_start, stop, None, false);
    if i + 1 < entries.len() {
        assert(entries[i].end <= entries[i + 1].start);
        assert(dotenv::placed(a, entries[i + 1]));
    }
}

/// Sources with the same values, and the same all around them, are the same.
proof fn lemma_assembled(
    a: Seq<u8>,
    ea: Seq<EntryView>,
    b: Seq<u8>,
    eb: Seq<EntryView>,
    n: int,
)
    requires
        dotenv::laid_out(a, ea, 0),
        dotenv::laid_out(b, eb, 0),
        ea.len() == eb.len(),
        0 <= n <= ea.len(),
        forall|k: int|
            0 <= k <= ea.len() ==> #[trigger] piece(a, ea, k) == piece(b, eb, k),
        forall|k: int| 0 <= k < ea.len() ==> #[trigger] span(a, ea, k) == span(b, eb, k),
    ensures
        n > 0 ==> ea[n - 1].value_end == eb[n - 1].value_end && a.take(ea[n - 1].value_end)
            == b.take(eb[n - 1].value_end),
    decreases n,
{
    if n > 0 {
        lemma_assembled(a, ea, b, eb, n - 1);
        let k = n - 1;
        assert(dotenv::placed(a, ea[k]) && dotenv::placed(b, eb[k]));
        if k > 0 {
            assert(dotenv::placed(a, ea[k - 1]) && dotenv::placed(b, eb[k - 1]));
            assert(ea[k - 1].end <= ea[k].start && eb[k - 1].end <= eb[k].start);
        }
        let (pa, pb) = (piece(a, ea, k), piece(b, eb, k));
        let (sa, sb) = (span(a, ea, k), span(b, eb, k));
        assert(pa == pb && sa == sb);
        assert(pa.len() == pb.len() && sa.len() == sb.len());
        let low = if k == 0 {
            0
        } else {
            ea[k - 1].value_end
        };
        assert(a.take(ea[k].value_end) =~= a.take(low) + pa + sa);
        assert(b.take(eb[k].value_end) =~= b.take(low) + pb + sb);
        if k == 0 {
            assert(a.take(0) =~= b.take(0));
        }
    }
}

proof fn lemma_same_source(a: Seq<u8>, ea: Seq<EntryView>, b: Seq<u8>, eb: Seq<EntryView>)
    requires
        dotenv::laid_out(a, ea, 0),
        dotenv::laid_out(b, eb, 0),
        ea.len() == eb.len(),
        forall|k: int|
            0 <= k <= ea.len() ==> #[trigger] piece(a, ea, k) == piece(b, eb, k),
        forall|k: int| 0 <= k < ea.len() ==> #[trigger] span(a, ea, k) == span(b, eb, k),
    ensures
        a == b,
{
    let n = ea.len() as int;
    lemma_assembled(a, ea, b, eb, n);
    assert(piece(a, ea, n) == piece(b, eb, n));
    if n > 0 {
        assert(dotenv::placed(a, ea[n - 1]) && dotenv::placed(b, eb[n - 1]));
        assert(a =~= a.take(ea[n - 1].value_end) + piece(a, ea, n));
        assert(b =~= b.take(eb[n - 1].value_end) + piece(b, eb, n));
    } else {
        assert(a =~= piece(a, ea, 0));
        assert(b =~= piece(b, eb, 0));
    }
}

/// The replacements give the first `n` values new texts, where there is one.
pub open spec fn rewrites(
    source: Seq<u8>,
    entries: Seq<EntryView>,
    texts: Seq<Option<Seq<char>>>,
    n: int,
    replacements: Seq<ReplacementView>,
) -> bool
    decreases n,
{
    if n <= 0 {
        replacements.len() == 0
    } else {
        match texts[n - 1] {
            None => rewrites(source, entries, texts, n - 1, replacements),
            Some(text) => replacements.len() > 0 && replacements.last() == (ReplacementView {
                start: entries[n - 1].value_start,
                end: entries[n - 1].value_end,
                value: document::replacement(source, entries[n - 1], encode_utf8(text)),
            }) && rewrites(source, entries, texts, n - 1, replacements.drop_last()),
        }
    }
}

/// A variable with a new text, where there is one.
pub open spec fn retold(told: Told, text: Option<Seq<char>>) -> Told {
    match text {
        None => told,
        Some(text) => (told.0, Some(text)),
    }
}

/// What rewriting the first `n` values makes of a source.
spec fn rewritten(
    current: Seq<u8>,
    texts: Seq<Option<Seq<char>>>,
    n: int,
    after: Seq<u8>,
) -> bool {
    let all = plain::outline(current)->Some_0;
    let entries = dotenv::index_from(current, 0)->Some_0;
    let now = plain::outline(after)->Some_0;
    let new_entries = dotenv::index_from(after, 0)->Some_0;
    &&& plain::outline(after) is Some
    &&& now.len() == all.len()
    &&& forall|j: int| 0 <= j < n ==> #[trigger] now[j] == retold(all[j], texts[j])
    &&& forall|j: int| n <= j < all.len() ==> #[trigger] now[j] == all[j]
    &&& frame_kept(current, entries, after, new_entries)
    &&& forall|j: int|
        0 <= j < n ==> (texts[j] matches Some(text) ==> #[trigger] span(after, new_entries, j)
            == value::quoted(encode_utf8(text)))
    &&& forall|j: int|
        0 <= j < entries.len() && (j >= n || texts[j] is None) ==> #[trigger] span(
            after,
            new_entries,
            j,
        ) == span(current, entries, j)
}

/// Nothing is rewritten where nothing is replaced.
proof fn lemma_rewritten_none(current: Seq<u8>, texts: Seq<Option<Seq<char>>>)
    requires
        plain::outline(current) is Some,
    ensures
        rewritten(current, texts, 0, current),
{
}

/// One value is rewritten.
#[verifier::rlimit(30)]
proof fn lemma_rewritten_one(current: Seq<u8>, i: int, text: Seq<char>, next: Seq<u8>)
    requires
        plain::outline(current) is Some,
        0 <= i < plain::outline(current)->Some_0.len(),
        ({
            let entry = dotenv::index_from(current, 0)->Some_0[i];
            next == document::spliced(
                current,
                entry.value_start,
                entry.value_end,
                document::replacement(current, entry, encode_utf8(text)),
            )
        }),
    ensures
        ({
            let all = plain::outline(current)->Some_0;
            let entries = dotenv::index_from(current, 0)->Some_0;
            let new_entries = dotenv::index_from(next, 0)->Some_0;
            &&& plain::outline(next) == Some(all.update(i, (all[i].0, Some(text))))
            &&& dotenv::index_from(next, 0) is Some
            &&& frame_kept(current, entries, next, new_entries)
            &&& span(next, new_entries, i) == value::quoted(encode_utf8(text))
            &&& forall|k: int|
                0 <= k < entries.len() && k != i ==> #[trigger] span(next, new_entries, k) == span(
                    current,
                    entries,
                    k,
                )
            &&& forall|k: int| 0 <= k < i ==> #[trigger] new_entries[k] == entries[k]
            &&& forall|k: int|
                0 <= k < i ==> dotenv::byte_at(next, (#[trigger] entries[k]).value_end, HASH)
                    == dotenv::byte_at(current, entries[k].value_end, HASH)
        }),
{
    let raw = encode_utf8(text);
    readback::lemma_indexed(current, 0);
    let entries = dotenv::index_from(current, 0)->Some_0;
    let entry = entries[i];
    edits::lemma_at(current, 0, i);
    assert(edits::is_replaced(current, next, entry, raw));
    readback::lemma_revalued(current, next, i, text);
    lemma_replaced_frame(current, next, entries, i, raw);
    encode_utf8_valid_utf8(text);
    edits::lemma_replaced_valid(current, next, entry, raw);
    dotenv::law_index_laid_out(current, 0);
    dotenv::lemma_declaration_end(current, entry.start, dotenv::scan_start());
    edits::lemma_dissect(current, entry);
    assert forall|k: int| 0 <= k < i implies dotenv::byte_at(
        next,
        (#[trigger] entries[k]).value_end,
        HASH,
    ) == dotenv::byte_at(current, entries[k].value_end, HASH) by {
        assert(dotenv::placed(current, entries[k]));
        assert(entries[k].end <= entries[i].start);
        assert(next[entries[k].value_end] == current[entries[k].value_end]);
    }
}

/// A value is rewritten first, the ones before it after that.
#[verifier::rlimit(30)]
proof fn lemma_rewritten_chain(
    current: Seq<u8>,
    texts: Seq<Option<Seq<char>>>,
    n: int,
    next: Seq<u8>,
    after: Seq<u8>,
)
    requires
        0 < n <= texts.len(),
        plain::outline(current) is Some,
        plain::outline(current)->Some_0.len() == texts.len(),
        dotenv::index_from(current, 0) is Some,
        dotenv::index_from(current, 0)->Some_0.len() == texts.len(),
        dotenv::index_from(next, 0) is Some,
        texts[n - 1] is Some,
        ({
            let text = texts[n - 1]->Some_0;
            let all = plain::outline(current)->Some_0;
            let entries = dotenv::index_from(current, 0)->Some_0;
            let new_entries = dotenv::index_from(next, 0)->Some_0;
            &&& plain::outline(next) == Some(all.update(n - 1, (all[n - 1].0, Some(text))))
            &&& frame_kept(current, entries, next, new_entries)
            &&& span(next, new_entries, n - 1) == value::quoted(encode_utf8(text))
            &&& forall|k: int|
                0 <= k < entries.len() && k != n - 1 ==> #[trigger] span(next, new_entries, k)
                    == span(current, entries, k)
        }),
        rewritten(next, texts, n - 1, after),
    ensures
        rewritten(current, texts, n, after),
{
    let entries = dotenv::index_from(current, 0)->Some_0;
    let middle = dotenv::index_from(next, 0)->Some_0;
    let last = dotenv::index_from(after, 0)->Some_0;
    let all = plain::outline(current)->Some_0;
    let between = plain::outline(next)->Some_0;
    let now = plain::outline(after)->Some_0;
    lemma_frame_trans(current, entries, next, middle, after, last);
    assert forall|j: int| 0 <= j < n implies #[trigger] now[j] == retold(all[j], texts[j]) by {
        if j == n - 1 {
            assert(now[j] == between[j]);
        } else {
            assert(now[j] == retold(between[j], texts[j]));
        }
    }
    assert forall|j: int| n <= j < all.len() implies #[trigger] now[j] == all[j] by {
        assert(now[j] == between[j]);
    }
    assert forall|j: int| 0 <= j < n implies (texts[j] matches Some(text) ==> #[trigger] span(
        after,
        last,
        j,
    ) == value::quoted(encode_utf8(text))) by {
        if j == n - 1 {
            assert(span(after, last, j) == span(next, middle, j));
        }
    }
    assert forall|j: int|
        0 <= j < entries.len() && (j >= n || texts[j] is None) implies #[trigger] span(
        after,
        last,
        j,
    ) == span(current, entries, j) by {
        assert(span(after, last, j) == span(next, middle, j));
    }
}

/// What rewriting the values of an orderly document makes of it.
proof fn lemma_rewrite(
    source: Seq<u8>,
    entries: Seq<EntryView>,
    texts: Seq<Option<Seq<char>>>,
    n: int,
    replacements: Seq<ReplacementView>,
    current: Seq<u8>,
)
    requires
        0 <= n <= texts.len(),
        entries.len() == texts.len(),
        rewrites(source, entries, texts, n, replacements),
        plain::outline(current) is Some,
        plain::outline(current)->Some_0.len() == texts.len(),
        forall|k: int|
            0 <= k < n ==> #[trigger] dotenv::index_from(current, 0)->Some_0[k] == entries[k],
        forall|k: int|
            0 <= k < n ==> dotenv::byte_at(current, (#[trigger] entries[k]).value_end, HASH)
                == dotenv::byte_at(source, entries[k].value_end, HASH),
    ensures
        rewritten(current, texts, n, protection::replaced(current, replacements)),
    decreases n,
{
    readback::lemma_indexed(current, 0);
    if n == 0 {
        lemma_rewritten_none(current, texts);
    } else {
        match texts[n - 1] {
            None => {
                lemma_rewrite(source, entries, texts, n - 1, replacements, current);
                let after = protection::replaced(current, replacements);
                let all = plain::outline(current)->Some_0;
                let now = plain::outline(after)->Some_0;
                assert forall|j: int| 0 <= j < n implies #[trigger] now[j] == retold(
                    all[j],
                    texts[j],
                ) by {}
            },
            Some(text) => {
                let last = replacements.last();
                let entry = dotenv::index_from(current, 0)->Some_0[n - 1];
                assert(entry == entries[n - 1]);
                assert(document::replacement(current, entry, encode_utf8(text)) == last.value);
                let next = document::spliced(current, last.start, last.end, last.value);
                lemma_rewritten_one(current, n - 1, text, next);
                assert forall|k: int| 0 <= k < n - 1 implies dotenv::byte_at(
                    next,
                    (#[trigger] entries[k]).value_end,
                    HASH,
                ) == dotenv::byte_at(source, entries[k].value_end, HASH) by {
                    assert(dotenv::index_from(current, 0)->Some_0[k] == entries[k]);
                }
                lemma_rewrite(source, entries, texts, n - 1, replacements.drop_last(), next);
                let after = protection::replaced(next, replacements.drop_last());
                assert(after == protection::replaced(current, replacements));
                lemma_rewritten_chain(current, texts, n, next, after);
            },
        }
    }
}

/// Later texts do not matter.
proof fn lemma_rewrites_prefix(
    source: Seq<u8>,
    entries: Seq<EntryView>,
    texts: Seq<Option<Seq<char>>>,
    more: Seq<Option<Seq<char>>>,
    n: int,
    replacements: Seq<ReplacementView>,
)
    requires
        n <= texts.len(),
        n <= more.len(),
        forall|j: int| 0 <= j < n ==> #[trigger] texts[j] == more[j],
    ensures
        rewrites(source, entries, texts, n, replacements) == rewrites(
            source,
            entries,
            more,
            n,
            replacements,
        ),
    decreases n,
{
    if n > 0 {
        assert(texts[n - 1] == more[n - 1]);
        lemma_rewrites_prefix(source, entries, texts, more, n - 1, replacements);
        lemma_rewrites_prefix(source, entries, texts, more, n - 1, replacements.drop_last());
    }
}

/// What a document says of a variable once it is protected: of a value that was read as
/// protected what it said, of any other a value that carries the mark and reveals what was
/// read.
pub open spec fn protected_as(key: XSecResult<Seq<u8>>, read: Pair, before: Told, now: Told) -> bool {
    if value::is_protected(read.1) {
        now == before
    } else {
        &&& now.0 == read.0
        &&& now.1 matches Some(text)
        &&& value::is_protected(text)
        &&& value::revealed(key, read.0, text) == Some(encode_utf8(read.1))
    }
}

/// The texts that protect the values of variables.
proof fn lemma_protect_texts(
    key: XSecResult<Seq<u8>>,
    source: Seq<u8>,
    entries: Seq<EntryView>,
    pairs: Seq<Pair>,
    n: int,
    replacements: Seq<ReplacementView>,
) -> (texts: Seq<Option<Seq<char>>>)
    requires
        0 <= n <= pairs.len(),
        protection::protects_all(key, source, entries, pairs, n, replacements),
    ensures
        texts.len() == n,
        rewrites(source, entries, texts, n, replacements),
        forall|j: int|
            0 <= j < n ==> match #[trigger] texts[j] {
                None => value::is_protected(pairs[j].1),
                Some(text) => !value::is_protected(pairs[j].1) && value::is_protected(text)
                    && value::revealed(key, pairs[j].0, text) == Some(encode_utf8(pairs[j].1)),
            },
        forall|j: int| 0 <= j < n ==> !protection::broken(key, #[trigger] pairs[j]),
    decreases n,
{
    if n == 0 {
        Seq::empty()
    } else if value::is_protected(pairs[n - 1].1) {
        let front = lemma_protect_texts(key, source, entries, pairs, n - 1, replacements);
        let texts = front.push(None);
        lemma_rewrites_prefix(source, entries, front, texts, n - 1, replacements);
        texts
    } else {
        let entry = entries[n - 1];
        let pair = pairs[n - 1];
        let last = replacements.last();
        let nonce = choose|nonce: Seq<u8>|
            {
                let text = #[trigger] value::protected(
                    key->Ok_0,
                    nonce,
                    pair.0,
                    encode_utf8(pair.1),
                );
                &&& key is Ok
                &&& nonce.len() == 12
                &&& last.value == document::replacement(source, entry, encode_utf8(text))
                &&& value::revealed(key, pair.0, text) == Some(encode_utf8(pair.1))
            };
        let text = value::protected(key->Ok_0, nonce, pair.0, encode_utf8(pair.1));
        value::law_protected_form(key->Ok_0, nonce, pair.0, encode_utf8(pair.1));
        let rest = replacements.drop_last();
        let front = lemma_protect_texts(key, source, entries, pairs, n - 1, rest);
        let texts = front.push(Some(text));
        lemma_rewrites_prefix(source, entries, front, texts, n - 1, rest);
        assert(last =~= (ReplacementView {
            start: entry.value_start,
            end: entry.value_end,
            value: document::replacement(source, entry, encode_utf8(text)),
        }));
        texts
    }
}

/// What a reading of an orderly document gives.
pub(crate) proof fn lemma_reading(before: DocumentView, pairs: Seq<Pair>)
    requires
        before.wf(),
        plain::outline(before.source) is Some,
        environment::reads_as(before.source, environment::all_read(pairs)),
    ensures
        ({
            let all = plain::outline(before.source)->Some_0;
            &&& dotenv::index_from(before.source, 0) == Some(before.entries)
            &&& before.entries.len() == pairs.len()
            &&& all.len() == pairs.len()
            &&& forall|i: int|
                0 <= i < pairs.len() ==> (#[trigger] all[i]).0 == pairs[i].0 && (all[i].1
                    matches Some(text) ==> text == pairs[i].1)
        }),
{
    let all = plain::outline(before.source)->Some_0;
    let read = environment::all_read(pairs);
    readback::lemma_same_names(before);
    assert(plain::tells(all, read));
    assert forall|i: int| 0 <= i < pairs.len() implies (#[trigger] all[i]).0 == pairs[i].0 && (
    all[i].1 matches Some(text) ==> text == pairs[i].1) by {
        assert(read[i] == Some(pairs[i]));
    }
}

/// A plain document has one reading.
pub(crate) proof fn lemma_one_reading(before: DocumentView, read: Seq<Option<Pair>>)
    requires
        plain::variables(before.source) is Some,
        environment::reads_as(before.source, read),
    ensures
        read == environment::all_read(plain::variables(before.source)->Some_0),
{
    let all = plain::outline(before.source)->Some_0;
    let pairs = plain::variables(before.source)->Some_0;
    assert(plain::tells(all, read));
    assert forall|i: int| 0 <= i < pairs.len() implies read[i] == #[trigger] environment::all_read(
        pairs,
    )[i] by {
        assert(all[i].1 is Some);
        assert(pairs[i] == (all[i].0, all[i].1->Some_0));
        assert(read[i] == Some((all[i].0, all[i].1->Some_0)));
    }
    assert(read =~= environment::all_read(pairs));
}

pub(crate) proof fn lemma_all_read(a: Seq<Pair>, b: Seq<Pair>)
    requires
        environment::all_read(a) == environment::all_read(b),
    ensures
        a == b,
{
    let (x, y) = (environment::all_read(a), environment::all_read(b));
    assert(x.len() == y.len());
    assert forall|i: int| 0 <= i < a.len() implies #[trigger] a[i] == b[i] by {
        assert(x[i] == y[i]);
    }
    assert(a =~= b);
}

/// What protecting the values of an orderly document makes of it.
proof fn lemma_protect(
    key: XSecResult<Seq<u8>>,
    before: DocumentView,
    pairs: Seq<Pair>,
    replacements: Seq<ReplacementView>,
    after: Seq<u8>,
) -> (now: Seq<Told>)
    requires
        before.wf(),
        plain::outline(before.source) is Some,
        environment::reads_as(before.source, environment::all_read(pairs)),
        protection::protects_all(
            key,
            before.source,
            before.entries,
            pairs,
            protection::common(before.entries, pairs),
            replacements,
        ),
        after == protection::replaced(before.source, replacements),
    ensures
        ({
            let all = plain::outline(before.source)->Some_0;
            &&& plain::outline(after) == Some(now)
            &&& now.len() == pairs.len()
            &&& all.len() == pairs.len()
            &&& forall|i: int|
                0 <= i < pairs.len() ==> protected_as(key, pairs[i], all[i], #[trigger] now[i])
        }),
        forall|i: int| 0 <= i < pairs.len() ==> !protection::broken(key, #[trigger] pairs[i]),
        dotenv::index_of(after) is Some,
        frame_kept(before.source, before.entries, after, dotenv::index_of(after)->Some_0),
{
    let all = plain::outline(before.source)->Some_0;
    lemma_reading(before, pairs);
    let n = pairs.len() as int;
    let texts = lemma_protect_texts(
        key,
        before.source,
        before.entries,
        pairs,
        n,
        replacements,
    );
    lemma_rewrite(before.source, before.entries, texts, n, replacements, before.source);
    let now = plain::outline(after)->Some_0;
    assert forall|i: int| 0 <= i < n implies protected_as(
        key,
        pairs[i],
        all[i],
        #[trigger] now[i],
    ) by {
        assert(now[i] == retold(all[i], texts[i]));
        assert(all[i].0 == pairs[i].0);
    }
    readback::lemma_indexed(after, 0);
    now
}

/// Where every value is protected already, protection replaces nothing.
proof fn lemma_protects_nothing(
    key: XSecResult<Seq<u8>>,
    source: Seq<u8>,
    entries: Seq<EntryView>,
    pairs: Seq<Pair>,
    n: int,
    replacements: Seq<ReplacementView>,
)
    requires
        0 <= n <= pairs.len(),
        forall|i: int| 0 <= i < n ==> value::is_protected((#[trigger] pairs[i]).1),
        protection::protects_all(key, source, entries, pairs, n, replacements),
    ensures
        replacements.len() == 0,
    decreases n,
{
    if n > 0 {
        assert(value::is_protected(pairs[n - 1].1));
        lemma_protects_nothing(key, source, entries, pairs, n - 1, replacements);
    }
}

/// A variable once its document is revealed: a protected value is replaced by what it
/// stands for, any other stays as it was.
pub open spec fn revealed_as(key: XSecResult<Seq<u8>>, before: Pair, after: Pair) -> bool {
    if value::is_protected(before.1) {
        &&& after.0 == before.0
        &&& value::revealed(key, before.0, before.1) == Some(encode_utf8(after.1))
    } else {
        after == before
    }
}

/// The texts that reveal the values of variables.
spec fn revealing(key: XSecResult<Seq<u8>>, pairs: Seq<Pair>) -> Seq<Option<Seq<char>>> {
    Seq::new(
        pairs.len(),
        |i: int|
            if value::is_protected(pairs[i].1) {
                Some(decode_utf8(value::revealed(key, pairs[i].0, pairs[i].1)->Some_0))
            } else {
                None
            },
    )
}

proof fn lemma_reveal_texts(
    key: XSecResult<Seq<u8>>,
    source: Seq<u8>,
    entries: Seq<EntryView>,
    pairs: Seq<Pair>,
    n: int,
)
    requires
        0 <= n <= pairs.len(),
        forall|j: int|
            0 <= j < n ==> !protection::broken(key, #[trigger] pairs[j]) && !protection::unquotable(
                key,
                pairs[j],
            ),
    ensures
        rewrites(
            source,
            entries,
            revealing(key, pairs),
            n,
            protection::revelation(key, source, entries, pairs, n),
        ),
        forall|j: int|
            0 <= j < n ==> match #[trigger] revealing(key, pairs)[j] {
                None => !value::is_protected(pairs[j].1),
                Some(text) => value::is_protected(pairs[j].1) && value::revealed(
                    key,
                    pairs[j].0,
                    pairs[j].1,
                ) == Some(encode_utf8(text)),
            },
    decreases n,
{
    if n > 0 {
        lemma_reveal_texts(key, source, entries, pairs, n - 1);
        let pair = pairs[n - 1];
        assert(!protection::broken(key, pair) && !protection::unquotable(key, pair));
        let all = protection::revelation(key, source, entries, pairs, n);
        if value::is_protected(pair.1) {
            let plaintext = value::revealed(key, pair.0, pair.1)->Some_0;
            decode_utf8_encode_utf8(plaintext);
            assert(all.drop_last() =~= protection::revelation(key, source, entries, pairs, n - 1));
        }
    }
}

/// What revealing the values of a plain document makes of it.
pub(crate) proof fn lemma_reveal(
    key: XSecResult<Seq<u8>>,
    before: DocumentView,
    pairs: Seq<Pair>,
    after: Seq<u8>,
) -> (now: Seq<Pair>)
    requires
        before.wf(),
        plain::variables(before.source) == Some(pairs),
        forall|i: int|
            0 <= i < pairs.len() ==> !protection::broken(key, #[trigger] pairs[i])
                && !protection::unquotable(key, pairs[i]),
        after == protection::replaced(
            before.source,
            protection::revelation(
                key,
                before.source,
                before.entries,
                pairs,
                protection::common(before.entries, pairs),
            ),
        ),
    ensures
        plain::variables(after) == Some(now),
        now.len() == pairs.len(),
        forall|i: int| 0 <= i < pairs.len() ==> revealed_as(key, pairs[i], #[trigger] now[i]),
        dotenv::index_of(after) is Some,
        frame_kept(before.source, before.entries, after, dotenv::index_of(after)->Some_0),
        forall|i: int|
            0 <= i < pairs.len() && value::is_protected(pairs[i].1) ==> #[trigger] span(
                after,
                dotenv::index_of(after)->Some_0,
                i,
            ) == value::quoted(encode_utf8(now[i].1)),
{
    let all = plain::outline(before.source)->Some_0;
    readback::lemma_same_names(before);
    let n = pairs.len() as int;
    let texts = revealing(key, pairs);
    let replacements = protection::revelation(key, before.source, before.entries, pairs, n);
    lemma_reveal_texts(key, before.source, before.entries, pairs, n);
    lemma_rewrite(before.source, before.entries, texts, n, replacements, before.source);
    let told = plain::outline(after)->Some_0;
    assert forall|i: int| 0 <= i < told.len() implies (#[trigger] told[i]).1 is Some by {
        assert(told[i] == retold(all[i], texts[i]));
        assert(all[i].1 is Some);
    }
    let now = plain::variables(after)->Some_0;
    assert forall|i: int| 0 <= i < n implies revealed_as(key, pairs[i], #[trigger] now[i]) by {
        assert(told[i] == retold(all[i], texts[i]));
        assert(all[i].1 is Some);
        assert(pairs[i] == (all[i].0, all[i].1->Some_0));
        assert(now[i] == (told[i].0, told[i].1->Some_0));
    }
    readback::lemma_indexed(after, 0);
    let entries = dotenv::index_of(after)->Some_0;
    assert forall|i: int| 0 <= i < n && value::is_protected(pairs[i].1) implies #[trigger] span(
        after,
        entries,
        i,
    ) == value::quoted(encode_utf8(now[i].1)) by {
        assert(texts[i] is Some);
        assert(told[i] == retold(all[i], texts[i]));
        assert(now[i] == (told[i].0, told[i].1->Some_0));
    }
    now
}

/// A reading holds a variable under its first matching name, which reveals the plaintext;
/// every other variable has its name and, where the document told it, its value.
pub open spec fn holds_value(
    key: XSecResult<Seq<u8>>,
    before: DocumentView,
    variable: Seq<char>,
    plaintext: Seq<u8>,
    now: Seq<Pair>,
) -> bool {
    let all = plain::outline(before.source)->Some_0;
    exists|i: int|
        {
            &&& #[trigger] environment::first_named(before.policy, now, variable, i)
            &&& value::revealed(key, now[i].0, now[i].1) == Some(plaintext)
            &&& now.len() == if before.lacks(variable) {
                all.len() + 1
            } else {
                all.len()
            }
            &&& forall|j: int|
                0 <= j < all.len() && j != i ==> (#[trigger] now[j]).0 == all[j].0 && (all[j].1
                    matches Some(text) ==> now[j].1 == text)
        }
}

/// Where a value that was set stands in a reading.
proof fn lemma_set_place(
    before: DocumentView,
    variable: Seq<char>,
    name: Seq<char>,
    text: Seq<char>,
    told: Seq<Told>,
    now: Seq<Pair>,
) -> (i: int)
    requires
        before.wf(),
        plain::outline(before.source) is Some,
        commands::binding_name(before, variable, name),
        readback::told_with(before, variable, text, told),
        plain::tells(told, environment::all_read(now)),
    ensures
        ({
            let all = plain::outline(before.source)->Some_0;
            &&& environment::first_named(before.policy, now, variable, i)
            &&& now[i] == (name, text)
            &&& now.len() == told.len()
            &&& told.len() == if before.lacks(variable) {
                all.len() + 1
            } else {
                all.len()
            }
            &&& forall|j: int|
                0 <= j < all.len() && j != i ==> (#[trigger] now[j]).0 == all[j].0 && (all[j].1
                    matches Some(text) ==> now[j].1 == text)
        }),
{
    let policy = before.policy;
    let all = plain::outline(before.source)->Some_0;
    let read = environment::all_read(now);
    readback::lemma_same_names(before);
    assert(read.len() == now.len());
    assert forall|j: int| 0 <= j < told.len() implies (#[trigger] now[j]).0 == told[j].0 && (
    told[j].1 matches Some(t) ==> now[j].1 == t) by {
        assert(read[j] == Some(now[j]));
    }
    let i = if before.lacks(variable) {
        all.len() as int
    } else {
        choose|i: int| #[trigger]
            before.first_named(variable, i) && told == all.update(i, (all[i].0, Some(text)))
    };
    if !before.lacks(variable) {
        let k = choose|k: int| #[trigger]
            before.first_named(variable, k) && name == before.entries[k].name;
        assert(before.names(k, variable) && before.names(i, variable));
        assert(k == i);
        assert(before.entries[i].name == all[i].0);
    }
    assert(told[i] == (name, Some(text)));
    assert(now[i].0 == told[i].0);
    assert(environment::named(policy, now, variable, i));
    assert forall|j: int| 0 <= j < i implies !#[trigger] environment::named(
        policy,
        now,
        variable,
        j,
    ) by {
        assert(!before.names(j, variable));
        assert(before.entries[j].name == all[j].0);
        assert(told[j] == all[j]);
        assert(now[j].0 == told[j].0);
    }
    assert forall|j: int| 0 <= j < all.len() && j != i implies (#[trigger] now[j]).0 == all[j].0 && (
    all[j].1 matches Some(text) ==> now[j].1 == text) by {
        assert(told[j] == all[j]);
        assert(now[j].0 == told[j].0);
    }
    i
}

/// What `set` puts into an orderly document is what `get` finds: every reading of the
/// changed document holds the variable under its first matching name, and its value reveals
/// the plaintext that was set. The other variables are read as the document says.
pub proof fn law_set_then_get(
    key: XSecResult<Seq<u8>>,
    before: DocumentView,
    variable: Seq<char>,
    plaintext: Seq<u8>,
    result: CliResult<()>,
    after: DocumentView,
    now: Seq<Pair>,
)
    requires
        before.wf(),
        plain::outline(before.source) is Some,
        dotenv::valid_name(encode_utf8(variable)),
        commands::set_outcome(key, before, variable, plaintext, result, after),
        result is Ok,
        environment::reads_as(after.source, environment::all_read(now)),
    ensures
        holds_value(key, before, variable, plaintext, now),
{
    let name = choose|name: Seq<char>| #[trigger]
        commands::binding_name(before, variable, name) && commands::was_set(
            key,
            before,
            variable,
            name,
            plaintext,
            result,
            after,
        );
    let nonce = choose|nonce: Seq<u8>|
        {
            let text = #[trigger] value::protected(key->Ok_0, nonce, name, plaintext);
            &&& key is Ok
            &&& nonce.len() == 12
            &&& value::revealed(key, name, text) == Some(plaintext)
            &&& document::with_value(before, variable, encode_utf8(text), after.source)
            &&& after.entries == before.entries
            &&& after.policy == before.policy
            &&& commands::validation_outcome(after, result)
        };
    let text = value::protected(key->Ok_0, nonce, name, plaintext);
    let read = environment::all_read(now);
    let told = readback::law_set_reads_back(before, variable, text, after.source, read);
    let i = lemma_set_place(before, variable, name, text, told, now);
    assert(holds_value(key, before, variable, plaintext, now));
}

/// What was removed from an orderly document is gone: where the document was read and
/// declares no name twice, no reading of the changed document has a variable of that name,
/// and all others are there under their names.
pub proof fn law_unset_then_get(
    before: DocumentView,
    pairs: Seq<Pair>,
    variable: Seq<char>,
    after: Seq<u8>,
    now: Seq<Pair>,
)
    requires
        before.wf(),
        plain::outline(before.source) is Some,
        environment::reads_as(before.source, environment::all_read(pairs)),
        environment::accepted(environment::all_read(pairs), before.policy),
        document::without_declaration(before, variable, after),
        environment::reads_as(after, environment::all_read(now)),
    ensures
        environment::absent(before.policy, now, variable),
        now.len() == if before.lacks(variable) {
            pairs.len() as int
        } else {
            pairs.len() - 1
        },
        forall|i: int|
            0 <= i < pairs.len() && !environment::named(before.policy, pairs, variable, i)
                ==> exists|j: int| 0 <= j < now.len() && (#[trigger] now[j]).0 == (
            #[trigger] pairs[i]).0,
{
    let policy = before.policy;
    let all = plain::outline(before.source)->Some_0;
    let (old_read, read) = (environment::all_read(pairs), environment::all_read(now));
    lemma_reading(before, pairs);
    readback::lemma_same_names(before);
    let told = readback::law_unset_reads_back(before, variable, after, read);
    assert(read.len() == now.len());
    assert forall|j: int| 0 <= j < now.len() implies (#[trigger] now[j]).0 == told[j].0 by {
        assert(read[j] == Some(now[j]));
    }
    assert forall|i: int| 0 <= i < pairs.len() implies before.names(i, variable)
        == #[trigger] environment::named(policy, pairs, variable, i) by {
        assert(before.entries[i].name == all[i].0);
        assert(all[i].0 == pairs[i].0);
    }
    if before.lacks(variable) {
        assert forall|j: int| 0 <= j < now.len() implies !#[trigger] environment::named(
            policy,
            now,
            variable,
            j,
        ) by {
            assert(now[j].0 == all[j].0);
            assert(!before.names(j, variable));
            assert(before.entries[j].name == all[j].0);
        }
        assert forall|i: int|
            0 <= i < pairs.len() && !environment::named(policy, pairs, variable, i) implies exists|
            j: int,
        | 0 <= j < now.len() && (#[trigger] now[j]).0 == (#[trigger] pairs[i]).0 by {
            assert(all[i].0 == pairs[i].0);
            assert(now[i].0 == pairs[i].0);
        }
    } else {
        let k = choose|k: int| #[trigger]
            before.first_named(variable, k) && told == all.remove(k);
        assert(before.names(k, variable));
        assert(environment::named(policy, pairs, variable, k));
        assert forall|j: int| 0 <= j < now.len() implies !#[trigger] environment::named(
            policy,
            now,
            variable,
            j,
        ) by {
            let m = if j < k {
                j
            } else {
                j + 1
            };
            assert(now[j].0 == told[j].0);
            assert(told[j] == all[m]);
            assert(all[m].0 == pairs[m].0);
            assert(old_read[k] == Some(pairs[k]));
            assert(old_read[m] == Some(pairs[m]));
            assert(environment::acceptable(old_read, policy, m));
            assert(environment::acceptable(old_read, policy, k));
        }
        assert forall|i: int|
            0 <= i < pairs.len() && !environment::named(policy, pairs, variable, i) implies exists|
            j: int,
        | 0 <= j < now.len() && (#[trigger] now[j]).0 == (#[trigger] pairs[i]).0 by {
            let j = if i < k {
                i
            } else {
                i - 1
            };
            assert(i != k);
            assert(told[j] == all[i]);
            assert(all[i].0 == pairs[i].0);
            assert(now[j].0 == pairs[i].0);
        }
    }
}

/// What a document is rewritten with, and the reading that it was made from.
pub(crate) proof fn lemma_document(
    before: DocumentView,
    made: spec_fn(Seq<Pair>, CliResult<Vec<Replacement>>) -> bool,
    limit: usize,
    too_large: CliError,
    result: CliResult<()>,
    after: DocumentView,
) -> (found: (Seq<Pair>, CliResult<Vec<Replacement>>))
    requires
        protection::document_outcome(before, made, limit, too_large, result, after),
        result is Ok || (plain::variables(before.source) matches Some(pairs)
            && environment::accepted(environment::all_read(pairs), before.policy)),
    ensures
        environment::reading(before.source, environment::all_read(found.0)),
        environment::accepted(environment::all_read(found.0), before.policy),
        made(found.0, found.1),
        match found.1 {
            Err(e) => result == CliResult::<()>::Err(e) && after == before,
            Ok(list) => protection::rewrite_outcome(
                before,
                protection::replaced(
                    before.source,
                    protection::replacement_views(list@),
                ),
                limit,
                too_large,
                result,
                after,
            ),
        },
{
    let read = choose|read: Seq<Option<Pair>>| #[trigger]
        environment::reading(before.source, read) && {
            ||| result matches Err(e) && environment::refused(read, before.policy, e) && after
                == before
            ||| exists|pairs: Seq<Pair>, replacements: CliResult<Vec<Replacement>>|
                {
                    &&& environment::accepted(read, before.policy)
                    &&& read == environment::all_read(pairs)
                    &&& #[trigger] made(pairs, replacements)
                    &&& match replacements {
                        Err(e) => result == CliResult::<()>::Err(e) && after == before,
                        Ok(list) => protection::rewrite_outcome(
                            before,
                            protection::replaced(
                                before.source,
                                protection::replacement_views(list@),
                            ),
                            limit,
                            too_large,
                            result,
                            after,
                        ),
                    }
                }
        };
    if plain::variables(before.source) is Some {
        lemma_one_reading(before, read);
    }
    let (pairs, replacements) = choose|pairs: Seq<Pair>, replacements: CliResult<Vec<Replacement>>|
        {
            &&& environment::accepted(read, before.policy)
            &&& read == environment::all_read(pairs)
            &&& #[trigger] made(pairs, replacements)
            &&& match replacements {
                Err(e) => result == CliResult::<()>::Err(e) && after == before,
                Ok(list) => protection::rewrite_outcome(
                    before,
                    protection::replaced(
                        before.source,
                        protection::replacement_views(list@),
                    ),
                    limit,
                    too_large,
                    result,
                    after,
                ),
            }
        };
    (pairs, replacements)
}

/// Every value that was read as protected is one that the document tells by itself.
pub open spec fn protected_told(pairs: Seq<Pair>, all: Seq<Told>) -> bool {
    forall|i: int|
        0 <= i < pairs.len() && value::is_protected((#[trigger] pairs[i]).1) ==> all[i].1 is Some
}

/// What encryption made of an orderly document that was read as `pairs`: it says `now`.
pub open spec fn encrypted_as(
    key: XSecResult<Seq<u8>>,
    before: DocumentView,
    pairs: Seq<Pair>,
    now: Seq<Told>,
    after: DocumentView,
) -> bool {
    let all = plain::outline(before.source)->Some_0;
    &&& after.wf()
    &&& after.policy == before.policy
    &&& plain::outline(after.source) == Some(now)
    &&& now.len() == pairs.len()
    &&& all.len() == pairs.len()
    &&& forall|i: int|
        0 <= i < pairs.len() ==> (#[trigger] all[i]).0 == pairs[i].0 && (all[i].1 matches Some(text)
            ==> text == pairs[i].1)
    &&& forall|i: int|
        0 <= i < pairs.len() ==> protected_as(key, pairs[i], all[i], #[trigger] now[i])
    &&& forall|i: int| 0 <= i < pairs.len() ==> !protection::broken(key, #[trigger] pairs[i])
    &&& frame_kept(before.source, before.entries, after.source, after.entries)
    &&& after.source.len() <= MAX_ENCRYPTED_ENV_FILE_SIZE
}

proof fn lemma_encrypted(
    key: XSecResult<Seq<u8>>,
    before: DocumentView,
    pairs: Seq<Pair>,
    replacements: Seq<ReplacementView>,
    result: CliResult<()>,
    after: DocumentView,
) -> (now: Seq<Told>)
    requires
        before.wf(),
        plain::outline(before.source) is Some,
        environment::reads_as(before.source, environment::all_read(pairs)),
        protection::protects_all(
            key,
            before.source,
            before.entries,
            pairs,
            protection::common(before.entries, pairs),
            replacements,
        ),
        protection::rewrite_outcome(
            before,
            protection::replaced(before.source, replacements),
            MAX_ENCRYPTED_ENV_FILE_SIZE,
            CliError::UpdatedEnvironmentTooLarge,
            result,
            after,
        ),
        result is Ok,
    ensures
        encrypted_as(key, before, pairs, now, after),
{
    lemma_reading(before, pairs);
    lemma_protect(key, before, pairs, replacements, after.source)
}

/// The values of a document are as they were read once it is encrypted: each variable keeps
/// its name and place and reveals the value that was read, and everything outside the
/// values is kept, comments and blank lines among it. The document stays orderly, and is
/// plain from then on, unless a value that it does not tell by itself was read as protected.
pub proof fn law_encrypt_document(
    key: XSecResult<Seq<u8>>,
    before: DocumentView,
    result: CliResult<()>,
    after: DocumentView,
) -> (found: (Seq<Pair>, Seq<Told>))
    requires
        before.wf(),
        plain::outline(before.source) is Some,
        protection::encryption_outcome(key, before, result, after),
        result is Ok,
    ensures
        environment::reading(before.source, environment::all_read(found.0)),
        environment::accepted(environment::all_read(found.0), before.policy),
        encrypted_as(key, before, found.0, found.1, after),
        protected_told(found.0, plain::outline(before.source)->Some_0) ==> plain::variables(
            after.source,
        ) is Some,
        plain::variables(after.source) matches Some(variables) ==> environment::accepted(
            environment::all_read(variables),
            after.policy,
        ),
{
    let all = plain::outline(before.source)->Some_0;
    let (pairs, replacements) = lemma_document(
        before,
        protection::protection_made(key, before),
        MAX_ENCRYPTED_ENV_FILE_SIZE,
        CliError::UpdatedEnvironmentTooLarge,
        result,
        after,
    );
    assert(protection::protection_outcome(
        key,
        before.source,
        before.entries,
        pairs,
        replacements,
    ));
    let list = protection::replacement_views(replacements->Ok_0@);
    let now = lemma_encrypted(key, before, pairs, list, result, after);
    lemma_becomes_plain(key, pairs, all, now, after.source);
    if plain::variables(after.source) is Some {
        lemma_validated(before, result, after);
    }
    (pairs, now)
}

/// A document is plain where every value was told or is protected now.
proof fn lemma_becomes_plain(
    key: XSecResult<Seq<u8>>,
    pairs: Seq<Pair>,
    all: Seq<Told>,
    now: Seq<Told>,
    after: Seq<u8>,
)
    requires
        now.len() == pairs.len(),
        plain::outline(after) == Some(now),
        forall|i: int|
            0 <= i < pairs.len() ==> protected_as(key, pairs[i], all[i], #[trigger] now[i]),
    ensures
        protected_told(pairs, all) ==> plain::variables(after) is Some,
{
    if protected_told(pairs, all) {
        assert forall|i: int| 0 <= i < now.len() implies (#[trigger] now[i]).1 is Some by {
            assert(protected_as(key, pairs[i], all[i], now[i]));
            assert(value::is_protected(pairs[i].1) ==> all[i].1 is Some);
        }
    }
}

/// A rewritten document that is plain was found readable.
proof fn lemma_validated(before: DocumentView, result: CliResult<()>, after: DocumentView)
    requires
        protection::rewrite_outcome(
            before,
            after.source,
            MAX_ENCRYPTED_ENV_FILE_SIZE,
            CliError::UpdatedEnvironmentTooLarge,
            result,
            after,
        ),
        result is Ok,
        plain::variables(after.source) is Some,
    ensures
        environment::accepted(
            environment::all_read(plain::variables(after.source)->Some_0),
            after.policy,
        ),
{
    let read = choose|read: Seq<Option<Pair>>| #[trigger]
        environment::reading(after.source, read) && environment::accepted(read, before.policy);
    lemma_one_reading(after, read);
}

/// Once an orderly document was encrypted and is plain, every value is protected and
/// reveals what was read before.
proof fn lemma_all_protected(
    key: XSecResult<Seq<u8>>,
    before: DocumentView,
    pairs: Seq<Pair>,
    told: Seq<Told>,
    after: DocumentView,
    i: int,
)
    requires
        plain::outline(before.source) is Some,
        plain::outline(before.source)->Some_0.len() == pairs.len(),
        plain::variables(after.source) is Some,
        plain::outline(after.source) == Some(told),
        told.len() == pairs.len(),
        0 <= i < pairs.len(),
        plain::outline(before.source)->Some_0[i].0 == pairs[i].0,
        plain::outline(before.source)->Some_0[i].1 matches Some(text) ==> text == pairs[i].1,
        protected_as(key, pairs[i], plain::outline(before.source)->Some_0[i], told[i]),
        !protection::broken(key, pairs[i]),
    ensures
        ({
            let now = plain::variables(after.source)->Some_0;
            &&& now.len() == pairs.len()
            &&& now[i].0 == pairs[i].0
            &&& value::is_protected(now[i].1)
            &&& value::revealed(key, now[i].0, now[i].1) == value::revealed(
                key,
                pairs[i].0,
                pairs[i].1,
            )
            &&& value::revealed(key, now[i].0, now[i].1) is Some
            &&& value::is_protected(pairs[i].1) ==> plain::outline(before.source)->Some_0[i].1
                is Some
        }),
{
    let now = plain::variables(after.source)->Some_0;
    assert(told[i].1 is Some);
    assert(now[i] == (told[i].0, told[i].1->Some_0));
}

/// To encrypt a document twice is to encrypt it once: where the document is plain after the
/// first time, the second time succeeds and changes not a byte.
pub proof fn law_encrypt_document_twice(
    key: XSecResult<Seq<u8>>,
    before: DocumentView,
    first: CliResult<()>,
    between: DocumentView,
    second: CliResult<()>,
    after: DocumentView,
)
    requires
        before.wf(),
        plain::outline(before.source) is Some,
        protection::encryption_outcome(key, before, first, between),
        first is Ok,
        plain::variables(between.source) is Some,
        protection::encryption_outcome(key, between, second, after),
    ensures
        second is Ok,
        after == between,
{
    let now = plain::variables(between.source)->Some_0;
    let (pairs, told) = law_encrypt_document(key, before, first, between);
    let (read, replacements) = lemma_document(
        between,
        protection::protection_made(key, between),
        MAX_ENCRYPTED_ENV_FILE_SIZE,
        CliError::UpdatedEnvironmentTooLarge,
        second,
        after,
    );
    assert(protection::protection_outcome(
        key,
        between.source,
        between.entries,
        read,
        replacements,
    ));
    lemma_one_reading(between, environment::all_read(read));
    lemma_all_read(read, now);
    lemma_reading(between, now);
    assert forall|i: int| 0 <= i < now.len() implies value::is_protected((#[trigger] now[i]).1)
        && !protection::broken(key, now[i]) by {
        assert(protected_as(key, pairs[i], plain::outline(before.source)->Some_0[i], told[i]));
        assert(!protection::broken(key, pairs[i]));
        assert(plain::outline(before.source)->Some_0[i].0 == pairs[i].0);
        lemma_all_protected(key, before, pairs, told, between, i);
    }
    match replacements {
        Err(e) => {
            let i = choose|i: int|
                0 <= i < now.len() && protection::protection_failure(key, #[trigger] now[i], e);
            assert(value::is_protected(now[i].1) && !protection::broken(key, now[i]));
        },
        Ok(list) => {
            let again = protection::replacement_views(list@);
            lemma_protects_nothing(
                key,
                between.source,
                between.entries,
                now,
                now.len() as int,
                again,
            );
            assert(protection::replaced(between.source, again) == between.source);
            lemma_rewrite_stays(between, second, after, now);
        },
    }
}

/// A plain document that is rewritten as itself stays itself.
proof fn lemma_rewrite_stays(
    before: DocumentView,
    result: CliResult<()>,
    after: DocumentView,
    pairs: Seq<Pair>,
)
    requires
        before.wf(),
        plain::variables(before.source) == Some(pairs),
        before.source.len() <= MAX_ENCRYPTED_ENV_FILE_SIZE,
        environment::accepted(environment::all_read(pairs), before.policy),
        protection::rewrite_outcome(
            before,
            before.source,
            MAX_ENCRYPTED_ENV_FILE_SIZE,
            CliError::UpdatedEnvironmentTooLarge,
            result,
            after,
        ),
    ensures
        result is Ok,
        after == before,
{
    let read = choose|read: Seq<Option<Pair>>| #[trigger]
        environment::reading(before.source, read) && match result {
            Ok(_) => environment::accepted(read, before.policy),
            Err(e) => environment::refused(read, before.policy, e),
        };
    lemma_one_reading(before, read);
    assert(after =~= before);
}

/// Variables with the names of acceptable ones, and without NUL, are acceptable.
proof fn lemma_accepted(policy: NamePolicy, pairs: Seq<Pair>, now: Seq<Pair>)
    requires
        environment::accepted(environment::all_read(pairs), policy),
        now.len() == pairs.len(),
        forall|i: int|
            0 <= i < pairs.len() ==> (#[trigger] now[i]).0 == pairs[i].0 && value::quotable(
                encode_utf8(now[i].1),
            ),
    ensures
        environment::accepted(environment::all_read(now), policy),
{
    let (x, y) = (environment::all_read(pairs), environment::all_read(now));
    assert forall|i: int| 0 <= i < y.len() implies #[trigger] environment::acceptable(
        y,
        policy,
        i,
    ) by {
        assert(environment::acceptable(x, policy, i));
        assert(now[i].0 == pairs[i].0);
        environment::lemma_nul(now[i].1);
        assert forall|j: int| 0 <= j < i implies (#[trigger] y[j] matches Some(earlier)
            ==> environment::normalized(policy, earlier.0) != environment::normalized(
            policy,
            now[i].0,
        )) by {
            assert(x[j] == Some(pairs[j]));
            assert(now[j].0 == pairs[j].0);
        }
    }
}

/// A document that is encrypted and then decrypted says what was read from it: each variable
/// has its name, its place and the value that it stood for, and everything outside the
/// values is kept. The document is plain after encryption. Decryption fails only where the
/// document became too long. A value that was protected from the beginning has to stand for
/// one that can stand in a document.
#[verifier::rlimit(60)]
pub proof fn law_encrypt_then_decrypt_document(
    key: XSecResult<Seq<u8>>,
    before: DocumentView,
    first: CliResult<()>,
    between: DocumentView,
    second: CliResult<()>,
    after: DocumentView,
) -> (found: (Seq<Pair>, Seq<Pair>))
    requires
        before.wf(),
        plain::outline(before.source) is Some,
        forall|i: int|
            0 <= i < plain::outline(before.source)->Some_0.len() ==> (
            #[trigger] plain::outline(before.source)->Some_0[i].1 matches Some(text)
                ==> !protection::unquotable(
                key,
                (plain::outline(before.source)->Some_0[i].0, text),
            )),
        protection::encryption_outcome(key, before, first, between),
        first is Ok,
        plain::variables(between.source) is Some,
        protection::decryption_outcome(key, between, second, after),
    ensures
        ({
            let (pairs, now) = found;
            &&& environment::reading(before.source, environment::all_read(pairs))
            &&& environment::accepted(environment::all_read(pairs), before.policy)
            &&& second is Ok == (after.source.len() <= MAX_ENV_FILE_SIZE)
            &&& second matches Err(e) ==> e is DecryptedEnvironmentTooLarge
            &&& after.wf()
            &&& after.policy == before.policy
            &&& plain::variables(after.source) == Some(now)
            &&& now.len() == pairs.len()
            &&& forall|i: int|
                0 <= i < pairs.len() ==> (#[trigger] now[i]).0 == pairs[i].0 && value::revealed(
                    key,
                    pairs[i].0,
                    pairs[i].1,
                ) == Some(encode_utf8(now[i].1))
            &&& forall|i: int|
                0 <= i < pairs.len() && !value::is_protected((#[trigger] pairs[i]).1) ==> now[i]
                    == pairs[i]
            &&& frame_kept(before.source, before.entries, after.source, after.entries)
            &&& forall|i: int|
                0 <= i < pairs.len() ==> #[trigger] span(after.source, after.entries, i)
                    == value::quoted(encode_utf8(now[i].1))
        }),
{
    let all = plain::outline(before.source)->Some_0;
    let middle = plain::variables(between.source)->Some_0;
    let (pairs, told) = law_encrypt_document(key, before, first, between);
    let (read, replacements) = lemma_document(
        between,
        protection::revelation_made(key, between),
        MAX_ENV_FILE_SIZE,
        CliError::DecryptedEnvironmentTooLarge,
        second,
        after,
    );
    assert(protection::revelation_outcome(
        key,
        between.source,
        between.entries,
        read,
        replacements,
    ));
    lemma_one_reading(between, environment::all_read(read));
    lemma_all_read(read, middle);
    lemma_reading(between, middle);
    assert forall|i: int| 0 <= i < middle.len() implies value::is_protected(
        (#[trigger] middle[i]).1,
    ) && middle[i].0 == pairs[i].0 && value::revealed(key, middle[i].0, middle[i].1)
        == value::revealed(key, pairs[i].0, pairs[i].1) && (value::revealed(
        key,
        middle[i].0,
        middle[i].1,
    ) matches Some(plaintext) && value::quotable(plaintext)) by {
        assert(protected_as(key, pairs[i], all[i], told[i]));
        assert(!protection::broken(key, pairs[i]));
        assert(all[i].0 == pairs[i].0);
        lemma_all_protected(key, before, pairs, told, between, i);
        if value::is_protected(pairs[i].1) {
            assert(all[i].1 == Some(pairs[i].1));
            assert(!protection::unquotable(key, pairs[i]));
        } else {
            lemma_read_quotable(before.policy, pairs, i);
        }
    }
    assert(replacements is Ok);
    let list = protection::replacement_views(replacements->Ok_0@);
    let source = protection::replaced(between.source, list);
    let now = lemma_reveal(key, between, middle, source);
    assert forall|i: int| 0 <= i < pairs.len() implies (#[trigger] now[i]).0 == pairs[i].0
        && value::revealed(key, pairs[i].0, pairs[i].1) == Some(encode_utf8(now[i].1))
        && value::quotable(encode_utf8(now[i].1)) by {
        assert(value::is_protected(middle[i].1));
        assert(revealed_as(key, middle[i], now[i]));
    }
    assert forall|i: int|
        0 <= i < pairs.len() && !value::is_protected((#[trigger] pairs[i]).1) implies now[i]
        == pairs[i] by {
        assert(now[i].0 == pairs[i].0);
        bytes::lemma_text_injective(now[i].1, pairs[i].1);
    }
    lemma_accepted(before.policy, pairs, now);
    assert(after.source == source);
    lemma_decrypted(between, source, now, second, after);
    lemma_frame_trans(
        before.source,
        before.entries,
        between.source,
        between.entries,
        after.source,
        after.entries,
    );
    assert forall|i: int| 0 <= i < pairs.len() implies #[trigger] span(
        after.source,
        after.entries,
        i,
    ) == value::quoted(encode_utf8(now[i].1)) by {
        assert(value::is_protected(middle[i].1));
    }
    (pairs, now)
}

/// A value that was read can stand in a document.
proof fn lemma_read_quotable(policy: NamePolicy, pairs: Seq<Pair>, i: int)
    requires
        environment::accepted(environment::all_read(pairs), policy),
        0 <= i < pairs.len(),
    ensures
        value::quotable(encode_utf8(pairs[i].1)),
{
    assert(environment::acceptable(environment::all_read(pairs), policy, i));
    environment::lemma_nul(pairs[i].1);
    encode_utf8_valid_utf8(pairs[i].1);
}

/// How a document that was rewritten to a plain one is found.
proof fn lemma_decrypted(
    before: DocumentView,
    source: Seq<u8>,
    now: Seq<Pair>,
    result: CliResult<()>,
    after: DocumentView,
)
    requires
        plain::variables(source) == Some(now),
        dotenv::index_of(source) is Some,
        environment::accepted(environment::all_read(now), before.policy),
        protection::rewrite_outcome(
            before,
            source,
            MAX_ENV_FILE_SIZE,
            CliError::DecryptedEnvironmentTooLarge,
            result,
            after,
        ),
    ensures
        result is Ok == (source.len() <= MAX_ENV_FILE_SIZE),
        result matches Err(e) ==> e is DecryptedEnvironmentTooLarge,
        after.wf(),
{
    if source.len() <= MAX_ENV_FILE_SIZE {
        let read = choose|read: Seq<Option<Pair>>| #[trigger]
            environment::reading(source, read) && match result {
                Ok(_) => environment::accepted(read, before.policy),
                Err(e) => environment::refused(read, before.policy, e),
            };
        lemma_one_reading(after, read);
    }
}

/// A plain document whose values stand in double quotes, as the tool writes them, is after
/// encryption and decryption what it was, byte for byte.
pub proof fn law_encrypt_then_decrypt_restores(
    key: XSecResult<Seq<u8>>,
    before: DocumentView,
    first: CliResult<()>,
    between: DocumentView,
    second: CliResult<()>,
    after: DocumentView,
)
    requires
        before.wf(),
        plain::variables(before.source) is Some,
        forall|i: int|
            0 <= i < before.entries.len() ==> {
                let pair = plain::variables(before.source)->Some_0[i];
                &&& !value::is_protected(pair.1)
                &&& #[trigger] span(before.source, before.entries, i) == value::quoted(
                    encode_utf8(pair.1),
                )
            },
        protection::encryption_outcome(key, before, first, between),
        first is Ok,
        protection::decryption_outcome(key, between, second, after),
    ensures
        after == before,
        second is Ok == (before.source.len() <= MAX_ENV_FILE_SIZE),
{
    let a = before.source;
    let entries = before.entries;
    let pairs = plain::variables(a)->Some_0;
    let all = plain::outline(a)->Some_0;
    readback::lemma_same_names(before);
    assert forall|i: int| 0 <= i < pairs.len() implies !value::is_protected(
        (#[trigger] pairs[i]).1,
    ) && all[i] == (pairs[i].0, Some(pairs[i].1)) by {
        assert(span(a, entries, i) == value::quoted(encode_utf8(pairs[i].1)));
        assert(all[i].1 is Some);
    }
    let (once, _) = law_encrypt_document(key, before, first, between);
    lemma_one_reading(before, environment::all_read(once));
    lemma_all_read(once, pairs);
    let (read, now) = law_encrypt_then_decrypt_document(
        key,
        before,
        first,
        between,
        second,
        after,
    );
    lemma_one_reading(before, environment::all_read(read));
    lemma_all_read(read, pairs);
    let last = after.entries;
    dotenv::law_index_laid_out(a, 0);
    dotenv::law_index_laid_out(after.source, 0);
    assert forall|i: int| 0 <= i < entries.len() implies #[trigger] span(a, entries, i) == span(
        after.source,
        last,
        i,
    ) by {
        assert(!value::is_protected(pairs[i].1));
        assert(now[i].0 == pairs[i].0);
        assert(span(after.source, last, i) == value::quoted(encode_utf8(now[i].1)));
    }
    assert forall|k: int| 0 <= k <= entries.len() implies #[trigger] piece(a, entries, k) == piece(
        after.source,
        last,
        k,
    ) by {
        assert(kept(k, piece(a, entries, k), piece(after.source, last, k)));
        if k > 0 && dotenv::byte_at(piece(a, entries, k), 0, HASH) {
            let entry = entries[k - 1];
            assert(dotenv::placed(a, entry));
            assert(piece(a, entries, k)[0] == a[entry.value_end]);
            lemma_comment_before(a, entries, k - 1);
            assert(span(a, entries, k - 1).len() >= 2);
        }
    }
    lemma_same_source(a, entries, after.source, last);
    assert(after =~= before);
}

} // verus!
