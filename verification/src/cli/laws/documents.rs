//! What a change of a document does to its bytes, row for row, and what is found in it.
use vstd::prelude::*;
use vstd::utf8::*;

use crate::ciphertext;
use crate::cli::base64url;
use crate::cli::commands;
use crate::cli::commands::{get_value, remove_value, set_value};
use crate::cli::document;
use crate::cli::document::{load_environment_document, DocumentView, EnvDocument};
use crate::cli::dotenv;
use crate::cli::environment;
use crate::cli::environment::{NamePolicy, Pair};
use crate::cli::error::{CliError, CliResult};
use crate::cli::laws::layouts;
use crate::cli::laws::layouts::{Line, Row};
use crate::cli::laws::names;
use crate::cli::laws::values;
use crate::cli::plain;
use crate::cli::protection;
use crate::cli::protection::{
    decrypt_environment_document, decrypt_environment_values, encrypt_environment_document,
    reveal_environment,
};
use crate::cli::rewriting;
use crate::cli::value;
use crate::crypto;
use crate::error::{XSecError, XSecResult};
use crate::secret::ZeroizingBytes;
use crate::xsec::XSec;

verus! {

/// A row declares a variable of a name.
pub open spec fn declares(policy: NamePolicy, row: Row, key: Seq<char>) -> bool {
    row matches Row::Declares(line) && names::same_variable(policy, line.name, key)
}

/// The first row that declares a variable of a name.
pub open spec fn first_declared(policy: NamePolicy, rows: Seq<Row>, key: Seq<char>, i: int) -> bool {
    &&& 0 <= i < rows.len()
    &&& declares(policy, rows[i], key)
    &&& forall|j: int| 0 <= j < i ==> !declares(policy, #[trigger] rows[j], key)
}

/// No row declares a variable of a name.
pub open spec fn undeclared(policy: NamePolicy, rows: Seq<Row>, key: Seq<char>) -> bool {
    forall|j: int| 0 <= j < rows.len() ==> !declares(policy, #[trigger] rows[j], key)
}

/// Where the declaration of a row stands among the entries.
proof fn lemma_place(rows: Seq<Row>, at: int, i: int) -> (e: int)
    requires
        0 <= i < rows.len(),
        rows[i] is Declares,
    ensures
        ({
            let all = layouts::places(rows, at);
            &&& 0 <= e < all.len()
            &&& all[e] == layouts::place(
                rows[i]->Declares_0,
                at + layouts::text_of(rows.take(i)).len(),
            )
            &&& forall|k: int|
                0 <= k < e ==> exists|r: int|
                    0 <= r < i && (#[trigger] rows[r] matches Row::Declares(line) && line.name == (
                    #[trigger] all[k]).name)
        }),
    decreases rows.len(),
{
    let rest = rows.skip(1);
    let next = at + layouts::row_text(rows[0]).len();
    let all = layouts::places(rows, at);
    if i == 0 {
        assert(rows.take(0) =~= Seq::empty());
        0
    } else {
        let e = lemma_place(rest, next, i - 1);
        let behind = layouts::places(rest, next);
        assert(rest[i - 1] == rows[i]);
        assert(rows.take(i).skip(1) =~= rest.take(i - 1));
        assert(rows.take(i)[0] == rows[0]);
        let shift: int = if rows[0] is Declares {
            1
        } else {
            0
        };
        assert forall|k: int| 0 <= k < e + shift implies exists|r: int|
            0 <= r < i && (#[trigger] rows[r] matches Row::Declares(line) && line.name == (
            #[trigger] all[k]).name) by {
            if k < shift {
                assert(rows[0] matches Row::Declares(line) && line.name == all[k].name);
            } else {
                assert(all[k] == behind[k - shift]);
                let r = choose|r: int|
                    0 <= r < i - 1 && (#[trigger] rest[r] matches Row::Declares(line) && line.name
                        == behind[k - shift].name);
                assert(rows[r + 1] == rest[r]);
            }
        }
        assert(all[e + shift] == behind[e]);
        e + shift
    }
}

/// Every entry is the declaration of a row.
proof fn lemma_placed(rows: Seq<Row>, at: int, k: int) -> (r: int)
    requires
        0 <= k < layouts::places(rows, at).len(),
    ensures
        0 <= r < rows.len(),
        rows[r] matches Row::Declares(line) && line.name == layouts::places(rows, at)[k].name,
    decreases rows.len(),
{
    let rest = rows.skip(1);
    let next = at + layouts::row_text(rows[0]).len();
    match rows[0] {
        Row::Declares(line) => {
            if k == 0 {
                0
            } else {
                let r = lemma_placed(rest, next, k - 1);
                assert(rest[r] == rows[r + 1]);
                r + 1
            }
        },
        _ => {
            let r = lemma_placed(rest, next, k);
            assert(rest[r] == rows[r + 1]);
            r + 1
        },
    }
}

/// A document is what stands before a row, the row, and what stands behind it.
proof fn lemma_around(rows: Seq<Row>, i: int)
    requires
        0 <= i < rows.len(),
    ensures
        layouts::text_of(rows) == layouts::text_of(rows.take(i)) + layouts::row_text(rows[i])
            + layouts::text_of(rows.skip(i + 1)),
    decreases rows.len(),
{
    if i == 0 {
        assert(rows.take(0) =~= Seq::empty());
        assert(layouts::text_of(rows) =~= layouts::text_of(rows.take(0)) + layouts::row_text(
            rows[0],
        ) + layouts::text_of(rows.skip(1)));
    } else {
        let rest = rows.skip(1);
        lemma_around(rest, i - 1);
        assert(rest[i - 1] == rows[i]);
        assert(rest.skip(i) =~= rows.skip(i + 1));
        assert(rows.take(i).skip(1) =~= rest.take(i - 1));
        assert(rows.take(i)[0] == rows[0]);
        assert(layouts::text_of(rows) =~= layouts::text_of(rows.take(i)) + layouts::row_text(
            rows[i],
        ) + layouts::text_of(rows.skip(i + 1)));
    }
}

/// What a document finds under a name is what its rows declare.
proof fn lemma_found(document: DocumentView, rows: Seq<Row>, key: Seq<char>)
    requires
        document.wf(),
        document.source == layouts::text_of(rows),
        layouts::sound(rows),
    ensures
        document.entries == layouts::places(rows, 0),
        document.lacks(key) == undeclared(document.policy, rows, key),
        forall|i: int| #[trigger]
            first_declared(document.policy, rows, key, i) ==> exists|e: int| #[trigger]
                document.first_named(key, e) && document.entries[e] == layouts::place(
                    rows[i]->Declares_0,
                    layouts::text_of(rows.take(i)).len() as int,
                ),
{
    let policy = document.policy;
    let all = layouts::places(rows, 0);
    layouts::lemma_rows(document.source, rows);
    assert(document.entries == all);
    assert forall|e: int| 0 <= e < all.len() implies #[trigger] document.names(e, key)
        == names::same_variable(policy, all[e].name, key) by {
        names::lemma_same_variable(policy, all[e].name, key);
    }
    if document.lacks(key) {
        assert forall|j: int| 0 <= j < rows.len() implies !declares(
            policy,
            #[trigger] rows[j],
            key,
        ) by {
            if declares(policy, rows[j], key) {
                let e = lemma_place(rows, 0, j);
                assert(document.names(e, key));
            }
        }
    } else {
        let e = choose|e: int| 0 <= e < document.entries.len() && document.names(e, key);
        let r = lemma_placed(rows, 0, e);
        assert(declares(policy, rows[r], key));
    }
    assert forall|i: int| #[trigger] first_declared(policy, rows, key, i) implies exists|e: int|
        #[trigger]
        document.first_named(key, e) && document.entries[e] == layouts::place(
            rows[i]->Declares_0,
            layouts::text_of(rows.take(i)).len() as int,
        ) by {
        let e = lemma_place(rows, 0, i);
        assert(document.names(e, key));
        assert forall|k: int| 0 <= k < e implies !#[trigger] document.names(k, key) by {
            let r = choose|r: int|
                0 <= r < i && (#[trigger] rows[r] matches Row::Declares(line) && line.name
                    == all[k].name);
            assert(!declares(policy, rows[r], key));
        }
        assert(document.first_named(key, e));
    }
}

/// Only one entry is the first of a name.
proof fn lemma_one_first(document: DocumentView, key: Seq<char>, a: int, b: int)
    requires
        document.first_named(key, a),
        document.first_named(key, b),
    ensures
        a == b,
{
    if a < b {
        assert(!document.names(a, key));
    } else if b < a {
        assert(!document.names(b, key));
    }
}

/// What follows the value of a line.
pub open spec fn behind_value(line: Line) -> Seq<u8> {
    line.gap + layouts::comment_text(line.comment) + line.ending
}

/// A comment follows a value at once only where the value is empty.
proof fn lemma_hash(rows: Seq<Row>, i: int)
    requires
        layouts::sound(rows),
        0 <= i < rows.len(),
        rows[i] is Declares,
    ensures
        ({
            let line = rows[i]->Declares_0;
            let entry = layouts::place(line, layouts::text_of(rows.take(i)).len() as int);
            dotenv::byte_at(layouts::text_of(rows), entry.value_end, 0x23) == (line.value.len() == 0
                && line.comment is Some)
        }),
{
    let line = rows[i]->Declares_0;
    let s = layouts::text_of(rows);
    let at = layouts::text_of(rows.take(i)).len() as int;
    let entry = layouts::place(line, at);
    let (head, text) = (layouts::head_text(line), layouts::value_text(line.value));
    let tail = behind_value(line);
    let after = layouts::text_of(rows.skip(i + 1));
    lemma_around(rows, i);
    assert(layouts::sound_row(rows[i], i + 1 == rows.len()));
    assert(layouts::row_text(rows[i]) =~= head + text + tail);
    assert(s =~= layouts::text_of(rows.take(i)) + head + text + (tail + after));
    let x = entry.value_end;
    if tail.len() > 0 {
        assert(s[x] == tail[0]);
        if line.gap.len() > 0 {
            assert(tail[0] == line.gap[0]);
        } else if line.comment is Some {
            assert(tail[0] == 0x23);
        } else {
            assert(tail =~= line.ending);
        }
    } else {
        assert(rows.skip(i + 1) =~= Seq::empty());
        assert(after.len() == 0);
        assert(x == s.len());
        if line.comment is Some {
            assert(tail.len() > 0);
        }
    }
}

/// To set a variable that is declared replaces the value of its first declaration by the new
/// one in double quotes, with a blank behind it where a comment would follow at once, and
/// keeps every other byte. Only a document of more than 16777216 bytes is refused.
pub proof fn law_value_replaced(
    rows: Seq<Row>,
    i: int,
    document: &mut EnvDocument,
    key: &str,
    new: &[u8],
    result: CliResult<()>,
)
    requires
        old(document)@.wf(),
        old(document)@.source == layouts::text_of(rows),
        layouts::sound(rows),
        first_declared(old(document)@.policy, rows, key@, i),
        valid_utf8(new@),
        forall|k: int| 0 <= k < new@.len() ==> #[trigger] new@[k] != 0,
        call_ensures(EnvDocument::set, (document, key, new), result),
    ensures
        ({
            let line = rows[i]->Declares_0;
            let now = final(document)@.source;
            &&& exists|text: Seq<u8>| #[trigger]
                values::quotes(text, new@) && now == spliced_row(rows, i, text)
            &&& result is Ok == (now.len() <= 16_777_216)
            &&& result matches Err(e) ==> e is UpdatedEnvironmentTooLarge
        }),
{
    lemma_quotable(new@);
    values::lemma_quotes(new@);
    lemma_row_set(old(document)@, rows, i, key@, new@, final(document)@.source);
}

/// The value of a row is what is replaced.
proof fn lemma_row_set(
    before: DocumentView,
    rows: Seq<Row>,
    i: int,
    key: Seq<char>,
    new: Seq<u8>,
    now: Seq<u8>,
)
    requires
        before.wf(),
        before.source == layouts::text_of(rows),
        layouts::sound(rows),
        first_declared(before.policy, rows, key, i),
        document::with_value(before, key, new, now),
    ensures
        now == spliced_row(rows, i, value::quoted(new)),
{
    let a = before.source;
    let line = rows[i]->Declares_0;
    lemma_found(before, rows, key);
    let e = choose|e: int| #[trigger]
        before.first_named(key, e) && before.entries[e] == layouts::place(
            line,
            layouts::text_of(rows.take(i)).len() as int,
        );
    assert(!before.lacks(key)) by {
        assert(before.names(e, key));
    }
    let f = choose|f: int| #[trigger]
        before.first_named(key, f) && now == document::spliced(
            a,
            before.entries[f].value_start,
            before.entries[f].value_end,
            document::replacement(a, before.entries[f], new),
        );
    lemma_one_first(before, key, e, f);
    lemma_spliced(rows, i, new);
}

/// A document with another text for the value of a row.
pub open spec fn spliced_row(rows: Seq<Row>, i: int, text: Seq<u8>) -> Seq<u8> {
    let line = rows[i]->Declares_0;
    layouts::text_of(rows.take(i)) + layouts::head_text(line) + text + (if line.value.len() == 0
        && line.comment is Some {
        seq![0x20u8]
    } else {
        Seq::empty()
    }) + behind_value(line) + layouts::text_of(rows.skip(i + 1))
}

proof fn lemma_spliced(rows: Seq<Row>, i: int, new: Seq<u8>)
    requires
        layouts::sound(rows),
        0 <= i < rows.len(),
        rows[i] is Declares,
    ensures
        ({
            let a = layouts::text_of(rows);
            let entry = layouts::place(
                rows[i]->Declares_0,
                layouts::text_of(rows.take(i)).len() as int,
            );
            document::spliced(
                a,
                entry.value_start,
                entry.value_end,
                document::replacement(a, entry, new),
            ) == spliced_row(rows, i, value::quoted(new))
        }),
{
    let a = layouts::text_of(rows);
    let line = rows[i]->Declares_0;
    let (first, last) = (layouts::text_of(rows.take(i)), layouts::text_of(rows.skip(i + 1)));
    let (head, text) = (layouts::head_text(line), layouts::value_text(line.value));
    let entry = layouts::place(line, first.len() as int);
    let quoted = value::quoted(new);
    let tail = behind_value(line);
    let space: Seq<u8> = if line.value.len() == 0 && line.comment is Some {
        seq![0x20u8]
    } else {
        Seq::empty()
    };
    lemma_hash(rows, i);
    lemma_around(rows, i);
    assert(layouts::row_text(rows[i]) =~= head + text + tail);
    lemma_cut_out(first, head, text, tail, last, quoted, space);
    assert(document::replacement(a, entry, new) =~= quoted + space);
}

/// A text taken out from between others, and two put in its place.
proof fn lemma_cut_out(
    first: Seq<u8>,
    head: Seq<u8>,
    text: Seq<u8>,
    tail: Seq<u8>,
    last: Seq<u8>,
    new: Seq<u8>,
    space: Seq<u8>,
)
    ensures
        document::spliced(
            first + (head + text + tail) + last,
            (first.len() + head.len()) as int,
            (first.len() + head.len() + text.len()) as int,
            new + space,
        ) == first + head + new + space + tail + last,
{
    let a = first + (head + text + tail) + last;
    let x = (first.len() + head.len()) as int;
    assert(a.take(x) =~= first + head);
    assert(a.skip(x + text.len()) =~= tail + last);
    assert((first + head) + (new + space) + (tail + last) =~= first + head + new + space + tail
        + last);
}

proof fn lemma_quotable(v: Seq<u8>)
    ensures
        value::quotable(v) == (valid_utf8(v) && forall|k: int|
            0 <= k < v.len() ==> #[trigger] v[k] != 0),
{
    if v.contains(0) {
        let k = v.index_of(0);
        assert(v[k] == 0);
    }
}

/// To set a variable that no row declares keeps every byte and puts a row behind them: a line
/// ending where the last row has none, the name, an equals sign, the value in double quotes,
/// and a line ending where the last row had one. The line ending is a carriage return and a
/// line feed if one occurs in the document, else a line feed.
pub proof fn law_value_appended(
    rows: Seq<Row>,
    document: &mut EnvDocument,
    key: &str,
    new: &[u8],
    result: CliResult<()>,
)
    requires
        old(document)@.wf(),
        old(document)@.source == layouts::text_of(rows),
        layouts::sound(rows),
        undeclared(old(document)@.policy, rows, key@),
        valid_utf8(new@),
        forall|k: int| 0 <= k < new@.len() ==> #[trigger] new@[k] != 0,
        call_ensures(EnvDocument::set, (document, key, new), result),
    ensures
        ({
            let source = old(document)@.source;
            let now = final(document)@.source;
            let ended = source.len() > 0 && source[source.len() - 1] == 0x0A;
            let style: Seq<u8> = if exists|k: int|
                0 <= k < source.len() - 1 && #[trigger] source[k] == 0x0D && source[k + 1] == 0x0A {
                seq![0x0Du8, 0x0Au8]
            } else {
                seq![0x0Au8]
            };
            &&& exists|text: Seq<u8>|
                {
                    &&& #[trigger] values::quotes(text, new@)
                    &&& now == source + (if source.len() > 0 && !ended {
                        style
                    } else {
                        Seq::empty()
                    }) + encode_utf8(key@) + seq![0x3Du8] + text + if ended {
                        style
                    } else {
                        Seq::empty()
                    }
                }
            &&& result is Ok == (now.len() <= 16_777_216)
            &&& result matches Err(e) ==> e is UpdatedEnvironmentTooLarge
        }),
{
    let before = old(document)@;
    lemma_quotable(new@);
    lemma_found(before, rows, key@);
    values::lemma_quotes(new@);
    let text = value::quoted(new@);
    assert(values::quotes(text, new@));
}

/// A value that is not UTF-8, or that holds NUL, is refused, and the document stays as it was.
pub proof fn law_bad_value_refused(
    document: &mut EnvDocument,
    key: &str,
    new: &[u8],
    result: CliResult<()>,
)
    requires
        old(document)@.wf(),
        !valid_utf8(new@) || exists|k: int| 0 <= k < new@.len() && #[trigger] new@[k] == 0,
        call_ensures(EnvDocument::set, (document, key, new), result),
    ensures
        final(document)@ == old(document)@,
        result matches Err(e) && e is InvalidEnvironmentValue,
{
    lemma_quotable(new@);
}

/// To remove a variable takes the row of its first declaration away, line ending and comment
/// included, and keeps every other byte; without a declaration nothing changes.
pub proof fn law_row_removed(rows: Seq<Row>, document: &mut EnvDocument, key: &str, found: bool)
    requires
        old(document)@.wf(),
        old(document)@.source == layouts::text_of(rows),
        layouts::sound(rows),
        call_ensures(EnvDocument::unset, (document, key), found),
    ensures
        undeclared(old(document)@.policy, rows, key@) ==> !found && final(document)@
            == old(document)@,
        forall|i: int| #[trigger]
            first_declared(old(document)@.policy, rows, key@, i) ==> found
                && final(document)@.source == layouts::text_of(rows.take(i)) + layouts::text_of(
                rows.skip(i + 1),
            ),
{
    let before = old(document)@;
    let now = final(document)@.source;
    lemma_found(before, rows, key@);
    if undeclared(before.policy, rows, key@) {
        assert(final(document)@ =~= before);
    }
    assert forall|i: int| #[trigger] first_declared(before.policy, rows, key@, i) implies found
        && now == layouts::text_of(rows.take(i)) + layouts::text_of(rows.skip(i + 1)) by {
        let line = rows[i]->Declares_0;
        let e = choose|e: int| #[trigger]
            before.first_named(key@, e) && before.entries[e] == layouts::place(
                line,
                layouts::text_of(rows.take(i)).len() as int,
            );
        assert(before.names(e, key@));
        assert(!before.lacks(key@));
        let f = choose|f: int| #[trigger]
            before.first_named(key@, f) && now == document::spliced(
                before.source,
                before.entries[f].start,
                before.entries[f].end,
                Seq::empty(),
            );
        lemma_one_first(before, key@, e, f);
        lemma_around(rows, i);
        let (front, tail) = (
            layouts::text_of(rows.take(i)),
            layouts::text_of(rows.skip(i + 1)),
        );
        assert(before.source.take(before.entries[e].start) =~= front);
        assert(before.source.skip(before.entries[e].end) =~= tail);
        assert(now =~= front + tail);
    }
}

/// The name under which a variable is declared is that of its first declaration.
pub proof fn law_stored_name(rows: Seq<Row>, document: &EnvDocument, key: &str, name: Option<&str>)
    requires
        document@.wf(),
        document@.source == layouts::text_of(rows),
        layouts::sound(rows),
        call_ensures(EnvDocument::stored_name, (document, key), name),
    ensures
        undeclared(document@.policy, rows, key@) ==> name is None,
        forall|i: int| #[trigger]
            first_declared(document@.policy, rows, key@, i) ==> (name matches Some(n) && n@
                == rows[i]->Declares_0.name),
{
    let view = document@;
    lemma_found(view, rows, key@);
    assert forall|i: int| #[trigger] first_declared(view.policy, rows, key@, i) implies (name
        matches Some(n) && n@ == rows[i]->Declares_0.name) by {
        let e = choose|e: int| #[trigger]
            view.first_named(key@, e) && view.entries[e] == layouts::place(
                rows[i]->Declares_0,
                layouts::text_of(rows.take(i)).len() as int,
            );
        assert(view.names(e, key@));
        assert(!view.lacks(key@));
        let f = choose|f: int| #[trigger]
            view.first_named(key@, f) && name->Some_0@ == view.entries[f].name;
        lemma_one_first(view, key@, e, f);
    }
}

/// The first of some variables that has a name.
pub open spec fn first_pair(
    policy: NamePolicy,
    environment: Seq<(String, String)>,
    key: Seq<char>,
    i: int,
) -> bool {
    &&& 0 <= i < environment.len()
    &&& names::same_variable(policy, environment[i].0@, key)
    &&& forall|j: int|
        0 <= j < i ==> !names::same_variable(policy, (#[trigger] environment[j]).0@, key)
}

/// What is asked for is what the first variable of the name stands for, and no other: its own
/// bytes where it is not protected, else what it decrypts to. A name that no variable has
/// finds nothing.
pub proof fn law_value_found<S>(
    environment: Vec<(String, String)>,
    key: &str,
    policy: NamePolicy,
    xsec: &XSec<S>,
    result: CliResult<Option<ZeroizingBytes>>,
)
    requires
        call_ensures(get_value::<S>, (environment, key, policy, xsec), result),
    ensures
        (forall|i: int|
            0 <= i < environment@.len() ==> !names::same_variable(
                policy,
                (#[trigger] environment@[i]).0@,
                key@,
            )) ==> (result matches Ok(found) && found is None),
        forall|i: int| #[trigger]
            first_pair(policy, environment@, key@, i) ==> {
                let (name, text) = (environment@[i].0@, environment@[i].1@);
                &&& !values::begins_with_mark(text) ==> (result matches Ok(Some(p)) && p@
                    == encode_utf8(text))
                &&& values::begins_with_mark(text) ==> match result {
                    Ok(found) => found matches Some(p) && value::revealed(
                        xsec@.key(),
                        name,
                        text,
                    ) == Some(p@),
                    Err(e) => value::revealed(xsec@.key(), name, text) is None && (e
                        matches CliError::InvalidEncryptedVariable(named) && named@ == name),
                }
            },
{
    let pairs = environment::pairs_of(environment@);
    assert forall|i: int| 0 <= i < pairs.len() implies #[trigger] environment::named(
        policy,
        pairs,
        key@,
        i,
    ) == names::same_variable(policy, environment@[i].0@, key@) by {
        names::lemma_same_variable(policy, environment@[i].0@, key@);
    }
    if forall|i: int|
        0 <= i < environment@.len() ==> !names::same_variable(
            policy,
            (#[trigger] environment@[i]).0@,
            key@,
        ) {
        assert forall|i: int| #[trigger] environment::first_named(
            policy,
            pairs,
            key@,
            i,
        ) implies false by {
            assert(environment::named(policy, pairs, key@, i));
            assert(names::same_variable(policy, environment@[i].0@, key@));
        }
    }
    assert forall|i: int| #[trigger] first_pair(policy, environment@, key@, i) implies {
        let (name, text) = (environment@[i].0@, environment@[i].1@);
        &&& !values::begins_with_mark(text) ==> (result matches Ok(Some(p)) && p@ == encode_utf8(
            text,
        ))
        &&& values::begins_with_mark(text) ==> match result {
            Ok(found) => found matches Some(p) && value::revealed(xsec@.key(), name, text) == Some(
                p@,
            ),
            Err(e) => value::revealed(xsec@.key(), name, text) is None && (e
                matches CliError::InvalidEncryptedVariable(named) && named@ == name),
        }
    } by {
        assert(environment::named(policy, pairs, key@, i));
        assert(!environment::absent(policy, pairs, key@));
        assert forall|j: int| #[trigger] environment::first_named(
            policy,
            pairs,
            key@,
            j,
        ) implies j == i by {
            assert(environment::named(policy, pairs, key@, j));
            if i < j {
                assert(!environment::named(policy, pairs, key@, i));
            } else if j < i {
                assert(!names::same_variable(policy, environment@[j].0@, key@));
            }
        }
        assert(pairs[i] == (environment@[i].0@, environment@[i].1@));
        values::lemma_mark(environment@[i].1@);
    }
}

/// A document is taken if every declaration can be read, none holds NUL or repeats a name,
/// and what was read has the names that its rows declare, in their order. Then it is the
/// document as it was, with its own name rule.
pub proof fn law_document_taken(
    rows: Seq<Row>,
    source: Vec<u8>,
    policy: NamePolicy,
    result: CliResult<EnvDocument>,
)
    requires
        layouts::sound(rows),
        source@ == layouts::text_of(rows),
        valid_utf8(source@),
        call_ensures(load_environment_document, (source, policy), result),
    ensures
        exists|read: Seq<Option<Pair>>|
            {
                let all = layouts::places(rows, 0);
                &&& #[trigger] environment::was_read(source@, read)
                &&& result is Ok == ((forall|i: int|
                    0 <= i < read.len() ==> !#[trigger] names::spoilt(policy, read, i))
                    && read.len() == all.len() && forall|i: int|
                    0 <= i < all.len() ==> (#[trigger] read[i] matches Some(pair) && pair.0
                        == all[i].name))
                &&& result matches Ok(document) ==> document@.source == source@ && document@.policy
                    == policy && document@.entries == all
                &&& result matches Err(e) ==> names::first_spoilt(policy, read, e) || ((forall|i: int|
                    0 <= i < read.len() ==> !#[trigger] names::spoilt(policy, read, i)) && e
                    is InvalidEnvironment)
            },
{
    let all = layouts::places(rows, 0);
    layouts::lemma_rows(source@, rows);
    let read = choose|read: Seq<Option<Pair>>| #[trigger]
        environment::reading(source@, read) && document::parse_outcome(
            source@,
            policy,
            read,
            result,
        );
    assert(environment::was_read(source@, read));
    assert forall|i: int| #[trigger] names::spoilt(policy, read, i) == !environment::acceptable(
        read,
        policy,
        i,
    ) by {
        names::lemma_spoilt(policy, read, i);
    }
    if environment::accepted(read, policy) {
        assert forall|i: int| 0 <= i < read.len() implies !#[trigger] names::spoilt(
            policy,
            read,
            i,
        ) by {
            assert(environment::acceptable(read, policy, i));
        }
    }
    if let Err(e) = result {
        if environment::refused(read, policy, e) {
            names::lemma_first_spoilt(policy, read, e);
        } else {
            assert(!document::same_names(all, read));
        }
    }
}

/// The text of a plaintext that is protected under a name: `xsec:` and the Base64 of a
/// ciphertext, bound to the name, that opens to the plaintext.
pub open spec fn shows(
    key: Seq<u8>,
    nonce: Seq<u8>,
    name: Seq<char>,
    plaintext: Seq<u8>,
    shown: Seq<u8>,
) -> bool {
    let bound = encode_utf8("xsec-cli:env:value:v1\0"@) + encode_utf8(name);
    let sealed = ciphertext::sealed(key, nonce, plaintext, bound);
    &&& crypto::drawn::<12>(nonce)
    &&& shown == encode_utf8("xsec:"@ + base64url::base64url(sealed))
    &&& ciphertext::opened(key, sealed, bound) matches Ok(p) && p == plaintext
}

/// What `set` puts into a document is a protected value that stands for the plaintext under
/// the name that the variable is declared with: it replaces the value of the first
/// declaration, and every other byte is kept.
pub proof fn law_set_protects<S>(
    rows: Seq<Row>,
    i: int,
    document: &mut EnvDocument,
    key: &str,
    plaintext: &[u8],
    xsec: &XSec<S>,
    result: CliResult<()>,
)
    requires
        old(document)@.wf(),
        old(document)@.source == layouts::text_of(rows),
        layouts::sound(rows),
        first_declared(old(document)@.policy, rows, key@, i),
        call_ensures(set_value::<S>, (document, key, plaintext, xsec), result),
        result is Ok,
    ensures
        xsec@.key() is Ok,
        exists|nonce: Seq<u8>, shown: Seq<u8>, text: Seq<u8>|
            {
                &&& #[trigger] shows(
                    xsec@.key()->Ok_0,
                    nonce,
                    rows[i]->Declares_0.name,
                    plaintext@,
                    shown,
                )
                &&& #[trigger] values::quotes(text, shown)
                &&& final(document)@.source == spliced_row(rows, i, text)
            },
        final(document)@.source.len() <= 16_777_216,
{
    let before = old(document)@;
    let after = final(document)@;
    let (nonce, name, text) = lemma_was_set(
        xsec@.key(),
        before,
        key@,
        plaintext@,
        result,
        after,
    );
    let k = xsec@.key()->Ok_0;
    lemma_found(before, rows, key@);
    let e = choose|e: int| #[trigger]
        before.first_named(key@, e) && before.entries[e] == layouts::place(
            rows[i]->Declares_0,
            layouts::text_of(rows.take(i)).len() as int,
        );
    assert(before.names(e, key@));
    assert(!before.lacks(key@));
    let f = choose|f: int| #[trigger]
        before.first_named(key@, f) && name == before.entries[f].name;
    lemma_one_first(before, key@, e, f);
    assert(name == rows[i]->Declares_0.name);
    let shown = encode_utf8(text);
    lemma_row_set(before, rows, i, key@, shown, after.source);
    values::lemma_quotes(shown);
    let bound = encode_utf8("xsec-cli:env:value:v1\0"@) + encode_utf8(name);
    let sealed = ciphertext::sealed(k, nonce, plaintext@, bound);
    assert(values::quotes(value::quoted(shown), shown));
    lemma_protected_opens(xsec@.key(), nonce, name, plaintext@);
    assert(shown == encode_utf8("xsec:"@ + base64url::base64url(sealed)));
    assert(shows(k, nonce, name, plaintext@, shown));
}

proof fn lemma_protected_opens(
    key: XSecResult<Seq<u8>>,
    nonce: Seq<u8>,
    name: Seq<char>,
    plaintext: Seq<u8>,
)
    requires
        key is Ok,
        value::revealed(key, name, value::protected(key->Ok_0, nonce, name, plaintext)) == Some(
            plaintext,
        ),
    ensures
        ciphertext::opened(
            key->Ok_0,
            ciphertext::sealed(key->Ok_0, nonce, plaintext, value::value_aad(name)),
            value::value_aad(name),
        ) matches Ok(p) && p == plaintext,
{
    value::law_protected_form(key->Ok_0, nonce, name, plaintext);
}

/// What was protected and set.
proof fn lemma_was_set(
    key: XSecResult<Seq<u8>>,
    before: DocumentView,
    variable: Seq<char>,
    plaintext: Seq<u8>,
    result: CliResult<()>,
    after: DocumentView,
) -> (found: (Seq<u8>, Seq<char>, Seq<char>))
    requires
        commands::set_outcome(key, before, variable, plaintext, result, after),
        result is Ok,
    ensures
        ({
            let (nonce, name, text) = found;
            &&& key is Ok
            &&& crypto::drawn::<12>(nonce)
            &&& commands::binding_name(before, variable, name)
            &&& text == value::protected(key->Ok_0, nonce, name, plaintext)
            &&& value::revealed(key, name, text) == Some(plaintext)
            &&& document::with_value(before, variable, encode_utf8(text), after.source)
            &&& after.source.len() <= 16_777_216
        }),
{
    let name = choose|name: Seq<char>| #[trigger]
        commands::binding_name(before, variable, name) && commands::was_set(
            key,
            before,
            variable,
            name,
            plaintext,
            result,
            after,
        );
    let nonce = choose|nonce: Seq<u8>|
        {
            let text = #[trigger] value::protected(key->Ok_0, nonce, name, plaintext);
            &&& key is Ok
            &&& nonce.len() == 12
            &&& crypto::drawn::<12>(nonce)
            &&& value::revealed(key, name, text) == Some(plaintext)
            &&& document::with_value(before, variable, encode_utf8(text), after.source)
            &&& after.entries == before.entries
            &&& after.policy == before.policy
            &&& commands::validation_outcome(after, result)
        };
    (nonce, name, value::protected(key->Ok_0, nonce, name, plaintext))
}

/// Without a data key nothing is set: the reason is handed on and the document stays as it
/// was.
pub proof fn law_set_needs_key<S>(
    document: &mut EnvDocument,
    key: &str,
    plaintext: &[u8],
    xsec: &XSec<S>,
    result: CliResult<()>,
)
    requires
        old(document)@.wf(),
        plaintext@.len() <= 1_048_576,
        call_ensures(set_value::<S>, (document, key, plaintext, xsec), result),
        xsec@.key() is Err,
    ensures
        xsec@.key() matches Err(reason) && result == CliResult::<()>::Err(CliError::XSec(reason)),
        final(document)@ == old(document)@,
{
    assert(plaintext@.len() <= value::MAX_PROTECTABLE_LENGTH) by {
        assert(usize::MAX / 4 - 55 >= 1_048_576);
    }
}

/// `del` says whether there was a variable of that name, and takes its row away; without one
/// it changes nothing. It fails only where the rest cannot be read.
pub proof fn law_delete_takes_row(
    rows: Seq<Row>,
    document: &mut EnvDocument,
    key: &str,
    result: CliResult<bool>,
)
    requires
        old(document)@.wf(),
        old(document)@.source == layouts::text_of(rows),
        layouts::sound(rows),
        call_ensures(remove_value, (document, key), result),
    ensures
        undeclared(old(document)@.policy, rows, key@) ==> final(document)@ == old(document)@ && (
        result matches Ok(found) && !found),
        forall|i: int| #[trigger]
            first_declared(old(document)@.policy, rows, key@, i) ==> {
                &&& final(document)@.source == layouts::text_of(rows.take(i)) + layouts::text_of(
                    rows.skip(i + 1),
                )
                &&& exists|read: Seq<Option<Pair>>| #[trigger]
                    environment::was_read(final(document)@.source, read) && match result {
                        Ok(found) => found && forall|k: int|
                            0 <= k < read.len() ==> !#[trigger] names::spoilt(
                                old(document)@.policy,
                                read,
                                k,
                            ),
                        Err(e) => names::first_spoilt(old(document)@.policy, read, e),
                    }
            },
{
    let before = old(document)@;
    let now = final(document)@.source;
    let policy = before.policy;
    lemma_found(before, rows, key@);
    if undeclared(policy, rows, key@) {
        assert(final(document)@ =~= before);
    }
    assert forall|i: int| #[trigger] first_declared(policy, rows, key@, i) implies {
        &&& now == layouts::text_of(rows.take(i)) + layouts::text_of(rows.skip(i + 1))
        &&& exists|read: Seq<Option<Pair>>| #[trigger]
            environment::was_read(now, read) && match result {
                Ok(found) => found && forall|k: int|
                    0 <= k < read.len() ==> !#[trigger] names::spoilt(policy, read, k),
                Err(e) => names::first_spoilt(policy, read, e),
            }
    } by {
        let e = choose|e: int| #[trigger]
            before.first_named(key@, e) && before.entries[e] == layouts::place(
                rows[i]->Declares_0,
                layouts::text_of(rows.take(i)).len() as int,
            );
        assert(before.names(e, key@));
        assert(!before.lacks(key@));
        let f = choose|f: int| #[trigger]
            before.first_named(key@, f) && now == document::spliced(
                before.source,
                before.entries[f].start,
                before.entries[f].end,
                Seq::empty(),
            );
        lemma_one_first(before, key@, e, f);
        lemma_around(rows, i);
        let (front, tail) = (
            layouts::text_of(rows.take(i)),
            layouts::text_of(rows.skip(i + 1)),
        );
        assert(before.source.take(before.entries[e].start) =~= front);
        assert(before.source.skip(before.entries[e].end) =~= tail);
        assert(now =~= front + tail);
        let read = choose|read: Seq<Option<Pair>>| #[trigger]
            environment::reading(now, read) && match result {
                Ok(found) => found && environment::accepted(read, policy),
                Err(e) => environment::refused(read, policy, e),
            };
        lemma_all_taken(policy, read);
        if let Err(e) = result {
            names::lemma_first_spoilt(policy, read, e);
        }
        assert(environment::was_read(now, read));
    }
}

proof fn lemma_all_taken(policy: NamePolicy, read: Seq<Option<Pair>>)
    ensures
        environment::accepted(read, policy) == forall|k: int|
            0 <= k < read.len() ==> !#[trigger] names::spoilt(policy, read, k),
{
    assert forall|k: int| #[trigger] names::spoilt(policy, read, k) == !environment::acceptable(
        read,
        policy,
        k,
    ) by {
        names::lemma_spoilt(policy, read, k);
    }
    if environment::accepted(read, policy) {
        assert forall|k: int| 0 <= k < read.len() implies !#[trigger] names::spoilt(
            policy,
            read,
            k,
        ) by {
            assert(environment::acceptable(read, policy, k));
        }
    }
    if forall|k: int| 0 <= k < read.len() ==> !#[trigger] names::spoilt(policy, read, k) {
        assert forall|k: int| 0 <= k < read.len() implies #[trigger] environment::acceptable(
            read,
            policy,
            k,
        ) by {
            assert(!names::spoilt(policy, read, k));
        }
    }
}

/// Once a document is encrypted, every value that was read begins with `xsec:` and stands for
/// what was read, under its own name; one that began so before is as it was. Names, their
/// order and everything outside the values are kept.
pub proof fn law_document_encrypted<S>(
    document: &mut EnvDocument,
    xsec: &XSec<S>,
    result: CliResult<()>,
)
    requires
        old(document)@.wf(),
        plain::outline(old(document)@.source) is Some,
        call_ensures(encrypt_environment_document::<S>, (document, xsec), result),
        result is Ok,
    ensures
        ({
            let all = plain::outline(old(document)@.source)->Some_0;
            let now = plain::outline(final(document)@.source)->Some_0;
            exists|pairs: Seq<Pair>|
                {
                    &&& environment::was_read(
                        old(document)@.source,
                        #[trigger] environment::all_read(pairs),
                    )
                    &&& plain::outline(final(document)@.source) is Some
                    &&& now.len() == pairs.len()
                    &&& all.len() == pairs.len()
                    &&& forall|i: int|
                        0 <= i < pairs.len() ==> (#[trigger] now[i]).0 == pairs[i].0
                            && if values::begins_with_mark(pairs[i].1) {
                            now[i] == all[i]
                        } else {
                            now[i].1 matches Some(text) && values::begins_with_mark(text)
                                && value::revealed(xsec@.key(), pairs[i].0, text) == Some(
                                encode_utf8(pairs[i].1),
                            )
                        }
                }
        }),
        rewriting::frame_kept(
            old(document)@.source,
            old(document)@.entries,
            final(document)@.source,
            final(document)@.entries,
        ),
        final(document)@.source.len() <= 16_777_216,
        final(document)@.wf(),
{
    let (before, after) = (old(document)@, final(document)@);
    let all = plain::outline(before.source)->Some_0;
    let (pairs, now) = rewriting::law_encrypt_document(xsec@.key(), before, result, after);
    assert forall|i: int| 0 <= i < pairs.len() implies (#[trigger] now[i]).0 == pairs[i].0
        && if values::begins_with_mark(pairs[i].1) {
        now[i] == all[i]
    } else {
        now[i].1 matches Some(text) && values::begins_with_mark(text) && value::revealed(
            xsec@.key(),
            pairs[i].0,
            text,
        ) == Some(encode_utf8(pairs[i].1))
    } by {
        assert(rewriting::protected_as(xsec@.key(), pairs[i], all[i], now[i]));
        assert(all[i].0 == pairs[i].0);
        values::lemma_mark(pairs[i].1);
        if let Some(text) = now[i].1 {
            values::lemma_mark(text);
        }
    }
    assert(environment::was_read(before.source, environment::all_read(pairs)));
    assert(plain::outline(after.source) == Some(now));
}

/// Without a data key a document with variables is neither encrypted nor changed.
pub proof fn law_encryption_needs_key<S>(
    document: &mut EnvDocument,
    xsec: &XSec<S>,
    result: CliResult<()>,
)
    requires
        old(document)@.wf(),
        plain::outline(old(document)@.source) matches Some(all) && all.len() > 0,
        call_ensures(encrypt_environment_document::<S>, (document, xsec), result),
        xsec@.key() is Err,
    ensures
        result is Err,
        final(document)@ == old(document)@,
{
    let before = old(document)@;
    let read = choose|read: Seq<Option<Pair>>| #[trigger]
        environment::reading(before.source, read) && {
            ||| result matches Err(e) && environment::refused(read, before.policy, e)
                && final(document)@ == before
            ||| exists|pairs: Seq<Pair>, replacements: CliResult<Vec<protection::Replacement>>|
                {
                    &&& environment::accepted(read, before.policy)
                    &&& read == environment::all_read(pairs)
                    &&& #[trigger] protection::protection_made(xsec@.key(), before)(
                        pairs,
                        replacements,
                    )
                    &&& match replacements {
                        Err(e) => result == CliResult::<()>::Err(e) && final(document)@ == before,
                        Ok(list) => protection::rewrite_outcome(
                            before,
                            protection::replaced(
                                before.source,
                                protection::replacement_views(list@),
                            ),
                            value::MAX_ENCRYPTED_ENV_FILE_SIZE,
                            CliError::UpdatedEnvironmentTooLarge,
                            result,
                            final(document)@,
                        ),
                    }
                }
        };
    if !(result matches Err(e) && environment::refused(read, before.policy, e) && final(document)@
        == before) {
        let (pairs, replacements) = choose|
            pairs: Seq<Pair>,
            replacements: CliResult<Vec<protection::Replacement>>,
        |
            {
                &&& environment::accepted(read, before.policy)
                &&& read == environment::all_read(pairs)
                &&& #[trigger] protection::protection_made(xsec@.key(), before)(
                    pairs,
                    replacements,
                )
                &&& match replacements {
                    Err(e) => result == CliResult::<()>::Err(e) && final(document)@ == before,
                    Ok(list) => protection::rewrite_outcome(
                        before,
                        protection::replaced(
                            before.source,
                            protection::replacement_views(list@),
                        ),
                        value::MAX_ENCRYPTED_ENV_FILE_SIZE,
                        CliError::UpdatedEnvironmentTooLarge,
                        result,
                        final(document)@,
                    ),
                }
            };
        assert(protection::protection_outcome(
            xsec@.key(),
            before.source,
            before.entries,
            pairs,
            replacements,
        ));
        rewriting::lemma_reading(before, pairs);
        if let Ok(list) = replacements {
            lemma_no_protection(
                xsec@.key(),
                before.source,
                before.entries,
                pairs,
                pairs.len() as int,
                protection::replacement_views(list@),
            );
        }
    }
}

proof fn lemma_no_protection(
    key: XSecResult<Seq<u8>>,
    source: Seq<u8>,
    entries: Seq<dotenv::EntryView>,
    pairs: Seq<Pair>,
    n: int,
    replacements: Seq<protection::ReplacementView>,
)
    requires
        key is Err,
        0 < n <= pairs.len(),
    ensures
        !protection::protects_all(key, source, entries, pairs, n, replacements),
{
}

/// A variable whose value can be shown: it is not protected, or decrypts to text.
pub open spec fn shown_as<S>(xsec: &XSec<S>, pair: (String, String), text: Seq<char>) -> bool {
    shown_text(xsec, (pair.0@, pair.1@), text)
}

/// The variables of a document are handed out revealed: each under its name, in their order,
/// with its own text where it is not protected, and with what it decrypts to where it is. The
/// first one that does not decrypt to text is named instead.
pub proof fn law_variables_revealed<S>(
    environment: Vec<(String, String)>,
    xsec: &XSec<S>,
    result: CliResult<Vec<(String, String)>>,
)
    requires
        call_ensures(reveal_environment::<S>, (environment, xsec), result),
    ensures
        match result {
            Ok(shown) => shown@.len() == environment@.len() && forall|i: int|
                0 <= i < environment@.len() ==> (#[trigger] shown@[i]).0@ == environment@[i].0@
                    && shown_as(xsec, environment@[i], shown@[i].1@),
            Err(e) => exists|i: int|
                {
                    &&& 0 <= i < environment@.len()
                    &&& values::begins_with_mark((#[trigger] environment@[i]).1@)
                    &&& forall|text: Seq<char>| !#[trigger] shown_as(xsec, environment@[i], text)
                    &&& e matches CliError::InvalidEncryptedVariable(name) && name@
                        == environment@[i].0@
                    &&& forall|j: int|
                        0 <= j < i ==> can_show(
                            xsec,
                            ((#[trigger] environment@[j]).0@, environment@[j].1@),
                        )
                },
        },
{
    let pairs = environment::pairs_of(environment@);
    match result {
        Ok(shown) => {
            let out = environment::pairs_of(shown@);
            assert forall|i: int| 0 <= i < environment@.len() implies (#[trigger] shown@[i]).0@
                == environment@[i].0@ && shown_as(xsec, environment@[i], shown@[i].1@) by {
                assert(out[i] == (shown@[i].0@, shown@[i].1@));
                assert(pairs[i] == (environment@[i].0@, environment@[i].1@));
                values::lemma_mark(pairs[i].1);
                if !values::begins_with_mark(pairs[i].1) {
                    crate::bytes::lemma_text_injective(shown@[i].1@, pairs[i].1);
                }
            }
        },
        Err(e) => {
            let i = choose|i: int|
                {
                    &&& 0 <= i < pairs.len()
                    &&& !protection::readable(xsec@.key(), #[trigger] pairs[i])
                    &&& (e matches CliError::InvalidEncryptedVariable(name) && name@
                        == pairs[i].0)
                    &&& forall|j: int|
                        0 <= j < i ==> protection::readable(xsec@.key(), #[trigger] pairs[j])
                };
            assert forall|j: int| 0 <= j < i implies can_show(
                xsec,
                ((#[trigger] environment@[j]).0@, environment@[j].1@),
            ) by {
                assert(pairs[j] == (environment@[j].0@, environment@[j].1@));
                lemma_can_show(xsec, pairs[j]);
            }
            assert(pairs[i] == (environment@[i].0@, environment@[i].1@));
            values::lemma_mark(pairs[i].1);
            encode_utf8_valid_utf8(pairs[i].1);
            assert forall|text: Seq<char>| !#[trigger] shown_as(xsec, environment@[i], text) by {
                encode_utf8_valid_utf8(text);
            }
            assert(values::begins_with_mark(environment@[i].1@));
        },
    }
}

/// Once a plain document is decrypted, no protected value is left in it: each stands as what
/// it decrypted to, and one that was not protected as it did. Names, their order and
/// everything outside the values are kept.
pub proof fn law_document_decrypted<S>(
    document: &mut EnvDocument,
    xsec: &XSec<S>,
    result: CliResult<()>,
)
    requires
        old(document)@.wf(),
        plain::variables(old(document)@.source) is Some,
        call_ensures(decrypt_environment_document::<S>, (document, xsec), result),
        result is Ok,
    ensures
        ({
            let pairs = plain::variables(old(document)@.source)->Some_0;
            let now = plain::variables(final(document)@.source)->Some_0;
            &&& plain::variables(final(document)@.source) is Some
            &&& now.len() == pairs.len()
            &&& forall|i: int|
                0 <= i < pairs.len() ==> (#[trigger] now[i]).0 == pairs[i].0
                    && if values::begins_with_mark(pairs[i].1) {
                    value::revealed(xsec@.key(), pairs[i].0, pairs[i].1) == Some(
                        encode_utf8(now[i].1),
                    )
                } else {
                    now[i].1 == pairs[i].1
                }
        }),
        rewriting::frame_kept(
            old(document)@.source,
            old(document)@.entries,
            final(document)@.source,
            final(document)@.entries,
        ),
        final(document)@.source.len() <= 1_048_576,
        final(document)@.wf(),
{
    let (before, after) = (old(document)@, final(document)@);
    let key = xsec@.key();
    let pairs = plain::variables(before.source)->Some_0;
    let (read, replacements) = rewriting::lemma_document(
        before,
        protection::revelation_made(key, before),
        value::MAX_ENV_FILE_SIZE,
        CliError::DecryptedEnvironmentTooLarge,
        result,
        after,
    );
    assert(protection::revelation_outcome(key, before.source, before.entries, read, replacements));
    rewriting::lemma_one_reading(before, environment::all_read(read));
    rewriting::lemma_all_read(read, pairs);
    rewriting::lemma_reading(before, pairs);
    let now = rewriting::lemma_reveal(key, before, pairs, after.source);
    assert forall|i: int| 0 <= i < pairs.len() implies (#[trigger] now[i]).0 == pairs[i].0
        && if values::begins_with_mark(pairs[i].1) {
        value::revealed(key, pairs[i].0, pairs[i].1) == Some(encode_utf8(now[i].1))
    } else {
        now[i].1 == pairs[i].1
    } by {
        values::lemma_mark(pairs[i].1);
        assert(rewriting::revealed_as(key, pairs[i], now[i]));
    }
}

/// A document that is encrypted and then decrypted says what was read from it: the same
/// names, the same order, the same bytes outside the values, and the same value for every
/// variable that was not read as protected. Only a document of more than 1048576 bytes is
/// refused. No value that the document tells by itself is protected from the beginning.
pub proof fn law_document_round_trip<S, T>(
    first: &mut EnvDocument,
    xsec: &XSec<S>,
    encrypted: CliResult<()>,
    second: &mut EnvDocument,
    other: &XSec<T>,
    decrypted: CliResult<()>,
)
    requires
        old(first)@.wf(),
        plain::outline(old(first)@.source) is Some,
        forall|i: int|
            0 <= i < plain::outline(old(first)@.source)->Some_0.len() ==> (
            #[trigger] plain::outline(old(first)@.source)->Some_0[i].1 matches Some(text)
                ==> !values::begins_with_mark(text)),
        call_ensures(encrypt_environment_document::<S>, (first, xsec), encrypted),
        encrypted is Ok,
        plain::variables(final(first)@.source) is Some,
        old(second)@ == final(first)@,
        other@.key() == xsec@.key(),
        call_ensures(decrypt_environment_document::<T>, (second, other), decrypted),
    ensures
        decrypted is Ok == (final(second)@.source.len() <= 1_048_576),
        ({
            let now = plain::variables(final(second)@.source)->Some_0;
            &&& plain::variables(final(second)@.source) is Some
            &&& exists|pairs: Seq<Pair>|
                {
                    &&& environment::was_read(
                        old(first)@.source,
                        #[trigger] environment::all_read(pairs),
                    )
                    &&& now.len() == pairs.len()
                    &&& forall|i: int|
                        0 <= i < pairs.len() ==> (#[trigger] now[i]).0 == pairs[i].0 && (
                        !values::begins_with_mark(pairs[i].1) ==> now[i].1 == pairs[i].1)
                }
        }),
        rewriting::frame_kept(
            old(first)@.source,
            old(first)@.entries,
            final(second)@.source,
            final(second)@.entries,
        ),
{
    let (before, between, after) = (old(first)@, final(first)@, final(second)@);
    let all = plain::outline(before.source)->Some_0;
    assert forall|i: int| 0 <= i < all.len() implies (#[trigger] all[i].1 matches Some(text)
        ==> !protection::unquotable(xsec@.key(), (all[i].0, text))) by {
        if let Some(text) = all[i].1 {
            values::lemma_mark(text);
        }
    }
    let (pairs, now) = rewriting::law_encrypt_then_decrypt_document(
        xsec@.key(),
        before,
        encrypted,
        between,
        decrypted,
        after,
    );
    assert forall|i: int| 0 <= i < pairs.len() implies (#[trigger] now[i]).0 == pairs[i].0 && (
    !values::begins_with_mark(pairs[i].1) ==> now[i].1 == pairs[i].1) by {
        values::lemma_mark(pairs[i].1);
    }
    assert(environment::was_read(before.source, environment::all_read(pairs)));
}

/// Every reading can be taken, and is shown under its name and in its place.
pub open spec fn all_shown<S>(
    xsec: &XSec<S>,
    policy: NamePolicy,
    read: Seq<Option<Pair>>,
    shown: Seq<(String, String)>,
) -> bool {
    &&& shown.len() == read.len()
    &&& forall|i: int|
        0 <= i < read.len() ==> !#[trigger] names::spoilt(policy, read, i) && (read[i] matches Some(
            pair,
        ) && pair.0 == shown[i].0@ && shown_text(xsec, pair, shown[i].1@))
}

/// A variable can be shown as some text.
pub open spec fn can_show<S>(xsec: &XSec<S>, pair: Pair) -> bool {
    exists|text: Seq<char>| #[trigger] shown_text(xsec, pair, text)
}

proof fn lemma_can_show<S>(xsec: &XSec<S>, pair: Pair)
    requires
        protection::readable(xsec@.key(), pair),
    ensures
        can_show(xsec, pair),
{
    values::lemma_mark(pair.1);
    let plaintext = value::revealed(xsec@.key(), pair.0, pair.1)->Some_0;
    if values::begins_with_mark(pair.1) {
        decode_utf8_encode_utf8(plaintext);
        assert(shown_text(xsec, pair, decode_utf8(plaintext)));
    } else {
        assert(shown_text(xsec, pair, pair.1));
    }
}

/// The first reading whose value cannot be shown is named by the error.
pub open spec fn cannot_show<S>(xsec: &XSec<S>, read: Seq<Option<Pair>>, e: CliError) -> bool {
    exists|i: int|
        {
            &&& 0 <= i < read.len()
            &&& #[trigger] read[i] matches Some(pair) && !can_show(xsec, pair) && (
            e matches CliError::InvalidEncryptedVariable(name) && name@ == pair.0)
            &&& forall|j: int|
                0 <= j < i ==> (#[trigger] read[j] matches Some(pair) && can_show(xsec, pair))
        }
}

/// The variables of a document are revealed from a reading of it that can be taken, each under
/// its name and in their order; a reading that cannot be taken, or a value that does not
/// decrypt to text, is refused by name.
pub proof fn law_values_decrypted<S>(
    document: &EnvDocument,
    xsec: &XSec<S>,
    result: CliResult<Vec<(String, String)>>,
)
    requires
        call_ensures(decrypt_environment_values::<S>, (document, xsec), result),
    ensures
        exists|read: Seq<Option<Pair>>| #[trigger]
            environment::was_read(document@.source, read) && match result {
                Ok(shown) => all_shown(xsec, document@.policy, read, shown@),
                Err(e) => names::first_spoilt(document@.policy, read, e) || cannot_show(
                    xsec,
                    read,
                    e,
                ),
            },
{
    let policy = document@.policy;
    let read = choose|read: Seq<Option<Pair>>| #[trigger]
        environment::reading(document@.source, read) && protection::reading_outcome(
            xsec@.key(),
            read,
            policy,
            result,
        );
    assert(environment::was_read(document@.source, read));
    lemma_shown(xsec, policy, read, result);
}

proof fn lemma_shown<S>(
    xsec: &XSec<S>,
    policy: NamePolicy,
    read: Seq<Option<Pair>>,
    result: CliResult<Vec<(String, String)>>,
)
    requires
        protection::reading_outcome(xsec@.key(), read, policy, result),
    ensures
        match result {
            Ok(shown) => all_shown(xsec, policy, read, shown@),
            Err(e) => names::first_spoilt(policy, read, e) || cannot_show(xsec, read, e),
        },
{
    if result is Err && environment::refused(read, policy, result->Err_0) {
        names::lemma_first_spoilt(policy, read, result->Err_0);
    } else {
        let pairs = choose|pairs: Seq<Pair>|
            {
                &&& environment::accepted(read, policy)
                &&& read == #[trigger] environment::all_read(pairs)
                &&& protection::values_outcome(xsec@.key(), pairs, result)
            };
        match result {
            Ok(shown) => {
                lemma_all_shown(xsec, policy, read, pairs, shown);
            },
            Err(e) => {
                lemma_cannot_show(xsec, read, pairs, e);
            },
        }
    }
}

proof fn lemma_all_shown<S>(
    xsec: &XSec<S>,
    policy: NamePolicy,
    read: Seq<Option<Pair>>,
    pairs: Seq<Pair>,
    shown: Vec<(String, String)>,
)
    requires
        environment::accepted(read, policy),
        read == environment::all_read(pairs),
        protection::values_outcome(
            xsec@.key(),
            pairs,
            CliResult::<Vec<(String, String)>>::Ok(shown),
        ),
    ensures
        all_shown(xsec, policy, read, shown@),
{
    let out = environment::pairs_of(shown@);
    assert forall|i: int| 0 <= i < read.len() implies !#[trigger] names::spoilt(policy, read, i) && (
    read[i] matches Some(pair) && pair.0 == shown@[i].0@ && shown_text(
        xsec,
        pair,
        shown@[i].1@,
    )) by {
        names::lemma_spoilt(policy, read, i);
        assert(environment::acceptable(read, policy, i));
        assert(out[i] == (shown@[i].0@, shown@[i].1@));
        assert(read[i] == Some(pairs[i]));
        values::lemma_mark(pairs[i].1);
        if !values::begins_with_mark(pairs[i].1) {
            crate::bytes::lemma_text_injective(shown@[i].1@, pairs[i].1);
        }
    }
}

proof fn lemma_cannot_show<S>(
    xsec: &XSec<S>,
    read: Seq<Option<Pair>>,
    pairs: Seq<Pair>,
    e: CliError,
)
    requires
        read == environment::all_read(pairs),
        protection::values_outcome(
            xsec@.key(),
            pairs,
            CliResult::<Vec<(String, String)>>::Err(e),
        ),
    ensures
        cannot_show(xsec, read, e),
{
    let i = choose|i: int|
        {
            &&& 0 <= i < pairs.len()
            &&& !protection::readable(xsec@.key(), #[trigger] pairs[i])
            &&& (e matches CliError::InvalidEncryptedVariable(name) && name@ == pairs[i].0)
            &&& forall|j: int|
                0 <= j < i ==> protection::readable(xsec@.key(), #[trigger] pairs[j])
        };
    assert forall|j: int| 0 <= j < i implies (#[trigger] read[j] matches Some(pair) && can_show(
        xsec,
        pair,
    )) by {
        assert(read[j] == Some(pairs[j]));
        lemma_can_show(xsec, pairs[j]);
    }
    assert(read[i] == Some(pairs[i]));
    values::lemma_mark(pairs[i].1);
    encode_utf8_valid_utf8(pairs[i].1);
    assert forall|text: Seq<char>| !#[trigger] shown_text(xsec, pairs[i], text) by {
        encode_utf8_valid_utf8(text);
    }
}

/// The text that a variable is shown with.
pub open spec fn shown_text<S>(xsec: &XSec<S>, pair: Pair, text: Seq<char>) -> bool {
    if values::begins_with_mark(pair.1) {
        value::revealed(xsec@.key(), pair.0, pair.1) == Some(encode_utf8(text))
    } else {
        text == pair.1
    }
}

/// What `set` puts behind a document that declares no such variable is a row of its name with
/// a protected value that stands for the plaintext; every byte before it is kept.
pub proof fn law_set_adds_row<S>(
    rows: Seq<Row>,
    document: &mut EnvDocument,
    key: &str,
    plaintext: &[u8],
    xsec: &XSec<S>,
    result: CliResult<()>,
)
    requires
        old(document)@.wf(),
        old(document)@.source == layouts::text_of(rows),
        layouts::sound(rows),
        undeclared(old(document)@.policy, rows, key@),
        call_ensures(set_value::<S>, (document, key, plaintext, xsec), result),
        result is Ok,
    ensures
        xsec@.key() is Ok,
        exists|nonce: Seq<u8>, shown: Seq<u8>, text: Seq<u8>|
            {
                let source = old(document)@.source;
                let ended = source.len() > 0 && source[source.len() - 1] == 0x0A;
                let style: Seq<u8> = if exists|k: int|
                    0 <= k < source.len() - 1 && #[trigger] source[k] == 0x0D && source[k + 1]
                        == 0x0A {
                    seq![0x0Du8, 0x0Au8]
                } else {
                    seq![0x0Au8]
                };
                &&& #[trigger] shows(xsec@.key()->Ok_0, nonce, key@, plaintext@, shown)
                &&& #[trigger] values::quotes(text, shown)
                &&& final(document)@.source == source + (if source.len() > 0 && !ended {
                    style
                } else {
                    Seq::empty()
                }) + encode_utf8(key@) + seq![0x3Du8] + text + if ended {
                    style
                } else {
                    Seq::empty()
                }
            },
{
    let before = old(document)@;
    let after = final(document)@;
    let (nonce, name, text) = lemma_was_set(
        xsec@.key(),
        before,
        key@,
        plaintext@,
        result,
        after,
    );
    let k = xsec@.key()->Ok_0;
    lemma_found(before, rows, key@);
    assert(before.lacks(key@));
    let shown = encode_utf8(text);
    values::lemma_quotes(shown);
    lemma_protected_shows(k, nonce, name, plaintext@, xsec@.key());
    assert(shows(k, nonce, key@, plaintext@, shown));
    assert(values::quotes(value::quoted(shown), shown));
}

proof fn lemma_protected_shows(
    k: Seq<u8>,
    nonce: Seq<u8>,
    name: Seq<char>,
    plaintext: Seq<u8>,
    key: XSecResult<Seq<u8>>,
)
    requires
        key == XSecResult::<Seq<u8>>::Ok(k),
        crypto::drawn::<12>(nonce),
        value::revealed(key, name, value::protected(k, nonce, name, plaintext)) == Some(plaintext),
    ensures
        shows(
            k,
            nonce,
            name,
            plaintext,
            encode_utf8(value::protected(k, nonce, name, plaintext)),
        ),
{
    let bound = encode_utf8("xsec-cli:env:value:v1\0"@) + encode_utf8(name);
    let sealed = ciphertext::sealed(k, nonce, plaintext, bound);
    let text = value::protected(k, nonce, name, plaintext);
    value::law_protected_form(k, nonce, name, plaintext);
    base64url::law_round_trip(sealed);
    reveal_strlit("xsec:");
    assert(text.skip(5) =~= base64url::base64url(sealed));
    assert("xsec:"@.is_prefix_of(text));
}

/// With a data key at hand, `set` fails on a value of at most 1048576 bytes only where the
/// cipher or the source of randomness fails, and then changes nothing, where the document
/// comes to more than 16777216 bytes, or where it cannot be read.
pub proof fn law_set_fails<S>(
    document: &mut EnvDocument,
    key: &str,
    plaintext: &[u8],
    xsec: &XSec<S>,
    e: CliError,
)
    requires
        old(document)@.wf(),
        plaintext@.len() <= 1_048_576,
        xsec@.key() is Ok,
        call_ensures(
            set_value::<S>,
            (document, key, plaintext, xsec),
            CliResult::<()>::Err(e),
        ),
    ensures
        final(document)@.policy == old(document)@.policy,
        ({
            let before = old(document)@;
            let after = final(document)@;
            ||| after == before && e == CliError::XSec(XSecError::Crypto) && (values::cannot_seal(
                key@,
                plaintext@,
            ) || exists|i: int|
                0 <= i < before.entries.len() && values::cannot_seal(
                    (#[trigger] before.entries[i]).name,
                    plaintext@,
                ))
            ||| after.source.len() > 16_777_216 && e is UpdatedEnvironmentTooLarge
            ||| exists|read: Seq<Option<Pair>>| #[trigger]
                environment::was_read(after.source, read) && names::first_spoilt(
                    before.policy,
                    read,
                    e,
                )
        }),
{
    let before = old(document)@;
    let after = final(document)@;
    let result = CliResult::<()>::Err(e);
    assert(plaintext@.len() <= value::MAX_PROTECTABLE_LENGTH) by {
        assert(usize::MAX / 4 - 55 >= 1_048_576);
    }
    let name = choose|name: Seq<char>| #[trigger]
        commands::binding_name(before, key@, name) && {
            ||| protection::encryption_failure(xsec@.key(), name, plaintext@, e) && after == before
            ||| commands::was_set(
                xsec@.key(),
                before,
                key@,
                name,
                plaintext@,
                result,
                after,
            )
        };
    if protection::encryption_failure(xsec@.key(), name, plaintext@, e) && after == before {
        values::lemma_cannot_seal(name, plaintext@);
        if !before.lacks(key@) {
            let i = choose|i: int| #[trigger]
                before.first_named(key@, i) && name == before.entries[i].name;
            assert(values::cannot_seal(before.entries[i].name, plaintext@));
        }
    } else {
        assert(commands::validation_outcome(after, result));
        if after.source.len() <= 16_777_216 {
            lemma_invalid(before.policy, after, e);
        }
    }
}

proof fn lemma_invalid(policy: NamePolicy, after: DocumentView, e: CliError)
    requires
        commands::validation_outcome(after, CliResult::<()>::Err(e)),
        after.source.len() <= 16_777_216,
        after.policy == policy,
    ensures
        exists|read: Seq<Option<Pair>>| #[trigger]
            environment::was_read(after.source, read) && names::first_spoilt(policy, read, e),
{
    let read = choose|read: Seq<Option<Pair>>| #[trigger]
        environment::reading(after.source, read) && environment::refused(read, policy, e);
    names::lemma_first_spoilt(policy, read, e);
    assert(environment::was_read(after.source, read));
}

/// A changed document cannot stand: its rows cannot be told apart, it has more bytes than it
/// may, or a reading of it cannot be taken.
pub open spec fn cannot_stand(after: DocumentView, limit: int, e: CliError) -> bool {
    ||| dotenv::index_of(after.source) is None && e is InvalidEnvironment
    ||| after.source.len() > limit && if limit == 1_048_576 {
        e is DecryptedEnvironmentTooLarge
    } else {
        e is UpdatedEnvironmentTooLarge
    }
    ||| after.source.len() <= limit && exists|read: Seq<Option<Pair>>| #[trigger]
        environment::was_read(after.source, read) && names::first_spoilt(after.policy, read, e)
}

/// A variable that keeps a document from being encrypted: it is protected and does not
/// decrypt, or it is not and cannot be encrypted.
pub open spec fn cannot_protect(key: XSecResult<Seq<u8>>, pair: Pair, e: CliError) -> bool {
    if values::begins_with_mark(pair.1) {
        value::revealed(key, pair.0, pair.1) is None && (
        e matches CliError::InvalidEncryptedVariable(name) && name@ == pair.0)
    } else if encode_utf8(pair.1).len() > usize::MAX / 4 - 55 {
        e is EnvironmentValueTooLarge
    } else {
        match key {
            Err(reason) => e == CliError::XSec(reason),
            Ok(_) => e == CliError::XSec(XSecError::Crypto) && values::cannot_seal(
                pair.0,
                encode_utf8(pair.1),
            ),
        }
    }
}

/// A variable that keeps a document from being decrypted: it is protected, and does not decrypt
/// or not to text without NUL.
pub open spec fn cannot_reveal(key: XSecResult<Seq<u8>>, pair: Pair, e: CliError) -> bool {
    values::begins_with_mark(pair.1) && match value::revealed(key, pair.0, pair.1) {
        None => e matches CliError::InvalidEncryptedVariable(name) && name@ == pair.0,
        Some(plaintext) => (!valid_utf8(plaintext) || plaintext.contains(0)) && e
            is InvalidEnvironmentValue,
    }
}

/// A document is encrypted unless a reading of it cannot be taken or a variable cannot be
/// protected, and then nothing changes, or unless it cannot stand encrypted.
pub proof fn law_document_not_encrypted<S>(document: &mut EnvDocument, xsec: &XSec<S>, e: CliError)
    requires
        old(document)@.wf(),
        call_ensures(
            encrypt_environment_document::<S>,
            (document, xsec),
            CliResult::<()>::Err(e),
        ),
    ensures
        final(document)@.policy == old(document)@.policy,
        cannot_stand(final(document)@, 16_777_216, e) || (final(document)@ == old(document)@
            && exists|read: Seq<Option<Pair>>| #[trigger]
            environment::was_read(old(document)@.source, read) && (names::first_spoilt(
                old(document)@.policy,
                read,
                e,
            ) || exists|i: int|
                0 <= i < read.len() && (#[trigger] read[i] matches Some(pair) && cannot_protect(
                    xsec@.key(),
                    pair,
                    e,
                )))),
{
    let before = old(document)@;
    let after = final(document)@;
    let made = protection::protection_made(xsec@.key(), before);
    let (read, failed) = lemma_not_rewritten(
        before,
        made,
        value::MAX_ENCRYPTED_ENV_FILE_SIZE,
        CliError::UpdatedEnvironmentTooLarge,
        e,
        after,
    );
    if let Some(pairs) = failed {
        let replacements = CliResult::<Vec<protection::Replacement>>::Err(e);
        assert(protection::protection_outcome(
            xsec@.key(),
            before.source,
            before.entries,
            pairs,
            replacements,
        ));
        let i = choose|i: int|
            0 <= i < protection::common(before.entries, pairs) && protection::protection_failure(
                xsec@.key(),
                #[trigger] pairs[i],
                e,
            );
        values::lemma_mark(pairs[i].1);
        values::lemma_cannot_seal(pairs[i].0, encode_utf8(pairs[i].1));
        assert(read[i] == Some(pairs[i]));
        assert(cannot_protect(xsec@.key(), pairs[i], e));
    }
}

/// A document is decrypted unless a reading of it cannot be taken or a variable cannot be
/// revealed, and then nothing changes, or unless it cannot stand decrypted.
pub proof fn law_document_not_decrypted<S>(document: &mut EnvDocument, xsec: &XSec<S>, e: CliError)
    requires
        old(document)@.wf(),
        call_ensures(
            decrypt_environment_document::<S>,
            (document, xsec),
            CliResult::<()>::Err(e),
        ),
    ensures
        final(document)@.policy == old(document)@.policy,
        cannot_stand(final(document)@, 1_048_576, e) || (final(document)@ == old(document)@
            && exists|read: Seq<Option<Pair>>| #[trigger]
            environment::was_read(old(document)@.source, read) && (names::first_spoilt(
                old(document)@.policy,
                read,
                e,
            ) || exists|i: int|
                0 <= i < read.len() && (#[trigger] read[i] matches Some(pair) && cannot_reveal(
                    xsec@.key(),
                    pair,
                    e,
                )))),
{
    let before = old(document)@;
    let after = final(document)@;
    let made = protection::revelation_made(xsec@.key(), before);
    let (read, failed) = lemma_not_rewritten(
        before,
        made,
        value::MAX_ENV_FILE_SIZE,
        CliError::DecryptedEnvironmentTooLarge,
        e,
        after,
    );
    if let Some(pairs) = failed {
        let replacements = CliResult::<Vec<protection::Replacement>>::Err(e);
        assert(protection::revelation_outcome(
            xsec@.key(),
            before.source,
            before.entries,
            pairs,
            replacements,
        ));
        let i = choose|i: int|
            0 <= i < protection::common(before.entries, pairs) && protection::revelation_failure(
                xsec@.key(),
                #[trigger] pairs[i],
                e,
            );
        values::lemma_mark(pairs[i].1);
        assert(read[i] == Some(pairs[i]));
        assert(cannot_reveal(xsec@.key(), pairs[i], e));
    }
}

/// Why a document was not rewritten: what was read could not be taken, or no replacements could
/// be made from it, or what was made of the document cannot stand.
proof fn lemma_not_rewritten(
    before: DocumentView,
    made: spec_fn(Seq<Pair>, CliResult<Vec<protection::Replacement>>) -> bool,
    limit: usize,
    too_large: CliError,
    e: CliError,
    after: DocumentView,
) -> (found: (Seq<Option<Pair>>, Option<Seq<Pair>>))
    requires
        protection::document_outcome(
            before,
            made,
            limit,
            too_large,
            CliResult::<()>::Err(e),
            after,
        ),
        if limit == 1_048_576 {
            too_large is DecryptedEnvironmentTooLarge
        } else {
            too_large is UpdatedEnvironmentTooLarge
        },
    ensures
        after.policy == before.policy,
        environment::was_read(before.source, found.0),
        cannot_stand(after, limit as int, e) || (after == before && match found.1 {
            None => names::first_spoilt(before.policy, found.0, e),
            Some(pairs) => found.0 == environment::all_read(pairs) && made(
                pairs,
                CliResult::<Vec<protection::Replacement>>::Err(e),
            ),
        }),
        found.1 matches Some(pairs) ==> found.0 == environment::all_read(pairs) && made(
            pairs,
            CliResult::<Vec<protection::Replacement>>::Err(e),
        ),
{
    let result = CliResult::<()>::Err(e);
    let read = choose|read: Seq<Option<Pair>>| #[trigger]
        environment::reading(before.source, read) && {
            ||| environment::refused(read, before.policy, e) && after == before
            ||| exists|pairs: Seq<Pair>, replacements: CliResult<Vec<protection::Replacement>>|
                {
                    &&& environment::accepted(read, before.policy)
                    &&& read == environment::all_read(pairs)
                    &&& #[trigger] made(pairs, replacements)
                    &&& match replacements {
                        Err(reason) => result == CliResult::<()>::Err(reason) && after == before,
                        Ok(list) => protection::rewrite_outcome(
                            before,
                            protection::replaced(
                                before.source,
                                protection::replacement_views(list@),
                            ),
                            limit,
                            too_large,
                            result,
                            after,
                        ),
                    }
                }
        };
    if environment::refused(read, before.policy, e) && after == before {
        names::lemma_first_spoilt(before.policy, read, e);
        (read, None)
    } else {
        let (pairs, replacements) = choose|
            pairs: Seq<Pair>,
            replacements: CliResult<Vec<protection::Replacement>>,
        |
            {
                &&& environment::accepted(read, before.policy)
                &&& read == environment::all_read(pairs)
                &&& #[trigger] made(pairs, replacements)
                &&& match replacements {
                    Err(reason) => result == CliResult::<()>::Err(reason) && after == before,
                    Ok(list) => protection::rewrite_outcome(
                        before,
                        protection::replaced(
                            before.source,
                            protection::replacement_views(list@),
                        ),
                        limit,
                        too_large,
                        result,
                        after,
                    ),
                }
            };
        match replacements {
            Err(_) => (read, Some(pairs)),
            Ok(_) => {
                if dotenv::index_of(after.source) is Some && after.source.len() <= limit {
                    let second = choose|second: Seq<Option<Pair>>| #[trigger]
                        environment::reading(after.source, second) && environment::refused(
                            second,
                            before.policy,
                            e,
                        );
                    names::lemma_first_spoilt(before.policy, second, e);
                    assert(environment::was_read(after.source, second));
                }
                (read, None)
            },
        }
    }
}

} // verus!
