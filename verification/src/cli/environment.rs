//! Dotenv documents: read as variables, changed in place.
use vstd::hash_set::StringHashSet;
use vstd::prelude::*;
use vstd::utf8::*;
use zeroize::Zeroize;

use crate::bytes;
use crate::cli::dotenv;
use crate::cli::dotenv::EQUALS;
use crate::cli::error::{CliError, CliResult};
use crate::cli::plain;
use crate::cli::value;

verus! {

/// When two names are the same variable: always apart, or equal but for the case of
/// ASCII letters, as on Windows.
#[derive(Clone, Copy, Debug, PartialEq, Eq, Structural)]
pub enum NamePolicy {
    Exact,
    AsciiCaseInsensitive,
}

/// An ASCII letter in upper case, any other character as it is.
pub open spec fn upper(c: char) -> char {
    if 'a' <= c <= 'z' {
        (c as u32 - 32) as char
    } else {
        c
    }
}

/// A name as it is compared with others.
pub open spec fn normalized(policy: NamePolicy, name: Seq<char>) -> Seq<char> {
    match policy {
        NamePolicy::Exact => name,
        NamePolicy::AsciiCaseInsensitive => Seq::new(name.len(), |i: int| upper(name[i])),
    }
}

/// `str::to_ascii_uppercase`: a copy with every ASCII letter in upper case and every
/// other character unchanged.
#[verifier::external_body]
fn to_ascii_uppercase(text: &str) -> (copy: String)
    ensures
        copy@ == Seq::new(text@.len(), |i: int| upper(text@[i])),
{
    text.to_ascii_uppercase()
}

/// `Zeroize::zeroize` of a `String`: wipes the text and leaves it empty.
#[verifier::external_body]
fn zeroize_text(text: &mut String)
    ensures
        final(text)@ == Seq::<char>::empty(),
{
    text.zeroize();
}

/// A name as it is compared with others.
pub fn normalized_environment_key(key: &str, policy: NamePolicy) -> (name: String)
    ensures
        name@ == normalized(policy, key@),
{
    match policy {
        NamePolicy::Exact => key.to_owned(),
        NamePolicy::AsciiCaseInsensitive => to_ascii_uppercase(key),
    }
}

/// A variable: its name and its value.
pub type Pair = (Seq<char>, Seq<char>);

/// One line that declares a variable, its value in double quotes.
pub open spec fn declared(pair: Pair) -> Seq<u8> {
    encode_utf8(pair.0) + seq![EQUALS] + value::quoted(encode_utf8(pair.1))
}

/// What a dotenv reader gives for one declaration, `None` for one it cannot read.
pub open spec fn entry_read(entry: Option<(String, String)>) -> Option<Pair> {
    match entry {
        Some((name, value)) => Some((name@, value@)),
        None => None,
    }
}

/// What a dotenv reader gives.
pub open spec fn entries_read(entries: Seq<Option<(String, String)>>) -> Seq<Option<Pair>> {
    Seq::new(entries.len(), |i: int| entry_read(entries[i]))
}

/// Variables as a dotenv reader gives them.
pub open spec fn all_read(pairs: Seq<Pair>) -> Seq<Option<Pair>> {
    Seq::new(pairs.len(), |i: int| Some(pairs[i]))
}

/// What `dotenvy` reads from a document without dollar signs. Only behind a dollar sign
/// does it look at the process environment, so such a document is always read alike.
pub uninterp spec fn dotenv_reading(source: Seq<u8>) -> Seq<Option<(Seq<char>, Seq<char>)>>;

/// What holds of every reading of a document: the names are names, and an orderly document
/// is read as it says. A value that it does not tell by itself may draw on the process
/// environment, so two readings may differ.
pub open spec fn reads_as(source: Seq<u8>, read: Seq<Option<Pair>>) -> bool {
    &&& forall|i: int|
        0 <= i < read.len() ==> (#[trigger] read[i] matches Some(pair) ==> dotenv::valid_name(
            encode_utf8(pair.0),
        ))
    &&& plain::outline(source) matches Some(all) ==> plain::tells(all, read)
}

/// `dotenvy::from_read_iter`, read to the end. The source of dotenvy accepts only
/// names `[A-Za-z_][A-Za-z0-9_.]*`. It skips blank lines and comments, takes a value
/// from between its quotes, and undoes the escapes of backslash, quotes, dollar sign,
/// blank and line feed. An orderly document is read in just this way, one item for each
/// declaration. Not stated is what it gives for a value behind a dollar sign, which may name
/// variables of the process environment, or behind a backslash that escapes nothing, nor
/// what it gives for a document that is not orderly.
#[verifier::external_body]
fn dotenv_entries(source: &[u8]) -> (entries: Vec<Option<(String, String)>>)
    ensures
        reads_as(source@, entries_read(entries@)),
        !source@.contains(value::DOLLAR) ==> entries_read(entries@) == dotenv_reading(source@),
{
    dotenvy::from_read_iter(source).map(|entry| entry.ok()).collect()
}

/// The dotenv reader was handed a document and gave this.
pub closed spec fn was_read(source: Seq<u8>, read: Seq<Option<Pair>>) -> bool {
    exists|handed: &[u8], entries: Vec<Option<(String, String)>>|
        handed@ == source && read == entries_read(entries@) && #[trigger] call_ensures(
            dotenv_entries,
            (handed,),
            entries,
        )
}

/// A reading of a document: what the dotenv reader gave for it, and what holds of it.
pub open spec fn reading(source: Seq<u8>, read: Seq<Option<Pair>>) -> bool {
    &&& was_read(source, read)
    &&& reads_as(source, read)
    &&& !source.contains(value::DOLLAR) ==> read == dotenv_reading(source)
}

/// The variables of a list.
pub open spec fn pairs_of(environment: Seq<(String, String)>) -> Seq<Pair> {
    Seq::new(environment.len(), |i: int| (environment[i].0@, environment[i].1@))
}

/// A name or value that holds NUL.
pub open spec fn has_nul(text: Seq<char>) -> bool {
    text.contains('\0')
}

/// The reading at `i` is a variable without NUL whose name was not read before.
pub open spec fn acceptable(read: Seq<Option<Pair>>, policy: NamePolicy, i: int) -> bool {
    read[i] matches Some(pair) && !has_nul(pair.0) && !has_nul(pair.1) && forall|j: int|
        0 <= j < i ==> (#[trigger] read[j] matches Some(earlier) ==> normalized(policy, earlier.0)
            != normalized(policy, pair.0))
}

/// Every reading is acceptable.
pub open spec fn accepted(read: Seq<Option<Pair>>, policy: NamePolicy) -> bool {
    forall|i: int| 0 <= i < read.len() ==> #[trigger] acceptable(read, policy, i)
}

/// `i` is the first reading that is not acceptable.
pub open spec fn first_refused(read: Seq<Option<Pair>>, policy: NamePolicy, i: int) -> bool {
    &&& 0 <= i < read.len()
    &&& !acceptable(read, policy, i)
    &&& forall|j: int| 0 <= j < i ==> #[trigger] acceptable(read, policy, j)
}

/// The error for a reading that is not acceptable.
pub open spec fn refusal(reading: Option<Pair>, e: CliError) -> bool {
    match reading {
        None => e is InvalidEnvironment,
        Some(pair) => if has_nul(pair.0) || has_nul(pair.1) {
            e matches CliError::InvalidVariable(name) && name@ == pair.0
        } else {
            e matches CliError::DuplicateVariable(name) && name@ == pair.0
        },
    }
}

/// The error for the first reading that is not acceptable.
pub open spec fn refused(read: Seq<Option<Pair>>, policy: NamePolicy, e: CliError) -> bool {
    exists|i: int| #[trigger] first_refused(read, policy, i) && refusal(read[i], e)
}

/// Whether a text holds NUL.
fn contains_nul(text: &str) -> (found: bool)
    ensures
        found == has_nul(text@),
{
    let found: bool = bytes::contains(text.as_bytes(), 0);
    proof {
        lemma_nul(text@);
    }
    found
}

/// A text holds NUL where its bytes do.
pub(crate) proof fn lemma_nul(text: Seq<char>)
    ensures
        has_nul(text) == encode_utf8(text).contains(0),
    decreases text.len(),
{
    if text.len() == 0 {
        assert(encode_utf8(text) =~= Seq::empty());
    } else {
        let rest = text.drop_first();
        let (head, tail) = (encode_scalar(text[0] as u32), encode_utf8(rest));
        lemma_nul(rest);
        lemma_scalar_nul(text[0]);
        assert(encode_utf8(text) == head + tail);
        if has_nul(text) {
            let i = text.index_of('\0');
            if i == 0 {
                let k = head.index_of(0);
                assert((head + tail)[k] == 0);
            } else {
                assert(rest[i - 1] == '\0');
                let k = tail.index_of(0);
                assert((head + tail)[head.len() + k] == 0);
            }
        }
        if encode_utf8(text).contains(0) {
            let k = (head + tail).index_of(0);
            if k < head.len() {
                assert(head[k] == 0);
                assert(text[0] == '\0');
            } else {
                assert(tail[k - head.len()] == 0);
                let i = rest.index_of('\0');
                assert(text[i + 1] == '\0');
            }
        }
    }
}

proof fn lemma_scalar_nul(c: char)
    ensures
        encode_scalar(c as u32).contains(0) == (c == '\0'),
{
    let s = c as u32;
    char_is_scalar(c);
    if has_width_1_encoding(s) {
        assert((s & 0x7F) as u8 == 0 <==> s == 0) by (bit_vector)
            requires
                s <= 0x7F,
        ;
        assert(encode_scalar(s) == seq![leading_byte_width_1(s)]);
        if s == 0 {
            assert(encode_scalar(s)[0] == 0);
        }
    } else {
        assert(0xC0 | ((s >> 6) & 0x1F) as u8 != 0) by (bit_vector);
        assert(0xE0 | ((s >> 12) & 0x0F) as u8 != 0) by (bit_vector);
        assert(0xF0 | ((s >> 18) & 0x07) as u8 != 0) by (bit_vector);
        assert(0x80 | (s & 0x3F) as u8 != 0) by (bit_vector);
        assert(0x80 | ((s >> 6) & 0x3F) as u8 != 0) by (bit_vector);
        assert(0x80 | ((s >> 12) & 0x3F) as u8 != 0) by (bit_vector);
    }
}

/// Wipes the names and values of variables.
pub fn zeroize_environment(environment: &mut Vec<(String, String)>)
    ensures
        final(environment)@.len() == old(environment)@.len(),
        forall|i: int|
            0 <= i < final(environment)@.len() ==> (#[trigger] pairs_of(final(environment)@)[i]) == (
                Seq::<char>::empty(),
                Seq::<char>::empty(),
            ),
{
    let mut i: usize = 0;
    while i < environment.len()
        invariant
            i <= environment@.len(),
            environment@.len() == old(environment)@.len(),
            forall|j: int|
                0 <= j < i ==> #[trigger] pairs_of(environment@)[j] == (
                    Seq::<char>::empty(),
                    Seq::<char>::empty(),
                ),
        decreases environment@.len() - i,
    {
        let ghost before = environment@;
        let pair: &mut (String, String) = &mut environment[i];
        zeroize_text(&mut pair.0);
        zeroize_text(&mut pair.1);
        proof {
            assert forall|j: int| 0 <= j <= i implies #[trigger] pairs_of(environment@)[j] == (
                Seq::<char>::empty(),
                Seq::<char>::empty(),
            ) by {
                if j < i {
                    assert(pairs_of(before)[j] == pairs_of(environment@)[j]);
                }
            }
        }
        i = i + 1;
    }
}

/// Takes one entry out of what a dotenv reader gave.
fn take_entry(entries: &mut Vec<Option<(String, String)>>, at: usize) -> (entry: Option<
    (String, String),
>)
    requires
        at < old(entries)@.len(),
    ensures
        entry == old(entries)@[at as int],
        final(entries)@ == old(entries)@.update(at as int, None),
{
    let mut entry: Option<(String, String)> = None;
    std::mem::swap(&mut entry, &mut entries[at]);
    entry
}

/// Wipes the names and values of what a dotenv reader gave.
fn zeroize_entries(entries: &mut Vec<Option<(String, String)>>)
    ensures
        final(entries)@.len() == old(entries)@.len(),
        forall|i: int| 0 <= i < final(entries)@.len() ==> #[trigger] final(entries)@[i] is None,
{
    let mut i: usize = 0;
    while i < entries.len()
        invariant
            i <= entries@.len(),
            entries@.len() == old(entries)@.len(),
            forall|j: int| 0 <= j < i ==> #[trigger] entries@[j] is None,
        decreases entries@.len() - i,
    {
        let entry: Option<(String, String)> = take_entry(entries, i);
        if let Some((mut name, mut value)) = entry {
            zeroize_text(&mut name);
            zeroize_text(&mut value);
        }
        i = i + 1;
    }
}

/// One of the variables has this name, as names are compared.
pub open spec fn seen(policy: NamePolicy, pairs: Seq<Pair>, name: Seq<char>) -> bool {
    exists|j: int| 0 <= j < pairs.len() && normalized(policy, (#[trigger] pairs[j]).0) == name
}

proof fn lemma_seen_push(policy: NamePolicy, pairs: Seq<Pair>, pair: Pair, name: Seq<char>)
    ensures
        seen(policy, pairs.push(pair), name) == (seen(policy, pairs, name) || normalized(
            policy,
            pair.0,
        ) == name),
{
    let all = pairs.push(pair);
    if seen(policy, pairs, name) {
        let j = choose|j: int|
            0 <= j < pairs.len() && normalized(policy, (#[trigger] pairs[j]).0) == name;
        assert(all[j] == pairs[j]);
    }
    if normalized(policy, pair.0) == name {
        assert(all[pairs.len() as int] == pair);
    }
    if seen(policy, all, name) {
        let j = choose|j: int|
            0 <= j < all.len() && normalized(policy, (#[trigger] all[j]).0) == name;
        if j < pairs.len() {
            assert(pairs[j] == all[j]);
        }
    }
}

/// The variable at `i` has a name, as names are compared.
pub open spec fn named(policy: NamePolicy, pairs: Seq<Pair>, key: Seq<char>, i: int) -> bool {
    normalized(policy, pairs[i].0) == normalized(policy, key)
}

/// `i` is the first variable of a name.
pub open spec fn first_named(policy: NamePolicy, pairs: Seq<Pair>, key: Seq<char>, i: int) -> bool {
    &&& 0 <= i < pairs.len()
    &&& named(policy, pairs, key, i)
    &&& forall|j: int| 0 <= j < i ==> !#[trigger] named(policy, pairs, key, j)
}

/// No variable has a name.
pub open spec fn absent(policy: NamePolicy, pairs: Seq<Pair>, key: Seq<char>) -> bool {
    forall|i: int| 0 <= i < pairs.len() ==> !#[trigger] named(policy, pairs, key, i)
}

/// Takes what a dotenv reader gave. It fails on the first declaration that could not
/// be read, holds NUL, or repeats a name.
pub fn collect_environment(entries: Vec<Option<(String, String)>>, policy: NamePolicy) -> (result:
    CliResult<Vec<(String, String)>>)
    ensures
        match result {
            Ok(environment) => accepted(entries_read(entries@), policy) && entries_read(entries@)
                == all_read(pairs_of(environment@)),
            Err(e) => refused(entries_read(entries@), policy, e),
        },
{
    let ghost read = entries_read(entries@);
    let mut rest: Vec<Option<(String, String)>> = entries;
    let mut environment: Vec<(String, String)> = Vec::new();
    let mut names: StringHashSet = StringHashSet::new();
    let mut at: usize = 0;
    while at < rest.len()
        invariant
            at <= rest@.len(),
            rest@.len() == entries@.len(),
            read == entries_read(entries@),
            forall|j: int| at <= j < rest@.len() ==> #[trigger] rest@[j] == entries@[j],
            environment@.len() == at,
            forall|j: int| 0 <= j < at ==> #[trigger] acceptable(read, policy, j),
            forall|j: int| 0 <= j < at ==> #[trigger] read[j] == Some(pairs_of(environment@)[j]),
            forall|name: Seq<char>| #[trigger]
                names@.contains(name) == seen(policy, pairs_of(environment@), name),
        decreases rest@.len() - at,
    {
        let ghost i = at as int;
        let entry: Option<(String, String)> = take_entry(&mut rest, at);
        assert(read[i] == entry_read(entry));
        match entry {
            None => {
                assert(first_refused(read, policy, i));
                zeroize_entries(&mut rest);
                zeroize_environment(&mut environment);
                return Err(CliError::InvalidEnvironment);
            },
            Some((key, value)) => {
                if contains_nul(key.as_str()) || contains_nul(value.as_str()) {
                    assert(first_refused(read, policy, i));
                    let mut value: String = value;
                    zeroize_text(&mut value);
                    zeroize_entries(&mut rest);
                    zeroize_environment(&mut environment);
                    return Err(CliError::InvalidVariable(key));
                }
                let fresh: bool = names.insert(normalized_environment_key(key.as_str(), policy));
                if !fresh {
                    proof {
                        let j = choose|j: int|
                            0 <= j < i && normalized(
                                policy,
                                (#[trigger] pairs_of(environment@)[j]).0,
                            ) == normalized(policy, key@);
                        assert(read[j] == Some(pairs_of(environment@)[j]));
                        assert(first_refused(read, policy, i));
                    }
                    let mut value: String = value;
                    zeroize_text(&mut value);
                    zeroize_entries(&mut rest);
                    zeroize_environment(&mut environment);
                    return Err(CliError::DuplicateVariable(key));
                }
                let ghost before = environment@;
                environment.push((key, value));
                proof {
                    assert(pairs_of(environment@) =~= pairs_of(before).push((key@, value@)));
                    assert(!seen(policy, pairs_of(before), normalized(policy, key@)));
                    assert forall|j: int| 0 <= j < i implies (#[trigger] read[j] matches Some(
                        earlier,
                    ) ==> normalized(policy, earlier.0) != normalized(policy, key@)) by {
                        assert(read[j] == Some(pairs_of(before)[j]));
                    }
                    assert(acceptable(read, policy, i));
                    assert forall|name: Seq<char>| #[trigger] names@.contains(name) == seen(
                        policy,
                        pairs_of(environment@),
                        name,
                    ) by {
                        lemma_seen_push(policy, pairs_of(before), (key@, value@), name);
                    }
                }
            },
        }
        at = at + 1;
    }
    assert(read =~= all_read(pairs_of(environment@)));
    Ok(environment)
}

/// Reads the variables of a document. It fails on a document that is no dotenv, that
/// holds NUL or that declares a name twice.
pub fn parse_environment(source: &[u8], policy: NamePolicy) -> (result: CliResult<
    Vec<(String, String)>,
>)
    ensures
        exists|read: Seq<Option<Pair>>| #[trigger]
            reading(source@, read) && match result {
                Ok(environment) => accepted(read, policy) && read == all_read(
                    pairs_of(environment@),
                ),
                Err(e) => refused(read, policy, e),
            },
{
    let entries: Vec<Option<(String, String)>> = dotenv_entries(source);
    assert(call_ensures(dotenv_entries, (source,), entries));
    assert(reading(source@, entries_read(entries@)));
    collect_environment(entries, policy)
}

/// Checks that a document can be read.
pub fn validate_environment(source: &[u8], policy: NamePolicy) -> (result: CliResult<()>)
    ensures
        exists|read: Seq<Option<Pair>>| #[trigger]
            reading(source@, read) && match result {
                Ok(_) => accepted(read, policy),
                Err(e) => refused(read, policy, e),
            },
{
    match parse_environment(source, policy) {
        Err(error) => Err(error),
        Ok(mut environment) => {
            zeroize_environment(&mut environment);
            Ok(())
        },
    }
}

} // verus!
