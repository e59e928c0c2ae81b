//! What a name of a variable is, when two names are the same variable, and which readings
//! of a document are taken.
use vstd::prelude::*;
use vstd::utf8::*;

use crate::bytes;
use crate::cli::dotenv;
use crate::cli::dotenv::validate_variable_name;
use crate::cli::environment;
use crate::cli::environment::{
    collect_environment, normalized_environment_key, parse_environment, validate_environment,
    NamePolicy, Pair,
};
use crate::cli::error::{CliError, CliResult};
use crate::cli::written;

verus! {

/// A text of ASCII letters, digits, underscores and dots that begins with a letter or an
/// underscore.
pub open spec fn spelled(name: Seq<char>) -> bool {
    &&& name.len() > 0
    &&& 'A' <= name[0] <= 'Z' || 'a' <= name[0] <= 'z' || name[0] == '_'
    &&& forall|i: int|
        0 <= i < name.len() ==> ('A' <= #[trigger] name[i] <= 'Z' || 'a' <= name[i] <= 'z' || '0'
            <= name[i] <= '9' || name[i] == '_' || name[i] == '.')
}

/// The bytes of a spelled name are those of its characters.
pub(crate) proof fn lemma_spelled(name: Seq<char>)
    ensures
        dotenv::valid_name(encode_utf8(name)) == spelled(name),
        spelled(name) ==> is_ascii_chars(name) && encode_utf8(name).len() == name.len() && forall|
            i: int,
        |
            0 <= i < name.len() ==> #[trigger] encode_utf8(name)[i] == name[i] as u8,
{
    let raw = encode_utf8(name);
    if dotenv::valid_name(raw) {
        written::lemma_name_chars(name);
        let chars = bytes::ascii_chars(raw);
        assert(chars == name);
        assert forall|i: int| 0 <= i < name.len() implies ('A' <= #[trigger] name[i] <= 'Z' || 'a'
            <= name[i] <= 'z' || '0' <= name[i] <= '9' || name[i] == '_' || name[i] == '.') by {
            assert(name[i] == raw[i] as char);
            if i > 0 {
                assert(dotenv::name_byte(raw[i]));
            }
        }
        assert(name[0] == raw[0] as char);
    }
    if spelled(name) {
        assert forall|i: int| 0 <= i < name.len() implies '\0' <= #[trigger] name[i] <= '\u{7f}' by {
            assert('A' <= name[i] <= 'Z' || 'a' <= name[i] <= 'z' || '0' <= name[i] <= '9'
                || name[i] == '_' || name[i] == '.');
        }
        assert(is_ascii_chars(name));
        is_ascii_chars_encode_utf8(name);
        assert forall|i: int| 0 <= i < raw.len() implies #[trigger] raw[i] == name[i] as u8 by {}
        assert forall|i: int| 0 < i < raw.len() implies dotenv::name_byte(#[trigger] raw[i]) by {
            assert('A' <= name[i] <= 'Z' || 'a' <= name[i] <= 'z' || '0' <= name[i] <= '9'
                || name[i] == '_' || name[i] == '.');
        }
    }
}

/// A text is taken as the name of a variable if it is made of ASCII letters, the ten
/// digits, underscores and dots, and begins with a letter or an underscore; any other text
/// is refused, and the refusal names it.
pub proof fn law_variable_names(key: &str, checked: CliResult<()>)
    requires
        call_ensures(validate_variable_name, (key,), checked),
    ensures
        checked is Ok == (key@.len() > 0 && !('0' <= key@[0] <= '9') && key@[0] != '.' && forall|
            i: int,
        |
            0 <= i < key@.len() ==> ('A' <= #[trigger] key@[i] <= 'Z' || 'a' <= key@[i] <= 'z'
                || '0' <= key@[i] <= '9' || key@[i] == '_' || key@[i] == '.')),
        checked matches Err(e) ==> (e matches CliError::InvalidVariableName(name) && name@ == key@),
{
    lemma_spelled(key@);
    if key@.len() > 0 && !('0' <= key@[0] <= '9') && key@[0] != '.' && forall|i: int|
        0 <= i < key@.len() ==> ('A' <= #[trigger] key@[i] <= 'Z' || 'a' <= key@[i] <= 'z' || '0'
            <= key@[i] <= '9' || key@[i] == '_' || key@[i] == '.') {
        assert('A' <= key@[0] <= 'Z' || 'a' <= key@[0] <= 'z' || key@[0] == '_');
        assert(spelled(key@));
    }
}

/// Two characters that are equal, or one ASCII letter in two cases.
pub open spec fn same_letter(a: char, b: char) -> bool {
    ||| a == b
    ||| 'a' <= a <= 'z' && 'A' <= b <= 'Z' && a as u32 == b as u32 + 32
    ||| 'A' <= a <= 'Z' && 'a' <= b <= 'z' && b as u32 == a as u32 + 32
}

/// Two names of one variable.
pub open spec fn same_variable(policy: NamePolicy, a: Seq<char>, b: Seq<char>) -> bool {
    match policy {
        NamePolicy::Exact => a == b,
        NamePolicy::AsciiCaseInsensitive => a.len() == b.len() && forall|i: int|
            0 <= i < a.len() ==> same_letter(#[trigger] a[i], b[i]),
    }
}

pub(crate) proof fn lemma_same_variable(policy: NamePolicy, a: Seq<char>, b: Seq<char>)
    ensures
        same_variable(policy, a, b) == (environment::normalized(policy, a)
            == environment::normalized(policy, b)),
{
    let (x, y) = (environment::normalized(policy, a), environment::normalized(policy, b));
    if policy is AsciiCaseInsensitive {
        if x == y {
            assert(a.len() == x.len() && b.len() == y.len());
            assert forall|i: int| 0 <= i < a.len() implies same_letter(#[trigger] a[i], b[i]) by {
                assert(x[i] == y[i]);
                lemma_upper(a[i], b[i]);
            }
        }
        if same_variable(policy, a, b) {
            assert forall|i: int| 0 <= i < a.len() implies #[trigger] x[i] == y[i] by {
                assert(same_letter(a[i], b[i]));
                lemma_upper(a[i], b[i]);
            }
            assert(x =~= y);
        }
    }
}

proof fn lemma_upper(a: char, b: char)
    ensures
        same_letter(a, b) == (environment::upper(a) == environment::upper(b)),
{
    char_is_scalar(a);
    char_is_scalar(b);
    if 'a' <= a <= 'z' {
        assert(environment::upper(a) as u32 == a as u32 - 32);
    }
    if 'a' <= b <= 'z' {
        assert(environment::upper(b) as u32 == b as u32 - 32);
    }
}

/// Where names are compared exactly, only equal names are one variable; where the case of
/// ASCII letters does not count, all names of one length that differ in nothing else are,
/// and no others. Every character of a name counts.
pub proof fn law_names_compared(policy: NamePolicy, a: &str, x: String, b: &str, y: String)
    requires
        call_ensures(normalized_environment_key, (a, policy), x),
        call_ensures(normalized_environment_key, (b, policy), y),
    ensures
        policy is Exact ==> (x@ == y@) == (a@ == b@),
        policy is AsciiCaseInsensitive ==> (x@ == y@) == (a@.len() == b@.len() && forall|i: int|
            0 <= i < a@.len() ==> same_letter(#[trigger] a@[i], b@[i])),
        x@.len() == a@.len(),
{
    lemma_same_variable(policy, a@, b@);
}

/// A reading that cannot be taken: not read at all, or with NUL in its name or value, or of
/// a variable that was read before.
pub open spec fn spoilt(policy: NamePolicy, read: Seq<Option<Pair>>, i: int) -> bool {
    match read[i] {
        None => true,
        Some(pair) => {
            ||| exists|k: int| 0 <= k < pair.0.len() && #[trigger] pair.0[k] == '\0'
            ||| exists|k: int| 0 <= k < pair.1.len() && #[trigger] pair.1[k] == '\0'
            ||| exists|j: int|
                0 <= j < i && (#[trigger] read[j] matches Some(earlier) && same_variable(
                    policy,
                    earlier.0,
                    pair.0,
                ))
        },
    }
}

pub(crate) proof fn lemma_spoilt(policy: NamePolicy, read: Seq<Option<Pair>>, i: int)
    ensures
        spoilt(policy, read, i) == !environment::acceptable(read, policy, i),
{
    if let Some(pair) = read[i] {
        if environment::has_nul(pair.0) {
            let k = pair.0.index_of('\0');
            assert(pair.0[k] == '\0');
        }
        if environment::has_nul(pair.1) {
            let k = pair.1.index_of('\0');
            assert(pair.1[k] == '\0');
        }
        assert forall|j: int| 0 <= j < i implies (#[trigger] read[j] matches Some(earlier)
            ==> same_variable(policy, earlier.0, pair.0) == (environment::normalized(
            policy,
            earlier.0,
        ) == environment::normalized(policy, pair.0))) by {
            if let Some(earlier) = read[j] {
                lemma_same_variable(policy, earlier.0, pair.0);
            }
        }
    }
}

/// Readings are taken all or none. They are taken where each is a variable without NUL that
/// was not read before, and then as they are: none is lost, added, changed or moved. Else
/// the first one that cannot be taken decides the error, and a variable that is refused is
/// named.
pub proof fn law_readings_taken(
    entries: Vec<Option<(String, String)>>,
    policy: NamePolicy,
    result: CliResult<Vec<(String, String)>>,
)
    requires
        call_ensures(collect_environment, (entries, policy), result),
    ensures
        ({
            let read = environment::entries_read(entries@);
            match result {
                Ok(taken) => {
                    &&& taken@.len() == entries@.len()
                    &&& forall|i: int|
                        0 <= i < entries@.len() ==> !#[trigger] spoilt(policy, read, i) && (
                        entries@[i] matches Some(pair) && taken@[i].0@ == pair.0@ && taken@[i].1@
                            == pair.1@)
                },
                Err(e) => exists|i: int|
                    {
                        &&& 0 <= i < entries@.len()
                        &&& #[trigger] spoilt(policy, read, i)
                        &&& forall|j: int| 0 <= j < i ==> !#[trigger] spoilt(policy, read, j)
                        &&& match entries@[i] {
                            None => e is InvalidEnvironment,
                            Some(pair) => if pair.0@.contains('\0') || pair.1@.contains('\0') {
                                e matches CliError::InvalidVariable(name) && name@ == pair.0@
                            } else {
                                e matches CliError::DuplicateVariable(name) && name@ == pair.0@
                            },
                        }
                    },
            }
        }),
{
    let read = environment::entries_read(entries@);
    assert forall|i: int| #[trigger] spoilt(policy, read, i) == !environment::acceptable(
        read,
        policy,
        i,
    ) by {
        lemma_spoilt(policy, read, i);
    }
    match result {
        Ok(taken) => {
            let all = environment::all_read(environment::pairs_of(taken@));
            assert(read.len() == all.len());
            assert forall|i: int| 0 <= i < entries@.len() implies !#[trigger] spoilt(
                policy,
                read,
                i,
            ) && (entries@[i] matches Some(pair) && taken@[i].0@ == pair.0@ && taken@[i].1@
                == pair.1@) by {
                assert(environment::acceptable(read, policy, i));
                assert(read[i] == all[i]);
                assert(read[i] == environment::entry_read(entries@[i]));
            }
        },
        Err(e) => {
            let i = choose|i: int| #[trigger]
                environment::first_refused(read, policy, i) && environment::refusal(read[i], e);
            assert(environment::first_refused(read, policy, i));
            assert(spoilt(policy, read, i));
            assert(read[i] == environment::entry_read(entries@[i]));
            assert forall|j: int| 0 <= j < i implies !#[trigger] spoilt(policy, read, j) by {
                assert(environment::acceptable(read, policy, j));
            }
        },
    }
}

/// A document is valid if every reading of it can be taken, and its variables are then what was
/// read, all of it and in its order. Else the first reading that cannot be taken decides the
/// error.
pub proof fn law_environment_parsed(
    source: &[u8],
    policy: NamePolicy,
    result: CliResult<Vec<(String, String)>>,
    checked: CliResult<()>,
)
    requires
        call_ensures(parse_environment, (source, policy), result),
        call_ensures(validate_environment, (source, policy), checked),
    ensures
        exists|read: Seq<Option<Pair>>| #[trigger]
            environment::was_read(source@, read) && match result {
                Ok(taken) => all_taken(policy, read, taken@),
                Err(e) => first_spoilt(policy, read, e),
            },
        exists|read: Seq<Option<Pair>>| #[trigger]
            environment::was_read(source@, read) && match checked {
                Ok(_) => forall|i: int|
                    0 <= i < read.len() ==> !#[trigger] spoilt(policy, read, i),
                Err(e) => first_spoilt(policy, read, e),
            },
{
    let a = choose|read: Seq<Option<Pair>>| #[trigger]
        environment::reading(source@, read) && match result {
            Ok(taken) => environment::accepted(read, policy) && read == environment::all_read(
                environment::pairs_of(taken@),
            ),
            Err(e) => environment::refused(read, policy, e),
        };
    assert(environment::was_read(source@, a));
    match result {
        Ok(taken) => {
            lemma_all_taken(policy, a, taken@);
        },
        Err(e) => {
            lemma_first_spoilt(policy, a, e);
        },
    }
    let b = choose|read: Seq<Option<Pair>>| #[trigger]
        environment::reading(source@, read) && match checked {
            Ok(_) => environment::accepted(read, policy),
            Err(e) => environment::refused(read, policy, e),
        };
    assert(environment::was_read(source@, b));
    match checked {
        Ok(_) => {
            assert forall|i: int| 0 <= i < b.len() implies !#[trigger] spoilt(policy, b, i) by {
                lemma_spoilt(policy, b, i);
            }
        },
        Err(e) => {
            lemma_first_spoilt(policy, b, e);
        },
    }
}

/// Every reading was taken, as it is and in its order.
pub open spec fn all_taken(
    policy: NamePolicy,
    read: Seq<Option<Pair>>,
    taken: Seq<(String, String)>,
) -> bool {
    &&& taken.len() == read.len()
    &&& forall|i: int|
        0 <= i < read.len() ==> !#[trigger] spoilt(policy, read, i) && (read[i] matches Some(pair)
            && taken[i].0@ == pair.0 && taken[i].1@ == pair.1)
}

/// The first reading that cannot be taken gives this error.
pub open spec fn first_spoilt(policy: NamePolicy, read: Seq<Option<Pair>>, e: CliError) -> bool {
    exists|i: int|
        {
            &&& 0 <= i < read.len()
            &&& #[trigger] spoilt(policy, read, i)
            &&& forall|j: int| 0 <= j < i ==> !#[trigger] spoilt(policy, read, j)
            &&& match read[i] {
                None => e is InvalidEnvironment,
                Some(pair) => if pair.0.contains('\0') || pair.1.contains('\0') {
                    e matches CliError::InvalidVariable(name) && name@ == pair.0
                } else {
                    e matches CliError::DuplicateVariable(name) && name@ == pair.0
                },
            }
        }
}

pub(crate) proof fn lemma_all_taken(
    policy: NamePolicy,
    read: Seq<Option<Pair>>,
    taken: Seq<(String, String)>,
)
    requires
        environment::accepted(read, policy),
        read == environment::all_read(environment::pairs_of(taken)),
    ensures
        all_taken(policy, read, taken),
{
    assert forall|i: int| 0 <= i < read.len() implies !#[trigger] spoilt(policy, read, i) && (
    read[i] matches Some(pair) && taken[i].0@ == pair.0 && taken[i].1@ == pair.1) by {
        lemma_spoilt(policy, read, i);
        assert(environment::acceptable(read, policy, i));
    }
}

pub(crate) proof fn lemma_first_spoilt(policy: NamePolicy, read: Seq<Option<Pair>>, e: CliError)
    requires
        environment::refused(read, policy, e),
    ensures
        first_spoilt(policy, read, e),
{
    let i = choose|i: int| #[trigger]
        environment::first_refused(read, policy, i) && environment::refusal(read[i], e);
    lemma_spoilt(policy, read, i);
    assert(spoilt(policy, read, i));
    assert forall|j: int| 0 <= j < i implies !#[trigger] spoilt(policy, read, j) by {
        lemma_spoilt(policy, read, j);
        assert(environment::acceptable(read, policy, j));
    }
}

} // verus!
