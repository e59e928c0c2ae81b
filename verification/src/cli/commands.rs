//! What the commands do to documents and variables.
use vstd::prelude::*;
use vstd::string::*;
use vstd::utf8::*;

use crate::bytes;
use crate::cli::document;
use crate::cli::document::{DocumentView, EnvDocument};
use crate::cli::environment;
use crate::cli::environment::{
    normalized_environment_key, validate_environment, zeroize_environment, NamePolicy, Pair,
};
use crate::cli::error::{CliError, CliResult};
use crate::cli::protection;
use crate::cli::storage;
use crate::cli::storage::join;
use crate::cli::value;
use crate::cli::value::{
    decrypt_environment_value, encrypt_environment_value, MAX_ENCRYPTED_ENV_FILE_SIZE,
};
use crate::crypto;
use crate::error::XSecResult;
use crate::secret::ZeroizingBytes;
use crate::xsec::XSec;

verus! {

/// The value that `get` prints: what the first variable of the name stands for, `None`
/// where there is none. It fails where that value does not decrypt.
pub fn get_value<S>(
    environment: Vec<(String, String)>,
    key: &str,
    policy: NamePolicy,
    xsec: &XSec<S>,
) -> (result: CliResult<Option<ZeroizingBytes>>)
    ensures
        ({
            let pairs = environment::pairs_of(environment@);
            match result {
                Ok(None) => environment::absent(policy, pairs, key@),
                Ok(Some(plaintext)) => exists|i: int| #[trigger]
                    environment::first_named(policy, pairs, key@, i) && value::revealed(
                        xsec@.key(),
                        pairs[i].0,
                        pairs[i].1,
                    ) == Some(plaintext@),
                Err(e) => exists|i: int| #[trigger]
                    environment::first_named(policy, pairs, key@, i) && value::revealed(
                        xsec@.key(),
                        pairs[i].0,
                        pairs[i].1,
                    ) is None && (e matches CliError::InvalidEncryptedVariable(name) && name@
                        == pairs[i].0),
            }
        }),
{
    let ghost pairs = environment::pairs_of(environment@);
    let wanted: String = normalized_environment_key(key, policy);
    let mut environment: Vec<(String, String)> = environment;
    let mut found: Option<usize> = None;
    let mut i: usize = 0;
    while found.is_none() && i < environment.len()
        invariant
            i <= environment@.len(),
            pairs == environment::pairs_of(environment@),
            wanted@ == environment::normalized(policy, key@),
            match found {
                None => forall|j: int| 0 <= j < i ==> !#[trigger] environment::named(policy, pairs, key@, j),
                Some(at) => environment::first_named(policy, pairs, key@, at as int),
            },
        decreases environment@.len() - i,
    {
        let name: String = normalized_environment_key(environment[i].0.as_str(), policy);
        assert(pairs[i as int].0 == environment@[i as int].0@);
        if bytes::same_text(name.as_str(), wanted.as_str()) {
            assert(environment::named(policy, pairs, key@, i as int));
            found = Some(i);
        }
        i = i + 1;
    }
    let result: CliResult<Option<ZeroizingBytes>> = match found {
        None => Ok(None),
        Some(at) => {
            assert(pairs[at as int] == (environment@[at as int].0@, environment@[at as int].1@));
            match decrypt_environment_value(
                environment[at].0.as_str(),
                environment[at].1.as_str(),
                xsec,
            ) {
                Err(error) => Err(error),
                Ok(plaintext) => Ok(Some(plaintext)),
            }
        },
    };
    zeroize_environment(&mut environment);
    result
}

/// The name that the value of a variable is bound to: the one under which it is
/// declared, or the given one where it is not declared yet.
pub open spec fn binding_name(document: DocumentView, key: Seq<char>, name: Seq<char>) -> bool {
    if document.lacks(key) {
        name == key
    } else {
        exists|i: int| #[trigger]
            document.first_named(key, i) && name == document.entries[i].name
    }
}

/// How `set` ends on a document: the value is protected under the name of the variable
/// and set in the source, and nothing else changes.
pub open spec fn set_outcome(
    key: XSecResult<Seq<u8>>,
    before: DocumentView,
    variable: Seq<char>,
    plaintext: Seq<u8>,
    result: CliResult<()>,
    after: DocumentView,
) -> bool {
    exists|name: Seq<char>| #[trigger]
        binding_name(before, variable, name) && {
            ||| result matches Err(e) && protection::encryption_failure(key, name, plaintext, e)
                && after == before
            ||| was_set(key, before, variable, name, plaintext, result, after)
        }
}

/// The value was protected under a name, set in the source, and the source checked.
pub open spec fn was_set(
    key: XSecResult<Seq<u8>>,
    before: DocumentView,
    variable: Seq<char>,
    name: Seq<char>,
    plaintext: Seq<u8>,
    result: CliResult<()>,
    after: DocumentView,
) -> bool {
    exists|nonce: Seq<u8>|
        {
            let text = #[trigger] value::protected(key->Ok_0, nonce, name, plaintext);
            &&& key is Ok
            &&& nonce.len() == 12
            &&& crypto::drawn::<12>(nonce)
            &&& value::revealed(key, name, text) == Some(plaintext)
            &&& document::with_value(before, variable, encode_utf8(text), after.source)
            &&& after.entries == before.entries
            &&& after.policy == before.policy
            &&& validation_outcome(after, result)
        }
}

/// How a changed document is checked: it has to be short enough and readable.
pub open spec fn validation_outcome(after: DocumentView, result: CliResult<()>) -> bool {
    if after.source.len() > MAX_ENCRYPTED_ENV_FILE_SIZE {
        result matches Err(e) && e is UpdatedEnvironmentTooLarge
    } else {
        exists|read: Seq<Option<Pair>>| #[trigger]
            environment::reading(after.source, read) && match result {
                Ok(_) => environment::accepted(read, after.policy),
                Err(e) => environment::refused(read, after.policy, e),
            }
    }
}

/// Protects a value and sets it in a document. It fails where the value cannot be
/// protected, and then changes nothing; it fails as well where the result is too long
/// or cannot be read.
pub fn set_value<S>(document: &mut EnvDocument, key: &str, plaintext: &[u8], xsec: &XSec<S>) -> (result:
    CliResult<()>)
    requires
        old(document)@.wf(),
    ensures
        set_outcome(
            xsec@.key(),
            old(document)@,
            key@,
            plaintext@,
            result,
            final(document)@,
        ),
{
    let name: String = match document.stored_name(key) {
        None => key.to_owned(),
        Some(stored) => stored.to_owned(),
    };
    assert(binding_name(document@, key@, name@));
    let encrypted: ZeroizingBytes = match encrypt_environment_value(
        name.as_str(),
        plaintext,
        xsec,
    ) {
        Err(error) => {
            return Err(error);
        },
        Ok(encrypted) => encrypted,
    };
    let ghost k = xsec@.key()->Ok_0;
    let ghost nonce = choose|nonce: Seq<u8>|
        nonce.len() == 12 && crypto::drawn::<12>(nonce) && encrypted@ == encode_utf8(
            #[trigger] value::protected(k, nonce, name@, plaintext@),
        ) && value::revealed(
            xsec@.key(),
            name@,
            value::protected(k, nonce, name@, plaintext@),
        ) == Some(plaintext@);
    proof {
        value::law_protected_quotable(k, nonce, name@, plaintext@);
    }
    let result: CliResult<()> = match document.set(key, encrypted.as_slice()) {
        Err(error) => Err(error),
        Ok(()) => validate_environment(document.source.as_slice(), document.policy),
    };
    assert(validation_outcome(document@, result));
    assert(was_set(
        xsec@.key(),
        old(document)@,
        key@,
        name@,
        plaintext@,
        result,
        document@,
    ));
    result
}

/// Removes a variable from a document, and says whether there was one. It fails where
/// the rest cannot be read.
pub fn remove_value(document: &mut EnvDocument, key: &str) -> (result: CliResult<bool>)
    requires
        old(document)@.wf(),
    ensures
        document::without_declaration(old(document)@, key@, final(document)@.source),
        final(document)@.entries == old(document)@.entries,
        final(document)@.policy == old(document)@.policy,
        if old(document)@.lacks(key@) {
            result == CliResult::<bool>::Ok(false)
        } else {
            exists|read: Seq<Option<Pair>>| #[trigger]
                environment::reading(final(document)@.source, read) && match result {
                    Ok(found) => found && environment::accepted(read, final(document)@.policy),
                    Err(e) => environment::refused(read, final(document)@.policy, e),
                }
        },
{
    if !document.unset(key) {
        return Ok(false);
    }
    match validate_environment(document.source.as_slice(), document.policy) {
        Err(error) => Err(error),
        Ok(()) => Ok(true),
    }
}

/// The exit status of `get` and `del`: 1 where the variable is absent.
pub fn presence_code(found: bool) -> (code: u8)
    ensures
        code == if found {
            0u8
        } else {
            1u8
        },
{
    if found {
        0
    } else {
        1
    }
}

/// The variables among the first `n` that a child process is given: those that its
/// environment lacks, or all of them.
pub open spec fn injected_pairs(pairs: Seq<Pair>, present: Seq<bool>, replace: bool, n: int) -> Seq<
    Pair,
>
    decreases n,
{
    if n <= 0 {
        Seq::empty()
    } else if replace || !present[n - 1] {
        injected_pairs(pairs, present, replace, n - 1).push(pairs[n - 1])
    } else {
        injected_pairs(pairs, present, replace, n - 1)
    }
}

/// The variables that a child process is given: those that its environment lacks, or
/// all of them where they are to replace what is there. `present` says of each variable
/// whether the environment has it.
pub fn injected(environment: &Vec<(String, String)>, present: &Vec<bool>, replace: bool) -> (chosen:
    Vec<(String, String)>)
    requires
        present@.len() == environment@.len(),
    ensures
        environment::pairs_of(chosen@) == injected_pairs(
            environment::pairs_of(environment@),
            present@,
            replace,
            environment@.len() as int,
        ),
{
    let ghost pairs = environment::pairs_of(environment@);
    let mut chosen: Vec<(String, String)> = Vec::new();
    let mut i: usize = 0;
    assert(environment::pairs_of(chosen@) =~= Seq::empty());
    while i < environment.len()
        invariant
            i <= environment@.len(),
            present@.len() == environment@.len(),
            pairs == environment::pairs_of(environment@),
            environment::pairs_of(chosen@) == injected_pairs(pairs, present@, replace, i as int),
        decreases environment@.len() - i,
    {
        if replace || !present[i] {
            let ghost before = chosen@;
            chosen.push(
                (environment[i].0.as_str().to_owned(), environment[i].1.as_str().to_owned()),
            );
            assert(environment::pairs_of(chosen@) =~= environment::pairs_of(before).push(
                pairs[i as int],
            ));
        }
        i = i + 1;
    }
    chosen
}

/// A number as an exit status, 1 where it is none.
pub open spec fn as_status(n: int) -> u8 {
    if 0 <= n <= 255 {
        n as u8
    } else {
        1
    }
}

/// The exit status that stands for a child process: its own, or 128 and the signal that
/// ended it.
pub fn exit_status_code(code: Option<i32>, signal: Option<i32>) -> (status: u8)
    ensures
        status == match (code, signal) {
            (Some(code), _) => as_status(code as int),
            (None, Some(signal)) => as_status(128 + signal),
            (None, None) => 1u8,
        },
{
    let number: i64 = match (code, signal) {
        (Some(code), _) => code as i64,
        (None, Some(signal)) => 128 + signal as i64,
        (None, None) => 1,
    };
    if 0 <= number && number <= 255 {
        number as u8
    } else {
        1
    }
}

/// What `inspect` prints.
pub open spec fn inspection_text(path: Seq<char>, initialized: bool, names: Seq<Seq<char>>) -> Seq<
    char,
> {
    if initialized {
        "storage: "@ + path + "\ninitialized: true\nstatus: locked\nprotectors: "@ + storage::joined(
            names,
        ) + "\n"@
    } else {
        "storage: "@ + path + "\ninitialized: false\n"@
    }
}

/// What `inspect` prints.
pub fn inspection(path: &str, initialized: bool, names: &Vec<String>) -> (text: String)
    ensures
        text@ == inspection_text(path@, initialized, storage::names_of(names@)),
{
    let mut text: String = "storage: ".to_owned();
    text.append(path);
    if initialized {
        text.append("\ninitialized: true\nstatus: locked\nprotectors: ");
        text.append(join(names).as_str());
        text.append("\n");
    } else {
        text.append("\ninitialized: false\n");
    }
    text
}

} // verus!
