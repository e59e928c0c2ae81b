//! Which protector unlocks the key storage, and what passes for a password.
use vstd::prelude::*;
use vstd::string::*;
use zeroize::Zeroize;

use crate::bytes;
use crate::cli::dotenv::{CARRIAGE_RETURN, LINE_FEED};
use crate::cli::error::{CliError, CliResult};
use crate::secret::SecretBytes;
use crate::xsec::XSec;

verus! {

/// The most bytes of a password.
pub const MAX_PASSWORD_SIZE: usize = 4096;

/// The protectors that can be named on the command line.
#[derive(Clone, Copy, Debug, PartialEq, Eq, Structural)]
pub enum ProtectorKind {
    Password,
    System,
}

impl ProtectorKind {
    /// The name under which the protector is stored.
    pub open spec fn name(self) -> Seq<char> {
        match self {
            ProtectorKind::Password => "password"@,
            ProtectorKind::System => "system"@,
        }
    }

    /// The name under which the protector is stored.
    pub fn as_str(self) -> (name: &'static str)
        ensures
            name@ == self.name(),
    {
        match self {
            ProtectorKind::Password => "password",
            ProtectorKind::System => "system",
        }
    }

    /// The protector that is stored under a name.
    pub fn from_kind(kind: &str) -> (result: CliResult<Self>)
        ensures
            match result {
                Ok(protector) => protector.name() == kind@,
                Err(e) => kind@ != "password"@ && kind@ != "system"@ && (e
                    matches CliError::UnsupportedProtector(name) && name@ == kind@),
            },
    {
        if bytes::same_text(kind, "password") {
            Ok(ProtectorKind::Password)
        } else if bytes::same_text(kind, "system") {
            Ok(ProtectorKind::System)
        } else {
            Err(CliError::UnsupportedProtector(kind.to_owned()))
        }
    }
}

/// The names of a list.
pub open spec fn names_of(list: Seq<String>) -> Seq<Seq<char>> {
    Seq::new(list.len(), |i: int| list[i]@)
}

/// Texts one behind the other, with `, ` between them.
pub open spec fn joined(names: Seq<Seq<char>>) -> Seq<char>
    decreases names.len(),
{
    if names.len() == 0 {
        Seq::empty()
    } else if names.len() == 1 {
        names[0]
    } else {
        joined(names.drop_last()) + ", "@ + names.last()
    }
}

/// Texts one behind the other, with `, ` between them.
pub fn join(names: &Vec<String>) -> (text: String)
    ensures
        text@ == joined(names_of(names@)),
{
    let ghost all = names_of(names@);
    let mut text: String = String::new();
    let mut i: usize = 0;
    assert(all.take(0) =~= Seq::empty());
    while i < names.len()
        invariant
            i <= names@.len(),
            all == names_of(names@),
            text@ == joined(all.take(i as int)),
        decreases names@.len() - i,
    {
        if i > 0 {
            text.append(", ");
        }
        text.append(names[i].as_str());
        proof {
            let next = all.take(i + 1);
            assert(next.drop_last() =~= all.take(i as int));
            assert(next.last() == names@[i as int]@);
            if i == 0 {
                assert(all.take(0) =~= Seq::empty());
                assert(text@ =~= next[0]);
            } else {
                assert(text@ =~= joined(next));
            }
        }
        i = i + 1;
    }
    assert(all.take(i as int) =~= all);
    text
}

/// Whether a name is among others.
fn contains_name(names: &Vec<String>, wanted: &str) -> (found: bool)
    ensures
        found == names_of(names@).contains(wanted@),
{
    let mut i: usize = 0;
    while i < names.len()
        invariant
            i <= names@.len(),
            forall|j: int| 0 <= j < i ==> #[trigger] names_of(names@)[j] != wanted@,
        decreases names@.len() - i,
    {
        if bytes::same_text(names[i].as_str(), wanted) {
            assert(names_of(names@)[i as int] == wanted@);
            return true;
        }
        i = i + 1;
    }
    false
}

/// The stored protectors, in the order of the storage.
pub fn protector_names<S>(xsec: &XSec<S>) -> (names: Vec<String>)
    ensures
        match xsec@.metadata() {
            Some(m) => names@.len() == m.protectors.len() && forall|i: int|
                0 <= i < names@.len() ==> (#[trigger] names@[i])@ == m.protectors[i].kind,
            None => names@.len() == 0,
        },
{
    let kinds: Vec<&str> = xsec.key_protector_kinds();
    let mut names: Vec<String> = Vec::new();
    let mut i: usize = 0;
    while i < kinds.len()
        invariant
            i <= kinds@.len(),
            names@.len() == i,
            forall|j: int| 0 <= j < i ==> (#[trigger] names@[j])@ == kinds@[j]@,
        decreases kinds@.len() - i,
    {
        names.push(kinds[i].to_owned());
        i = i + 1;
    }
    names
}

/// Refuses a storage that holds no key yet.
pub fn require_initialized(initialized: bool, path: String) -> (result: CliResult<()>)
    ensures
        result is Ok == initialized,
        result matches Err(e) ==> e == CliError::StorageNotInitialized(path),
{
    if !initialized {
        return Err(CliError::StorageNotInitialized(path));
    }
    Ok(())
}

/// Refuses a protector that is not stored.
pub fn require_configured(configured: &Vec<String>, kind: ProtectorKind) -> (result: CliResult<()>)
    ensures
        result is Ok == names_of(configured@).contains(kind.name()),
        result matches Err(e) ==> (e matches CliError::ProtectorNotConfigured(name) && name@
            == kind.name()),
{
    if !contains_name(configured, kind.as_str()) {
        return Err(CliError::ProtectorNotConfigured(kind.as_str().to_owned()));
    }
    Ok(())
}

/// Which protector unlocks the storage: the one that was asked for, or the only one
/// there is. It has to be stored, and one that the command line can name.
pub fn select_protector(configured: &Vec<String>, requested: Option<ProtectorKind>) -> (result:
    CliResult<ProtectorKind>)
    ensures
        ({
            let names = names_of(configured@);
            match (requested, result) {
                (Some(kind), Ok(chosen)) => chosen == kind && names.contains(kind.name()),
                (Some(kind), Err(e)) => !names.contains(kind.name()) && (e
                    matches CliError::ProtectorNotConfigured(name) && name@ == kind.name()),
                (None, Ok(chosen)) => names.len() == 1 && names[0] == chosen.name(),
                (None, Err(e)) => if names.len() == 1 {
                    names[0] != "password"@ && names[0] != "system"@ && (e
                        matches CliError::UnsupportedProtector(name) && name@ == names[0])
                } else {
                    e matches CliError::ProtectorSelectionRequired(available) && available@
                        == joined(names)
                },
            }
        }),
{
    let ghost names = names_of(configured@);
    let kind: ProtectorKind = match requested {
        Some(kind) => kind,
        None => {
            if configured.len() != 1 {
                return Err(CliError::ProtectorSelectionRequired(join(configured)));
            }
            match ProtectorKind::from_kind(configured[0].as_str()) {
                Err(error) => {
                    assert(names[0] == configured@[0]@);
                    return Err(error);
                },
                Ok(kind) => {
                    assert(names[0] == kind.name());
                    kind
                },
            }
        },
    };
    match require_configured(configured, kind) {
        Err(error) => Err(error),
        Ok(()) => Ok(kind),
    }
}

/// The names that differ from one.
pub open spec fn others(names: Seq<Seq<char>>, name: Seq<char>) -> Seq<Seq<char>>
    decreases names.len(),
{
    if names.len() == 0 {
        Seq::empty()
    } else if names.last() == name {
        others(names.drop_last(), name)
    } else {
        others(names.drop_last(), name).push(names.last())
    }
}

fn other_names(names: &Vec<String>, name: &str) -> (rest: Vec<String>)
    ensures
        names_of(rest@) == others(names_of(names@), name@),
{
    let ghost all = names_of(names@);
    let mut rest: Vec<String> = Vec::new();
    let mut i: usize = 0;
    assert(all.take(0) =~= Seq::empty());
    assert(names_of(rest@) =~= Seq::empty());
    while i < names.len()
        invariant
            i <= names@.len(),
            all == names_of(names@),
            names_of(rest@) == others(all.take(i as int), name@),
        decreases names@.len() - i,
    {
        let ghost before = rest@;
        proof {
            let next = all.take(i + 1);
            assert(next.drop_last() =~= all.take(i as int));
            assert(next.last() == names@[i as int]@);
        }
        if !bytes::same_text(names[i].as_str(), name) {
            rest.push(names[i].as_str().to_owned());
            assert(names_of(rest@) =~= names_of(before).push(names@[i as int]@));
        }
        i = i + 1;
    }
    assert(all.take(i as int) =~= all);
    rest
}

/// How the protector that authorizes a removal is found: the one that was asked for,
/// or the only other one, or the target itself where there is no other.
pub open spec fn authorizing(
    names: Seq<Seq<char>>,
    target: ProtectorKind,
    requested: Option<ProtectorKind>,
    chosen: ProtectorKind,
) -> bool {
    let rest = others(names, target.name());
    match requested {
        Some(kind) => chosen == kind,
        None => if rest.len() == 0 {
            chosen == target
        } else {
            rest == seq![chosen.name()]
        },
    }
}

/// Which protector authorizes the removal of another. The target has to be stored, and
/// so has the one that authorizes.
pub fn select_for_removal(
    configured: &Vec<String>,
    target: ProtectorKind,
    requested: Option<ProtectorKind>,
) -> (result: CliResult<ProtectorKind>)
    ensures
        ({
            let names = names_of(configured@);
            let rest = others(names, target.name());
            if !names.contains(target.name()) {
                result matches Err(e) && (e matches CliError::ProtectorNotConfigured(name) && name@
                    == target.name())
            } else {
                match result {
                    Ok(chosen) => names.contains(chosen.name()) && authorizing(
                        names,
                        target,
                        requested,
                        chosen,
                    ),
                    Err(CliError::ProtectorNotConfigured(name)) => requested matches Some(kind)
                        && !names.contains(kind.name()) && name@ == kind.name(),
                    Err(CliError::UnlockProtectorSelectionRequired(available)) => requested is None
                        && rest.len() > 1 && available@ == joined(rest),
                    Err(CliError::UnsupportedProtector(name)) => requested is None && rest == seq![
                        name@,
                    ] && name@ != "password"@ && name@ != "system"@,
                    Err(_) => false,
                }
            }
        }),
{
    let ghost names = names_of(configured@);
    let ghost rest = others(names, target.name());
    if let Err(error) = require_configured(configured, target) {
        return Err(error);
    }
    let alternatives: Vec<String> = other_names(configured, target.as_str());
    let kind: ProtectorKind = match requested {
        Some(kind) => kind,
        None => {
            if alternatives.len() == 1 {
                assert(rest[0] == alternatives@[0]@);
                match ProtectorKind::from_kind(alternatives[0].as_str()) {
                    Err(error) => {
                        assert(rest =~= seq![alternatives@[0]@]);
                        return Err(error);
                    },
                    Ok(kind) => {
                        assert(rest =~= seq![kind.name()]);
                        proof {
                            lemma_others_among(names, target.name(), kind.name());
                        }
                        kind
                    },
                }
            } else if alternatives.len() == 0 {
                target
            } else {
                return Err(CliError::UnlockProtectorSelectionRequired(join(&alternatives)));
            }
        },
    };
    match require_configured(configured, kind) {
        Err(error) => Err(error),
        Ok(()) => Ok(kind),
    }
}

/// What differs from a name is among the names.
proof fn lemma_others_among(names: Seq<Seq<char>>, name: Seq<char>, other: Seq<char>)
    requires
        others(names, name).contains(other),
    ensures
        names.contains(other),
    decreases names.len(),
{
    if names.len() > 0 {
        let front = names.drop_last();
        if names.last() != name && other == names.last() {
            assert(names[names.len() - 1] == other);
        } else {
            if names.last() != name {
                let all = others(front, name).push(names.last());
                let i = all.index_of(other);
                assert(others(front, name)[i] == other);
            }
            lemma_others_among(front, name, other);
            let i = front.index_of(other);
            assert(names[i] == other);
        }
    }
}

/// The password flag goes with the password protector alone.
pub fn check_password_flag(kind: ProtectorKind, password_stdin: bool) -> (result: CliResult<()>)
    ensures
        result is Err == (kind is System && password_stdin),
        result matches Err(e) ==> e is UnexpectedPasswordInput,
{
    match kind {
        ProtectorKind::System => {
            if password_stdin {
                return Err(CliError::UnexpectedPasswordInput);
            }
            Ok(())
        },
        ProtectorKind::Password => Ok(()),
    }
}

/// `Zeroize::zeroize` of a `Vec<u8>`: wipes the bytes and leaves it empty.
#[verifier::external_body]
fn zeroize_bytes(bytes: &mut Vec<u8>)
    ensures
        final(bytes)@ == Seq::<u8>::empty(),
{
    bytes.zeroize();
}

/// Bytes without one line ending behind them, of either style.
pub open spec fn without_line_ending(input: Seq<u8>) -> Seq<u8> {
    if input.len() > 0 && input.last() == LINE_FEED {
        let line = input.drop_last();
        if line.len() > 0 && line.last() == CARRIAGE_RETURN {
            line.drop_last()
        } else {
            line
        }
    } else {
        input
    }
}

/// Takes one line ending off the end.
pub fn strip_line_ending(bytes: &mut Vec<u8>)
    ensures
        final(bytes)@ == without_line_ending(old(bytes)@),
{
    if bytes.len() > 0 && bytes[bytes.len() - 1] == LINE_FEED {
        bytes.pop();
        if bytes.len() > 0 && bytes[bytes.len() - 1] == CARRIAGE_RETURN {
            bytes.pop();
        }
    }
}

/// Refuses a password that is empty or too long; one that is too long is wiped.
pub fn validate_password(password: &mut Vec<u8>) -> (result: CliResult<()>)
    ensures
        result is Ok == (0 < old(password)@.len() <= MAX_PASSWORD_SIZE),
        match result {
            Ok(_) => final(password)@ == old(password)@,
            Err(e) => final(password)@.len() == 0 && if old(password)@.len() == 0 {
                e is EmptyPassword
            } else {
                e is PasswordTooLarge
            },
        },
{
    if password.len() == 0 {
        return Err(CliError::EmptyPassword);
    }
    if password.len() > MAX_PASSWORD_SIZE {
        zeroize_bytes(password);
        return Err(CliError::PasswordTooLarge);
    }
    Ok(())
}

/// Takes a password that was entered.
pub fn accept_password(password: Vec<u8>) -> (result: CliResult<SecretBytes>)
    ensures
        match result {
            Ok(secret) => secret@ == password@ && 0 < password@.len() <= MAX_PASSWORD_SIZE,
            Err(e) => if password@.len() == 0 {
                e is EmptyPassword
            } else {
                password@.len() > MAX_PASSWORD_SIZE && e is PasswordTooLarge
            },
        },
{
    let mut password: Vec<u8> = password;
    match validate_password(&mut password) {
        Err(error) => Err(error),
        Ok(()) => Ok(SecretBytes::new(password)),
    }
}

/// Takes a password that came through standard input, with or without a line ending.
pub fn accept_password_input(input: Vec<u8>) -> (result: CliResult<SecretBytes>)
    ensures
        ({
            let line = without_line_ending(input@);
            match result {
                Ok(secret) => secret@ == line && 0 < line.len() <= MAX_PASSWORD_SIZE,
                Err(e) => if line.len() == 0 {
                    e is EmptyPassword
                } else {
                    line.len() > MAX_PASSWORD_SIZE && e is PasswordInputTooLarge
                },
            }
        }),
{
    let mut password: Vec<u8> = input;
    strip_line_ending(&mut password);
    if password.len() > MAX_PASSWORD_SIZE {
        zeroize_bytes(&mut password);
        return Err(CliError::PasswordInputTooLarge);
    }
    accept_password(password)
}

/// Holds a password against its repetition.
pub fn confirm_password(password: &SecretBytes, confirmation: Vec<u8>) -> (result: CliResult<()>)
    ensures
        result is Ok == (password@ == confirmation@),
        result matches Err(e) ==> e is PasswordMismatch,
{
    let mut confirmation: Vec<u8> = confirmation;
    let matches: bool = bytes::equal(password.expose_secret(), confirmation.as_slice());
    zeroize_bytes(&mut confirmation);
    if !matches {
        return Err(CliError::PasswordMismatch);
    }
    Ok(())
}

} // verus!
