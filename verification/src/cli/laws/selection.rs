//! Which protector unlocks the storage, and what passes for a password.
use vstd::prelude::*;

use crate::cli::error::{CliError, CliResult};
use crate::cli::storage;
use crate::cli::storage::{
    accept_password, accept_password_input, check_password_flag, confirm_password, join,
    protector_names, require_configured, require_initialized, select_for_removal, select_protector,
    strip_line_ending, validate_password, ProtectorKind,
};
use crate::metadata::MetadataView;
use crate::secret::SecretBytes;
use crate::xsec::{StateView, XSec};

verus! {

/// The name `password` or `system`.
pub open spec fn called(kind: ProtectorKind, name: Seq<char>) -> bool {
    match kind {
        ProtectorKind::Password => name == "password"@,
        ProtectorKind::System => name == "system"@,
    }
}

/// The two names differ.
proof fn lemma_called(a: ProtectorKind, b: ProtectorKind, name: Seq<char>)
    ensures
        called(a, name) && called(b, name) ==> a == b,
        called(a, name) == (name == a.name()),
{
    reveal_strlit("password");
    reveal_strlit("system");
    assert("password"@.len() == 8 && "system"@.len() == 6);
}

/// A protector is known by its own name, `password` or `system`, and by no other; a name
/// that is neither is refused and named.
pub proof fn law_protector_names(kind: &str, result: CliResult<ProtectorKind>)
    requires
        call_ensures(ProtectorKind::from_kind, (kind,), result),
    ensures
        kind@ == "password"@ <==> result == CliResult::<ProtectorKind>::Ok(ProtectorKind::Password),
        kind@ == "system"@ <==> result == CliResult::<ProtectorKind>::Ok(ProtectorKind::System),
        result matches Err(e) ==> (e matches CliError::UnsupportedProtector(name) && name@ == kind@),
{
    lemma_called(ProtectorKind::Password, ProtectorKind::System, kind@);
    lemma_called(ProtectorKind::System, ProtectorKind::Password, kind@);
}

/// What a protector is called is what it is known by.
pub proof fn law_protector_name_round_trip(
    kind: ProtectorKind,
    name: &'static str,
    result: CliResult<ProtectorKind>,
)
    requires
        call_ensures(ProtectorKind::as_str, (kind,), name),
        call_ensures(ProtectorKind::from_kind, (name,), result),
    ensures
        result == CliResult::<ProtectorKind>::Ok(kind),
        called(kind, name@),
{
    law_protector_names(name, result);
    lemma_called(kind, kind, name@);
}

/// A list is written with a comma and a blank between its names: no name is nothing, one is
/// itself, and one more goes behind the others.
pub proof fn law_names_joined(names: &Vec<String>, text: String, more: &Vec<String>, longer: String)
    requires
        call_ensures(join, (names,), text),
        call_ensures(join, (more,), longer),
        more@.len() == names@.len() + 1,
        forall|i: int| 0 <= i < names@.len() ==> (#[trigger] more@[i])@ == names@[i]@,
    ensures
        names@.len() == 0 ==> text@.len() == 0 && longer@ == more@[0]@,
        names@.len() > 0 ==> longer@ == text@ + ", "@ + more@[names@.len() as int]@,
{
    let (a, b) = (storage::names_of(names@), storage::names_of(more@));
    assert(b.drop_last() =~= a);
    assert(b.last() == more@[names@.len() as int]@);
}

/// Some stored protector has a name.
pub open spec fn stored_under(list: Seq<String>, kind: ProtectorKind) -> bool {
    exists|i: int| 0 <= i < list.len() && called(kind, (#[trigger] list[i])@)
}

proof fn lemma_stored(list: Seq<String>, kind: ProtectorKind)
    ensures
        stored_under(list, kind) == storage::names_of(list).contains(kind.name()),
{
    let names = storage::names_of(list);
    if stored_under(list, kind) {
        let i = choose|i: int| 0 <= i < list.len() && called(kind, (#[trigger] list[i])@);
        lemma_called(kind, kind, list[i]@);
        assert(names[i] == kind.name());
    }
    if names.contains(kind.name()) {
        let i = names.index_of(kind.name());
        assert(names[i] == list[i]@);
        lemma_called(kind, kind, list[i]@);
    }
}

/// A protector is configured if the storage has its name, else it is named as missing.
pub proof fn law_configured(configured: &Vec<String>, kind: ProtectorKind, result: CliResult<()>)
    requires
        call_ensures(require_configured, (configured, kind), result),
    ensures
        result is Ok == stored_under(configured@, kind),
        result matches Err(e) ==> (e matches CliError::ProtectorNotConfigured(name) && called(
            kind,
            name@,
        )),
{
    lemma_stored(configured@, kind);
    if let Err(CliError::ProtectorNotConfigured(name)) = result {
        lemma_called(kind, kind, name@);
    }
}

/// The protector that was asked for unlocks the storage, if it is stored. Where none was
/// asked for, the only one unlocks it; where there are more, or none, the choice is left to
/// the user. No other protector is ever chosen.
pub proof fn law_protector_selected(
    configured: &Vec<String>,
    requested: Option<ProtectorKind>,
    result: CliResult<ProtectorKind>,
)
    requires
        call_ensures(select_protector, (configured, requested), result),
    ensures
        requested matches Some(kind) ==> match result {
            Ok(chosen) => chosen == kind && stored_under(configured@, kind),
            Err(e) => !stored_under(configured@, kind) && (e
                matches CliError::ProtectorNotConfigured(name) && called(kind, name@)),
        },
        requested is None && configured@.len() == 1 ==> match result {
            Ok(chosen) => called(chosen, configured@[0]@),
            Err(e) => configured@[0]@ != "password"@ && configured@[0]@ != "system"@ && (e
                matches CliError::UnsupportedProtector(name) && name@ == configured@[0]@),
        },
        requested is None && configured@.len() != 1 ==> (result matches Err(e) && e
            is ProtectorSelectionRequired),
{
    let names = storage::names_of(configured@);
    if let Some(kind) = requested {
        lemma_stored(configured@, kind);
        if let Err(CliError::ProtectorNotConfigured(name)) = result {
            lemma_called(kind, kind, name@);
        }
    } else if configured@.len() == 1 {
        assert(names[0] == configured@[0]@);
        if let Ok(chosen) = result {
            lemma_called(chosen, chosen, names[0]);
        }
    }
}

/// The places of the names that differ from one.
proof fn lemma_others(names: Seq<Seq<char>>, name: Seq<char>) -> (places: Seq<int>)
    ensures
        ({
            let rest = storage::others(names, name);
            &&& places.len() == rest.len()
            &&& forall|k: int|
                0 <= k < places.len() ==> 0 <= #[trigger] places[k] < names.len() && rest[k]
                    == names[places[k]] && names[places[k]] != name
            &&& forall|j: int, k: int|
                0 <= j < k < places.len() ==> #[trigger] places[j] < #[trigger] places[k]
            &&& forall|i: int|
                0 <= i < names.len() ==> #[trigger] places.contains(i) == (names[i] != name)
        }),
    decreases names.len(),
{
    if names.len() == 0 {
        Seq::empty()
    } else {
        let n = names.len() as int;
        let front = lemma_others(names.drop_last(), name);
        assert forall|i: int| 0 <= i < n - 1 implies #[trigger] front.contains(i) == (names[i]
            != name) by {
            assert(names.drop_last()[i] == names[i]);
        }
        if names.last() != name {
            let places = front.push(n - 1);
            assert forall|i: int| 0 <= i < n implies #[trigger] places.contains(i) == (names[i]
                != name) by {
                if i < n - 1 {
                    assert(front.contains(i) == (names[i] != name));
                    if front.contains(i) {
                        let k = front.index_of(i);
                        assert(places[k] == i);
                    }
                    if places.contains(i) {
                        let k = places.index_of(i);
                        assert(front[k] == i);
                    }
                } else {
                    assert(places[front.len() as int] == i);
                }
            }
            places
        } else {
            assert(!front.contains(n - 1)) by {
                if front.contains(n - 1) {
                    let k = front.index_of(n - 1);
                    assert(front[k] < n - 1);
                }
            }
            front
        }
    }
}

/// The place is the only one where the storage has another protector than the target.
pub open spec fn only_other(list: Seq<String>, target: ProtectorKind, i: int) -> bool {
    &&& 0 <= i < list.len()
    &&& !called(target, list[i]@)
    &&& forall|j: int| 0 <= j < list.len() && j != i ==> called(target, (#[trigger] list[j])@)
}

/// Two different places have other protectors than the target.
pub open spec fn two_others(list: Seq<String>, target: ProtectorKind, i: int, j: int) -> bool {
    0 <= i < j < list.len() && !called(target, list[i]@) && !called(target, list[j]@)
}

/// A protector is removed only if it is stored. The one that was asked for authorizes the
/// removal, if it is stored. Where none was asked for, the one other protector does, never
/// the target; the target itself does only where it is all there is. With more than one
/// other, the choice is left to the user.
pub proof fn law_removal_authorized(
    configured: &Vec<String>,
    target: ProtectorKind,
    requested: Option<ProtectorKind>,
    result: CliResult<ProtectorKind>,
)
    requires
        call_ensures(select_for_removal, (configured, target, requested), result),
    ensures
        !stored_under(configured@, target) ==> (result matches Err(e) && (e
            matches CliError::ProtectorNotConfigured(name) && called(target, name@))),
        stored_under(configured@, target) && requested is Some ==> match result {
            Ok(chosen) => chosen == requested->Some_0 && stored_under(configured@, chosen),
            Err(e) => !stored_under(configured@, requested->Some_0) && (e
                matches CliError::ProtectorNotConfigured(name) && called(
                requested->Some_0,
                name@,
            )),
        },
        stored_under(configured@, target) && requested is None ==> {
            &&& (forall|i: int| 0 <= i < configured@.len() ==> called(
                target,
                (#[trigger] configured@[i])@,
            )) ==> result == CliResult::<ProtectorKind>::Ok(target)
            &&& forall|i: int| #[trigger]
                only_other(configured@, target, i) ==> match result {
                    Ok(chosen) => chosen != target && called(chosen, configured@[i]@),
                    Err(e) => configured@[i]@ != "password"@ && configured@[i]@ != "system"@ && (e
                        matches CliError::UnsupportedProtector(name) && name@ == configured@[i]@),
                }
            &&& forall|i: int, j: int| #[trigger]
                two_others(configured@, target, i, j) ==> (result matches Err(e) && e
                    is UnlockProtectorSelectionRequired)
        },
{
    let names = storage::names_of(configured@);
    let rest = storage::others(names, target.name());
    let places = lemma_others(names, target.name());
    lemma_stored(configured@, target);
    if let Err(CliError::ProtectorNotConfigured(name)) = result {
        lemma_called(target, target, name@);
        if let Some(kind) = requested {
            lemma_called(kind, kind, name@);
        }
    }
    if let Some(kind) = requested {
        lemma_stored(configured@, kind);
    }
    assert forall|i: int| 0 <= i < configured@.len() implies called(
        target,
        (#[trigger] configured@[i])@,
    ) == (names[i] == target.name()) by {
        lemma_called(target, target, configured@[i]@);
    }
    if stored_under(configured@, target) && requested is None {
        if forall|i: int| 0 <= i < configured@.len() ==> called(
            target,
            (#[trigger] configured@[i])@,
        ) {
            if places.len() > 0 {
                assert(names[places[0]] != target.name());
                assert(called(target, configured@[places[0]]@));
            }
            assert(rest.len() == 0);
        }
        assert forall|i: int| #[trigger] only_other(configured@, target, i) implies match result {
            Ok(chosen) => chosen != target && called(chosen, configured@[i]@),
            Err(e) => configured@[i]@ != "password"@ && configured@[i]@ != "system"@ && (e
                matches CliError::UnsupportedProtector(name) && name@ == configured@[i]@),
        } by {
            assert(names[i] != target.name());
            assert(places.contains(i));
            let k = places.index_of(i);
            assert forall|m: int| 0 <= m < places.len() implies #[trigger] places[m] == i by {
                if places[m] != i {
                    assert(called(target, configured@[places[m]]@));
                }
            }
            if places.len() > 1 {
                assert(places[0] < places[1]);
            }
            assert(rest.len() == 1 && rest[0] == names[i]);
            if let Ok(chosen) = result {
                assert(rest == seq![chosen.name()]);
                lemma_called(chosen, chosen, rest[0]);
                lemma_called(chosen, target, rest[0]);
                assert(seq![chosen.name()][0] == rest[0]);
            } else if let Err(CliError::UnsupportedProtector(name)) = result {
                assert(seq![name@][0] == rest[0]);
            }
        }
        assert forall|i: int, j: int| #[trigger] two_others(configured@, target, i, j) implies (
        result matches Err(e) && e is UnlockProtectorSelectionRequired) by {
            assert(names[i] != target.name() && names[j] != target.name());
            assert(places.contains(i) && places.contains(j));
            let (a, b) = (places.index_of(i), places.index_of(j));
            assert(a != b);
            assert(rest.len() > 1);
            if let Ok(chosen) = result {
                assert(rest == seq![chosen.name()]);
                assert(seq![chosen.name()].len() == 1);
            } else if let Err(CliError::UnsupportedProtector(name)) = result {
                assert(seq![name@].len() == 1);
            }
        }
    }
}

/// A storage without a key is refused, and its place is named.
pub proof fn law_initialized_required(initialized: bool, path: String, result: CliResult<()>)
    requires
        call_ensures(require_initialized, (initialized, path), result),
    ensures
        initialized <==> result is Ok,
        result matches Err(e) ==> (e matches CliError::StorageNotInitialized(p) && p@ == path@),
{
}

/// A password on standard input goes with the password protector and no other.
pub proof fn law_password_flag(kind: ProtectorKind, given: bool, result: CliResult<()>)
    requires
        call_ensures(check_password_flag, (kind, given), result),
    ensures
        kind == ProtectorKind::Password || !given ==> result is Ok,
        kind == ProtectorKind::System && given ==> (result matches Err(e) && e
            is UnexpectedPasswordInput),
{
}

/// A line ending, of one byte or two, is taken off the end of what came in, once; all else
/// is kept.
pub proof fn law_line_ending_stripped(input: &mut Vec<u8>)
    requires
        call_ensures(strip_line_ending, (input,), ()),
    ensures
        forall|line: Seq<u8>|
            (line.len() == 0 || line[line.len() - 1] != 0x0D) && old(input)@ == #[trigger] line.push(
                0x0A,
            ) ==> final(input)@ == line,
        forall|line: Seq<u8>|
            old(input)@ == #[trigger] line.push(0x0D).push(0x0A) ==> final(input)@ == line,
        old(input)@.len() == 0 || old(input)@[old(input)@.len() - 1] != 0x0A ==> final(input)@
            == old(input)@,
{
    let all = old(input)@;
    assert forall|line: Seq<u8>|
        (line.len() == 0 || line[line.len() - 1] != 0x0D) && all == #[trigger] line.push(
            0x0A,
        ) implies final(input)@ == line by {
        assert(all.drop_last() =~= line);
        assert(all.last() == 0x0A);
    }
    assert forall|line: Seq<u8>| all == #[trigger] line.push(0x0D).push(0x0A) implies final(input)@
        == line by {
        assert(all.drop_last() =~= line.push(0x0D));
        assert(line.push(0x0D).drop_last() =~= line);
        assert(all.last() == 0x0A);
    }
}

/// A password of 1 to 4096 bytes is taken as it is; an empty one and a longer one are
/// refused, each for its own reason.
pub proof fn law_passwords_accepted(password: Vec<u8>, result: CliResult<SecretBytes>)
    requires
        call_ensures(accept_password, (password,), result),
    ensures
        password@.len() == 0 ==> (result matches Err(e) && e is EmptyPassword),
        1 <= password@.len() <= 4096 ==> (result matches Ok(taken) && taken@ == password@),
        password@.len() > 4096 ==> (result matches Err(e) && e is PasswordTooLarge),
{
}

/// A password is checked without being changed, and nothing is left of one that is refused.
pub proof fn law_password_checked(password: &mut Vec<u8>, result: CliResult<()>)
    requires
        call_ensures(validate_password, (password,), result),
    ensures
        result is Ok == (1 <= old(password)@.len() <= 4096),
        result is Ok ==> final(password)@ == old(password)@,
        result is Err ==> final(password)@.len() == 0,
{
}

/// A password that comes through standard input is what stands before its line ending, and
/// has 1 to 4096 bytes like any other.
pub proof fn law_password_input(line: Seq<u8>, input: Vec<u8>, result: CliResult<SecretBytes>)
    requires
        call_ensures(accept_password_input, (input,), result),
        input@ == line.push(0x0A) && (line.len() == 0 || line[line.len() - 1] != 0x0D) || input@
            == line.push(0x0D).push(0x0A) || input@ == line && (line.len() == 0 || line[line.len()
            - 1] != 0x0A),
    ensures
        line.len() == 0 ==> (result matches Err(e) && e is EmptyPassword),
        1 <= line.len() <= 4096 ==> (result matches Ok(taken) && taken@ == line),
        line.len() > 4096 ==> (result matches Err(e) && e is PasswordInputTooLarge),
{
    if input@ == line.push(0x0D).push(0x0A) {
        assert(input@.drop_last() =~= line.push(0x0D));
        assert(line.push(0x0D).drop_last() =~= line);
    } else if input@ == line.push(0x0A) && (line.len() == 0 || line[line.len() - 1] != 0x0D) {
        assert(input@.drop_last() =~= line);
    }
    assert(storage::without_line_ending(input@) == line);
}

/// A password is confirmed by the same bytes and by nothing else.
pub proof fn law_password_confirmed(
    password: &SecretBytes,
    confirmation: Vec<u8>,
    result: CliResult<()>,
)
    requires
        call_ensures(confirm_password, (password, confirmation), result),
    ensures
        result is Ok == (password@.len() == confirmation@.len() && forall|i: int|
            0 <= i < confirmation@.len() ==> password@[i] == #[trigger] confirmation@[i]),
        result matches Err(e) ==> e is PasswordMismatch,
{
    if password@.len() == confirmation@.len() && forall|i: int|
        0 <= i < confirmation@.len() ==> password@[i] == #[trigger] confirmation@[i] {
        assert(password@ =~= confirmation@);
    }
}

/// The names of the protectors are told in their order, where metadata is loaded.
pub proof fn law_protectors_named<S>(xsec: &XSec<S>, names: Vec<String>)
    requires
        call_ensures(protector_names::<S>, (xsec,), names),
    ensures
        match xsec@ {
            StateView::Locked(_, m) => are_named(m, names@),
            StateView::Unlocked(_, m, _) => are_named(m, names@),
            _ => names@.len() == 0,
        },
{
}

/// These are the names of the protectors, in their order.
pub open spec fn are_named(m: MetadataView, names: Seq<String>) -> bool {
    names.len() == m.protectors.len() && forall|i: int|
        0 <= i < names.len() ==> (#[trigger] names[i])@ == m.protectors[i].kind
}

} // verus!
