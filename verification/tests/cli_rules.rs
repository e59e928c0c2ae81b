use xsec::cli::commands::{exit_status_code, inspection, presence_code};
use xsec::cli::error::{io_error, CliError, IoKind, IoSource};
use xsec::cli::file::{
    check_file_size, check_unchanged, limited, read_or_missing, require_distinct,
};
use xsec::cli::atomic::{AtomicWrite, Condition, Outcome, Step};
use xsec::cli::storage::{
    accept_password, accept_password_input, check_password_flag, confirm_password, join,
    require_configured, require_initialized, select_for_removal, select_protector,
    strip_line_ending, validate_password, ProtectorKind, MAX_PASSWORD_SIZE,
};
use xsec::secret::SecretBytes;
use xsec::XSecError;

fn names(list: &[&str]) -> Vec<String> {
    list.iter().map(|name| name.to_string()).collect()
}

fn source(kind: IoKind) -> IoSource {
    IoSource {
        kind,
        message: "text".to_owned(),
    }
}

#[test]
fn strips_one_terminal_line_ending_from_stdin_password() {
    let mut password = b"secret\r\n".to_vec();
    strip_line_ending(&mut password);
    assert_eq!(password, b"secret");
}

#[test]
fn only_one_line_ending_is_stripped() {
    for (input, expected) in [
        (&b"a\n\n"[..], &b"a\n"[..]),
        (b"a\r", b"a\r"),
        (b"\n", b""),
        (b"\r\n", b""),
        (b"", b""),
    ] {
        let mut bytes = input.to_vec();
        strip_line_ending(&mut bytes);
        assert_eq!(bytes, expected);
    }
}

#[test]
fn passwords_are_neither_empty_nor_long() {
    assert_eq!(
        accept_password(b"x".to_vec()).unwrap().expose_secret(),
        b"x"
    );
    assert!(matches!(accept_password(vec![]), Err(CliError::EmptyPassword)));
    assert!(accept_password(vec![1; MAX_PASSWORD_SIZE]).is_ok());
    assert!(matches!(
        accept_password(vec![1; MAX_PASSWORD_SIZE + 1]),
        Err(CliError::PasswordTooLarge)
    ));
    let mut long = vec![1; MAX_PASSWORD_SIZE + 1];
    assert!(validate_password(&mut long).is_err());
    assert!(long.is_empty());
    assert_eq!(
        accept_password_input(b"x\r\n".to_vec()).unwrap().expose_secret(),
        b"x"
    );
    assert!(matches!(
        accept_password_input(b"\n".to_vec()),
        Err(CliError::EmptyPassword)
    ));
    assert!(matches!(
        accept_password_input(vec![1; MAX_PASSWORD_SIZE + 1]),
        Err(CliError::PasswordInputTooLarge)
    ));
}

#[test]
fn a_confirmation_has_to_match() {
    let password = SecretBytes::new(b"x".to_vec());
    assert!(confirm_password(&password, b"x".to_vec()).is_ok());
    assert!(matches!(
        confirm_password(&password, b"y".to_vec()),
        Err(CliError::PasswordMismatch)
    ));
}

#[test]
fn protectors_have_names() {
    assert_eq!(ProtectorKind::Password.as_str(), "password");
    assert_eq!(ProtectorKind::System.as_str(), "system");
    assert_eq!(ProtectorKind::from_kind("system").unwrap(), ProtectorKind::System);
    assert!(matches!(
        ProtectorKind::from_kind("other"),
        Err(CliError::UnsupportedProtector(name)) if name == "other"
    ));
    assert_eq!(join(&names(&["a", "b", "c"])), "a, b, c");
    assert_eq!(join(&names(&[])), "");
}

#[test]
fn the_only_protector_unlocks() {
    assert_eq!(
        select_protector(&names(&["password"]), None).unwrap(),
        ProtectorKind::Password
    );
    assert!(matches!(
        select_protector(&names(&["password", "system"]), None),
        Err(CliError::ProtectorSelectionRequired(list)) if list == "password, system"
    ));
    assert_eq!(
        select_protector(&names(&["password", "system"]), Some(ProtectorKind::System)).unwrap(),
        ProtectorKind::System
    );
    assert!(matches!(
        select_protector(&names(&["password"]), Some(ProtectorKind::System)),
        Err(CliError::ProtectorNotConfigured(name)) if name == "system"
    ));
    assert!(matches!(
        select_protector(&names(&["windows-hello"]), None),
        Err(CliError::UnsupportedProtector(name)) if name == "windows-hello"
    ));
}

#[test]
fn another_protector_authorizes_a_removal() {
    let both = names(&["password", "system"]);
    assert_eq!(
        select_for_removal(&both, ProtectorKind::System, None).unwrap(),
        ProtectorKind::Password
    );
    assert_eq!(
        select_for_removal(&both, ProtectorKind::System, Some(ProtectorKind::System)).unwrap(),
        ProtectorKind::System
    );
    assert_eq!(
        select_for_removal(&names(&["password"]), ProtectorKind::Password, None).unwrap(),
        ProtectorKind::Password
    );
    assert!(matches!(
        select_for_removal(&names(&["password"]), ProtectorKind::System, None),
        Err(CliError::ProtectorNotConfigured(name)) if name == "system"
    ));
    assert!(matches!(
        select_for_removal(
            &names(&["password"]),
            ProtectorKind::Password,
            Some(ProtectorKind::System)
        ),
        Err(CliError::ProtectorNotConfigured(name)) if name == "system"
    ));
    assert!(matches!(
        select_for_removal(&names(&["a", "b", "password"]), ProtectorKind::Password, None),
        Err(CliError::UnlockProtectorSelectionRequired(list)) if list == "a, b"
    ));
    assert!(matches!(
        select_for_removal(&names(&["a", "password"]), ProtectorKind::Password, None),
        Err(CliError::UnsupportedProtector(name)) if name == "a"
    ));
}

#[test]
fn conditions_of_the_storage_are_checked() {
    assert!(require_initialized(true, "p".to_owned()).is_ok());
    assert!(matches!(
        require_initialized(false, "p".to_owned()),
        Err(CliError::StorageNotInitialized(path)) if path == "p"
    ));
    assert!(require_configured(&names(&["password"]), ProtectorKind::Password).is_ok());
    assert!(require_configured(&names(&["system"]), ProtectorKind::Password).is_err());
    assert!(check_password_flag(ProtectorKind::Password, true).is_ok());
    assert!(check_password_flag(ProtectorKind::System, false).is_ok());
    assert!(matches!(
        check_password_flag(ProtectorKind::System, true),
        Err(CliError::UnexpectedPasswordInput)
    ));
}

#[test]
fn files_are_limited_and_distinct() {
    assert!(check_file_size(4, "p", 4).is_ok());
    assert!(matches!(
        check_file_size(5, "p", 4),
        Err(CliError::FileTooLarge { path, limit: 4 }) if path == "p"
    ));
    assert_eq!(limited(vec![1, 2], "p", 2).unwrap(), vec![1, 2]);
    assert!(limited(vec![1, 2], "p", 1).is_err());
    assert!(require_distinct(false).is_ok());
    assert!(matches!(require_distinct(true), Err(CliError::SameInputAndOutput)));
}

#[test]
fn concurrent_changes_are_noticed() {
    assert!(check_unchanged(b"a", b"a", "p").is_ok());
    assert!(matches!(
        check_unchanged(b"a", b"b", "p"),
        Err(CliError::ConcurrentModification(path)) if path == "p"
    ));
}

fn plan(condition: Condition, unix: bool) -> AtomicWrite {
    AtomicWrite::begin("d/p".to_owned(), "d".to_owned(), condition, unix)
}

/// Runs a plan to the given step, with `current` in the file.
fn run_to(plan: &mut AtomicWrite, target: Option<Step>, current: &[u8]) -> Vec<Step> {
    let mut seen = vec![];
    while plan.step() != target {
        let step = plan.step().unwrap();
        seen.push(step);
        let outcome = if step == Step::Reread {
            Outcome::Read(current.to_vec())
        } else {
            Outcome::Done
        };
        plan.advance(outcome).unwrap();
    }
    seen
}

#[test]
fn a_file_is_replaced_in_steps() {
    assert_eq!(
        run_to(&mut plan(Condition::Overwrite, true), None, b""),
        vec![
            Step::CreateDirectory,
            Step::CreateTemporary,
            Step::Write,
            Step::SetPermissions,
            Step::SyncFile,
            Step::Replace,
            Step::SyncDirectory
        ]
    );
    assert_eq!(
        run_to(&mut plan(Condition::NewOutput, false), None, b""),
        vec![
            Step::CreateDirectory,
            Step::CreateTemporary,
            Step::Write,
            Step::SyncFile,
            Step::Create
        ]
    );
    assert_eq!(
        run_to(&mut plan(Condition::Unchanged(b"old".to_vec()), false), None, b"old"),
        vec![
            Step::CreateTemporary,
            Step::Write,
            Step::SyncFile,
            Step::Reread,
            Step::Replace
        ]
    );
    assert_eq!(
        run_to(&mut plan(Condition::StillMissing, false), None, b""),
        vec![Step::CreateTemporary, Step::Write, Step::SyncFile, Step::Create]
    );
}

#[test]
fn a_changed_file_is_not_replaced() {
    let mut plan = plan(Condition::Unchanged(b"old".to_vec()), true);
    run_to(&mut plan, Some(Step::Reread), b"");
    assert!(matches!(
        plan.advance(Outcome::Read(b"new".to_vec())),
        Err(CliError::ConcurrentModification(path)) if path == "d/p"
    ));
    assert_eq!(plan.step(), Some(Step::Reread));
}

#[test]
fn a_file_that_exists_is_not_created() {
    let mut output = plan(Condition::NewOutput, true);
    run_to(&mut output, Some(Step::Create), b"");
    assert!(matches!(
        output.advance(Outcome::Failed(source(IoKind::AlreadyExists))),
        Err(CliError::OutputExists(path)) if path == "d/p"
    ));
    assert!(matches!(
        output.advance(Outcome::Failed(source(IoKind::Other))),
        Err(CliError::Io { context, .. }) if context == "failed to create `d/p`"
    ));
    let mut update = plan(Condition::StillMissing, true);
    run_to(&mut update, Some(Step::Create), b"");
    assert!(matches!(
        update.advance(Outcome::Failed(source(IoKind::AlreadyExists))),
        Err(CliError::ConcurrentModification(path)) if path == "d/p"
    ));
}

#[test]
fn a_failed_step_names_its_file() {
    for (target, text) in [
        (Step::CreateDirectory, "failed to create `d`"),
        (Step::CreateTemporary, "failed to create a temporary file in `d`"),
        (Step::Write, "failed to write `d/p`"),
        (Step::SetPermissions, "failed to set permissions on `d/p`"),
        (Step::SyncFile, "failed to sync `d/p`"),
        (Step::Replace, "failed to replace `d/p`"),
        (Step::SyncDirectory, "failed to sync directory `d`"),
    ] {
        let mut plan = plan(Condition::Overwrite, true);
        run_to(&mut plan, Some(target), b"");
        assert!(matches!(
            plan.advance(Outcome::Failed(source(IoKind::Other))),
            Err(CliError::Io { context, .. }) if context == text
        ));
    }
    let mut reread = plan(Condition::Unchanged(vec![]), true);
    run_to(&mut reread, Some(Step::Reread), b"");
    assert!(matches!(
        reread.advance(Outcome::Failed(source(IoKind::NotFound))),
        Err(CliError::Io { context, .. }) if context == "failed to re-read `d/p`"
    ));
}

#[test]
fn a_missing_file_is_no_error() {
    assert_eq!(read_or_missing(Ok(vec![1])).unwrap(), Some(vec![1]));
    let missing = io_error("c".to_owned(), source(IoKind::NotFound));
    assert_eq!(read_or_missing(Err(missing)).unwrap(), None);
    let other = io_error("c".to_owned(), source(IoKind::Other));
    assert!(matches!(read_or_missing(Err(other)), Err(CliError::Io { .. })));
    assert!(read_or_missing(Err(CliError::SameInputAndOutput)).is_err());
}

#[test]
fn exit_codes_follow_the_child() {
    assert_eq!(exit_status_code(Some(0), None), 0);
    assert_eq!(exit_status_code(Some(255), None), 255);
    assert_eq!(exit_status_code(Some(256), None), 1);
    assert_eq!(exit_status_code(Some(-1), Some(9)), 1);
    assert_eq!(exit_status_code(None, Some(9)), 137);
    assert_eq!(exit_status_code(None, Some(128)), 1);
    assert_eq!(exit_status_code(None, None), 1);
    assert_eq!(presence_code(true), 0);
    assert_eq!(presence_code(false), 1);
}

#[test]
fn inspection_is_printed() {
    assert_eq!(
        inspection("p", true, &names(&["password", "system"])),
        "storage: p\ninitialized: true\nstatus: locked\nprotectors: password, system\n"
    );
    assert_eq!(
        inspection("p", false, &names(&[])),
        "storage: p\ninitialized: false\n"
    );
}

#[test]
fn errors_are_rendered() {
    assert_eq!(
        CliError::FileTooLarge {
            path: "p".to_owned(),
            limit: 1048576
        }
        .message(),
        "`p` exceeds the 1048576-byte limit"
    );
    assert_eq!(
        io_error("reading".to_owned(), source(IoKind::Other)).message(),
        "reading: text"
    );
    assert_eq!(
        CliError::ProtectorSelectionRequired("a, b".to_owned()).message(),
        "select a configured protector with `--protector`; available: a, b"
    );
    assert_eq!(
        CliError::ChildProcess(source(IoKind::NotFound)).message(),
        "failed to start the child process: text"
    );
    assert_eq!(CliError::XSec(XSecError::Locked).message(), "XSec is locked");
    assert_eq!(
        CliError::DuplicateVariable("A".to_owned()).message(),
        "environment variable `A` is declared more than once"
    );
}
