//! What happens to the files that the tool reads and writes, and how a failure is told.
use vstd::prelude::*;

use crate::bytes;
use crate::bytes::{decimal_text, unsigned_text};
use crate::cli::atomic::{AtomicWrite, Condition, Outcome, Step};
use crate::cli::error::{CliError, CliResult, IoKind, IoSource};
use crate::cli::file::{
    check_file_size, check_unchanged, failed_to, limited, read_or_missing, require_distinct,
};
use crate::error::XSecError;

verus! {

/// A file of more bytes than a limit is refused, and named with the limit; any other passes.
pub proof fn law_file_size(length: u64, path: &str, limit: usize, result: CliResult<()>)
    requires
        call_ensures(check_file_size, (length, path, limit), result),
    ensures
        length <= limit ==> result is Ok,
        length > limit ==> (result matches Err(CliError::FileTooLarge { path: p, limit: l }) && p@
            == path@ && l == limit),
{
}

/// The bytes of a file are taken whole, unless they are more than a limit.
pub proof fn law_file_taken(read: Vec<u8>, path: &str, limit: usize, result: CliResult<Vec<u8>>)
    requires
        call_ensures(limited, (read, path, limit), result),
    ensures
        read@.len() <= limit ==> (result matches Ok(data) && data@ == read@),
        read@.len() > limit ==> (result matches Err(CliError::FileTooLarge { path: p, limit: l })
            && p@ == path@ && l == limit),
{
}

/// A file is not read and written at once.
pub proof fn law_distinct_files(same: bool, result: CliResult<()>)
    requires
        call_ensures(require_distinct, (same,), result),
    ensures
        !same ==> result is Ok,
        same ==> (result matches Err(e) && e is SameInputAndOutput),
{
}

/// A file passes as unchanged if it has the bytes it had, and is named where it has not.
pub proof fn law_file_unchanged(current: &[u8], expected: &[u8], path: &str, result: CliResult<()>)
    requires
        call_ensures(check_unchanged, (current, expected, path), result),
    ensures
        result is Ok == (current@.len() == expected@.len() && forall|i: int|
            0 <= i < current@.len() ==> #[trigger] current@[i] == expected@[i]),
        result matches Err(e) ==> (e matches CliError::ConcurrentModification(p) && p@ == path@),
{
    if current@.len() == expected@.len() && forall|i: int|
        0 <= i < current@.len() ==> #[trigger] current@[i] == expected@[i] {
        assert(current@ =~= expected@);
    }
}

/// A file that is not there is no failure; every other failure is, and what was read is
/// handed on.
pub proof fn law_missing_file(read: CliResult<Vec<u8>>, result: CliResult<Option<Vec<u8>>>)
    requires
        call_ensures(read_or_missing, (read,), result),
    ensures
        read matches Ok(data) ==> (result matches Ok(Some(same)) && same == data),
        read matches Err(e) ==> if e matches CliError::Io { source, .. } && source.kind
            == IoKind::NotFound {
            result matches Ok(found) && found is None
        } else {
            result matches Err(same) && same == e
        },
{
}

/// A failure is told by what could not be done and to which file.
pub proof fn law_failure_told(action: &str, path: &str, context: String)
    requires
        call_ensures(failed_to, (action, path), context),
    ensures
        context@ == "failed to "@ + action@ + " `"@ + path@ + "`"@,
{
}

/// A file is replaced in these steps: a temporary file is made, written, hidden from others
/// where permissions exist, and brought to disk; a file that must not have changed is read
/// again; then the temporary file takes its place, and the directory is brought to disk. A
/// directory is made first where the file may be new. Where no file may be there, none is
/// replaced.
pub proof fn law_replacement_steps(
    path: String,
    directory: String,
    condition: Condition,
    unix: bool,
    plan: AtomicWrite,
)
    requires
        call_ensures(AtomicWrite::begin, (path, directory, condition, unix), plan),
    ensures
        plan@.position == 0,
        plan@.path == path@,
        plan@.directory == directory@,
        plan@.steps == match (condition, unix) {
            (Condition::Overwrite, true) => seq![
                Step::CreateDirectory,
                Step::CreateTemporary,
                Step::Write,
                Step::SetPermissions,
                Step::SyncFile,
                Step::Replace,
                Step::SyncDirectory,
            ],
            (Condition::Overwrite, false) => seq![
                Step::CreateDirectory,
                Step::CreateTemporary,
                Step::Write,
                Step::SyncFile,
                Step::Replace,
            ],
            (Condition::NewOutput, true) => seq![
                Step::CreateDirectory,
                Step::CreateTemporary,
                Step::Write,
                Step::SetPermissions,
                Step::SyncFile,
                Step::Create,
                Step::SyncDirectory,
            ],
            (Condition::NewOutput, false) => seq![
                Step::CreateDirectory,
                Step::CreateTemporary,
                Step::Write,
                Step::SyncFile,
                Step::Create,
            ],
            (Condition::Unchanged(_), true) => seq![
                Step::CreateTemporary,
                Step::Write,
                Step::SetPermissions,
                Step::SyncFile,
                Step::Reread,
                Step::Replace,
                Step::SyncDirectory,
            ],
            (Condition::Unchanged(_), false) => seq![
                Step::CreateTemporary,
                Step::Write,
                Step::SyncFile,
                Step::Reread,
                Step::Replace,
            ],
            (Condition::StillMissing, true) => seq![
                Step::CreateTemporary,
                Step::Write,
                Step::SetPermissions,
                Step::SyncFile,
                Step::Create,
                Step::SyncDirectory,
            ],
            (Condition::StillMissing, false) => seq![
                Step::CreateTemporary,
                Step::Write,
                Step::SyncFile,
                Step::Create,
            ],
        },
{
    match (condition, unix) {
        (Condition::Overwrite, true) => {
            assert(plan@.steps =~= seq![
                Step::CreateDirectory,
                Step::CreateTemporary,
                Step::Write,
                Step::SetPermissions,
                Step::SyncFile,
                Step::Replace,
                Step::SyncDirectory,
            ]);
        },
        (Condition::Overwrite, false) => {
            assert(plan@.steps =~= seq![
                Step::CreateDirectory,
                Step::CreateTemporary,
                Step::Write,
                Step::SyncFile,
                Step::Replace,
            ]);
        },
        (Condition::NewOutput, true) => {
            assert(plan@.steps =~= seq![
                Step::CreateDirectory,
                Step::CreateTemporary,
                Step::Write,
                Step::SetPermissions,
                Step::SyncFile,
                Step::Create,
                Step::SyncDirectory,
            ]);
        },
        (Condition::NewOutput, false) => {
            assert(plan@.steps =~= seq![
                Step::CreateDirectory,
                Step::CreateTemporary,
                Step::Write,
                Step::SyncFile,
                Step::Create,
            ]);
        },
        (Condition::Unchanged(_), true) => {
            assert(plan@.steps =~= seq![
                Step::CreateTemporary,
                Step::Write,
                Step::SetPermissions,
                Step::SyncFile,
                Step::Reread,
                Step::Replace,
                Step::SyncDirectory,
            ]);
        },
        (Condition::Unchanged(_), false) => {
            assert(plan@.steps =~= seq![
                Step::CreateTemporary,
                Step::Write,
                Step::SyncFile,
                Step::Reread,
                Step::Replace,
            ]);
        },
        (Condition::StillMissing, true) => {
            assert(plan@.steps =~= seq![
                Step::CreateTemporary,
                Step::Write,
                Step::SetPermissions,
                Step::SyncFile,
                Step::Create,
                Step::SyncDirectory,
            ]);
        },
        (Condition::StillMissing, false) => {
            assert(plan@.steps =~= seq![
                Step::CreateTemporary,
                Step::Write,
                Step::SyncFile,
                Step::Create,
            ]);
        },
    }
}

/// The next step is the one at the position, and there is none once all are done.
pub proof fn law_next_step(plan: &AtomicWrite, step: Option<Step>)
    requires
        plan@.wf(),
        call_ensures(AtomicWrite::step, (plan,), step),
    ensures
        plan@.position < plan@.steps.len() ==> step == Some(plan@.steps[plan@.position]),
        plan@.position == plan@.steps.len() ==> step is None,
{
}

/// A step that the file system refused stops the replacement where it is. One that was
/// carried out moves it on by one, and changes nothing else; but where the file was read
/// again, only if it has the bytes it had.
pub proof fn law_step_taken(plan: &mut AtomicWrite, outcome: Outcome, result: CliResult<()>)
    requires
        old(plan)@.wf(),
        old(plan)@.position < old(plan)@.steps.len(),
        call_ensures(AtomicWrite::advance, (plan, outcome), result),
    ensures
        ({
            let before = old(plan)@;
            let step = before.steps[before.position];
            let goes_on = match outcome {
                Outcome::Failed(_) => false,
                Outcome::Done => step != Step::Reread,
                Outcome::Read(current) => step == Step::Reread ==> (before.condition
                    matches Condition::Unchanged(expected) && current@ == expected@),
            };
            &&& result is Ok == goes_on
            &&& final(plan)@.position == if goes_on {
                before.position + 1
            } else {
                before.position
            }
            &&& final(plan)@.steps == before.steps
            &&& final(plan)@.path == before.path
            &&& final(plan)@.directory == before.directory
            &&& final(plan)@.condition == before.condition
            &&& !goes_on && !(outcome is Failed) ==> (result
                matches Err(CliError::ConcurrentModification(p)) && p@ == before.path)
        }),
{
}

/// A refused step is told by what it was to do, to the file or its directory, and by the
/// reason. A file that turned up where none may be is told apart: as a change where there
/// was none before, and as an output that exists where the user named it.
pub proof fn law_refused_step(plan: &mut AtomicWrite, source: IoSource, result: CliResult<()>)
    requires
        old(plan)@.wf(),
        old(plan)@.position < old(plan)@.steps.len(),
        call_ensures(AtomicWrite::advance, (plan, Outcome::Failed(source)), result),
    ensures
        ({
            let before = old(plan)@;
            let step = before.steps[before.position];
            let (action, subject) = match step {
                Step::CreateDirectory => ("create"@, before.directory),
                Step::CreateTemporary => ("create a temporary file in"@, before.directory),
                Step::Write => ("write"@, before.path),
                Step::SetPermissions => ("set permissions on"@, before.path),
                Step::SyncFile => ("sync"@, before.path),
                Step::Reread => ("re-read"@, before.path),
                Step::Replace => ("replace"@, before.path),
                Step::Create => ("create"@, before.path),
                Step::SyncDirectory => ("sync directory"@, before.directory),
            };
            if step == Step::Create && source.kind == IoKind::AlreadyExists {
                if before.condition is StillMissing {
                    result matches Err(CliError::ConcurrentModification(p)) && p@ == before.path
                } else {
                    result matches Err(CliError::OutputExists(p)) && p@ == before.path
                }
            } else {
                result matches Err(CliError::Io { context, source: s }) && s == source && context@
                    == "failed to "@ + action + " `"@ + subject + "`"@
            }
        }),
{
}

/// A text shows another between backquotes.
pub open spec fn shows_quoted(text: Seq<char>, subject: Seq<char>) -> bool {
    exists|front: Seq<char>, back: Seq<char>| text == #[trigger] (front + "`"@ + subject + "`"@ + back)
}

/// A text ends with another.
pub open spec fn ends_with(text: Seq<char>, end: Seq<char>) -> bool {
    exists|front: Seq<char>| text == #[trigger] (front + end)
}

/// An error that is about a variable, a file or a protector shows it between backquotes; one
/// that has a reason or a choice shows that last.
pub proof fn law_error_shows_subject(error: CliError, text: String)
    requires
        call_ensures(CliError::message, (&error,), text),
    ensures
        match error {
            CliError::InvalidEncryptedVariable(name) => shows_quoted(text@, name@),
            CliError::DuplicateVariable(name) => shows_quoted(text@, name@),
            CliError::InvalidVariable(name) => shows_quoted(text@, name@),
            CliError::InvalidVariableName(name) => shows_quoted(text@, name@),
            CliError::ConcurrentModification(path) => shows_quoted(text@, path@),
            CliError::StorageNotInitialized(path) => shows_quoted(text@, path@),
            CliError::ProtectorNotConfigured(kind) => shows_quoted(text@, kind@),
            CliError::UnsupportedProtector(kind) => shows_quoted(text@, kind@),
            CliError::OutputExists(path) => shows_quoted(text@, path@),
            CliError::FileTooLarge { path, .. } => shows_quoted(text@, path@),
            CliError::ProtectorSelectionRequired(list) => ends_with(text@, list@),
            CliError::UnlockProtectorSelectionRequired(list) => ends_with(text@, list@),
            CliError::Io { context, source } => text@ == context@ + ": "@ + source.message@,
            CliError::ChildProcess(source) => ends_with(text@, source.message@),
            CliError::XSec(source) => text@ == source.text(),
            _ => true,
        },
{
    reveal_strlit("`");
    match error {
        CliError::InvalidEncryptedVariable(name) => {
            reveal_strlit("environment variable `");
            reveal_strlit("` contains an invalid encrypted value");
            lemma_shown(
                text@,
                "environment variable `"@,
                name@,
                "` contains an invalid encrypted value"@,
            );
        },
        CliError::DuplicateVariable(name) => {
            reveal_strlit("environment variable `");
            reveal_strlit("` is declared more than once");
            lemma_shown(
                text@,
                "environment variable `"@,
                name@,
                "` is declared more than once"@,
            );
        },
        CliError::InvalidVariable(name) => {
            reveal_strlit("environment variable `");
            reveal_strlit("` contains a NUL byte");
            lemma_shown(text@, "environment variable `"@, name@, "` contains a NUL byte"@);
        },
        CliError::InvalidVariableName(name) => {
            reveal_strlit("` is not a valid environment variable name");
            lemma_shown(text@, "`"@, name@, "` is not a valid environment variable name"@);
        },
        CliError::ConcurrentModification(path) => {
            reveal_strlit("` changed while it was being updated");
            lemma_shown(text@, "`"@, path@, "` changed while it was being updated"@);
        },
        CliError::StorageNotInitialized(path) => {
            reveal_strlit("storage has not been initialized at `");
            lemma_shown(text@, "storage has not been initialized at `"@, path@, "`"@);
        },
        CliError::ProtectorNotConfigured(kind) => {
            reveal_strlit("protector `");
            reveal_strlit("` is not configured");
            lemma_shown(text@, "protector `"@, kind@, "` is not configured"@);
        },
        CliError::UnsupportedProtector(kind) => {
            reveal_strlit("protector `");
            reveal_strlit("` is not supported by this CLI");
            lemma_shown(text@, "protector `"@, kind@, "` is not supported by this CLI"@);
        },
        CliError::OutputExists(path) => {
            reveal_strlit("refusing to overwrite `");
            reveal_strlit("` without `--force`");
            lemma_shown(text@, "refusing to overwrite `"@, path@, "` without `--force`"@);
        },
        CliError::FileTooLarge { path, limit } => {
            let digits = bytes::ascii_chars(bytes::decimal(limit as nat));
            reveal_strlit("` exceeds the ");
            let back = "` exceeds the "@ + digits + "-byte limit"@;
            assert(text@ =~= "`"@ + path@ + back);
            lemma_shown(text@, "`"@, path@, back);
        },
        CliError::ProtectorSelectionRequired(list) => {
            assert(text@ == "select a configured protector with `--protector`; available: "@ + list@);
        },
        CliError::UnlockProtectorSelectionRequired(list) => {
            assert(text@ == "select a configured protector with `--unlock-with`; available: "@
                + list@);
        },
        CliError::ChildProcess(source) => {
            assert(text@ == "failed to start the child process: "@ + source.message@);
        },
        _ => {},
    }
}

proof fn lemma_shown(text: Seq<char>, front: Seq<char>, subject: Seq<char>, back: Seq<char>)
    requires
        text == front + subject + back,
        front.len() > 0 && front.last() == '`',
        back.len() > 0 && back[0] == '`',
    ensures
        shows_quoted(text, subject),
{
    reveal_strlit("`");
    let (f, b) = (front.drop_last(), back.skip(1));
    assert(text =~= f + "`"@ + subject + "`"@ + b);
}

/// The value of decimal digits.
pub open spec fn decimal_value(digits: Seq<char>) -> int
    decreases digits.len(),
{
    if digits.len() == 0 {
        0
    } else {
        decimal_value(digits.drop_last()) * 10 + (digits.last() as int - '0' as int)
    }
}

/// A number is written in decimal digits that have its value, without a zero in front.
pub proof fn law_numbers_written(n: u64, text: String)
    requires
        call_ensures(unsigned_text, (n,), text),
    ensures
        text@.len() > 0,
        forall|i: int| 0 <= i < text@.len() ==> '0' <= #[trigger] text@[i] <= '9',
        decimal_value(text@) == n,
        text@.len() > 1 ==> text@[0] != '0',
{
    lemma_decimal(n as nat);
}

proof fn lemma_decimal(n: nat)
    ensures
        ({
            let text = bytes::ascii_chars(bytes::decimal(n));
            &&& text.len() > 0
            &&& forall|i: int| 0 <= i < text.len() ==> '0' <= #[trigger] text[i] <= '9'
            &&& decimal_value(text) == n
            &&& text[0] == '0' ==> n == 0
            &&& n == 0 ==> text.len() == 1
            &&& n < 10 ==> text.len() == 1
        }),
    decreases n,
{
    let text = bytes::ascii_chars(bytes::decimal(n));
    if n < 10 {
        assert(text.drop_last() =~= Seq::empty());
        assert(decimal_value(text.drop_last()) == 0);
    } else {
        lemma_decimal(n / 10);
        let front = bytes::ascii_chars(bytes::decimal(n / 10));
        assert(text.drop_last() =~= front);
        assert(text[0] == front[0]);
        assert forall|i: int| 0 <= i < text.len() implies '0' <= #[trigger] text[i] <= '9' by {
            if i < front.len() {
                assert(text[i] == front[i]);
            }
        }
    }
}

/// A number with a sign is written as one without, behind a hyphen where it is negative.
pub proof fn law_signed_numbers_written(n: i32, text: String, rest: String)
    requires
        call_ensures(decimal_text, (n,), text),
        call_ensures(unsigned_text, ((if n < 0 { -n } else { n as int }) as u64,), rest),
    ensures
        n >= 0 ==> text@ == rest@,
        n < 0 ==> text@ == seq!['-'] + rest@,
{
    if n < 0 {
        assert(text@ =~= seq!['-'] + rest@);
    }
}

/// What is shown for each error of the command line.
pub proof fn law_errors_shown(error: CliError, text: String, inner: String)
    requires
        call_ensures(CliError::message, (&error,), text),
    ensures
        match error {
            CliError::XSec(source) => call_ensures(XSecError::message, (&source,), inner)
                ==> text@ == inner@,
            CliError::Io { context, source } => text@ == context@ + ": "@ + source.message@,
            CliError::InvalidEnvironment => text@ == "the environment file is invalid"@,
            CliError::InvalidEncryptedVariable(name) => text@
                == "environment variable `"@ + name@ + "` contains an invalid encrypted value"@,
            CliError::DuplicateVariable(name) => text@
                == "environment variable `"@ + name@ + "` is declared more than once"@,
            CliError::InvalidVariable(name) => text@
                == "environment variable `"@ + name@ + "` contains a NUL byte"@,
            CliError::InvalidVariableName(name) => text@
                == "`"@ + name@ + "` is not a valid environment variable name"@,
            CliError::InvalidEnvironmentValue => text@
                == "environment values must be valid UTF-8 and must not contain NUL or carriage-return bytes"@,
            CliError::EnvironmentValueTooLarge => text@
                == "the environment value exceeds the 1048576-byte limit"@,
            CliError::UpdatedEnvironmentTooLarge => text@
                == "the encrypted environment exceeds the 16777216-byte limit"@,
            CliError::DecryptedEnvironmentTooLarge => text@
                == "the decrypted environment exceeds the 1048576-byte limit"@,
            CliError::ConcurrentModification(path) => text@
                == "`"@ + path@ + "` changed while it was being updated"@,
            CliError::PasswordMismatch => text@ == "passwords do not match"@,
            CliError::EmptyPassword => text@ == "the password must not be empty"@,
            CliError::PasswordTooLarge => text@ == "the password exceeds 4096 bytes"@,
            CliError::PasswordInputTooLarge => text@
                == "standard input contains more than 4096 password bytes"@,
            CliError::UnexpectedPasswordInput => text@
                == "`--password` can only be used with the password protector"@,
            CliError::StorageNotInitialized(path) => text@
                == "storage has not been initialized at `"@ + path@ + "`"@,
            CliError::ProtectorSelectionRequired(available) => text@
                == "select a configured protector with `--protector`; available: "@ + available@,
            CliError::UnlockProtectorSelectionRequired(available) => text@
                == "select a configured protector with `--unlock-with`; available: "@ + available@,
            CliError::ProtectorNotConfigured(kind) => text@
                == "protector `"@ + kind@ + "` is not configured"@,
            CliError::UnsupportedProtector(kind) => text@
                == "protector `"@ + kind@ + "` is not supported by this CLI"@,
            CliError::OutputExists(path) => text@
                == "refusing to overwrite `"@ + path@ + "` without `--force`"@,
            CliError::SameInputAndOutput => text@ == "input and output must be different files"@,
            CliError::FileTooLarge { path, limit } => call_ensures(
                unsigned_text,
                (limit as u64,),
                inner,
            ) ==> text@ == "`"@ + path@ + "` exceeds the "@ + inner@ + "-byte limit"@,
            CliError::FileTaskFailed => text@ == "the background file operation failed"@,
            CliError::ChildProcess(source) => text@
                == "failed to start the child process: "@ + source.message@,
        },
{
}

} // verus!
