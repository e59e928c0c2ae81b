//! The errors of the command line tool.
use vstd::prelude::*;
use vstd::string::*;

use crate::bytes;
use crate::error::XSecError;

verus! {

/// What kind of input or output error the operating system reported.
#[derive(Clone, Copy, Debug, PartialEq, Eq, Structural)]
pub enum IoKind {
    NotFound,
    AlreadyExists,
    Other,
}

/// An input or output error of the operating system: its kind and its text.
#[derive(Debug)]
pub struct IoSource {
    pub kind: IoKind,
    pub message: String,
}

/// Everything that can go wrong in the command line tool.
#[derive(Debug)]
pub enum CliError {
    XSec(XSecError),
    Io { context: String, source: IoSource },
    InvalidEnvironment,
    InvalidEncryptedVariable(String),
    DuplicateVariable(String),
    InvalidVariable(String),
    InvalidVariableName(String),
    InvalidEnvironmentValue,
    EnvironmentValueTooLarge,
    UpdatedEnvironmentTooLarge,
    DecryptedEnvironmentTooLarge,
    ConcurrentModification(String),
    PasswordMismatch,
    EmptyPassword,
    PasswordTooLarge,
    PasswordInputTooLarge,
    UnexpectedPasswordInput,
    StorageNotInitialized(String),
    ProtectorSelectionRequired(String),
    UnlockProtectorSelectionRequired(String),
    ProtectorNotConfigured(String),
    UnsupportedProtector(String),
    OutputExists(String),
    SameInputAndOutput,
    FileTooLarge { path: String, limit: usize },
    FileTaskFailed,
    ChildProcess(IoSource),
}

pub type CliResult<T> = Result<T, CliError>;

/// Puts a context before an input or output error.
pub fn io_error(context: String, source: IoSource) -> (error: CliError)
    ensures
        error == (CliError::Io { context, source }),
{
    CliError::Io { context, source }
}

fn followed(before: &str, name: &str) -> (text: String)
    ensures
        text@ == before@ + name@,
{
    let mut text: String = before.to_owned();
    text.append(name);
    text
}

fn quoted(before: &str, name: &str, after: &str) -> (text: String)
    ensures
        text@ == before@ + name@ + after@,
{
    let mut text: String = before.to_owned();
    text.append(name);
    text.append(after);
    text
}

impl CliError {
    /// The text shown for the error.
    pub open spec fn text(self) -> Seq<char> {
        match self {
            CliError::XSec(source) => source.text(),
            CliError::Io { context, source } => context@ + ": "@ + source.message@,
            CliError::InvalidEnvironment => "the environment file is invalid"@,
            CliError::InvalidEncryptedVariable(name) => "environment variable `"@ + name@
                + "` contains an invalid encrypted value"@,
            CliError::DuplicateVariable(name) => "environment variable `"@ + name@
                + "` is declared more than once"@,
            CliError::InvalidVariable(name) => "environment variable `"@ + name@
                + "` contains a NUL byte"@,
            CliError::InvalidVariableName(name) => "`"@ + name@
                + "` is not a valid environment variable name"@,
            CliError::InvalidEnvironmentValue =>
                "environment values must be valid UTF-8 and must not contain NUL or carriage-return bytes"@,
            CliError::EnvironmentValueTooLarge =>
                "the environment value exceeds the 1048576-byte limit"@,
            CliError::UpdatedEnvironmentTooLarge =>
                "the encrypted environment exceeds the 16777216-byte limit"@,
            CliError::DecryptedEnvironmentTooLarge =>
                "the decrypted environment exceeds the 1048576-byte limit"@,
            CliError::ConcurrentModification(path) => "`"@ + path@
                + "` changed while it was being updated"@,
            CliError::PasswordMismatch => "passwords do not match"@,
            CliError::EmptyPassword => "the password must not be empty"@,
            CliError::PasswordTooLarge => "the password exceeds 4096 bytes"@,
            CliError::PasswordInputTooLarge =>
                "standard input contains more than 4096 password bytes"@,
            CliError::UnexpectedPasswordInput =>
                "`--password` can only be used with the password protector"@,
            CliError::StorageNotInitialized(path) => "storage has not been initialized at `"@ + path@
                + "`"@,
            CliError::ProtectorSelectionRequired(available) =>
                "select a configured protector with `--protector`; available: "@ + available@,
            CliError::UnlockProtectorSelectionRequired(available) =>
                "select a configured protector with `--unlock-with`; available: "@ + available@,
            CliError::ProtectorNotConfigured(kind) => "protector `"@ + kind@
                + "` is not configured"@,
            CliError::UnsupportedProtector(kind) => "protector `"@ + kind@
                + "` is not supported by this CLI"@,
            CliError::OutputExists(path) => "refusing to overwrite `"@ + path@
                + "` without `--force`"@,
            CliError::SameInputAndOutput => "input and output must be different files"@,
            CliError::FileTooLarge { path, limit } => "`"@ + path@ + "` exceeds the "@
                + bytes::ascii_chars(bytes::decimal(limit as nat)) + "-byte limit"@,
            CliError::FileTaskFailed => "the background file operation failed"@,
            CliError::ChildProcess(source) => "failed to start the child process: "@
                + source.message@,
        }
    }

    /// Renders the error for people.
    pub fn message(&self) -> (text: String)
        ensures
            text@ == self.text(),
    {
        match self {
            CliError::XSec(source) => source.message(),
            CliError::Io { context, source } => quoted(
                context.as_str(),
                ": ",
                source.message.as_str(),
            ),
            CliError::InvalidEnvironment => "the environment file is invalid".to_owned(),
            CliError::InvalidEncryptedVariable(name) => quoted(
                "environment variable `",
                name.as_str(),
                "` contains an invalid encrypted value",
            ),
            CliError::DuplicateVariable(name) => quoted(
                "environment variable `",
                name.as_str(),
                "` is declared more than once",
            ),
            CliError::InvalidVariable(name) => quoted(
                "environment variable `",
                name.as_str(),
                "` contains a NUL byte",
            ),
            CliError::InvalidVariableName(name) => quoted(
                "`",
                name.as_str(),
                "` is not a valid environment variable name",
            ),
            CliError::InvalidEnvironmentValue =>
                "environment values must be valid UTF-8 and must not contain NUL or carriage-return bytes".to_owned(),
            CliError::EnvironmentValueTooLarge =>
                "the environment value exceeds the 1048576-byte limit".to_owned(),
            CliError::UpdatedEnvironmentTooLarge =>
                "the encrypted environment exceeds the 16777216-byte limit".to_owned(),
            CliError::DecryptedEnvironmentTooLarge =>
                "the decrypted environment exceeds the 1048576-byte limit".to_owned(),
            CliError::ConcurrentModification(path) => quoted(
                "`",
                path.as_str(),
                "` changed while it was being updated",
            ),
            CliError::PasswordMismatch => "passwords do not match".to_owned(),
            CliError::EmptyPassword => "the password must not be empty".to_owned(),
            CliError::PasswordTooLarge => "the password exceeds 4096 bytes".to_owned(),
            CliError::PasswordInputTooLarge =>
                "standard input contains more than 4096 password bytes".to_owned(),
            CliError::UnexpectedPasswordInput =>
                "`--password` can only be used with the password protector".to_owned(),
            CliError::StorageNotInitialized(path) => quoted(
                "storage has not been initialized at `",
                path.as_str(),
                "`",
            ),
            CliError::ProtectorSelectionRequired(available) => followed(
                "select a configured protector with `--protector`; available: ",
                available.as_str(),
            ),
            CliError::UnlockProtectorSelectionRequired(available) => followed(
                "select a configured protector with `--unlock-with`; available: ",
                available.as_str(),
            ),
            CliError::ProtectorNotConfigured(kind) => quoted(
                "protector `",
                kind.as_str(),
                "` is not configured",
            ),
            CliError::UnsupportedProtector(kind) => quoted(
                "protector `",
                kind.as_str(),
                "` is not supported by this CLI",
            ),
            CliError::OutputExists(path) => quoted(
                "refusing to overwrite `",
                path.as_str(),
                "` without `--force`",
            ),
            CliError::SameInputAndOutput => "input and output must be different files".to_owned(),
            CliError::FileTooLarge { path, limit } => {
                let mut text: String = quoted("`", path.as_str(), "` exceeds the ");
                text.append(bytes::unsigned_text(*limit as u64).as_str());
                text.append("-byte limit");
                text
            },
            CliError::FileTaskFailed => "the background file operation failed".to_owned(),
            CliError::ChildProcess(source) => followed(
                "failed to start the child process: ",
                source.message.as_str(),
            ),
        }
    }
}

} // verus!
