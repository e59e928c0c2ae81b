//! What the answers of the file system mean for the files the tool reads and writes.
use vstd::prelude::*;
use vstd::string::*;

use crate::bytes;
use crate::cli::error::{CliError, CliResult, IoKind};

verus! {

/// What could not be done to which file.
pub open spec fn failure_text(action: Seq<char>, path: Seq<char>) -> Seq<char> {
    "failed to "@ + action + " `"@ + path + "`"@
}

/// What could not be done to which file.
pub fn failed_to(action: &str, path: &str) -> (context: String)
    ensures
        context@ == failure_text(action@, path@),
{
    let mut context: String = "failed to ".to_owned();
    context.append(action);
    context.append(" `");
    context.append(path);
    context.append("`");
    context
}

/// Refuses a file that is longer than `limit` bytes.
pub fn check_file_size(length: u64, path: &str, limit: usize) -> (result: CliResult<()>)
    ensures
        result is Ok == (length <= limit),
        result matches Err(e) ==> (e matches CliError::FileTooLarge { path: p, limit: l } && p@
            == path@ && l == limit),
{
    if length > limit as u64 {
        return Err(CliError::FileTooLarge { path: path.to_owned(), limit });
    }
    Ok(())
}

/// The bytes of a file that was read, which may have grown since its length was asked
/// for.
pub fn limited(read: Vec<u8>, path: &str, limit: usize) -> (result: CliResult<Vec<u8>>)
    ensures
        match result {
            Ok(data) => data == read && read@.len() <= limit,
            Err(e) => read@.len() > limit && (e matches CliError::FileTooLarge {
                path: p,
                limit: l,
            } && p@ == path@ && l == limit),
        },
{
    if read.len() > limit {
        return Err(CliError::FileTooLarge { path: path.to_owned(), limit });
    }
    Ok(read)
}

/// Refuses to read and write the same file.
pub fn require_distinct(same: bool) -> (result: CliResult<()>)
    ensures
        result is Err == same,
        result matches Err(e) ==> e is SameInputAndOutput,
{
    if same {
        return Err(CliError::SameInputAndOutput);
    }
    Ok(())
}

/// Refuses to replace a file whose bytes are no longer those that were read.
pub fn check_unchanged(current: &[u8], expected: &[u8], path: &str) -> (result: CliResult<()>)
    ensures
        result is Ok == (current@ == expected@),
        result matches Err(e) ==> (e matches CliError::ConcurrentModification(p) && p@ == path@),
{
    if !bytes::equal(current, expected) {
        return Err(CliError::ConcurrentModification(path.to_owned()));
    }
    Ok(())
}

/// The bytes of a file that may be missing: `None` where it is, and every other failure
/// as it is.
pub fn read_or_missing(read: CliResult<Vec<u8>>) -> (result: CliResult<Option<Vec<u8>>>)
    ensures
        result == match read {
            Ok(data) => CliResult::<Option<Vec<u8>>>::Ok(Some(data)),
            Err(e) => if is_missing(e) {
                Ok(None)
            } else {
                Err(e)
            },
        },
{
    match read {
        Ok(data) => Ok(Some(data)),
        Err(CliError::Io { context, source }) => {
            if source.kind == IoKind::NotFound {
                Ok(None)
            } else {
                Err(CliError::Io { context, source })
            }
        },
        Err(error) => Err(error),
    }
}

/// The error says that a file does not exist.
pub open spec fn is_missing(e: CliError) -> bool {
    e matches CliError::Io { source, .. } && source.kind is NotFound
}

} // verus!
