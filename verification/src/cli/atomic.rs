//! How a file is replaced so that it is never half written: through a temporary file in
//! the same directory, step by step. Each step is carried out elsewhere; here stands
//! which one comes next and what its failure means.
use vstd::prelude::*;
use vstd::string::*;

use crate::cli::error::{io_error, CliError, CliResult, IoKind, IoSource};
use crate::cli::file;
use crate::cli::file::{check_unchanged, failed_to};

verus! {

/// One operation on the file system.
#[derive(Clone, Copy, Debug, PartialEq, Eq, Structural)]
pub enum Step {
    /// Make the directory of the file.
    CreateDirectory,
    /// Make a temporary file in that directory.
    CreateTemporary,
    /// Write the data to the temporary file.
    Write,
    /// Let nobody but the owner read the temporary file.
    SetPermissions,
    /// Wait until the temporary file is on disk.
    SyncFile,
    /// Read the file that is to be replaced.
    Reread,
    /// Move the temporary file over the file.
    Replace,
    /// Move the temporary file to where no file is.
    Create,
    /// Wait until the directory is on disk.
    SyncDirectory,
}

/// What may be there when the file is written.
pub enum Condition {
    /// Anything; it is overwritten.
    Overwrite,
    /// Nothing, unless the user asks for an overwrite.
    NewOutput,
    /// The bytes that were read before, and nothing else.
    Unchanged(Vec<u8>),
    /// Nothing, as there was nothing before.
    StillMissing,
}

/// What came of a step.
pub enum Outcome {
    Done,
    /// The bytes that were read.
    Read(Vec<u8>),
    Failed(IoSource),
}

/// A replacement under way.
pub struct AtomicWrite {
    path: String,
    directory: String,
    condition: Condition,
    steps: Vec<Step>,
    position: usize,
}

/// A replacement as contracts see it.
pub struct AtomicWriteView {
    pub path: Seq<char>,
    pub directory: Seq<char>,
    pub condition: Condition,
    pub steps: Seq<Step>,
    pub position: int,
}

impl View for AtomicWrite {
    type V = AtomicWriteView;

    closed spec fn view(&self) -> AtomicWriteView {
        AtomicWriteView {
            path: self.path@,
            directory: self.directory@,
            condition: self.condition,
            steps: self.steps@,
            position: self.position as int,
        }
    }
}

/// One step where `present`, else none.
pub open spec fn only_if(present: bool, step: Step) -> Seq<Step> {
    if present {
        seq![step]
    } else {
        Seq::empty()
    }
}

/// The steps of a replacement, in their order. Permissions and directories are a matter
/// of Unix.
pub open spec fn steps_of(condition: Condition, unix: bool) -> Seq<Step> {
    only_if(condition is Overwrite || condition is NewOutput, Step::CreateDirectory) + seq![
        Step::CreateTemporary,
        Step::Write,
    ] + only_if(unix, Step::SetPermissions) + seq![Step::SyncFile] + only_if(
        condition is Unchanged,
        Step::Reread,
    ) + seq![
        if condition is Overwrite || condition is Unchanged {
            Step::Replace
        } else {
            Step::Create
        },
    ] + only_if(unix, Step::SyncDirectory)
}

/// The error of a step that the file system refused.
pub open spec fn step_error(plan: AtomicWriteView, step: Step, source: IoSource, e: CliError) -> bool {
    match step {
        Step::CreateDirectory => failed(e, "create"@, plan.directory, source),
        Step::CreateTemporary => failed(e, "create a temporary file in"@, plan.directory, source),
        Step::Write => failed(e, "write"@, plan.path, source),
        Step::SetPermissions => failed(e, "set permissions on"@, plan.path, source),
        Step::SyncFile => failed(e, "sync"@, plan.path, source),
        Step::Reread => failed(e, "re-read"@, plan.path, source),
        Step::Replace => failed(e, "replace"@, plan.path, source),
        Step::Create => if !(source.kind is AlreadyExists) {
            failed(e, "create"@, plan.path, source)
        } else if plan.condition is StillMissing {
            e matches CliError::ConcurrentModification(p) && p@ == plan.path
        } else {
            e matches CliError::OutputExists(p) && p@ == plan.path
        },
        Step::SyncDirectory => failed(e, "sync directory"@, plan.directory, source),
    }
}

/// The error says what could not be done to which file, and why.
pub open spec fn failed(e: CliError, action: Seq<char>, path: Seq<char>, source: IoSource) -> bool {
    e matches CliError::Io { context, source: s } && context@ == file::failure_text(action, path)
        && s == source
}

/// What comes of a step: the position moves on, unless the file system refused, or the
/// file that is to be replaced is no longer what it was.
pub open spec fn advance_outcome(
    before: AtomicWriteView,
    outcome: Outcome,
    result: CliResult<()>,
    after: AtomicWriteView,
) -> bool {
    let step = before.steps[before.position];
    match result {
        Ok(_) => !(outcome is Failed) && !conflicts(before.condition, step, outcome) && after == (
        AtomicWriteView { position: before.position + 1, ..before }),
        Err(e) => after == before && match outcome {
            Outcome::Failed(source) => step_error(before, step, source, e),
            _ => conflicts(before.condition, step, outcome) && (e
                matches CliError::ConcurrentModification(p) && p@ == before.path),
        },
    }
}

/// The file that is to be replaced was read again and is not what it was.
pub open spec fn conflicts(condition: Condition, step: Step, outcome: Outcome) -> bool {
    step is Reread && match (condition, outcome) {
        (Condition::Unchanged(expected), Outcome::Read(current)) => current@ != expected@,
        _ => true,
    }
}

impl AtomicWriteView {
    /// The steps are those of the condition, and the position is among them or behind
    /// them.
    pub open spec fn wf(self) -> bool {
        &&& self.steps == steps_of(self.condition, true) || self.steps == steps_of(
            self.condition,
            false,
        )
        &&& 0 <= self.position <= self.steps.len()
    }

    /// Every step was carried out.
    pub open spec fn finished(self) -> bool {
        self.position == self.steps.len()
    }
}

impl AtomicWrite {
    /// The first step of a replacement of the file at `path`, in `directory`.
    pub fn begin(path: String, directory: String, condition: Condition, unix: bool) -> (plan: Self)
        ensures
            plan@.wf(),
            plan@.path == path@,
            plan@.directory == directory@,
            plan@.condition == condition,
            plan@.steps == steps_of(condition, unix),
            plan@.position == 0,
    {
        let mut steps: Vec<Step> = Vec::new();
        let makes_directory: bool = matches!(condition, Condition::Overwrite | Condition::NewOutput);
        let rereads: bool = matches!(condition, Condition::Unchanged(_));
        let replaces: bool = matches!(condition, Condition::Overwrite | Condition::Unchanged(_));
        if makes_directory {
            steps.push(Step::CreateDirectory);
        }
        steps.push(Step::CreateTemporary);
        steps.push(Step::Write);
        if unix {
            steps.push(Step::SetPermissions);
        }
        steps.push(Step::SyncFile);
        if rereads {
            steps.push(Step::Reread);
        }
        if replaces {
            steps.push(Step::Replace);
        } else {
            steps.push(Step::Create);
        }
        if unix {
            steps.push(Step::SyncDirectory);
        }
        assert(steps@ =~= steps_of(condition, unix));
        AtomicWrite { path, directory, condition, steps, position: 0 }
    }

    /// The step to carry out next, `None` where all is done.
    pub fn step(&self) -> (step: Option<Step>)
        requires
            self@.wf(),
        ensures
            step is None == self@.finished(),
            step matches Some(s) ==> s == self@.steps[self@.position],
    {
        if self.position < self.steps.len() {
            Some(self.steps[self.position])
        } else {
            None
        }
    }

    fn error(&self, step: Step, source: IoSource) -> (error: CliError)
        ensures
            step_error(self@, step, source, error),
    {
        let path: &str = self.path.as_str();
        let directory: &str = self.directory.as_str();
        match step {
            Step::CreateDirectory => io_error(failed_to("create", directory), source),
            Step::CreateTemporary => io_error(
                failed_to("create a temporary file in", directory),
                source,
            ),
            Step::Write => io_error(failed_to("write", path), source),
            Step::SetPermissions => io_error(failed_to("set permissions on", path), source),
            Step::SyncFile => io_error(failed_to("sync", path), source),
            Step::Reread => io_error(failed_to("re-read", path), source),
            Step::Replace => io_error(failed_to("replace", path), source),
            Step::Create => {
                if source.kind != IoKind::AlreadyExists {
                    io_error(failed_to("create", path), source)
                } else if matches!(self.condition, Condition::StillMissing) {
                    CliError::ConcurrentModification(path.to_owned())
                } else {
                    CliError::OutputExists(path.to_owned())
                }
            },
            Step::SyncDirectory => io_error(failed_to("sync directory", directory), source),
        }
    }

    /// Takes what came of the step.
    pub fn advance(&mut self, outcome: Outcome) -> (result: CliResult<()>)
        requires
            old(self)@.wf(),
            !old(self)@.finished(),
        ensures
            final(self)@.wf(),
            advance_outcome(old(self)@, outcome, result, final(self)@),
    {
        let step: Step = self.steps[self.position];
        match outcome {
            Outcome::Failed(source) => {
                return Err(self.error(step, source));
            },
            Outcome::Read(current) => {
                if let Step::Reread = step {
                    match &self.condition {
                        Condition::Unchanged(expected) => {
                            if let Err(error) = check_unchanged(
                                current.as_slice(),
                                expected.as_slice(),
                                self.path.as_str(),
                            ) {
                                return Err(error);
                            }
                        },
                        _ => {
                            return Err(CliError::ConcurrentModification(self.path.clone()));
                        },
                    }
                }
            },
            Outcome::Done => {
                if let Step::Reread = step {
                    return Err(CliError::ConcurrentModification(self.path.clone()));
                }
            },
        }
        self.position = self.position + 1;
        Ok(())
    }
}

/// The file is moved into place only once the data is written and on disk, and where it
/// must not have changed, only after it was read again.
pub proof fn law_steps_in_order(condition: Condition, unix: bool, i: int)
    requires
        0 <= i < steps_of(condition, unix).len(),
        steps_of(condition, unix)[i] is Replace || steps_of(condition, unix)[i] is Create,
    ensures
        steps_of(condition, unix).take(i).contains(Step::Write),
        steps_of(condition, unix).take(i).contains(Step::SyncFile),
        unix ==> steps_of(condition, unix).take(i).contains(Step::SetPermissions),
        condition is Unchanged ==> i > 0 && steps_of(condition, unix)[i - 1] is Reread,
        forall|j: int|
            #![trigger steps_of(condition, unix)[j]]
            0 <= j < steps_of(condition, unix).len() && j != i ==> !(steps_of(condition, unix)[j]
                is Replace || steps_of(condition, unix)[j] is Create),
{
    let all = steps_of(condition, unix);
    let first: int = if condition is Overwrite || condition is NewOutput {
        1
    } else {
        0
    };
    let private: int = if unix {
        1
    } else {
        0
    };
    let again: int = if condition is Unchanged {
        1
    } else {
        0
    };
    assert(all[first + 1] is Write);
    assert(unix ==> all[first + 2] is SetPermissions);
    assert(all[first + 2 + private] is SyncFile);
    assert(condition is Unchanged ==> all[first + 3 + private] is Reread);
    assert(i == first + 3 + private + again);
    assert(all.take(i)[first + 1] == Step::Write);
    assert(all.take(i)[first + 2 + private] == Step::SyncFile);
    assert(unix ==> all.take(i)[first + 2] == Step::SetPermissions);
}

/// A file that must not have changed is passed by only where the bytes that were read
/// again are the bytes that were read before.
pub proof fn law_no_lost_update(
    before: AtomicWriteView,
    outcome: Outcome,
    result: CliResult<()>,
    after: AtomicWriteView,
    expected: Vec<u8>,
)
    requires
        before.condition == Condition::Unchanged(expected),
        before.steps[before.position] is Reread,
        advance_outcome(before, outcome, result, after),
        result is Ok,
    ensures
        outcome matches Outcome::Read(current) && current@ == expected@,
{
}

} // verus!
