//! What can be wrong with a request, and how it is said.
use vstd::prelude::*;
use vstd::string::*;

use crate::text::{has_part, lemma_part_at};

verus! {

/// What is wrong with a task, a request or a file.
#[derive(Debug)]
pub enum Error {
    /// A task has no name.
    EmptyTaskName,
    /// A task name holds a character outside `[A-Za-z0-9._-]`.
    InvalidTaskName { name: String },
    /// A task name is `.` or `..`.
    ReservedTaskName { name: String },
    /// A task has no working directory.
    EmptyCwd,
    /// Two tasks have the same name.
    DuplicateTask { name: String },
    /// A task depends on one that is not there.
    UnknownDependency { task: String, dependency: String },
    /// The tasks depend on each other in a circle.
    CircularDependency,
    /// A task is dispatched under a name that the run has accepted before.
    AlreadyInRun { name: String },
    /// A dispatched task depends on one that the run has not accepted.
    UnacceptedDependency { dependency: String },
    /// A field of a request is blank.
    EmptyField { field: String },
    /// A sandbox mode is none of the known ones.
    UnknownSandbox { name: String },
    /// No task of a run directory carries a run identifier.
    NoRunId { run_dir: String },
    /// A file to read is not there.
    FileNotFound { path: String },
}

impl Error {
    /// The sentence that says what is wrong.
    pub open spec fn text(&self) -> Seq<char> {
        match self {
            Error::EmptyTaskName => "task name cannot be empty"@,
            Error::InvalidTaskName { name } => "task name '"@ + name@
                + "' contains invalid characters (only [A-Za-z0-9._-] allowed)"@,
            Error::ReservedTaskName { name } => "task name '"@ + name@
                + "' is not a valid file stem"@,
            Error::EmptyCwd => "cwd cannot be empty"@,
            Error::DuplicateTask { name } => "duplicate task name: '"@ + name@ + "'"@,
            Error::UnknownDependency { task, dependency } => "task '"@ + task@
                + "' depends on unknown task '"@ + dependency@ + "'"@,
            Error::CircularDependency => "circular dependency detected"@,
            Error::AlreadyInRun { name } => "task name '"@ + name@ + "' is already in this run"@,
            Error::UnacceptedDependency { dependency } => "depends_on references unknown task '"@
                + dependency@ + "'; only already-accepted tasks are allowed"@,
            Error::EmptyField { field } => field@ + " cannot be empty"@,
            Error::UnknownSandbox { name } => "unknown sandbox '"@ + name@
                + "'; use read-only, read-write, or network-read-only"@,
            Error::NoRunId { run_dir } => "no task metadata with run_id found in "@ + run_dir@,
            Error::FileNotFound { path } => "file not found: "@ + path@,
        }
    }

    /// The sentence that says what is wrong.
    pub fn message(&self) -> (r: String)
        ensures
            r@ == self.text(),
    {
        match self {
            Error::EmptyTaskName => "task name cannot be empty".to_owned(),
            Error::InvalidTaskName { name } => quoted(
                "task name '",
                name.as_str(),
                "' contains invalid characters (only [A-Za-z0-9._-] allowed)",
            ),
            Error::ReservedTaskName { name } => quoted(
                "task name '",
                name.as_str(),
                "' is not a valid file stem",
            ),
            Error::EmptyCwd => "cwd cannot be empty".to_owned(),
            Error::DuplicateTask { name } => quoted("duplicate task name: '", name.as_str(), "'"),
            Error::UnknownDependency { task, dependency } => {
                let mut out = quoted("task '", task.as_str(), "' depends on unknown task '");
                out.append(dependency.as_str());
                out.append("'");
                out
            },
            Error::CircularDependency => "circular dependency detected".to_owned(),
            Error::AlreadyInRun { name } => quoted(
                "task name '",
                name.as_str(),
                "' is already in this run",
            ),
            Error::UnacceptedDependency { dependency } => quoted(
                "depends_on references unknown task '",
                dependency.as_str(),
                "'; only already-accepted tasks are allowed",
            ),
            Error::EmptyField { field } => {
                let mut out = field.clone();
                out.append(" cannot be empty");
                out
            },
            Error::UnknownSandbox { name } => quoted(
                "unknown sandbox '",
                name.as_str(),
                "'; use read-only, read-write, or network-read-only",
            ),
            Error::NoRunId { run_dir } => {
                let mut out = "no task metadata with run_id found in ".to_owned();
                out.append(run_dir.as_str());
                out
            },
            Error::FileNotFound { path } => {
                let mut out = "file not found: ".to_owned();
                out.append(path.as_str());
                out
            },
        }
    }
}

/// One text between two others.
pub fn quoted(left: &str, middle: &str, right: &str) -> (r: String)
    ensures
        r@ == left@ + middle@ + right@,
{
    let mut out = left.to_owned();
    out.append(middle);
    out.append(right);
    out
}

/// How a tool call is refused: the caller asked for what cannot be had, or the server failed.
#[derive(Debug)]
pub enum ToolError {
    /// The request itself is at fault.
    InvalidParams(String),
    /// The server could not do its part.
    Internal(String),
}

/// The contents of a refusal.
pub enum Refusal {
    InvalidParams(Seq<char>),
    Internal(Seq<char>),
}

impl View for ToolError {
    type V = Refusal;

    open spec fn view(&self) -> Refusal {
        match self {
            ToolError::InvalidParams(text) => Refusal::InvalidParams(text@),
            ToolError::Internal(text) => Refusal::Internal(text@),
        }
    }
}

impl ToolError {
    /// The refusal of a request for the given reason.
    pub fn invalid(e: &Error) -> (r: ToolError)
        ensures
            r@ == Refusal::InvalidParams(e.text()),
    {
        ToolError::InvalidParams(e.message())
    }
}

/// What is wrong is said with the names that it concerns, as they are.
pub proof fn errors_name_what_they_concern(e: Error)
    ensures
        match e {
            Error::InvalidTaskName { name } => has_part(e.text(), "'"@ + name@ + "'"@) && has_part(
                e.text(),
                "invalid characters"@,
            ),
            Error::ReservedTaskName { name } => has_part(e.text(), "'"@ + name@ + "'"@),
            Error::DuplicateTask { name } => e.text() == "duplicate task name: '"@ + name@ + "'"@,
            Error::UnknownDependency { task, dependency } => e.text() == "task '"@ + task@
                + "' depends on unknown task '"@ + dependency@ + "'"@,
            Error::AlreadyInRun { name } => e.text() == "task name '"@ + name@
                + "' is already in this run"@,
            Error::UnacceptedDependency { dependency } => e.text()
                == "depends_on references unknown task '"@ + dependency@
                + "'; only already-accepted tasks are allowed"@,
            Error::EmptyField { field } => e.text() == field@ + " cannot be empty"@,
            Error::UnknownSandbox { name } => e.text() == "unknown sandbox '"@ + name@
                + "'; use read-only, read-write, or network-read-only"@,
            Error::NoRunId { run_dir } => e.text() == "no task metadata with run_id found in "@
                + run_dir@,
            Error::FileNotFound { path } => e.text() == "file not found: "@ + path@,
            Error::EmptyTaskName => e.text() == "task name cannot be empty"@,
            Error::EmptyCwd => e.text() == "cwd cannot be empty"@,
            Error::CircularDependency => e.text() == "circular dependency detected"@,
        },
{
    reveal_strlit("task name '");
    reveal_strlit("task name ");
    reveal_strlit("'");
    match e {
        Error::InvalidTaskName { name } => {
            let tail = "' contains invalid characters (only [A-Za-z0-9._-] allowed)"@;
            reveal_strlit("' contains invalid characters (only [A-Za-z0-9._-] allowed)");
            reveal_strlit("invalid characters");
            lemma_quoted(e.text(), name@, tail);
            let text = e.text();
            let at = "task name '"@.len() + name@.len() + 11;
            assert(text.subrange(at as int, at as int + 18) =~= "invalid characters"@);
        },
        Error::ReservedTaskName { name } => {
            reveal_strlit("' is not a valid file stem");
            lemma_quoted(e.text(), name@, "' is not a valid file stem"@);
        },
        _ => {},
    }
}

proof fn lemma_quoted(text: Seq<char>, name: Seq<char>, tail: Seq<char>)
    requires
        text == "task name '"@ + name + tail,
        tail.len() > 0,
        tail[0] == '\'',
    ensures
        has_part(text, "'"@ + name + "'"@),
{
    reveal_strlit("task name '");
    reveal_strlit("task name ");
    reveal_strlit("'");
    let middle = "'"@ + name + "'"@;
    assert("task name '"@ =~= "task name "@ + "'"@);
    assert(text =~= ("task name "@ + middle) + tail.skip(1));
    lemma_part_at(text, "task name "@, middle, tail.skip(1));
}

/// What the caller is at fault for is told from what the server is at fault for.
pub proof fn refusals_keep_their_words(text: String)
    ensures
        ToolError::InvalidParams(text)@ == Refusal::InvalidParams(text@),
        ToolError::Internal(text)@ == Refusal::Internal(text@),
{
}

} // verus!
