//! Taking up the session of a task that has ended.
use vstd::prelude::*;
use vstd::string::*;

use crate::commands::names::{check_task_name, name_refused, valid_task_name};
use crate::error::{quoted, Refusal, ToolError};
use crate::meta::{MetaView, TaskMeta};
use crate::text::opt_text;

verus! {

/// The words for a status that could not be read.
pub open spec fn unreadable_meta(name: Seq<char>, reason: Seq<char>) -> Seq<char> {
    "failed to load task meta for '"@ + name + "': "@ + reason
}

/// Why the session of a task cannot be taken up, if it cannot; the status could be read, or could
/// not for a reason.
pub open spec fn resume_refusal(name: Seq<char>, loaded: Result<MetaView, Seq<char>>) -> Option<
    Seq<char>,
> {
    match loaded {
        Err(reason) => Some(unreadable_meta(name, reason)),
        Ok(meta) => if !meta.status.terminal() {
            Some("task '"@ + name + "' is not in a terminal state"@)
        } else if meta.session_id is None {
            Some("task '"@ + name + "' has no saved session_id"@)
        } else {
            None
        },
    }
}

/// The contents of a status that could be read, or why it could not.
pub open spec fn loaded_view(loaded: Result<TaskMeta, String>) -> Result<MetaView, Seq<char>> {
    match loaded {
        Ok(meta) => Ok(meta@),
        Err(reason) => Err(reason@),
    }
}

fn load_failure(name: &str, reason: &str) -> (r: ToolError)
    ensures
        r@ == Refusal::InvalidParams(unreadable_meta(name@, reason@)),
{
    let mut text = quoted("failed to load task meta for '", name, "': ");
    text.append(reason);
    ToolError::InvalidParams(text)
}

/// The status of a task and the session to take up again. Only a task that has ended and that
/// left a session can be resumed.
pub fn resume_session(task_name: &str, loaded: Result<TaskMeta, String>) -> (r: Result<
    (TaskMeta, String),
    ToolError,
>)
    ensures
        match r {
            Ok((meta, session_id)) => {
                &&& valid_task_name(task_name@)
                &&& resume_refusal(task_name@, loaded_view(loaded)) is None
                &&& loaded_view(loaded) == Ok::<MetaView, Seq<char>>(meta@)
                &&& meta@.session_id == Some(session_id@)
            },
            Err(e) => if !valid_task_name(task_name@) {
                name_refused(task_name@, e@)
            } else {
                resume_refusal(task_name@, loaded_view(loaded)) matches Some(text) && e@
                    == Refusal::InvalidParams(text)
            },
        },
{
    match check_task_name(task_name) {
        Ok(()) => {},
        Err(e) => {
            return Err(e);
        },
    }
    let meta = match loaded {
        Ok(meta) => meta,
        Err(reason) => {
            return Err(load_failure(task_name, reason.as_str()));
        },
    };
    if !meta.status.is_terminal() {
        return Err(
            ToolError::InvalidParams(
                quoted("task '", task_name, "' is not in a terminal state"),
            ),
        );
    }
    let session_id = match &meta.session_id {
        Some(id) => id.clone(),
        None => {
            return Err(
                ToolError::InvalidParams(quoted("task '", task_name, "' has no saved session_id")),
            );
        },
    };
    Ok((meta, session_id))
}

/// The session that a task has left, if any.
pub fn session_id_of(task_name: &str, loaded: Result<TaskMeta, String>) -> (r: Result<
    Option<String>,
    ToolError,
>)
    ensures
        match r {
            Ok(session_id) => {
                &&& valid_task_name(task_name@)
                &&& loaded_view(loaded) matches Ok(meta) && meta.session_id == opt_text(session_id)
            },
            Err(e) => if !valid_task_name(task_name@) {
                name_refused(task_name@, e@)
            } else {
                loaded_view(loaded) matches Err(reason) && e@ == Refusal::InvalidParams(
                    unreadable_meta(task_name@, reason),
                )
            },
        },
{
    match check_task_name(task_name) {
        Ok(()) => {},
        Err(e) => {
            return Err(e);
        },
    }
    match loaded {
        Ok(meta) => Ok(meta.session_id),
        Err(reason) => Err(load_failure(task_name, reason.as_str())),
    }
}

/// A session is taken up just where the status could be read, the task has ended, and it left a
/// session; else the refusal names the task.
pub proof fn ended_tasks_with_a_session_are_resumed(
    name: Seq<char>,
    meta: MetaView,
    reason: Seq<char>,
)
    ensures
        resume_refusal(name, Ok(meta)) is None <==> (meta.status is Done || meta.status is Failed
            || meta.status is Cancelled) && meta.session_id is Some,
        meta.status is Pending || meta.status is Running ==> resume_refusal(name, Ok(meta)) == Some(
            "task '"@ + name + "' is not in a terminal state"@,
        ),
        (meta.status is Done || meta.status is Failed || meta.status is Cancelled)
            && meta.session_id is None ==> resume_refusal(name, Ok(meta)) == Some(
            "task '"@ + name + "' has no saved session_id"@,
        ),
        resume_refusal(name, Err(reason)) == Some(
            "failed to load task meta for '"@ + name + "': "@ + reason,
        ),
{
}

} // verus!
