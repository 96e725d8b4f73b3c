//! The live status of tasks and of whole runs.
use vstd::prelude::*;
use vstd::string::*;

use crate::config::{TaskDef, TaskView};
use crate::text::{copy_opt, first_chars, opt_text, truncate_utf8};
use crate::time::Timestamp;

verus! {

/// How far a run has come.
#[derive(Clone, Copy, Debug, PartialEq, Eq, Structural)]
pub enum RunStatus {
    Running,
    Done,
    Failed,
}

/// The live status of a run.
#[derive(Debug)]
pub struct RunMeta {
    pub status: RunStatus,
    pub task_count: usize,
    pub wave_count: usize,
    pub started_at: Timestamp,
    pub error: Option<String>,
}

/// The contents of a run's status.
#[verifier::ext_equal]
pub struct RunMetaView {
    pub status: RunStatus,
    pub task_count: nat,
    pub wave_count: nat,
    pub started_at: Timestamp,
    pub error: Option<Seq<char>>,
}

impl View for RunMeta {
    type V = RunMetaView;

    open spec fn view(&self) -> RunMetaView {
        RunMetaView {
            status: self.status,
            task_count: self.task_count as nat,
            wave_count: self.wave_count as nat,
            started_at: self.started_at,
            error: opt_text(self.error),
        }
    }
}

impl RunMeta {
    /// The status of a run that starts now.
    pub fn start(task_count: usize, wave_count: usize, started_at: Timestamp) -> (r: RunMeta)
        ensures
            r@ == (RunMetaView {
                status: RunStatus::Running,
                task_count: task_count as nat,
                wave_count: wave_count as nat,
                started_at,
                error: None,
            }),
    {
        RunMeta { status: RunStatus::Running, task_count, wave_count, started_at, error: None }
    }

    /// Notes how a run ended: done where every task went well, else failed for the given reason.
    pub fn conclude(&mut self, all_ok: bool, first_error: Option<String>)
        ensures
            final(self)@ == if all_ok {
                RunMetaView { status: RunStatus::Done, ..old(self)@ }
            } else {
                RunMetaView {
                    status: RunStatus::Failed,
                    error: opt_text(first_error),
                    ..old(self)@
                }
            },
    {
        if all_ok {
            self.status = RunStatus::Done;
        } else {
            self.error = first_error;
            self.status = RunStatus::Failed;
        }
    }
}

impl Clone for RunMeta {
    fn clone(&self) -> (r: RunMeta)
        ensures
            r@ == self@,
    {
        RunMeta {
            status: self.status,
            task_count: self.task_count,
            wave_count: self.wave_count,
            started_at: self.started_at,
            error: copy_opt(&self.error),
        }
    }
}

/// Adds the tasks that a run has newly accepted to its count.
pub fn bump_run_task_count(run_meta: &mut RunMeta, newly_accepted_count: usize)
    requires
        old(run_meta).task_count + newly_accepted_count <= usize::MAX,
    ensures
        final(run_meta)@ == (RunMetaView {
            task_count: old(run_meta)@.task_count + newly_accepted_count as nat,
            ..old(run_meta)@
        }),
{
    run_meta.task_count = run_meta.task_count + newly_accepted_count;
}

/// How far a task has come.
#[derive(Clone, Copy, Debug, PartialEq, Eq, Structural)]
pub enum TaskStatus {
    Pending,
    Running,
    Done,
    Failed,
    Cancelled,
}

impl TaskStatus {
    /// Whether a task with this status will not run any further.
    pub open spec fn terminal(self) -> bool {
        self == TaskStatus::Done || self == TaskStatus::Failed || self == TaskStatus::Cancelled
    }

    /// The status in one word.
    pub open spec fn label(self) -> Seq<char> {
        match self {
            TaskStatus::Pending => "pending"@,
            TaskStatus::Running => "running"@,
            TaskStatus::Done => "done"@,
            TaskStatus::Failed => "failed"@,
            TaskStatus::Cancelled => "cancelled"@,
        }
    }

    /// Whether a task with this status will not run any further.
    pub fn is_terminal(&self) -> (r: bool)
        ensures
            r == self.terminal(),
            r == (*self == TaskStatus::Done || *self == TaskStatus::Failed || *self
                == TaskStatus::Cancelled),
    {
        match self {
            TaskStatus::Done | TaskStatus::Failed | TaskStatus::Cancelled => true,
            _ => false,
        }
    }

    /// The status in one word.
    pub fn as_text(&self) -> (r: &'static str)
        ensures
            r@ == self.label(),
    {
        match self {
            TaskStatus::Pending => "pending",
            TaskStatus::Running => "running",
            TaskStatus::Done => "done",
            TaskStatus::Failed => "failed",
            TaskStatus::Cancelled => "cancelled",
        }
    }
}

/// No two statuses have the same word.
pub proof fn status_labels_differ(a: TaskStatus, b: TaskStatus)
    ensures
        a.label() == b.label() ==> a == b,
{
    reveal_strlit("pending");
    reveal_strlit("running");
    reveal_strlit("done");
    reveal_strlit("failed");
    reveal_strlit("cancelled");
    assert("pending"@.len() == 7 && "running"@.len() == 7 && "done"@.len() == 4 && "failed"@.len()
        == 6 && "cancelled"@.len() == 9);
    assert("pending"@[0] == 'p' && "running"@[0] == 'r');
}

/// The live status of a task.
#[derive(Debug)]
pub struct TaskMeta {
    pub name: String,
    pub wave: Option<u32>,
    pub run_id: String,
    pub agent_id: String,
    pub thread_id: String,
    pub session_id: Option<String>,
    pub cwd: String,
    pub prompt_preview: String,
    pub status: TaskStatus,
    pub pid: Option<u32>,
    pub dispatched_at: Option<Timestamp>,
    pub start_time: Timestamp,
    pub end_time: Option<Timestamp>,
    pub events_count: u64,
    pub input_tokens: u64,
    pub output_tokens: u64,
    pub files_read: u32,
    pub commands_run: u32,
    pub last_action: String,
    pub exit_code: Option<i32>,
    pub error: Option<String>,
}

/// The contents of a task's status.
#[verifier::ext_equal]
pub struct MetaView {
    pub name: Seq<char>,
    pub wave: Option<u32>,
    pub run_id: Seq<char>,
    pub agent_id: Seq<char>,
    pub thread_id: Seq<char>,
    pub session_id: Option<Seq<char>>,
    pub cwd: Seq<char>,
    pub prompt_preview: Seq<char>,
    pub status: TaskStatus,
    pub pid: Option<u32>,
    pub dispatched_at: Option<Timestamp>,
    pub start_time: Timestamp,
    pub end_time: Option<Timestamp>,
    pub events_count: nat,
    pub input_tokens: nat,
    pub output_tokens: nat,
    pub files_read: nat,
    pub commands_run: nat,
    pub last_action: Seq<char>,
    pub exit_code: Option<i32>,
    pub error: Option<Seq<char>>,
}

impl View for TaskMeta {
    type V = MetaView;

    open spec fn view(&self) -> MetaView {
        MetaView {
            name: self.name@,
            wave: self.wave,
            run_id: self.run_id@,
            agent_id: self.agent_id@,
            thread_id: self.thread_id@,
            session_id: opt_text(self.session_id),
            cwd: self.cwd@,
            prompt_preview: self.prompt_preview@,
            status: self.status,
            pid: self.pid,
            dispatched_at: self.dispatched_at,
            start_time: self.start_time,
            end_time: self.end_time,
            events_count: self.events_count as nat,
            input_tokens: self.input_tokens as nat,
            output_tokens: self.output_tokens as nat,
            files_read: self.files_read as nat,
            commands_run: self.commands_run as nat,
            last_action: self.last_action@,
            exit_code: self.exit_code,
            error: opt_text(self.error),
        }
    }
}

/// The contents of a list of statuses.
pub open spec fn meta_views(metas: Seq<TaskMeta>) -> Seq<MetaView> {
    metas.map_values(|m: TaskMeta| m@)
}

/// How much of a prompt a status shows.
pub const PREVIEW_CHARS: usize = 150;

/// The status of a task that has not done anything yet.
pub open spec fn fresh_meta(
    name: Seq<char>,
    cwd: Seq<char>,
    prompt: Seq<char>,
    start_time: Timestamp,
) -> MetaView {
    MetaView {
        name,
        wave: None,
        run_id: Seq::empty(),
        agent_id: Seq::empty(),
        thread_id: Seq::empty(),
        session_id: None,
        cwd,
        prompt_preview: first_chars(prompt, PREVIEW_CHARS as nat),
        status: TaskStatus::Pending,
        pid: None,
        dispatched_at: None,
        start_time,
        end_time: None,
        events_count: 0,
        input_tokens: 0,
        output_tokens: 0,
        files_read: 0,
        commands_run: 0,
        last_action: Seq::empty(),
        exit_code: None,
        error: None,
    }
}

/// The agent that a task is recorded under: the one it asks for, or its own name.
pub open spec fn agent_of(task: TaskView) -> Seq<char> {
    match task.agent_id {
        Some(id) => id,
        None => task.name,
    }
}

/// The thread that a task is recorded under: the one it asks for, or its own name.
pub open spec fn thread_of(task: TaskView) -> Seq<char> {
    match task.thread_id {
        Some(id) => id,
        None => task.name,
    }
}

/// The agent that a task is recorded under.
pub fn agent_for(task: &TaskDef) -> (r: String)
    ensures
        r@ == agent_of(task@),
{
    match &task.agent_id {
        Some(id) => id.clone(),
        None => task.name.clone(),
    }
}

/// The thread that a task is recorded under.
pub fn thread_for(task: &TaskDef) -> (r: String)
    ensures
        r@ == thread_of(task@),
{
    match &task.thread_id {
        Some(id) => id.clone(),
        None => task.name.clone(),
    }
}

impl TaskMeta {
    /// The status of a task that is created now.
    pub fn new(name: &str, cwd: &str, prompt: &str) -> (r: TaskMeta)
        ensures
            r@ == fresh_meta(name@, cwd@, prompt@, r.start_time),
    {
        TaskMeta::new_at(name, cwd, prompt, Timestamp::now())
    }

    /// The status of a task that was created at the given time.
    pub fn new_at(name: &str, cwd: &str, prompt: &str, start_time: Timestamp) -> (r: TaskMeta)
        ensures
            r@ == fresh_meta(name@, cwd@, prompt@, start_time),
    {
        TaskMeta {
            name: name.to_owned(),
            wave: None,
            run_id: String::new(),
            agent_id: String::new(),
            thread_id: String::new(),
            session_id: None,
            cwd: cwd.to_owned(),
            prompt_preview: truncate_utf8(prompt, PREVIEW_CHARS),
            status: TaskStatus::Pending,
            pid: None,
            dispatched_at: None,
            start_time,
            end_time: None,
            events_count: 0,
            input_tokens: 0,
            output_tokens: 0,
            files_read: 0,
            commands_run: 0,
            last_action: String::new(),
            exit_code: None,
            error: None,
        }
    }

    /// Ends the task as failed, for the given reason, now.
    pub fn fail(&mut self, error: String)
        ensures
            final(self).end_time is Some,
            final(self)@ == (MetaView {
                status: TaskStatus::Failed,
                error: Some(error@),
                end_time: final(self).end_time,
                ..old(self)@
            }),
    {
        self.finish(TaskStatus::Failed, Some(error), Timestamp::now());
    }

    /// Ends the task with a status and an error, at the given time.
    pub fn finish(&mut self, status: TaskStatus, error: Option<String>, at: Timestamp)
        ensures
            final(self)@ == (MetaView {
                status,
                error: opt_text(error),
                end_time: Some(at),
                ..old(self)@
            }),
    {
        self.status = status;
        self.error = error;
        self.end_time = Some(at);
    }
}

impl Clone for TaskMeta {
    fn clone(&self) -> (r: TaskMeta)
        ensures
            r@ == self@,
    {
        TaskMeta {
            name: self.name.clone(),
            wave: self.wave,
            run_id: self.run_id.clone(),
            agent_id: self.agent_id.clone(),
            thread_id: self.thread_id.clone(),
            session_id: copy_opt(&self.session_id),
            cwd: self.cwd.clone(),
            prompt_preview: self.prompt_preview.clone(),
            status: self.status,
            pid: self.pid,
            dispatched_at: self.dispatched_at,
            start_time: self.start_time,
            end_time: self.end_time,
            events_count: self.events_count,
            input_tokens: self.input_tokens,
            output_tokens: self.output_tokens,
            files_read: self.files_read,
            commands_run: self.commands_run,
            last_action: self.last_action.clone(),
            exit_code: self.exit_code,
            error: copy_opt(&self.error),
        }
    }
}

/// A task that is done, failed or cancelled does not run any further; one that waits or runs does.
pub proof fn three_statuses_are_terminal()
    ensures
        TaskStatus::Done.terminal(),
        TaskStatus::Failed.terminal(),
        TaskStatus::Cancelled.terminal(),
        !TaskStatus::Pending.terminal(),
        !TaskStatus::Running.terminal(),
{
}

/// Every status has its own word.
pub proof fn statuses_are_told_by_their_words()
    ensures
        TaskStatus::Pending.label() == "pending"@,
        TaskStatus::Running.label() == "running"@,
        TaskStatus::Done.label() == "done"@,
        TaskStatus::Failed.label() == "failed"@,
        TaskStatus::Cancelled.label() == "cancelled"@,
{
}

/// A new status waits, holds the task's name and directory and the start of its prompt, and nothing
/// has happened in it.
pub proof fn new_statuses_are_blank(
    name: Seq<char>,
    cwd: Seq<char>,
    prompt: Seq<char>,
    start_time: Timestamp,
)
    ensures
        fresh_meta(name, cwd, prompt, start_time).name == name,
        fresh_meta(name, cwd, prompt, start_time).cwd == cwd,
        fresh_meta(name, cwd, prompt, start_time).start_time == start_time,
        fresh_meta(name, cwd, prompt, start_time).status == TaskStatus::Pending,
        fresh_meta(name, cwd, prompt, start_time).prompt_preview == prompt.take(
            if prompt.len() < 150 {
                prompt.len() as int
            } else {
                150
            },
        ),
        fresh_meta(name, cwd, prompt, start_time).wave is None,
        fresh_meta(name, cwd, prompt, start_time).run_id.len() == 0,
        fresh_meta(name, cwd, prompt, start_time).agent_id.len() == 0,
        fresh_meta(name, cwd, prompt, start_time).thread_id.len() == 0,
        fresh_meta(name, cwd, prompt, start_time).session_id is None,
        fresh_meta(name, cwd, prompt, start_time).pid is None,
        fresh_meta(name, cwd, prompt, start_time).dispatched_at is None,
        fresh_meta(name, cwd, prompt, start_time).end_time is None,
        fresh_meta(name, cwd, prompt, start_time).events_count == 0,
        fresh_meta(name, cwd, prompt, start_time).input_tokens == 0,
        fresh_meta(name, cwd, prompt, start_time).output_tokens == 0,
        fresh_meta(name, cwd, prompt, start_time).files_read == 0,
        fresh_meta(name, cwd, prompt, start_time).commands_run == 0,
        fresh_meta(name, cwd, prompt, start_time).last_action.len() == 0,
        fresh_meta(name, cwd, prompt, start_time).exit_code is None,
        fresh_meta(name, cwd, prompt, start_time).error is None,
{
    assert(prompt.take(prompt.len() as int) =~= prompt);
}

/// A task is recorded under the agent and the thread that it asks for, and else under its name.
pub proof fn tasks_are_recorded_as_they_ask(task: TaskView, id: Seq<char>)
    ensures
        agent_of(TaskView { agent_id: Some(id), ..task }) == id,
        agent_of(TaskView { agent_id: None, ..task }) == task.name,
        thread_of(TaskView { thread_id: Some(id), ..task }) == id,
        thread_of(TaskView { thread_id: None, ..task }) == task.name,
{
}

} // verus!
