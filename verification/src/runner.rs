//! The life of one task: its command line, its status while it runs, and how it ends.
use vstd::prelude::*;
use vstd::string::*;

use crate::config::{TaskDef, TaskView};
use crate::event::{event_on, opt_event, CodexEvent, EventView};
use crate::meta::{
    agent_for, agent_of, fresh_meta, thread_for, thread_of, MetaView, TaskMeta, TaskStatus,
    PREVIEW_CHARS,
};
use crate::paths::{
    below, event_file, event_file_name, join_path, meta_file, meta_file_name, output_file,
    output_file_name, stderr_file, stderr_file_name,
};
use crate::text::{
    copy_opt, first_chars, last_segment, last_segment_text, last_segments_hold_no_slash, opt_text,
    texts, truncate_utf8,
};
use crate::time::Timestamp;

verus! {

/// A task's status is written to disk every so many events.
pub const META_UPDATE_INTERVAL: u64 = 20;

/// How many seconds a process is given to end by itself before it is killed.
pub const SIGKILL_TIMEOUT_SECS: u64 = 3;

/// How much of a command a status shows.
pub const COMMAND_CHARS: usize = 50;

/// How a task ended.
#[derive(Debug)]
pub struct TaskRunReport {
    pub name: String,
    pub status: TaskStatus,
    pub error: Option<String>,
}

/// The contents of a report.
#[verifier::ext_equal]
pub struct ReportView {
    pub name: Seq<char>,
    pub status: TaskStatus,
    pub error: Option<Seq<char>>,
}

impl View for TaskRunReport {
    type V = ReportView;

    open spec fn view(&self) -> ReportView {
        ReportView { name: self.name@, status: self.status, error: opt_text(self.error) }
    }
}

/// Where the files of a run's tasks are.
#[derive(Debug)]
pub struct TaskRunner {
    output_dir: String,
    log_dir: String,
}

impl TaskRunner {
    /// The directory of the tasks' results.
    pub closed spec fn outputs(&self) -> Seq<char> {
        self.output_dir@
    }

    /// The directory of the tasks' logs.
    pub closed spec fn logs(&self) -> Seq<char> {
        self.log_dir@
    }

    /// A runner whose files are below the given directory.
    pub fn new(base_dir: &str) -> (r: TaskRunner)
        ensures
            r.outputs() == below(base_dir@, "outputs"@),
            r.logs() == below(base_dir@, "logs"@),
    {
        TaskRunner {
            output_dir: join_path(base_dir, "outputs"),
            log_dir: join_path(base_dir, "logs"),
        }
    }

    /// The directory of the tasks' results.
    pub fn output_dir(&self) -> (r: &str)
        ensures
            r@ == self.outputs(),
    {
        self.output_dir.as_str()
    }

    /// The directory of the tasks' logs.
    pub fn log_dir(&self) -> (r: &str)
        ensures
            r@ == self.logs(),
    {
        self.log_dir.as_str()
    }

    /// The file of a task's result.
    pub fn result_path(&self, name: &str) -> (r: String)
        ensures
            r@ == below(self.outputs(), output_file(name@)),
    {
        let file = output_file_name(name);
        join_path(self.output_dir.as_str(), file.as_str())
    }

    /// The file of a task's events.
    pub fn event_path(&self, name: &str) -> (r: String)
        ensures
            r@ == below(self.logs(), event_file(name@)),
    {
        let file = event_file_name(name);
        join_path(self.log_dir.as_str(), file.as_str())
    }

    /// The file of what a task writes to its standard error.
    pub fn stderr_path(&self, name: &str) -> (r: String)
        ensures
            r@ == below(self.logs(), stderr_file(name@)),
    {
        let file = stderr_file_name(name);
        join_path(self.log_dir.as_str(), file.as_str())
    }

    /// The file of a task's status.
    pub fn meta_path(&self, name: &str) -> (r: String)
        ensures
            r@ == below(self.logs(), meta_file(name@)),
    {
        let file = meta_file_name(name);
        join_path(self.log_dir.as_str(), file.as_str())
    }

    /// The arguments of the command that works on a task.
    pub fn exec_args(&self, task: &TaskDef) -> (r: Vec<String>)
        ensures
            texts(r@) == exec_arguments(task@, below(self.outputs(), output_file(task.name@))),
    {
        let result = self.result_path(task.name.as_str());
        let mut args: Vec<String> = Vec::new();
        assert(texts(args@) =~= Seq::empty());
        push_text(&mut args, "exec");
        push_flag(&mut args, "-C", task.cwd.as_str());
        push_flag(&mut args, "-s", task.sandbox.as_text());
        push_flag(&mut args, "-o", result.as_str());
        push_text(&mut args, "--json");
        push_text(&mut args, "--skip-git-repo-check");
        push_optional(&mut args, "-m", &task.model);
        push_optional(&mut args, "--output-schema", &task.output_schema);
        let ghost before_ephemeral = texts(args@);
        if task.ephemeral {
            push_text(&mut args, "--ephemeral");
        }
        assert(texts(args@) =~= before_ephemeral + ephemeral_flag(task.ephemeral));
        push_each(&mut args, "--add-dir", &task.add_dirs);
        push_flag(&mut args, "-a", task.ask_for_approval.as_str());
        push_each(&mut args, "-c", &task.config_overrides);
        push_optional(&mut args, "-p", &task.profile);
        push_text(&mut args, task.prompt.as_str());
        assert(texts(args@) =~= exec_arguments(
            task@,
            below(self.outputs(), output_file(task.name@)),
        ));
        args
    }

    /// The arguments of the command that takes up a session again.
    pub fn resume_args(&self, name: &str, session_id: &str, prompt: &str) -> (r: Vec<String>)
        ensures
            texts(r@) == resume_arguments(
                session_id@,
                prompt@,
                below(self.outputs(), output_file(name@)),
            ),
    {
        let result = self.result_path(name);
        let mut args: Vec<String> = Vec::new();
        assert(texts(args@) =~= Seq::empty());
        push_text(&mut args, "exec");
        push_text(&mut args, "resume");
        push_text(&mut args, session_id);
        push_text(&mut args, prompt);
        push_text(&mut args, "--json");
        push_flag(&mut args, "-o", result.as_str());
        assert(texts(args@) =~= resume_arguments(
            session_id@,
            prompt@,
            below(self.outputs(), output_file(name@)),
        ));
        args
    }
}

impl Clone for TaskRunner {
    fn clone(&self) -> (r: TaskRunner)
        ensures
            r.outputs() == self.outputs(),
            r.logs() == self.logs(),
    {
        TaskRunner { output_dir: self.output_dir.clone(), log_dir: self.log_dir.clone() }
    }
}

/// A flag with its value, where there is a value.
pub open spec fn optional_flag(flag: Seq<char>, value: Option<Seq<char>>) -> Seq<Seq<char>> {
    match value {
        Some(value) => seq![flag, value],
        None => seq![],
    }
}

/// The flag of a session that leaves nothing behind.
pub open spec fn ephemeral_flag(ephemeral: bool) -> Seq<Seq<char>> {
    if ephemeral {
        seq!["--ephemeral"@]
    } else {
        seq![]
    }
}

/// A flag before each of the values.
pub open spec fn repeated_flag(flag: Seq<char>, values: Seq<Seq<char>>) -> Seq<Seq<char>> {
    Seq::new(
        2 * values.len(),
        |i: int|
            if i % 2 == 0 {
                flag
            } else {
                values[i / 2]
            },
    )
}

/// The arguments of the command that works on a task and writes its result to a file.
pub open spec fn exec_arguments(task: TaskView, result: Seq<char>) -> Seq<Seq<char>> {
    seq![
        "exec"@,
        "-C"@,
        task.cwd,
        "-s"@,
        task.sandbox.label(),
        "-o"@,
        result,
        "--json"@,
        "--skip-git-repo-check"@,
    ] + optional_flag("-m"@, task.model) + optional_flag("--output-schema"@, task.output_schema)
        + ephemeral_flag(task.ephemeral) + repeated_flag("--add-dir"@, task.add_dirs) + seq![
        "-a"@,
        task.ask_for_approval,
    ] + repeated_flag("-c"@, task.config_overrides) + optional_flag("-p"@, task.profile) + seq![
        task.prompt,
    ]
}

/// The arguments of the command that takes up a session again.
pub open spec fn resume_arguments(
    session_id: Seq<char>,
    prompt: Seq<char>,
    result: Seq<char>,
) -> Seq<Seq<char>> {
    seq!["exec"@, "resume"@, session_id, prompt, "--json"@, "-o"@, result]
}

fn push_text(args: &mut Vec<String>, arg: &str)
    ensures
        texts(final(args)@) == texts(old(args)@).push(arg@),
{
    args.push(arg.to_owned());
    assert(texts(args@) =~= texts(old(args)@).push(arg@));
}

fn push_flag(args: &mut Vec<String>, flag: &str, value: &str)
    ensures
        texts(final(args)@) == texts(old(args)@).push(flag@).push(value@),
{
    push_text(args, flag);
    push_text(args, value);
}

fn push_optional(args: &mut Vec<String>, flag: &str, value: &Option<String>)
    ensures
        texts(final(args)@) == texts(old(args)@) + optional_flag(flag@, opt_text(*value)),
{
    if let Some(value) = value {
        push_flag(args, flag, value.as_str());
    }
    assert(texts(args@) =~= texts(old(args)@) + optional_flag(flag@, opt_text(*value)));
}

fn push_each(args: &mut Vec<String>, flag: &str, values: &Vec<String>)
    ensures
        texts(final(args)@) == texts(old(args)@) + repeated_flag(flag@, texts(values@)),
{
    let ghost start = texts(args@);
    let ghost all = texts(values@);
    let mut i: usize = 0;
    assert(texts(args@) =~= start + repeated_flag(flag@, all.take(0)));
    while i < values.len()
        invariant
            i <= values@.len(),
            all == texts(values@),
            texts(args@) == start + repeated_flag(flag@, all.take(i as int)),
        decreases values@.len() - i,
    {
        push_flag(args, flag, values[i].as_str());
        assert(texts(args@) =~= start + repeated_flag(flag@, all.take(i + 1)));
        i = i + 1;
    }
    assert(all.take(i as int) =~= all);
}

/// The status of a task that starts to run: who dispatched it, and when, is kept.
pub open spec fn begun(
    task: TaskView,
    existing: Option<MetaView>,
    wave: Option<u32>,
    at: Timestamp,
) -> MetaView {
    let fresh = fresh_meta(task.name, task.cwd, task.prompt, at);
    let placed = match existing {
        Some(e) => MetaView {
            run_id: e.run_id,
            wave: if wave is Some {
                wave
            } else {
                e.wave
            },
            dispatched_at: e.dispatched_at,
            ..fresh
        },
        None => MetaView { wave, ..fresh },
    };
    MetaView {
        agent_id: agent_of(task),
        thread_id: thread_of(task),
        status: TaskStatus::Running,
        ..placed
    }
}

/// The contents of a status, if there is one.
pub open spec fn opt_meta(m: Option<TaskMeta>) -> Option<MetaView> {
    match m {
        Some(m) => Some(m@),
        None => None,
    }
}

/// The status of a task that starts to run at the given time; `existing` is the status that it
/// has so far.
pub fn begin_task(
    task: &TaskDef,
    existing: Option<TaskMeta>,
    wave: Option<u32>,
    at: Timestamp,
) -> (r: TaskMeta)
    ensures
        r@ == begun(task@, opt_meta(existing), wave, at),
{
    let mut meta = TaskMeta::new_at(
        task.name.as_str(),
        task.cwd.as_str(),
        task.prompt.as_str(),
        at,
    );
    match existing {
        Some(existing) => {
            meta.run_id = existing.run_id;
            meta.wave = match wave {
                Some(w) => Some(w),
                None => existing.wave,
            };
            meta.dispatched_at = existing.dispatched_at;
        },
        None => {
            meta.wave = wave;
        },
    }
    meta.agent_id = agent_for(task);
    meta.thread_id = thread_for(task);
    meta.status = TaskStatus::Running;
    meta
}

/// The status of a task whose session is taken up again. What it has counted so far is kept.
pub open spec fn resumed(
    meta: MetaView,
    session_id: Seq<char>,
    prompt: Seq<char>,
    at: Timestamp,
) -> MetaView {
    MetaView {
        session_id: Some(session_id),
        prompt_preview: first_chars(prompt, PREVIEW_CHARS as nat),
        status: TaskStatus::Running,
        pid: None,
        start_time: at,
        end_time: None,
        last_action: Seq::empty(),
        exit_code: None,
        error: None,
        ..meta
    }
}

/// Takes up the session of a task again, at the given time.
pub fn begin_resume(meta: &mut TaskMeta, session_id: &str, prompt: &str, at: Timestamp)
    ensures
        final(meta)@ == resumed(old(meta)@, session_id@, prompt@, at),
{
    meta.session_id = Some(session_id.to_owned());
    meta.prompt_preview = truncate_utf8(prompt, PREVIEW_CHARS);
    meta.status = TaskStatus::Running;
    meta.pid = None;
    meta.start_time = at;
    meta.end_time = None;
    meta.last_action = String::new();
    meta.exit_code = None;
    meta.error = None;
}

/// The status of a task after one of its events.
pub open spec fn noted(meta: MetaView, event: EventView) -> MetaView {
    match event {
        EventView::SessionStart { session_id } => MetaView {
            session_id: Some(session_id),
            ..meta
        },
        EventView::TokenCount { input_tokens, output_tokens } => MetaView {
            input_tokens: input_tokens as nat,
            output_tokens: output_tokens as nat,
            ..meta
        },
        EventView::ReadFile { file_path } => MetaView {
            files_read: meta.files_read + 1,
            last_action: "READ "@ + last_segment(file_path),
            ..meta
        },
        EventView::ExecCommand { command } => MetaView {
            commands_run: meta.commands_run + 1,
            last_action: "EXEC "@ + first_chars(command, COMMAND_CHARS as nat),
            ..meta
        },
        EventView::TaskComplete => MetaView { last_action: "COMPLETED"@, ..meta },
        EventView::Other(_) => meta,
    }
}

/// Whether the counters of a status have room for an event.
pub open spec fn has_room(meta: MetaView, event: Option<EventView>) -> bool {
    &&& meta.events_count < u64::MAX
    &&& event matches Some(EventView::ReadFile { .. }) ==> meta.files_read < u32::MAX
    &&& event matches Some(EventView::ExecCommand { .. }) ==> meta.commands_run < u32::MAX
}

/// Brings a status up to date with an event.
pub fn update_meta_from_event(meta: &mut TaskMeta, event: &CodexEvent)
    requires
        event is ReadFile ==> old(meta).files_read < u32::MAX,
        event is ExecCommand ==> old(meta).commands_run < u32::MAX,
    ensures
        final(meta)@ == noted(old(meta)@, event@),
        *event matches CodexEvent::TokenCount { input_tokens, output_tokens }
            ==> final(meta).input_tokens == input_tokens && final(meta).output_tokens
            == output_tokens,
        !(event is TokenCount) ==> final(meta).input_tokens == old(meta).input_tokens
            && final(meta).output_tokens == old(meta).output_tokens,
{
    match event {
        CodexEvent::SessionStart { session_id } => {
            meta.session_id = Some(session_id.clone());
        },
        CodexEvent::TokenCount { input_tokens, output_tokens } => {
            meta.input_tokens = *input_tokens;
            meta.output_tokens = *output_tokens;
        },
        CodexEvent::ReadFile { file_path } => {
            meta.files_read = meta.files_read + 1;
            let mut action = "READ ".to_owned();
            action.append(last_segment_text(file_path.as_str()));
            meta.last_action = action;
        },
        CodexEvent::ExecCommand { command } => {
            meta.commands_run = meta.commands_run + 1;
            let short = truncate_utf8(command.as_str(), COMMAND_CHARS);
            let mut action = "EXEC ".to_owned();
            action.append(short.as_str());
            meta.last_action = action;
        },
        CodexEvent::TaskComplete => {
            meta.last_action = "COMPLETED".to_owned();
        },
        CodexEvent::Other(_) => {},
    }
}

/// The status of a task after one more line of its output, which may hold an event.
pub open spec fn after_line(meta: MetaView, event: Option<EventView>) -> MetaView {
    let counted = MetaView { events_count: meta.events_count + 1, ..meta };
    match event {
        Some(e) => noted(counted, e),
        None => counted,
    }
}

/// Whether a status is written to disk after it has counted so many events.
pub open spec fn save_due(events: nat) -> bool {
    events % META_UPDATE_INTERVAL as nat == 0
}

/// Counts one more line of output and its event; says whether the status is to be written to
/// disk now.
pub fn note_event(meta: &mut TaskMeta, event: Option<CodexEvent>) -> (r: bool)
    requires
        has_room(old(meta)@, opt_event(event)),
    ensures
        final(meta)@ == after_line(old(meta)@, opt_event(event)),
        r == save_due(final(meta)@.events_count),
{
    meta.events_count = meta.events_count + 1;
    if let Some(event) = &event {
        update_meta_from_event(meta, event);
    }
    meta.events_count % META_UPDATE_INTERVAL == 0
}

/// Counts one more line of output and the event on it; says whether the status is to be written
/// to disk now. `None`, with nothing counted, where a counter is full.
pub fn note_line(meta: &mut TaskMeta, line: &str) -> (r: Option<bool>)
    ensures
        match r {
            Some(save) => has_room(old(meta)@, event_on(line@)) && final(meta)@ == after_line(
                old(meta)@,
                event_on(line@),
            ) && save == save_due(final(meta)@.events_count),
            None => !has_room(old(meta)@, event_on(line@)) && final(meta)@ == old(meta)@,
        },
{
    let event = CodexEvent::parse(line);
    let room = match &event {
        Some(CodexEvent::ReadFile { .. }) => meta.files_read < u32::MAX,
        Some(CodexEvent::ExecCommand { .. }) => meta.commands_run < u32::MAX,
        _ => true,
    };
    if room && meta.events_count < u64::MAX {
        Some(note_event(meta, event))
    } else {
        None
    }
}

/// What comes next while a task runs.
#[derive(Debug)]
pub enum StreamInput {
    /// A line of its output.
    Line(String),
    /// Its output ends.
    End,
    /// Its output cannot be read, for this reason.
    ReadError(String),
    /// The run is cancelled while the task is silent.
    Cancelled,
}

/// What to do next about a task that runs.
#[derive(Clone, Copy, Debug, PartialEq, Eq, Structural)]
pub enum StreamNext {
    /// Read on.
    GoOn,
    /// Wait for the process to end.
    Stop,
    /// End the process, then note that the task was cancelled.
    Kill,
}

/// What to do after one input: whether to write the status to disk first, and then what.
#[derive(Clone, Copy, Debug, PartialEq, Eq, Structural)]
pub struct StreamStep {
    pub save: bool,
    pub next: StreamNext,
}

/// The status of a task after an input.
pub open spec fn streamed(meta: MetaView, input: StreamInput) -> MetaView {
    match input {
        StreamInput::Line(line) => after_line(meta, event_on(line@)),
        StreamInput::End => meta,
        StreamInput::ReadError(e) => MetaView { error: Some("stdout read error: "@ + e@), ..meta },
        StreamInput::Cancelled => meta,
    }
}

/// What to do after an input. Between lines, a run that was cancelled is noticed too; a task
/// whose output has ended is never taken for a cancelled one.
pub open spec fn stream_step_for(meta: MetaView, input: StreamInput, cancelled: bool) -> StreamStep {
    match input {
        StreamInput::Line(line) => StreamStep {
            save: save_due(meta.events_count + 1),
            next: if cancelled {
                StreamNext::Kill
            } else {
                StreamNext::GoOn
            },
        },
        StreamInput::End => StreamStep { save: false, next: StreamNext::Stop },
        StreamInput::ReadError(_) => StreamStep { save: false, next: StreamNext::Stop },
        StreamInput::Cancelled => StreamStep { save: false, next: StreamNext::Kill },
    }
}

/// Takes in what comes next while a task runs; `cancelled` tells whether the run is cancelled by
/// now. `None`, with nothing changed, where a counter of the status is full.
pub fn stream_step(meta: &mut TaskMeta, input: StreamInput, cancelled: bool) -> (r: Option<StreamStep>)
    ensures
        match r {
            Some(step) => {
                &&& input matches StreamInput::Line(line) ==> has_room(
                    old(meta)@,
                    event_on(line@),
                )
                &&& final(meta)@ == streamed(old(meta)@, input)
                &&& step == stream_step_for(old(meta)@, input, cancelled)
            },
            None => {
                &&& input matches StreamInput::Line(line) && !has_room(old(meta)@, event_on(line@))
                &&& final(meta)@ == old(meta)@
            },
        },
{
    match input {
        StreamInput::Line(line) => match note_line(meta, line.as_str()) {
            Some(save) => {
                let next = if cancelled {
                    StreamNext::Kill
                } else {
                    StreamNext::GoOn
                };
                Some(StreamStep { save, next })
            },
            None => None,
        },
        StreamInput::End => Some(StreamStep { save: false, next: StreamNext::Stop }),
        StreamInput::ReadError(e) => {
            let mut error = "stdout read error: ".to_owned();
            error.append(e.as_str());
            meta.error = Some(error);
            Some(StreamStep { save: false, next: StreamNext::Stop })
        },
        StreamInput::Cancelled => Some(StreamStep { save: false, next: StreamNext::Kill }),
    }
}

/// Notes that the task was cancelled while it ran.
pub fn note_cancelled(meta: &mut TaskMeta, at: Timestamp)
    ensures
        final(meta)@ == (MetaView {
            status: TaskStatus::Cancelled,
            end_time: Some(at),
            ..old(meta)@
        }),
{
    meta.status = TaskStatus::Cancelled;
    meta.end_time = Some(at);
}

/// Whether the way in which the process ended is still to be asked for: a cancelled task's
/// process was ended by the run itself.
pub fn awaits_exit(meta: &TaskMeta) -> (r: bool)
    ensures
        r == (meta.status != TaskStatus::Cancelled),
{
    match meta.status {
        TaskStatus::Cancelled => false,
        _ => true,
    }
}

/// The status of a task whose process has ended: done where the process says so and nothing went
/// wrong before, else failed.
pub open spec fn exited(
    meta: MetaView,
    exit_code: Option<i32>,
    success: bool,
    at: Timestamp,
) -> MetaView {
    MetaView {
        exit_code,
        end_time: Some(at),
        status: if meta.error is None && success {
            TaskStatus::Done
        } else {
            TaskStatus::Failed
        },
        ..meta
    }
}

/// Notes how the process of a task ended.
pub fn note_exit(meta: &mut TaskMeta, exit_code: Option<i32>, success: bool, at: Timestamp)
    ensures
        final(meta)@ == exited(old(meta)@, exit_code, success, at),
{
    meta.exit_code = exit_code;
    meta.end_time = Some(at);
    meta.status = if meta.error.is_none() && success {
        TaskStatus::Done
    } else {
        TaskStatus::Failed
    };
}

/// What is reported of a task with this status.
pub open spec fn report_on(meta: MetaView) -> ReportView {
    ReportView { name: meta.name, status: meta.status, error: meta.error }
}

/// The status of a task that was run: as it is where that went through; where it broke off,
/// cancelled if the run is cancelled, and else failed for that reason.
pub open spec fn concluded(
    meta: MetaView,
    failure: Option<Seq<char>>,
    cancelled: bool,
    at: Timestamp,
) -> MetaView {
    match failure {
        None => meta,
        Some(e) => if cancelled {
            MetaView {
                status: TaskStatus::Cancelled,
                error: Some("cancelled by user"@),
                end_time: Some(at),
                ..meta
            }
        } else {
            MetaView {
                status: TaskStatus::Failed,
                error: Some(e),
                end_time: Some(at),
                ..meta
            }
        },
    }
}

/// Concludes the run of a task, which may have broken off with a failure, and reports on it.
pub fn conclude_task(
    meta: &mut TaskMeta,
    failure: Option<String>,
    cancelled: bool,
    at: Timestamp,
) -> (r: TaskRunReport)
    ensures
        final(meta)@ == concluded(old(meta)@, opt_text(failure), cancelled, at),
        r@ == report_on(final(meta)@),
{
    if let Some(e) = failure {
        if cancelled {
            meta.finish(TaskStatus::Cancelled, Some("cancelled by user".to_owned()), at);
        } else {
            meta.finish(TaskStatus::Failed, Some(e), at);
        }
    }
    TaskRunReport { name: meta.name.clone(), status: meta.status, error: copy_opt(&meta.error) }
}

/// The number that stands for the process group of a process: its own, negated.
pub open spec fn group_of(pid: u32) -> int {
    if pid < 0x8000_0000 {
        -pid
    } else {
        0x1_0000_0000 - pid
    }
}

/// What to do about a process that is to end.
#[derive(Clone, Copy, Debug, PartialEq, Eq, Structural)]
pub enum KillStep {
    /// Nothing more: it has ended.
    Ended,
    /// Ask the process group to end, where it is known, and wait for a while.
    Terminate { group: Option<i32> },
    /// Kill the process group, where it is known, and the process itself; then wait.
    Kill { group: Option<i32> },
}

/// What came of asking a process to end.
#[derive(Clone, Copy, Debug, PartialEq, Eq, Structural)]
pub enum KillWait {
    /// It ended in time.
    Ended,
    /// Waiting failed.
    WaitFailed,
    /// It did not end in time.
    TimedOut,
}

/// The number that stands for the process group of a process, where the process is known.
pub open spec fn known_group(pid: Option<u32>, group: Option<i32>) -> bool {
    match (pid, group) {
        (Some(p), Some(g)) => g == group_of(p),
        (None, None) => true,
        _ => false,
    }
}

fn group_target(pid: Option<u32>) -> (r: Option<i32>)
    requires
        pid != Some(0x8000_0000u32),
    ensures
        known_group(pid, r),
{
    match pid {
        Some(p) => if p < 0x8000_0000 {
            Some(-(p as i32))
        } else {
            let distance: u32 = 0xffff_ffff - p + 1;
            Some(distance as i32)
        },
        None => None,
    }
}

/// The first step to end a process: nothing where it has ended already, else a request.
pub fn start_kill(has_ended: bool, pid: Option<u32>) -> (r: KillStep)
    requires
        pid != Some(0x8000_0000u32),
    ensures
        match r {
            KillStep::Ended => has_ended,
            KillStep::Terminate { group } => !has_ended && known_group(pid, group),
            KillStep::Kill { .. } => false,
        },
{
    if has_ended {
        KillStep::Ended
    } else {
        KillStep::Terminate { group: group_target(pid) }
    }
}

/// The second step: nothing where the process ended in time, else it is killed.
pub fn escalate_kill(outcome: KillWait, pid: Option<u32>) -> (r: KillStep)
    requires
        pid != Some(0x8000_0000u32),
    ensures
        match r {
            KillStep::Ended => outcome is Ended,
            KillStep::Terminate { .. } => false,
            KillStep::Kill { group } => !(outcome is Ended) && known_group(pid, group),
        },
{
    match outcome {
        KillWait::Ended => KillStep::Ended,
        _ => KillStep::Kill { group: group_target(pid) },
    }
}

/// A task's run ends in one of three ways: done, failed or cancelled. This holds whether its
/// process was waited for, was killed, or its run broke off.
pub proof fn runs_end_in_a_terminal_status(
    meta: MetaView,
    exit_code: Option<i32>,
    success: bool,
    failure: Seq<char>,
    cancelled: bool,
    at: Timestamp,
)
    ensures
        exited(meta, exit_code, success, at).status.terminal(),
        exited(meta, exit_code, success, at).end_time is Some,
        concluded(meta, Some(failure), cancelled, at).status.terminal(),
        concluded(meta, Some(failure), cancelled, at).end_time is Some,
{
}

/// A task whose output has ended is judged by its process, even if the run is cancelled by then.
pub proof fn ended_output_is_not_cancelled(
    meta: MetaView,
    cancelled: bool,
    exit_code: Option<i32>,
    success: bool,
    at: Timestamp,
)
    requires
        meta.status == TaskStatus::Running,
        meta.error is None,
    ensures
        stream_step_for(meta, StreamInput::End, cancelled).next == StreamNext::Stop,
        streamed(meta, StreamInput::End).status != TaskStatus::Cancelled,
        exited(streamed(meta, StreamInput::End), exit_code, success, at).status == if success {
            TaskStatus::Done
        } else {
            TaskStatus::Failed
        },
{
}

/// A task whose output could not be read is never reported as done.
pub proof fn read_errors_fail_the_task(
    meta: MetaView,
    error: String,
    exit_code: Option<i32>,
    success: bool,
    at: Timestamp,
)
    ensures
        exited(streamed(meta, StreamInput::ReadError(error)), exit_code, success, at).status
            == TaskStatus::Failed,
{
}

/// The status of a task after a list of lines, by the events on them.
pub open spec fn after_lines(meta: MetaView, events: Seq<Option<EventView>>) -> MetaView
    decreases events.len(),
{
    if events.len() == 0 {
        meta
    } else {
        after_line(after_lines(meta, events.drop_last()), events.last())
    }
}

/// How many of the events read a file.
pub open spec fn files_among(events: Seq<Option<EventView>>) -> nat
    decreases events.len(),
{
    if events.len() == 0 {
        0
    } else {
        files_among(events.drop_last()) + if events.last() matches Some(EventView::ReadFile { .. }) {
            1nat
        } else {
            0nat
        }
    }
}

/// How many of the events run a command.
pub open spec fn commands_among(events: Seq<Option<EventView>>) -> nat
    decreases events.len(),
{
    if events.len() == 0 {
        0
    } else {
        commands_among(events.drop_last()) + if events.last() matches Some(
            EventView::ExecCommand { .. },
        ) {
            1nat
        } else {
            0nat
        }
    }
}

/// A status counts every line of output, every file read and every command run, and output
/// alone changes neither who the task is nor whether it runs.
pub proof fn counters_add_up(meta: MetaView, events: Seq<Option<EventView>>)
    ensures
        after_lines(meta, events).events_count == meta.events_count + events.len(),
        after_lines(meta, events).files_read == meta.files_read + files_among(events),
        after_lines(meta, events).commands_run == meta.commands_run + commands_among(events),
        after_lines(meta, events).name == meta.name,
        after_lines(meta, events).status == meta.status,
        after_lines(meta, events).error == meta.error,
    decreases events.len(),
{
    if events.len() > 0 {
        counters_add_up(meta, events.drop_last());
    }
}

/// Whether a flag is passed with a value, before the prompt.
pub open spec fn passes(args: Seq<Seq<char>>, flag: Seq<char>, value: Seq<char>) -> bool {
    exists|i: int| 0 <= i < args.len() - 2 && #[trigger] args[i] == flag && args[i + 1] == value
}

/// Whether a flag is passed with each of the values, in their order and before the prompt.
pub open spec fn passes_each(args: Seq<Seq<char>>, flag: Seq<char>, values: Seq<Seq<char>>) -> bool {
    exists|base: int|
        0 <= base && base + 2 * values.len() < args.len() && #[trigger] passes_from(
            args,
            base,
            flag,
            values,
        )
}

/// Whether a flag is passed with each of the values, from a place on.
pub open spec fn passes_from(
    args: Seq<Seq<char>>,
    base: int,
    flag: Seq<char>,
    values: Seq<Seq<char>>,
) -> bool {
    forall|k: int|
        0 <= k < values.len() ==> args[base + 2 * k] == flag && args[base + 2 * k + 1]
            == #[trigger] values[k]
}

/// Where nine lists stand in all of them together.
#[verifier::rlimit(40)]
proof fn lemma_nine(
    h: Seq<Seq<char>>,
    m: Seq<Seq<char>>,
    o: Seq<Seq<char>>,
    e: Seq<Seq<char>>,
    d: Seq<Seq<char>>,
    q: Seq<Seq<char>>,
    c: Seq<Seq<char>>,
    p: Seq<Seq<char>>,
    t: Seq<Seq<char>>,
)
    ensures
        h + m + o + e + d + q + c + p + t == h + m + (o + e + d + q + c + p + t),
        h + m + o + e + d + q + c + p + t == (h + m) + o + (e + d + q + c + p + t),
        h + m + o + e + d + q + c + p + t == (h + m + o) + e + (d + q + c + p + t),
        h + m + o + e + d + q + c + p + t == (h + m + o + e) + d + (q + c + p + t),
        h + m + o + e + d + q + c + p + t == (h + m + o + e + d) + q + (c + p + t),
        h + m + o + e + d + q + c + p + t == (h + m + o + e + d + q) + c + (p + t),
{
    let w = h + m + o + e + d + q + c + p + t;
    assert(w =~= h + m + (o + e + d + q + c + p + t));
    assert(w =~= (h + m) + o + (e + d + q + c + p + t));
    assert(w =~= (h + m + o) + e + (d + q + c + p + t));
    assert(w =~= (h + m + o + e) + d + (q + c + p + t));
    assert(w =~= (h + m + o + e + d) + q + (c + p + t));
    assert(w =~= (h + m + o + e + d + q) + c + (p + t));
}

/// What stands before and behind one part of a task's arguments.
#[verifier::opaque]
spec fn around(task: TaskView, result: Seq<char>, part: int) -> (Seq<Seq<char>>, Seq<Seq<char>>) {
    let h = seq![
        "exec"@,
        "-C"@,
        task.cwd,
        "-s"@,
        task.sandbox.label(),
        "-o"@,
        result,
        "--json"@,
        "--skip-git-repo-check"@,
    ];
    let m = optional_flag("-m"@, task.model);
    let o = optional_flag("--output-schema"@, task.output_schema);
    let e = ephemeral_flag(task.ephemeral);
    let d = repeated_flag("--add-dir"@, task.add_dirs);
    let q = seq!["-a"@, task.ask_for_approval];
    let c = repeated_flag("-c"@, task.config_overrides);
    let p = optional_flag("-p"@, task.profile);
    let t = seq![task.prompt];
    if part == 0 {
        (h, o + e + d + q + c + p + t)
    } else if part == 1 {
        (h + m, e + d + q + c + p + t)
    } else if part == 2 {
        (h + m + o, d + q + c + p + t)
    } else if part == 3 {
        (h + m + o + e, q + c + p + t)
    } else if part == 4 {
        (h + m + o + e + d, c + p + t)
    } else if part == 5 {
        (h + m + o + e + d + q, p + t)
    } else {
        (h + m + o + e + d + q + c, t)
    }
}

#[verifier::rlimit(40)]
proof fn lemma_around(task: TaskView, result: Seq<char>)
    ensures
        exec_arguments(task, result) == around(task, result, 0).0 + optional_flag("-m"@, task.model)
            + around(task, result, 0).1,
        exec_arguments(task, result) == around(task, result, 1).0 + optional_flag(
            "--output-schema"@,
            task.output_schema,
        ) + around(task, result, 1).1,
        exec_arguments(task, result) == around(task, result, 2).0 + ephemeral_flag(task.ephemeral)
            + around(task, result, 2).1,
        exec_arguments(task, result) == around(task, result, 3).0 + repeated_flag(
            "--add-dir"@,
            task.add_dirs,
        ) + around(task, result, 3).1,
        exec_arguments(task, result) == around(task, result, 4).0 + seq![
            "-a"@,
            task.ask_for_approval,
        ] + around(task, result, 4).1,
        exec_arguments(task, result) == around(task, result, 5).0 + repeated_flag(
            "-c"@,
            task.config_overrides,
        ) + around(task, result, 5).1,
        exec_arguments(task, result) == around(task, result, 6).0 + optional_flag(
            "-p"@,
            task.profile,
        ) + around(task, result, 6).1,
        forall|part: int| (#[trigger] around(task, result, part)).0.len() >= 9,
        forall|part: int| (#[trigger] around(task, result, part)).1.len() >= 1,
        forall|part: int| (#[trigger] around(task, result, part)).1.last() == task.prompt,
        around(task, result, 0).0.len() == 9,
{
    reveal(around);
    let h = around(task, result, 0).0;
    let m = optional_flag("-m"@, task.model);
    let o = optional_flag("--output-schema"@, task.output_schema);
    let e = ephemeral_flag(task.ephemeral);
    let d = repeated_flag("--add-dir"@, task.add_dirs);
    let q = seq!["-a"@, task.ask_for_approval];
    let c = repeated_flag("-c"@, task.config_overrides);
    let p = optional_flag("-p"@, task.profile);
    let t = seq![task.prompt];
    lemma_nine(h, m, o, e, d, q, c, p, t);
}

proof fn lemma_same_around(a: TaskView, b: TaskView, result: Seq<char>, part: int)
    requires
        a.cwd == b.cwd && a.sandbox == b.sandbox && a.add_dirs == b.add_dirs,
        a.ask_for_approval == b.ask_for_approval && a.config_overrides == b.config_overrides,
        a.prompt == b.prompt,
        part == 0 || a.model == b.model,
        part == 1 || a.output_schema == b.output_schema,
        part == 2 || a.ephemeral == b.ephemeral,
        part == 6 || a.profile == b.profile,
        part == 0 || part == 1 || part == 2 || part == 6,
    ensures
        around(a, result, part) == around(b, result, part),
{
    reveal(around);
}

proof fn lemma_pair_between(
    left: Seq<Seq<char>>,
    flag: Seq<char>,
    value: Seq<char>,
    right: Seq<Seq<char>>,
)
    requires
        right.len() >= 1,
    ensures
        passes(left + seq![flag, value] + right, flag, value),
{
    let all = left + seq![flag, value] + right;
    let i = left.len() as int;
    assert(all[i] == flag && all[i + 1] == value);
}

proof fn lemma_pairs_between(
    left: Seq<Seq<char>>,
    flag: Seq<char>,
    values: Seq<Seq<char>>,
    right: Seq<Seq<char>>,
)
    requires
        right.len() >= 1,
    ensures
        passes_each(left + repeated_flag(flag, values) + right, flag, values),
{
    let part = repeated_flag(flag, values);
    let all = left + part + right;
    let base = left.len() as int;
    assert forall|k: int| 0 <= k < values.len() implies all[base + 2 * k] == flag && all[base + 2
        * k + 1] == #[trigger] values[k] by {
        assert(all[base + 2 * k] == part[2 * k]);
        assert(all[base + 2 * k + 1] == part[2 * k + 1]);
    }
    assert(passes_from(all, base, flag, values));
}

/// Each option of a task that has a value shows in its arguments by itself, whatever the other
/// options are: with its flag, before the prompt, which comes last.
pub proof fn options_show_in_the_arguments(task: TaskView, result: Seq<char>)
    ensures
        task.model matches Some(m) ==> passes(exec_arguments(task, result), "-m"@, m),
        task.output_schema matches Some(s) ==> passes(
            exec_arguments(task, result),
            "--output-schema"@,
            s,
        ),
        task.profile matches Some(p) ==> passes(exec_arguments(task, result), "-p"@, p),
        task.ephemeral ==> exec_arguments(task, result).drop_last().contains("--ephemeral"@),
        passes_each(exec_arguments(task, result), "--add-dir"@, task.add_dirs),
        passes_each(exec_arguments(task, result), "-c"@, task.config_overrides),
        passes(exec_arguments(task, result), "-a"@, task.ask_for_approval),
        exec_arguments(task, result).last() == task.prompt,
{
    lemma_values_show(task, result);
    lemma_lists_show(task, result);
}

#[verifier::rlimit(40)]
proof fn lemma_values_show(task: TaskView, result: Seq<char>)
    ensures
        task.model matches Some(m) ==> passes(exec_arguments(task, result), "-m"@, m),
        task.output_schema matches Some(s) ==> passes(
            exec_arguments(task, result),
            "--output-schema"@,
            s,
        ),
        task.profile matches Some(p) ==> passes(exec_arguments(task, result), "-p"@, p),
        task.ephemeral ==> exec_arguments(task, result).drop_last().contains("--ephemeral"@),
{
    lemma_around(task, result);
    if let Some(m) = task.model {
        lemma_pair_between(around(task, result, 0).0, "-m"@, m, around(task, result, 0).1);
    }
    if let Some(s) = task.output_schema {
        let (left, right) = around(task, result, 1);
        lemma_pair_between(left, "--output-schema"@, s, right);
    }
    if let Some(p) = task.profile {
        lemma_pair_between(around(task, result, 6).0, "-p"@, p, around(task, result, 6).1);
    }
    if task.ephemeral {
        let (left, right) = around(task, result, 2);
        lemma_one_between(left, "--ephemeral"@, right);
    }
}

#[verifier::rlimit(40)]
proof fn lemma_lists_show(task: TaskView, result: Seq<char>)
    ensures
        passes_each(exec_arguments(task, result), "--add-dir"@, task.add_dirs),
        passes_each(exec_arguments(task, result), "-c"@, task.config_overrides),
        passes(exec_arguments(task, result), "-a"@, task.ask_for_approval),
        exec_arguments(task, result).last() == task.prompt,
{
    lemma_around(task, result);
    let (left, right) = around(task, result, 3);
    lemma_pairs_between(left, "--add-dir"@, task.add_dirs, right);
    let (left, right) = around(task, result, 5);
    lemma_pairs_between(left, "-c"@, task.config_overrides, right);
    let (left, right) = around(task, result, 4);
    lemma_pair_between(left, "-a"@, task.ask_for_approval, right);
    assert((left + seq!["-a"@, task.ask_for_approval] + right).last() == right.last());
}

proof fn lemma_one_between(left: Seq<Seq<char>>, flag: Seq<char>, right: Seq<Seq<char>>)
    requires
        right.len() >= 1,
    ensures
        (left + seq![flag] + right).drop_last().contains(flag),
{
    let all = left + seq![flag] + right;
    assert(all.drop_last()[left.len() as int] == flag);
}

/// Every task is run with its directory, its sandbox and the file for its result, as JSON and
/// outside of any repository too, and takes no more arguments than its options ask for.
#[verifier::rlimit(40)]
pub proof fn tasks_are_run_as_they_ask(task: TaskView, result: Seq<char>)
    ensures
        exec_arguments(task, result)[0] == "exec"@,
        exec_arguments(task, result)[1] == "-C"@,
        exec_arguments(task, result)[2] == task.cwd,
        exec_arguments(task, result)[3] == "-s"@,
        task.sandbox is ReadOnly ==> exec_arguments(task, result)[4] == "read-only"@,
        task.sandbox is ReadWrite ==> exec_arguments(task, result)[4] == "read-write"@,
        task.sandbox is NetworkReadOnly ==> exec_arguments(task, result)[4]
            == "network-read-only"@,
        exec_arguments(task, result)[5] == "-o"@,
        exec_arguments(task, result)[6] == result,
        exec_arguments(task, result)[7] == "--json"@,
        exec_arguments(task, result)[8] == "--skip-git-repo-check"@,
        exec_arguments(task, result).len() == 12 + (if task.model is Some {
            2int
        } else {
            0
        }) + (if task.output_schema is Some {
            2int
        } else {
            0
        }) + (if task.profile is Some {
            2int
        } else {
            0
        }) + (if task.ephemeral {
            1int
        } else {
            0
        }) + 2 * task.add_dirs.len() + 2 * task.config_overrides.len(),
{
}

proof fn lemma_inserted(left: Seq<Seq<char>>, right: Seq<Seq<char>>, a: Seq<char>, b: Seq<char>)
    ensures
        left + seq![a] + right == (left + Seq::<Seq<char>>::empty() + right).insert(
            left.len() as int,
            a,
        ),
        left + seq![a, b] + right == (left + Seq::<Seq<char>>::empty() + right).insert(
            left.len() as int,
            b,
        ).insert(left.len() as int, a),
{
    let plain = left + Seq::<Seq<char>>::empty() + right;
    let n = left.len() as int;
    assert(left + seq![a] + right =~= plain.insert(n, a));
    assert(left + seq![a, b] + right =~= plain.insert(n, b).insert(n, a));
}

/// Asking for a session that leaves nothing behind adds one flag to the arguments, and changes
/// nothing else about them.
#[verifier::rlimit(40)]
pub proof fn ephemeral_tasks_have_one_flag_more(task: TaskView, result: Seq<char>)
    ensures
        exists|i: int|
            0 < i < exec_arguments(TaskView { ephemeral: false, ..task }, result).len()
                && exec_arguments(TaskView { ephemeral: true, ..task }, result)
                == #[trigger] exec_arguments(TaskView { ephemeral: false, ..task }, result).insert(
                i,
                "--ephemeral"@,
            ),
{
    let with = TaskView { ephemeral: true, ..task };
    let without = TaskView { ephemeral: false, ..task };
    lemma_around(with, result);
    lemma_around(without, result);
    lemma_same_around(with, without, result, 2);
    let (left, right) = around(without, result, 2);
    lemma_inserted(left, right, "--ephemeral"@, "--ephemeral"@);
    assert(exec_arguments(with, result) == exec_arguments(without, result).insert(
        left.len() as int,
        "--ephemeral"@,
    ));
}

/// Asking for a model adds its flag and name to the arguments, and changes nothing else about
/// them.
#[verifier::rlimit(40)]
pub proof fn models_add_their_flag_alone(task: TaskView, result: Seq<char>, value: Seq<char>)
    ensures
        exists|i: int|
            0 < i < exec_arguments(TaskView { model: None, ..task }, result).len()
                && exec_arguments(TaskView { model: Some(value), ..task }, result)
                == #[trigger] exec_arguments(TaskView { model: None, ..task }, result).insert(
                i,
                value,
            ).insert(i, "-m"@),
{
    let with = TaskView { model: Some(value), ..task };
    let without = TaskView { model: None, ..task };
    lemma_around(with, result);
    lemma_around(without, result);
    lemma_same_around(with, without, result, 0);
    let (left, right) = around(without, result, 0);
    lemma_inserted(left, right, "-m"@, value);
    assert(exec_arguments(with, result) == exec_arguments(without, result).insert(
        left.len() as int,
        value,
    ).insert(left.len() as int, "-m"@));
}

/// Asking for a schema of the result adds its flag and file to the arguments, and changes nothing
/// else about them.
#[verifier::rlimit(40)]
pub proof fn schemas_add_their_flag_alone(task: TaskView, result: Seq<char>, value: Seq<char>)
    ensures
        exists|i: int|
            0 < i < exec_arguments(TaskView { output_schema: None, ..task }, result).len()
                && exec_arguments(TaskView { output_schema: Some(value), ..task }, result)
                == #[trigger] exec_arguments(
                TaskView { output_schema: None, ..task },
                result,
            ).insert(i, value).insert(i, "--output-schema"@),
{
    let with = TaskView { output_schema: Some(value), ..task };
    let without = TaskView { output_schema: None, ..task };
    lemma_around(with, result);
    lemma_around(without, result);
    lemma_same_around(with, without, result, 1);
    let (left, right) = around(without, result, 1);
    lemma_inserted(left, right, "--output-schema"@, value);
    assert(exec_arguments(with, result) == exec_arguments(without, result).insert(
        left.len() as int,
        value,
    ).insert(left.len() as int, "--output-schema"@));
}

/// Asking for a profile adds its flag and name to the arguments, and changes nothing else about
/// them.
#[verifier::rlimit(40)]
pub proof fn profiles_add_their_flag_alone(task: TaskView, result: Seq<char>, value: Seq<char>)
    ensures
        exists|i: int|
            0 < i < exec_arguments(TaskView { profile: None, ..task }, result).len()
                && exec_arguments(TaskView { profile: Some(value), ..task }, result)
                == #[trigger] exec_arguments(TaskView { profile: None, ..task }, result).insert(
                i,
                value,
            ).insert(i, "-p"@),
{
    let with = TaskView { profile: Some(value), ..task };
    let without = TaskView { profile: None, ..task };
    lemma_around(with, result);
    lemma_around(without, result);
    lemma_same_around(with, without, result, 6);
    let (left, right) = around(without, result, 6);
    lemma_inserted(left, right, "-p"@, value);
    assert(exec_arguments(with, result) == exec_arguments(without, result).insert(
        left.len() as int,
        value,
    ).insert(left.len() as int, "-p"@));
}

/// A session is taken up by its identifier, with the prompt, and the result goes to its file.
pub proof fn sessions_are_taken_up_by_identifier(
    session_id: Seq<char>,
    prompt: Seq<char>,
    result: Seq<char>,
)
    ensures
        resume_arguments(session_id, prompt, result).len() == 7,
        resume_arguments(session_id, prompt, result)[0] == "exec"@,
        resume_arguments(session_id, prompt, result)[1] == "resume"@,
        resume_arguments(session_id, prompt, result)[2] == session_id,
        resume_arguments(session_id, prompt, result)[3] == prompt,
        resume_arguments(session_id, prompt, result)[4] == "--json"@,
        resume_arguments(session_id, prompt, result)[5] == "-o"@,
        resume_arguments(session_id, prompt, result)[6] == result,
{
}

/// A task that starts to run is recorded under its own name, directory and prompt, its agent and
/// thread, the wave that it is run in or else was planned for, and the run and time of its
/// dispatch; all that it counts starts at nothing, whatever an earlier run of it has left.
pub proof fn starting_tasks_are_recorded_afresh(
    task: TaskView,
    existing: Option<MetaView>,
    wave: Option<u32>,
    at: Timestamp,
)
    ensures
        begun(task, existing, wave, at).name == task.name,
        begun(task, existing, wave, at).cwd == task.cwd,
        begun(task, existing, wave, at).status == TaskStatus::Running,
        begun(task, existing, wave, at).start_time == at,
        begun(task, existing, wave, at).prompt_preview.len() <= 150,
        begun(task, existing, wave, at).prompt_preview == task.prompt.take(
            begun(task, existing, wave, at).prompt_preview.len() as int,
        ),
        task.prompt.len() >= 150 ==> begun(task, existing, wave, at).prompt_preview.len() == 150,
        task.prompt.len() < 150 ==> begun(task, existing, wave, at).prompt_preview == task.prompt,
        task.agent_id matches Some(a) ==> begun(task, existing, wave, at).agent_id == a,
        task.agent_id is None ==> begun(task, existing, wave, at).agent_id == task.name,
        task.thread_id matches Some(t) ==> begun(task, existing, wave, at).thread_id == t,
        task.thread_id is None ==> begun(task, existing, wave, at).thread_id == task.name,
        wave is Some ==> begun(task, existing, wave, at).wave == wave,
        wave is None && existing is None ==> begun(task, existing, wave, at).wave is None,
        existing matches Some(e) ==> {
            &&& wave is None ==> begun(task, existing, wave, at).wave == e.wave
            &&& begun(task, existing, wave, at).run_id == e.run_id
            &&& begun(task, existing, wave, at).dispatched_at == e.dispatched_at
        },
        existing is None ==> begun(task, existing, wave, at).run_id == Seq::<char>::empty(),
        existing is None ==> begun(task, existing, wave, at).dispatched_at is None,
        begun(task, existing, wave, at).events_count == 0,
        begun(task, existing, wave, at).input_tokens == 0,
        begun(task, existing, wave, at).output_tokens == 0,
        begun(task, existing, wave, at).files_read == 0,
        begun(task, existing, wave, at).commands_run == 0,
        begun(task, existing, wave, at).last_action == Seq::<char>::empty(),
        begun(task, existing, wave, at).session_id is None,
        begun(task, existing, wave, at).pid is None,
        begun(task, existing, wave, at).end_time is None,
        begun(task, existing, wave, at).exit_code is None,
        begun(task, existing, wave, at).error is None,
{
    assert(task.prompt.take(task.prompt.len() as int) =~= task.prompt);
}

/// A task that is taken up again runs anew, in the session and with the prompt that it is given,
/// and keeps who it is and what it has counted.
pub proof fn resumed_tasks_keep_what_they_counted(
    meta: MetaView,
    session_id: Seq<char>,
    prompt: Seq<char>,
    at: Timestamp,
)
    ensures
        resumed(meta, session_id, prompt, at).session_id == Some(session_id),
        resumed(meta, session_id, prompt, at).status == TaskStatus::Running,
        resumed(meta, session_id, prompt, at).start_time == at,
        resumed(meta, session_id, prompt, at).prompt_preview.len() <= 150,
        resumed(meta, session_id, prompt, at).prompt_preview == prompt.take(
            resumed(meta, session_id, prompt, at).prompt_preview.len() as int,
        ),
        prompt.len() >= 150 ==> resumed(meta, session_id, prompt, at).prompt_preview.len() == 150,
        prompt.len() < 150 ==> resumed(meta, session_id, prompt, at).prompt_preview == prompt,
        resumed(meta, session_id, prompt, at).pid is None,
        resumed(meta, session_id, prompt, at).end_time is None,
        resumed(meta, session_id, prompt, at).exit_code is None,
        resumed(meta, session_id, prompt, at).error is None,
        resumed(meta, session_id, prompt, at).last_action == Seq::<char>::empty(),
        resumed(meta, session_id, prompt, at).name == meta.name,
        resumed(meta, session_id, prompt, at).wave == meta.wave,
        resumed(meta, session_id, prompt, at).run_id == meta.run_id,
        resumed(meta, session_id, prompt, at).agent_id == meta.agent_id,
        resumed(meta, session_id, prompt, at).thread_id == meta.thread_id,
        resumed(meta, session_id, prompt, at).cwd == meta.cwd,
        resumed(meta, session_id, prompt, at).dispatched_at == meta.dispatched_at,
        resumed(meta, session_id, prompt, at).events_count == meta.events_count,
        resumed(meta, session_id, prompt, at).input_tokens == meta.input_tokens,
        resumed(meta, session_id, prompt, at).output_tokens == meta.output_tokens,
        resumed(meta, session_id, prompt, at).files_read == meta.files_read,
        resumed(meta, session_id, prompt, at).commands_run == meta.commands_run,
{
    assert(prompt.take(prompt.len() as int) =~= prompt);
}

/// Whether the events from place `k` on, but for the first of them, hold no token count.
pub open spec fn no_tokens_after(events: Seq<Option<EventView>>, k: int) -> bool {
    forall|j: int|
        k < j < events.len() ==> !(#[trigger] events[j] matches Some(EventView::TokenCount { .. }))
}

/// The token counts of a status are those of the last token count that came in, not sums: an agent
/// counts what it has used so far. Where none came in, they are those that it started with.
pub proof fn the_last_token_count_stands(meta: MetaView, events: Seq<Option<EventView>>, k: int)
    requires
        -1 <= k < events.len(),
        no_tokens_after(events, k),
        k >= 0 ==> events[k] matches Some(EventView::TokenCount { .. }),
    ensures
        k == -1 ==> after_lines(meta, events).input_tokens == meta.input_tokens
            && after_lines(meta, events).output_tokens == meta.output_tokens,
        k >= 0 ==> (events[k] matches Some(EventView::TokenCount { input_tokens, output_tokens })
            && after_lines(meta, events).input_tokens == input_tokens
            && after_lines(meta, events).output_tokens == output_tokens),
    decreases events.len(),
{
    if events.len() > 0 && k < events.len() - 1 {
        let before = events.drop_last();
        assert(!(events[events.len() - 1] matches Some(EventView::TokenCount { .. })));
        assert forall|j: int| k < j < before.len() implies !(
        #[trigger] before[j] matches Some(EventView::TokenCount { .. })) by {
            assert(events[j] == before[j]);
        }
        if k >= 0 {
            assert(before[k] == events[k]);
        }
        the_last_token_count_stands(meta, before, k);
    }
}

/// Whether an event tells what the agent does: it reads a file, runs a command or is done.
pub open spec fn tells_action(event: Option<EventView>) -> bool {
    ||| event matches Some(EventView::ReadFile { .. })
    ||| event matches Some(EventView::ExecCommand { .. })
    ||| event matches Some(EventView::TaskComplete)
}

/// The last action of a status is what the last event that tells one says: the name of the file
/// that was read, without its directories; the start of the command that was run; or that the task
/// is complete.
pub proof fn the_last_action_stands(meta: MetaView, events: Seq<Option<EventView>>, k: int)
    requires
        0 <= k < events.len(),
        tells_action(events[k]),
        forall|j: int| k < j < events.len() ==> !tells_action(#[trigger] events[j]),
    ensures
        events[k] matches Some(EventView::ReadFile { file_path }) ==> {
            let action = after_lines(meta, events).last_action;
            &&& action.len() >= 5 && action.take(5) == "READ "@
            &&& !action.skip(5).contains('/')
            &&& action.skip(5).len() <= file_path.len()
            &&& file_path.skip(file_path.len() - action.skip(5).len()) == action.skip(5)
            &&& action.skip(5).len() < file_path.len() ==> file_path[file_path.len() - action.skip(
                5,
            ).len() - 1] == '/'
        },
        events[k] matches Some(EventView::ExecCommand { command }) ==> {
            let action = after_lines(meta, events).last_action;
            &&& action.len() >= 5 && action.take(5) == "EXEC "@
            &&& action.skip(5) == command.take(action.len() - 5)
            &&& action.len() == 5 + if command.len() < 50 {
                command.len()
            } else {
                50
            }
        },
        events[k] matches Some(EventView::TaskComplete) ==> after_lines(meta, events).last_action
            == "COMPLETED"@,
    decreases events.len(),
{
    let before = events.drop_last();
    if k < events.len() - 1 {
        assert(!tells_action(events[events.len() - 1]));
        assert(before[k] == events[k]);
        assert forall|j: int| k < j < before.len() implies !tells_action(#[trigger] before[j]) by {
            assert(events[j] == before[j]);
        }
        the_last_action_stands(meta, before, k);
        assert(after_lines(meta, events).last_action == after_lines(meta, before).last_action);
    } else {
        let action = after_lines(meta, events).last_action;
        reveal_strlit("READ ");
        reveal_strlit("EXEC ");
        if let Some(EventView::ReadFile { file_path }) = events[k] {
            assert(action == "READ "@ + last_segment(file_path));
            assert(action.take(5) =~= "READ "@);
            assert(action.skip(5) =~= last_segment(file_path));
            last_segments_hold_no_slash(file_path);
        }
        if let Some(EventView::ExecCommand { command }) = events[k] {
            let short = first_chars(command, 50);
            assert(action == "EXEC "@ + short);
            assert(action.take(5) =~= "EXEC "@);
            assert(action.skip(5) =~= short);
            assert(short =~= command.take(short.len() as int));
        }
    }
}

/// An event changes of a status only what it tells: counts of tokens, files or commands, the last
/// action, or the session.
pub proof fn events_change_only_what_they_tell(meta: MetaView, event: EventView)
    ensures
        noted(meta, event).name == meta.name,
        noted(meta, event).wave == meta.wave,
        noted(meta, event).run_id == meta.run_id,
        noted(meta, event).agent_id == meta.agent_id,
        noted(meta, event).thread_id == meta.thread_id,
        noted(meta, event).cwd == meta.cwd,
        noted(meta, event).prompt_preview == meta.prompt_preview,
        noted(meta, event).status == meta.status,
        noted(meta, event).pid == meta.pid,
        noted(meta, event).dispatched_at == meta.dispatched_at,
        noted(meta, event).start_time == meta.start_time,
        noted(meta, event).end_time == meta.end_time,
        noted(meta, event).events_count == meta.events_count,
        noted(meta, event).exit_code == meta.exit_code,
        noted(meta, event).error == meta.error,
        !(event is TokenCount) ==> noted(meta, event).input_tokens == meta.input_tokens
            && noted(meta, event).output_tokens == meta.output_tokens,
        noted(meta, event).files_read == meta.files_read + if event is ReadFile {
            1nat
        } else {
            0nat
        },
        noted(meta, event).commands_run == meta.commands_run + if event is ExecCommand {
            1nat
        } else {
            0nat
        },
        event matches EventView::SessionStart { session_id } ==> noted(meta, event).session_id
            == Some(session_id),
        !(event is SessionStart) ==> noted(meta, event).session_id == meta.session_id,
        !tells_action(Some(event)) ==> noted(meta, event).last_action == meta.last_action,
{
}

/// A status is written to disk after every twentieth event, and after no other.
pub proof fn every_twentieth_event_is_saved(events: nat, k: nat)
    ensures
        save_due(20 * k),
        save_due(events) ==> exists|n: nat| events == #[trigger] (20 * n),
        save_due(events) ==> !save_due(events + 1 + k % 19),
{
    if save_due(events) {
        assert(events == 20 * (events / 20));
        assert((events + 1 + k % 19) % 20 == 1 + k % 19);
    }
    assert((20 * k) % 20 == 0) by (nonlinear_arith);
}

/// Lines are counted until a counter is full: the one of events, or the one that the event on the
/// line counts in.
pub proof fn lines_are_counted_until_a_counter_is_full(meta: MetaView, event: Option<EventView>)
    ensures
        !has_room(meta, event) <==> {
            ||| meta.events_count >= 0xffff_ffff_ffff_ffff
            ||| meta.files_read >= 0xffff_ffff && (event matches Some(EventView::ReadFile { .. }))
            ||| meta.commands_run >= 0xffff_ffff && (event matches Some(
                EventView::ExecCommand { .. },
            ))
        },
{
}

/// While a task runs, a cancelled run ends its process at the next line or at once where it is
/// silent; else its output is read on to its end, or to where it cannot be read, which is noted.
/// Nothing that its output says changes whether it runs.
pub proof fn output_is_read_until_it_ends(meta: MetaView, input: StreamInput, cancelled: bool)
    ensures
        input is Line ==> stream_step_for(meta, input, cancelled).next == if cancelled {
            StreamNext::Kill
        } else {
            StreamNext::GoOn
        },
        input is Line ==> (stream_step_for(meta, input, cancelled).save <==> (meta.events_count + 1)
            % 20 == 0),
        input is End || input is ReadError ==> stream_step_for(meta, input, cancelled).next
            == StreamNext::Stop,
        input is Cancelled ==> stream_step_for(meta, input, cancelled).next == StreamNext::Kill,
        !(input is Line) ==> !stream_step_for(meta, input, cancelled).save,
        streamed(meta, input).status == meta.status,
        streamed(meta, input).end_time == meta.end_time,
        streamed(meta, input).exit_code == meta.exit_code,
        streamed(meta, input).name == meta.name,
        streamed(meta, input).events_count == meta.events_count + if input is Line {
            1nat
        } else {
            0nat
        },
        !(input is ReadError) ==> streamed(meta, input).error == meta.error,
        input matches StreamInput::ReadError(e) ==> streamed(meta, input).error == Some(
            "stdout read error: "@ + e@,
        ),
        input is End || input is Cancelled ==> streamed(meta, input) == meta,
{
    if let StreamInput::Line(line) = input {
        if let Some(event) = event_on(line@) {
            let counted = MetaView { events_count: meta.events_count + 1, ..meta };
            events_change_only_what_they_tell(counted, event);
        }
    }
}

/// A task is done just where its process succeeded and nothing went wrong before; how and when the
/// process ended is noted, and nothing else changes.
pub proof fn tasks_are_done_where_nothing_went_wrong(
    meta: MetaView,
    exit_code: Option<i32>,
    success: bool,
    at: Timestamp,
)
    ensures
        exited(meta, exit_code, success, at).status == TaskStatus::Done <==> success
            && meta.error is None,
        !(success && meta.error is None) ==> exited(meta, exit_code, success, at).status
            == TaskStatus::Failed,
        exited(meta, exit_code, success, at).exit_code == exit_code,
        exited(meta, exit_code, success, at).end_time == Some(at),
        exited(meta, exit_code, success, at).error == meta.error,
        exited(meta, exit_code, success, at) == (MetaView {
            status: exited(meta, exit_code, success, at).status,
            exit_code,
            end_time: Some(at),
            ..meta
        }),
{
}

/// A task whose run went through is reported with the status and error that it has. One whose run
/// broke off is cancelled by the user where the run is cancelled, and else failed for that reason.
pub proof fn broken_off_runs_are_told_from_cancelled_ones(
    meta: MetaView,
    failure: Seq<char>,
    cancelled: bool,
    at: Timestamp,
)
    ensures
        concluded(meta, None, cancelled, at) == meta,
        concluded(meta, Some(failure), true, at).status == TaskStatus::Cancelled,
        concluded(meta, Some(failure), true, at).error == Some("cancelled by user"@),
        concluded(meta, Some(failure), false, at).status == TaskStatus::Failed,
        concluded(meta, Some(failure), false, at).error == Some(failure),
        concluded(meta, Some(failure), cancelled, at).end_time == Some(at),
        concluded(meta, Some(failure), cancelled, at) == (MetaView {
            status: concluded(meta, Some(failure), cancelled, at).status,
            error: concluded(meta, Some(failure), cancelled, at).error,
            end_time: Some(at),
            ..meta
        }),
        report_on(meta).name == meta.name,
        report_on(meta).status == meta.status,
        report_on(meta).error == meta.error,
{
}

/// A process group is the negative of its process, as a signed number holds it; only that of a
/// known process is known.
pub proof fn process_groups_are_negated(pid: u32, group: Option<i32>)
    ensures
        known_group(None, group) <==> group is None,
        known_group(Some(pid), group) ==> group is Some,
        pid < 0x8000_0000 && known_group(Some(pid), group) ==> group->0 + pid == 0,
        pid >= 0x8000_0000 && known_group(Some(pid), group) ==> group->0 + pid == 0x1_0000_0000,
{
}

/// A process has three seconds to end by itself before it is killed.
pub proof fn processes_have_three_seconds_to_end()
    ensures
        SIGKILL_TIMEOUT_SECS == 3,
{
}

} // verus!
