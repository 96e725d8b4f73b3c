//! Dispatching tasks into a run that is under way.
use vstd::prelude::*;
use vstd::string::*;

use crate::commands::names::valid_task_name;
use crate::config::{
    all_fit, circle, circular, config_refusal, distinct_names, fit_task, has_task, in_wave,
    knows_dependencies, one_wave_at_most, one_wave_each, sandbox_labels_differ, schedulable,
    task_views, waits_for, waves_exist_without_circles, waves_of, Sandbox, TaskDef, TaskView,
    TasksConfig,
};
use crate::coordination::{brings_known_dependencies, leveled, without_circles};
use crate::coordinator::{
    all_in, dependency_refusal, dispatch_name_refusal, task_names, validate_dispatch_deps,
    validate_dispatch_name, Happening, RunView,
};
use crate::error::{quoted, Error, Refusal, ToolError};
use crate::names::{lemma_push_to_set, NameSet};
use crate::plan::dependency_before;
use crate::text::{blank, is_blank, opt_text, texts, white_space};

verus! {

/// A request to dispatch a task.
#[derive(Debug)]
pub struct DispatchTaskParams {
    pub run_dir: String,
    pub name: String,
    pub cwd: String,
    pub prompt: String,
    pub sandbox: Option<String>,
    pub model: Option<String>,
    pub depends_on: Vec<String>,
    pub agent_id: Option<String>,
    pub thread_id: Option<String>,
    pub ask_for_approval: Option<String>,
    pub config_overrides: Vec<String>,
    pub profile: Option<String>,
}

/// The sandbox with this name, if there is one; the name may be left out.
pub open spec fn sandbox_named(name: Option<Seq<char>>) -> Option<Sandbox> {
    let label = match name {
        Some(s) => s,
        None => "read-only"@,
    };
    if label == Sandbox::ReadOnly.label() {
        Some(Sandbox::ReadOnly)
    } else if label == Sandbox::ReadWrite.label() {
        Some(Sandbox::ReadWrite)
    } else if label == Sandbox::NetworkReadOnly.label() {
        Some(Sandbox::NetworkReadOnly)
    } else {
        None
    }
}

/// The task that a request asks for, in the given sandbox.
pub open spec fn requested_task(p: DispatchTaskParams, sandbox: Sandbox) -> TaskView {
    TaskView {
        name: p.name@,
        cwd: p.cwd@,
        prompt: p.prompt@,
        sandbox,
        agent_id: opt_text(p.agent_id),
        thread_id: opt_text(p.thread_id),
        output_schema: None,
        ephemeral: false,
        add_dirs: seq![],
        ask_for_approval: match p.ask_for_approval {
            Some(s) => s@,
            None => "never"@,
        },
        config_overrides: texts(p.config_overrides@),
        profile: opt_text(p.profile),
        model: opt_text(p.model),
        depends_on: texts(p.depends_on@),
    }
}

/// The task that a request asks for. A request without a working directory, or with a sandbox
/// that is not known, is refused.
pub fn params_to_task_def(p: DispatchTaskParams) -> (r: Result<TaskDef, Error>)
    ensures
        match r {
            Ok(task) => request_fits(p) && task@ == requested_task(
                p,
                sandbox_named(opt_text(p.sandbox))->0,
            ),
            Err(e) => !request_fits(p) && request_refusal(p, e),
        },
{
    if is_blank(p.cwd.as_str()) {
        return Err(Error::EmptyCwd);
    }
    let sandbox = match &p.sandbox {
        Some(name) => match Sandbox::from_text(name.as_str()) {
            Some(sandbox) => {
                proof {
                    sandbox_labels_differ(sandbox, Sandbox::ReadOnly);
                    sandbox_labels_differ(sandbox, Sandbox::ReadWrite);
                    sandbox_labels_differ(sandbox, Sandbox::NetworkReadOnly);
                }
                sandbox
            },
            None => {
                return Err(Error::UnknownSandbox { name: name.clone() });
            },
        },
        None => Sandbox::ReadOnly,
    };
    let ask_for_approval = match p.ask_for_approval {
        Some(s) => s,
        None => "never".to_owned(),
    };
    let task = TaskDef {
        name: p.name,
        cwd: p.cwd,
        prompt: p.prompt,
        sandbox,
        agent_id: p.agent_id,
        thread_id: p.thread_id,
        output_schema: None,
        ephemeral: false,
        add_dirs: Vec::new(),
        ask_for_approval,
        config_overrides: p.config_overrides,
        profile: p.profile,
        model: p.model,
        depends_on: p.depends_on,
    };
    assert(texts(task.add_dirs@) =~= seq![]);
    Ok(task)
}

/// Whether a request asks for a task that can be had.
pub open spec fn request_fits(p: DispatchTaskParams) -> bool {
    !blank(p.cwd@) && sandbox_named(opt_text(p.sandbox)) is Some
}

/// Whether the error is the one that a request is refused with.
pub open spec fn request_refusal(p: DispatchTaskParams, e: Error) -> bool {
    if blank(p.cwd@) {
        e is EmptyCwd
    } else {
        e matches Error::UnknownSandbox { name } && opt_text(p.sandbox) == Some(name@)
    }
}

/// The tasks that requests ask for, in their order; the first that cannot be had is refused.
pub fn params_to_task_defs(params: Vec<DispatchTaskParams>) -> (r: Result<Vec<TaskDef>, Error>)
    ensures
        match r {
            Ok(tasks) => {
                &&& tasks@.len() == params@.len()
                &&& forall|i: int|
                    0 <= i < params@.len() ==> request_fits(#[trigger] params@[i]) && tasks@[i]@
                        == requested_task(params@[i], sandbox_named(opt_text(params@[i].sandbox))->0)
            },
            Err(e) => exists|i: int|
                {
                    &&& 0 <= i < params@.len()
                    &&& !request_fits(#[trigger] params@[i])
                    &&& forall|j: int| 0 <= j < i ==> request_fits(#[trigger] params@[j])
                    &&& request_refusal(params@[i], e)
                },
        },
{
    let mut tasks: Vec<TaskDef> = Vec::new();
    for p in it: params
        invariant
            it.seq() == params@,
            tasks@.len() == it.index(),
            forall|i: int|
                0 <= i < it.index() ==> request_fits(#[trigger] params@[i]) && tasks@[i]@
                    == requested_task(params@[i], sandbox_named(opt_text(params@[i].sandbox))->0),
    {
        let ghost k = it.index() as int;
        assert(params@[k] == p);
        match params_to_task_def(p) {
            Ok(task) => {
                tasks.push(task);
            },
            Err(e) => {
                assert(!request_fits(params@[k]));
                return Err(e);
            },
        }
    }
    Ok(tasks)
}

/// What stands for an accepted task while a wave is checked.
pub open spec fn placeholder(name: Seq<char>) -> TaskView {
    TaskView {
        name,
        cwd: "."@,
        prompt: seq![],
        sandbox: Sandbox::ReadOnly,
        agent_id: None,
        thread_id: None,
        output_schema: None,
        ephemeral: false,
        add_dirs: seq![],
        ask_for_approval: "never"@,
        config_overrides: seq![],
        profile: None,
        model: None,
        depends_on: seq![],
    }
}

/// What stands for an accepted task while a wave is checked.
pub fn dispatch_validation_placeholder(name: String) -> (r: TaskDef)
    ensures
        r@ == placeholder(name@),
{
    let r = TaskDef {
        name,
        cwd: ".".to_owned(),
        prompt: String::new(),
        sandbox: Sandbox::ReadOnly,
        agent_id: None,
        thread_id: None,
        output_schema: None,
        ephemeral: false,
        add_dirs: Vec::new(),
        ask_for_approval: "never".to_owned(),
        config_overrides: Vec::new(),
        profile: None,
        model: None,
        depends_on: Vec::new(),
    };
    assert(texts(r.add_dirs@) =~= seq![]);
    assert(texts(r.config_overrides@) =~= seq![]);
    assert(texts(r.depends_on@) =~= seq![]);
    r
}

/// The tasks of a wave behind what stands for the accepted ones.
pub open spec fn with_placeholders(accepted: Seq<Seq<char>>, tasks: Seq<TaskView>) -> Seq<TaskView> {
    accepted.map_values(|name: Seq<char>| placeholder(name)) + tasks
}

/// Whether a list names every member of a set, each once.
pub open spec fn lists(names: Seq<Seq<char>>, set: Set<Seq<char>>) -> bool {
    names.no_duplicates() && names.to_set() == set
}

/// Whether a wave can be dispatched into a run that has accepted some tasks: its tasks are fit,
/// their names are new and different, and each depends only on accepted tasks and, without a
/// circle, on others of the wave.
pub open spec fn wave_fits(accepted: Set<Seq<char>>, tasks: Seq<TaskView>) -> bool {
    &&& all_fit(tasks)
    &&& distinct_names(tasks)
    &&& forall|i: int| 0 <= i < tasks.len() ==> !accepted.contains((#[trigger] tasks[i]).name)
    &&& forall|i: int, d: int|
        0 <= i < tasks.len() && 0 <= d < tasks[i].depends_on.len() ==> accepted.contains(
            #[trigger] tasks[i].depends_on[d],
        ) || has_task(tasks, tasks[i].depends_on[d])
    &&& !circular(tasks)
}

/// Whether every accepted name is fit.
pub open spec fn names_fit(accepted: Set<Seq<char>>) -> bool {
    forall|name: Seq<char>| #[trigger] accepted.contains(name) ==> valid_task_name(name)
}

/// Whether the error is one that a wave is refused with.
pub open spec fn wave_refusal(accepted: Set<Seq<char>>, tasks: Seq<TaskView>, e: Error) -> bool {
    exists|names: Seq<Seq<char>>| #[trigger]
        lists(names, accepted) && config_refusal(with_placeholders(names, tasks), e)
}

/// Checks that a wave can be dispatched into a run; gives the names of its tasks.
pub fn validate_dispatch_wave_defs(tasks: &Vec<TaskDef>, accepted: &NameSet) -> (r: Result<
    NameSet,
    Error,
>)
    ensures
        match r {
            Ok(names) => {
                &&& names_fit(accepted@) && wave_fits(accepted@, task_views(tasks@))
                &&& names@ == task_names(task_views(tasks@)).to_set()
            },
            Err(e) => {
                &&& !(names_fit(accepted@) && wave_fits(accepted@, task_views(tasks@)))
                &&& wave_refusal(accepted@, task_views(tasks@), e)
            },
        },
{
    let known = accepted.to_list();
    let ghost names = texts(known@);
    let ghost all = task_views(tasks@);
    let ghost whole = with_placeholders(names, all);
    let mut synthetic: Vec<TaskDef> = Vec::new();
    let mut i: usize = 0;
    while i < known.len()
        invariant
            i <= known@.len(),
            synthetic@.len() == i,
            forall|j: int| 0 <= j < i ==> (#[trigger] synthetic@[j])@ == placeholder(known@[j]@),
        decreases known@.len() - i,
    {
        synthetic.push(dispatch_validation_placeholder(known[i].clone()));
        i = i + 1;
    }
    let ghost n = known@.len();
    let mut i: usize = 0;
    while i < tasks.len()
        invariant
            i <= tasks@.len(),
            n == known@.len(),
            synthetic@.len() == n + i,
            forall|j: int| 0 <= j < n ==> (#[trigger] synthetic@[j])@ == placeholder(known@[j]@),
            forall|j: int| n <= j < n + i ==> (#[trigger] synthetic@[j])@ == tasks@[j - n]@,
        decreases tasks@.len() - i,
    {
        synthetic.push(tasks[i].clone());
        i = i + 1;
    }
    proof {
        assert(task_views(synthetic@) =~= whole);
        assert(lists(names, accepted@));
        lemma_wave_fits(names, accepted@, all);
    }
    let config = TasksConfig { tasks: synthetic };
    match config.into_waves() {
        Ok(_) => {},
        Err(e) => {
            return Err(e);
        },
    }
    let mut batch_names = NameSet::new();
    let ghost batch = task_names(all);
    let mut i: usize = 0;
    assert(batch.take(0).to_set() =~= Set::<Seq<char>>::empty());
    while i < tasks.len()
        invariant
            i <= tasks@.len(),
            all == task_views(tasks@),
            batch == task_names(all),
            wave_fits(accepted@, all),
            batch_names@ == batch.take(i as int).to_set(),
        decreases tasks@.len() - i,
    {
        proof {
            assert(batch[i as int] == tasks@[i as int].name@);
            assert(all[i as int].name == batch[i as int]);
            assert(fit_task(all[i as int]));
            assert(batch.take(i + 1) =~= batch.take(i as int).push(batch[i as int]));
        }
        match validate_dispatch_name(tasks[i].name.as_str(), accepted) {
            Ok(()) => {},
            Err(e) => {
                return Err(e);
            },
        }
        if !batch_names.insert(tasks[i].name.as_str()) {
            proof {
                let j = choose|j: int|
                    0 <= j < batch.take(i as int).len() && batch.take(i as int)[j]
                        == batch[i as int];
                assert(all[j].name == all[i as int].name);
            }
            return Err(Error::DuplicateTask { name: tasks[i].name.clone() });
        }
        proof {
            lemma_push_to_set(batch.take(i as int), batch[i as int]);
        }
        i = i + 1;
    }
    assert(batch.take(i as int) =~= batch);
    Ok(batch_names)
}

/// How a run stands to a request that is made of it.
#[derive(Clone, Copy, Debug, PartialEq, Eq, Structural)]
pub enum RunLookup {
    /// There is no such run.
    Missing,
    /// The run has ended, and its entry can go.
    Finished,
    /// The run is under way.
    Active,
}

/// Why a run takes no requests, if it takes none; `shown` is its directory, quoted.
pub open spec fn inactive_text(lookup: RunLookup, shown: Seq<char>) -> Option<Seq<char>> {
    match lookup {
        RunLookup::Missing => Some("run_dir "@ + shown + " has no active run"@),
        RunLookup::Finished => Some("run_dir "@ + shown + " is already terminal"@),
        RunLookup::Active => None,
    }
}

/// Refuses a request of a run that is not under way.
pub fn check_active(lookup: RunLookup, shown: &str) -> (r: Result<(), ToolError>)
    ensures
        match r {
            Ok(()) => inactive_text(lookup, shown@) is None,
            Err(e) => inactive_text(lookup, shown@) matches Some(text) && e@
                == Refusal::InvalidParams(text),
        },
{
    match lookup {
        RunLookup::Missing => Err(
            ToolError::InvalidParams(quoted("run_dir ", shown, " has no active run")),
        ),
        RunLookup::Finished => Err(
            ToolError::InvalidParams(quoted("run_dir ", shown, " is already terminal")),
        ),
        RunLookup::Active => Ok(()),
    }
}

/// Refuses a request for tasks of a run that was cancelled.
pub fn check_not_cancelled(cancelled: bool) -> (r: Result<(), ToolError>)
    ensures
        match r {
            Ok(()) => !cancelled,
            Err(e) => cancelled && e@ == Refusal::InvalidParams(
                "run has been cancelled; no new tasks accepted"@,
            ),
        },
{
    if cancelled {
        Err(
            ToolError::InvalidParams("run has been cancelled; no new tasks accepted".to_owned()),
        )
    } else {
        Ok(())
    }
}

/// Whether a task can be dispatched into a run that has accepted some tasks.
pub open spec fn task_fits(accepted: Set<Seq<char>>, task: TaskView) -> bool {
    valid_task_name(task.name) && !accepted.contains(task.name) && all_in(task.depends_on, accepted)
}

/// Whether these are the words that a task is refused with.
pub open spec fn task_refusal(accepted: Set<Seq<char>>, task: TaskView, refusal: Refusal) -> bool {
    exists|e: Error|
        #![trigger e.text()]
        refusal == Refusal::InvalidParams(e.text()) && if !valid_task_name(task.name)
            || accepted.contains(task.name) {
            dispatch_name_refusal(task.name, accepted, e)
        } else {
            dependency_refusal(task.depends_on, accepted, e)
        }
}

/// Checks that a task can be dispatched into a run.
pub fn admit_task(task: &TaskDef, accepted: &NameSet) -> (r: Result<(), ToolError>)
    ensures
        match r {
            Ok(()) => task_fits(accepted@, task@),
            Err(e) => !task_fits(accepted@, task@) && task_refusal(accepted@, task@, e@),
        },
{
    match validate_dispatch_name(task.name.as_str(), accepted) {
        Ok(()) => {},
        Err(e) => {
            return Err(ToolError::invalid(&e));
        },
    }
    match validate_dispatch_deps(&task.depends_on, accepted) {
        Ok(()) => Ok(()),
        Err(e) => Err(ToolError::invalid(&e)),
    }
}

/// Checks that a wave can be dispatched into a run; gives the names of its tasks.
pub fn admit_wave(tasks: &Vec<TaskDef>, accepted: &NameSet) -> (r: Result<NameSet, ToolError>)
    ensures
        match r {
            Ok(names) => {
                &&& names_fit(accepted@) && wave_fits(accepted@, task_views(tasks@))
                &&& names@ == task_names(task_views(tasks@)).to_set()
            },
            Err(e) => {
                &&& !(names_fit(accepted@) && wave_fits(accepted@, task_views(tasks@)))
                &&& exists|why: Error|
                    #![trigger why.text()]
                    wave_refusal(accepted@, task_views(tasks@), why) && e@
                        == Refusal::InvalidParams(why.text())
            },
        },
{
    match validate_dispatch_wave_defs(tasks, accepted) {
        Ok(names) => Ok(names),
        Err(e) => Err(ToolError::invalid(&e)),
    }
}

/// What came of handing a request to a run.
#[derive(Clone, Copy, Debug, PartialEq, Eq, Structural)]
pub enum SendOutcome {
    /// The run has it.
    Sent,
    /// The run takes no more requests.
    Closed,
    /// Too many requests wait.
    Full,
}

/// How a request that could not be handed over is refused.
pub open spec fn send_refusal(outcome: SendOutcome, label: Seq<char>) -> Option<Refusal> {
    match outcome {
        SendOutcome::Sent => None,
        SendOutcome::Closed => Some(
            Refusal::InvalidParams(
                label + " cannot be accepted because the run is no longer dispatchable"@,
            ),
        ),
        SendOutcome::Full => Some(
            Refusal::Internal("dispatch queue is full while enqueuing "@ + label),
        ),
    }
}

/// Refuses a request that could not be handed over.
pub fn check_sent(outcome: SendOutcome, label: &str) -> (r: Result<(), ToolError>)
    ensures
        match r {
            Ok(()) => send_refusal(outcome, label@) is None,
            Err(e) => send_refusal(outcome, label@) == Some(e@),
        },
{
    match outcome {
        SendOutcome::Sent => Ok(()),
        SendOutcome::Closed => {
            let mut text = label.to_owned();
            text.append(" cannot be accepted because the run is no longer dispatchable");
            Err(ToolError::InvalidParams(text))
        },
        SendOutcome::Full => {
            let mut text = "dispatch queue is full while enqueuing ".to_owned();
            text.append(label);
            Err(ToolError::Internal(text))
        },
    }
}

/// The answer to a request that was handed over.
#[derive(Debug)]
pub struct DispatchResult {
    pub state: String,
    pub task_count: usize,
}

/// Notes that a task was handed to a run, where it was; the run counts it as accepted from then
/// on.
pub fn dispatched_task(accepted: &mut NameSet, name: &str, outcome: SendOutcome) -> (r: Result<
    DispatchResult,
    ToolError,
>)
    ensures
        match r {
            Ok(d) => {
                &&& outcome is Sent
                &&& final(accepted)@ == old(accepted)@.insert(name@)
                &&& d.state@ == "accepted"@ && d.task_count == 1
            },
            Err(e) => {
                &&& send_refusal(outcome, "task '"@ + name@ + "'"@) == Some(e@)
                &&& final(accepted)@ == old(accepted)@
            },
        },
{
    match check_sent(outcome, quoted("task '", name, "'").as_str()) {
        Ok(()) => {},
        Err(e) => {
            return Err(e);
        },
    }
    let _ = accepted.insert(name);
    Ok(DispatchResult { state: "accepted".to_owned(), task_count: 1 })
}

/// Notes that a wave was handed to a run, where it was; the run counts its tasks as accepted from
/// then on.
pub fn dispatched_wave(
    accepted: &mut NameSet,
    names: &NameSet,
    task_count: usize,
    outcome: SendOutcome,
) -> (r: Result<DispatchResult, ToolError>)
    ensures
        match r {
            Ok(d) => {
                &&& outcome is Sent
                &&& final(accepted)@ == old(accepted)@.union(names@)
                &&& d.state@ == "accepted"@ && d.task_count == task_count
            },
            Err(e) => {
                &&& send_refusal(outcome, "task wave"@) == Some(e@)
                &&& final(accepted)@ == old(accepted)@
            },
        },
{
    match check_sent(outcome, "task wave") {
        Ok(()) => {},
        Err(e) => {
            return Err(e);
        },
    }
    accepted.extend(names);
    Ok(DispatchResult { state: "accepted".to_owned(), task_count })
}

/// The answer to a request that no more tasks be taken.
pub fn sealed_dispatch(outcome: SendOutcome) -> (r: Result<&'static str, ToolError>)
    ensures
        match r {
            Ok(state) => outcome is Sent && state@ == "seal_requested"@,
            Err(e) => send_refusal(outcome, "dispatch seal"@) == Some(e@),
        },
{
    match check_sent(outcome, "dispatch seal") {
        Ok(()) => Ok("seal_requested"),
        Err(e) => Err(e),
    }
}

/// What to do about a request to cancel a run.
#[derive(Debug)]
pub struct CancelDecision {
    /// Cancel the run, and ask it to take no more tasks.
    pub cancel: bool,
    /// Forget the run.
    pub forget: bool,
    /// The answer.
    pub state: &'static str,
}

/// Decides about a request to cancel a run.
pub fn cancel_run(lookup: RunLookup) -> (r: CancelDecision)
    ensures
        r.cancel == (lookup is Active),
        r.forget == (lookup is Finished),
        r.state@ == match lookup {
            RunLookup::Missing => "not_found"@,
            RunLookup::Finished => "already_terminal"@,
            RunLookup::Active => "cancel_requested"@,
        },
{
    match lookup {
        RunLookup::Missing => CancelDecision { cancel: false, forget: false, state: "not_found" },
        RunLookup::Finished => CancelDecision {
            cancel: false,
            forget: true,
            state: "already_terminal",
        },
        RunLookup::Active => CancelDecision {
            cancel: true,
            forget: false,
            state: "cancel_requested",
        },
    }
}

/// Putting the accepted tasks before a wave changes nothing about it: the whole can be put into
/// waves just where the wave fits.
proof fn lemma_wave_fits(names: Seq<Seq<char>>, accepted: Set<Seq<char>>, tasks: Seq<TaskView>)
    requires
        lists(names, accepted),
    ensures
        schedulable(with_placeholders(names, tasks)) <==> names_fit(accepted) && wave_fits(
            accepted,
            tasks,
        ),
{
    let whole = with_placeholders(names, tasks);
    let n = names.len() as int;
    reveal_strlit(".");
    assert forall|i: int| 0 <= i < n implies #[trigger] whole[i] == placeholder(names[i]) by {}
    assert forall|i: int| 0 <= i < tasks.len() implies whole[n + i] == #[trigger] tasks[i] by {}
    if schedulable(whole) {
        assert forall|name: Seq<char>| #[trigger] accepted.contains(name) implies valid_task_name(
            name,
        ) by {
            let i = choose|i: int| 0 <= i < names.len() && names[i] == name;
            assert(fit_task(whole[i]));
        }
        assert forall|i: int| 0 <= i < tasks.len() implies fit_task(#[trigger] tasks[i]) by {
            assert(fit_task(whole[n + i]));
        }
        assert forall|i: int, j: int|
            0 <= i < tasks.len() && 0 <= j < tasks.len() && #[trigger] tasks[i].name
                == #[trigger] tasks[j].name implies i == j by {
            assert(whole[n + i].name == whole[n + j].name);
        }
        assert forall|i: int| 0 <= i < tasks.len() implies !accepted.contains(
            (#[trigger] tasks[i]).name,
        ) by {
            if accepted.contains(tasks[i].name) {
                let j = choose|j: int| 0 <= j < names.len() && names[j] == tasks[i].name;
                assert(whole[j].name == whole[n + i].name);
            }
        }
        assert forall|i: int, d: int|
            0 <= i < tasks.len() && 0 <= d < tasks[i].depends_on.len() implies accepted.contains(
            #[trigger] tasks[i].depends_on[d],
        ) || has_task(tasks, tasks[i].depends_on[d]) by {
            assert(knows_dependencies(whole, n + i));
            let name = whole[n + i].depends_on[d];
            let j = choose|j: int| 0 <= j < whole.len() && #[trigger] whole[j].name == name;
            if j < n {
                assert(names[j] == name);
                assert(names.to_set().contains(name));
            } else {
                assert(tasks[j - n].name == name);
            }
        }
        if circular(tasks) {
            let path = choose|path: Seq<int>| circle(tasks, path);
            let shifted = path.map_values(|i: int| i + n);
            assert forall|i: int| 0 <= i < shifted.len() - 1 implies waits_for(
                whole,
                #[trigger] shifted[i],
                shifted[i + 1],
            ) by {
                assert(waits_for(tasks, path[i], path[i + 1]));
                assert(whole[n + path[i]] == tasks[path[i]]);
                assert(whole[n + path[i + 1]] == tasks[path[i + 1]]);
            }
            assert(circle(whole, shifted));
        }
    }
    if names_fit(accepted) && wave_fits(accepted, tasks) {
        assert forall|i: int| 0 <= i < whole.len() implies fit_task(#[trigger] whole[i]) by {
            if i < n {
                assert(names.to_set().contains(names[i]));
            } else {
                assert(fit_task(tasks[i - n]));
            }
        }
        assert forall|i: int, j: int|
            0 <= i < whole.len() && 0 <= j < whole.len() && #[trigger] whole[i].name
                == #[trigger] whole[j].name implies i == j by {
            if i < n && j < n {
                assert(names[i] == names[j]);
            } else if i >= n && j >= n {
                assert(tasks[i - n].name == tasks[j - n].name);
            } else if i < n {
                assert(names.to_set().contains(names[i]));
                assert(!accepted.contains(tasks[j - n].name));
            } else {
                assert(names.to_set().contains(names[j]));
                assert(!accepted.contains(tasks[i - n].name));
            }
        }
        assert forall|i: int| 0 <= i < whole.len() implies #[trigger] knows_dependencies(
            whole,
            i,
        ) by {
            assert forall|d: int| 0 <= d < whole[i].depends_on.len() implies has_task(
                whole,
                #[trigger] whole[i].depends_on[d],
            ) by {
                let name = whole[i].depends_on[d];
                assert(whole[i] == tasks[i - n]);
                assert(tasks[i - n].depends_on[d] == name);
                if accepted.contains(name) {
                    let j = choose|j: int| 0 <= j < names.len() && names[j] == name;
                    assert(whole[j].name == name);
                } else {
                    let j = choose|j: int| 0 <= j < tasks.len() && #[trigger] tasks[j].name == name;
                    assert(whole[n + j].name == name);
                }
            }
        }
        if circular(whole) {
            let path = choose|path: Seq<int>| circle(whole, path);
            assert forall|i: int| 0 <= i < path.len() - 1 implies #[trigger] path[i] >= n by {
                assert(waits_for(whole, path[i], path[i + 1]));
            }
            let shifted = path.map_values(|i: int| i - n);
            assert forall|i: int| 0 <= i < shifted.len() implies 0 <= #[trigger] shifted[i]
                < tasks.len() by {
                if i == path.len() - 1 {
                    assert(path[0] >= n);
                } else {
                    assert(path[i] >= n);
                }
                assert(0 <= path[i] < whole.len());
            }
            assert forall|i: int| 0 <= i < shifted.len() - 1 implies waits_for(
                tasks,
                #[trigger] shifted[i],
                shifted[i + 1],
            ) by {
                assert(waits_for(whole, path[i], path[i + 1]));
                assert(0 <= shifted[i + 1] < tasks.len());
                assert(whole[path[i]] == tasks[shifted[i]]);
                assert(whole[path[i + 1]] == tasks[shifted[i + 1]]);
            }
            assert(circle(tasks, shifted));
        }
    }
}

/// Whether a task of this name belongs into wave `k`.
spec fn named_in_wave(tasks: Seq<TaskView>, k: nat, name: Seq<char>) -> bool {
    exists|i: int| 0 <= i < tasks.len() && tasks[i].name == name && #[trigger] in_wave(tasks, k, i)
}

/// The wave into which the task of this name belongs.
spec fn wave_of(tasks: Seq<TaskView>, name: Seq<char>) -> nat {
    choose|k: nat| named_in_wave(tasks, k, name)
}

proof fn lemma_wave_of(tasks: Seq<TaskView>, k: nat, i: int)
    requires
        distinct_names(tasks),
        0 <= i < tasks.len(),
        in_wave(tasks, k, i),
    ensures
        wave_of(tasks, tasks[i].name) == k,
{
    let name = tasks[i].name;
    assert(named_in_wave(tasks, k, name));
    let m = wave_of(tasks, name);
    let j = choose|j: int| 0 <= j < tasks.len() && tasks[j].name == name && #[trigger] in_wave(
        tasks,
        m,
        j,
    );
    assert(tasks[i].name == tasks[j].name);
    one_wave_at_most(tasks, m, k, i);
}

/// A wave that can be dispatched into a run depends on accepted tasks, and on others of the wave
/// without a circle, so that it cannot get the run stuck.
pub proof fn dispatched_waves_have_no_circles(accepted: Set<Seq<char>>, tasks: Seq<TaskView>)
    requires
        accepted.finite(),
        names_fit(accepted),
        wave_fits(accepted, tasks),
    ensures
        without_circles(tasks, accepted),
        forall|i: int| 0 <= i < tasks.len() ==> !accepted.contains((#[trigger] tasks[i]).name),
        task_names(tasks).no_duplicates(),
{
    let names = lemma_listed(accepted);
    lemma_wave_fits(names, accepted, tasks);
    let whole = with_placeholders(names, tasks);
    let n = names.len() as int;
    let level = |name: Seq<char>| wave_of(whole, name);
    waves_exist_without_circles(whole);
    let waves = choose|waves: Seq<Seq<TaskView>>| waves_of(whole, waves);
    assert forall|i: int, d: int|
        0 <= i < tasks.len() && 0 <= d < tasks[i].depends_on.len() implies accepted.contains(
        #[trigger] tasks[i].depends_on[d],
    ) || (task_names(tasks).contains(tasks[i].depends_on[d]) && level(tasks[i].depends_on[d])
        < level(tasks[i].name)) by {
        let name = tasks[i].depends_on[d];
        assert(whole[n + i] == tasks[i]);
        if !accepted.contains(name) {
            let t = choose|t: int| 0 <= t < tasks.len() && #[trigger] tasks[t].name == name;
            assert(task_names(tasks)[t] == name);
            one_wave_each(whole, waves, n + i);
            let k = choose|k: nat| k < waves.len() && #[trigger] in_wave(whole, k, n + i);
            lemma_wave_of(whole, k, n + i);
            dependency_before(whole, k, n + i, d);
            let (m, j) = choose|m: nat, j: int|
                m < k && 0 <= j < whole.len() && #[trigger] in_wave(whole, m, j) && whole[j].name
                    == whole[n + i].depends_on[d];
            lemma_wave_of(whole, m, j);
        }
    }
    assert(leveled(tasks, accepted, level));
    let all = task_names(tasks);
    assert forall|i: int, j: int| 0 <= i < all.len() && 0 <= j < all.len() && i != j implies all[i]
        != all[j] by {
        if all[i] == all[j] {
            assert(tasks[i].name == tasks[j].name);
        }
    }
}

/// What is admitted to a run cannot get it stuck: it depends on tasks that the run has accepted,
/// and, within a wave, on each other without a circle.
pub proof fn admitted_requests_keep_runs_going(s: RunView, task: TaskView, tasks: Seq<TaskView>)
    requires
        s.accepted.finite(),
        names_fit(s.accepted),
    ensures
        task_fits(s.accepted, task) ==> brings_known_dependencies(s, Happening::Task(task)),
        wave_fits(s.accepted, tasks) ==> brings_known_dependencies(s, Happening::Wave(tasks)),
{
    if wave_fits(s.accepted, tasks) {
        dispatched_waves_have_no_circles(s.accepted, tasks);
    }
}

proof fn lemma_listed(set: Set<Seq<char>>) -> (names: Seq<Seq<char>>)
    requires
        set.finite(),
    ensures
        lists(names, set),
    decreases set.len(),
{
    if set.len() == 0 {
        let names = Seq::<Seq<char>>::empty();
        assert(names.to_set() =~= set);
        names
    } else {
        let x = set.choose();
        let rest = lemma_listed(set.remove(x));
        let names = rest.push(x);
        assert(!rest.contains(x)) by {
            if rest.contains(x) {
                assert(rest.to_set().contains(x));
            }
        }
        assert forall|y: Seq<char>| names.to_set().contains(y) == set.contains(y) by {
            assert(rest.to_set().contains(y) == set.remove(x).contains(y));
            if rest.contains(y) {
                let i = choose|i: int| 0 <= i < rest.len() && rest[i] == y;
                assert(names[i] == y);
            }
            assert(names[rest.len() as int] == x);
        }
        assert(names.to_set() =~= set);
        names
    }
}

/// A sandbox is asked for by its name; who does not ask for one gets the one that reads only, and
/// another name gets none.
pub proof fn sandboxes_are_asked_for_by_name(name: Seq<char>)
    ensures
        sandbox_named(None) == Some(Sandbox::ReadOnly),
        sandbox_named(Some("read-only"@)) == Some(Sandbox::ReadOnly),
        sandbox_named(Some("read-write"@)) == Some(Sandbox::ReadWrite),
        sandbox_named(Some("network-read-only"@)) == Some(Sandbox::NetworkReadOnly),
        sandbox_named(Some(name)) is None <==> name != "read-only"@ && name != "read-write"@ && name
            != "network-read-only"@,
{
    sandbox_labels_differ(Sandbox::ReadOnly, Sandbox::ReadWrite);
    sandbox_labels_differ(Sandbox::ReadOnly, Sandbox::NetworkReadOnly);
    sandbox_labels_differ(Sandbox::ReadWrite, Sandbox::NetworkReadOnly);
}

/// The task that a request asks for has every field as the request gives it; what a request cannot
/// give is left out, and approval is never asked for unless the request says otherwise.
pub proof fn requested_tasks_are_as_asked_for(p: DispatchTaskParams, sandbox: Sandbox)
    ensures
        requested_task(p, sandbox).name == p.name@,
        requested_task(p, sandbox).cwd == p.cwd@,
        requested_task(p, sandbox).prompt == p.prompt@,
        requested_task(p, sandbox).sandbox == sandbox,
        requested_task(p, sandbox).agent_id == opt_text(p.agent_id),
        requested_task(p, sandbox).thread_id == opt_text(p.thread_id),
        requested_task(p, sandbox).profile == opt_text(p.profile),
        requested_task(p, sandbox).model == opt_text(p.model),
        requested_task(p, sandbox).depends_on == texts(p.depends_on@),
        requested_task(p, sandbox).config_overrides == texts(p.config_overrides@),
        p.ask_for_approval matches Some(s) ==> requested_task(p, sandbox).ask_for_approval == s@,
        p.ask_for_approval is None ==> requested_task(p, sandbox).ask_for_approval == "never"@,
        requested_task(p, sandbox).output_schema is None,
        !requested_task(p, sandbox).ephemeral,
        requested_task(p, sandbox).add_dirs.len() == 0,
{
}

/// A request is refused just where its directory is blank or its sandbox is not known, and told
/// which.
pub proof fn requests_are_refused_for_directory_or_sandbox(p: DispatchTaskParams, e: Error)
    ensures
        request_fits(p) <==> (exists|i: int|
            0 <= i < p.cwd@.len() && !white_space(#[trigger] p.cwd@[i])) && (p.sandbox is None
            || p.sandbox->0@ == "read-only"@ || p.sandbox->0@ == "read-write"@ || p.sandbox->0@
            == "network-read-only"@),
        !request_fits(p) && request_refusal(p, e) ==> match e {
            Error::EmptyCwd => forall|i: int|
                0 <= i < p.cwd@.len() ==> white_space(#[trigger] p.cwd@[i]),
            Error::UnknownSandbox { name } => p.sandbox matches Some(s) && s@ == name@,
            _ => false,
        },
{
    if let Some(s) = p.sandbox {
        sandboxes_are_asked_for_by_name(s@);
    } else {
        sandboxes_are_asked_for_by_name(seq![]);
    }
}

/// What stands for an accepted task has its name and depends on nothing, so that it is fit as far
/// as its name is.
pub proof fn placeholders_stand_for_names_alone(name: Seq<char>)
    ensures
        placeholder(name).name == name,
        placeholder(name).depends_on.len() == 0,
        fit_task(placeholder(name)) <==> valid_task_name(name),
{
    reveal_strlit(".");
}

/// A wave can be dispatched just where each task is fit and has a directory, each name is new and
/// there once, each dependency is accepted or in the wave, and the wave has no circle.
pub proof fn dispatched_waves_meet_every_rule(
    accepted: Set<Seq<char>>,
    tasks: Seq<TaskView>,
    i: int,
    j: int,
    d: int,
)
    requires
        wave_fits(accepted, tasks),
        0 <= i < tasks.len(),
        0 <= j < tasks.len(),
    ensures
        valid_task_name(tasks[i].name),
        tasks[i].cwd.len() > 0,
        !accepted.contains(tasks[i].name),
        i != j ==> tasks[i].name != tasks[j].name,
        !tasks[i].depends_on.contains(tasks[i].name),
        0 <= d < tasks[i].depends_on.len() ==> accepted.contains(tasks[i].depends_on[d]) || exists|
            k: int,
        |
            0 <= k < tasks.len() && #[trigger] tasks[k].name == tasks[i].depends_on[d],
{
    assert(fit_task(tasks[i]));
    if waits_for(tasks, i, i) {
        assert(circle(tasks, seq![i, i]));
    }
    if 0 <= d < tasks[i].depends_on.len() {
        assert(accepted.contains(tasks[i].depends_on[d]) || has_task(
            tasks,
            tasks[i].depends_on[d],
        ));
    }
}

/// A task can be dispatched just where its name is fit and new and each of its dependencies is
/// accepted.
pub proof fn dispatched_tasks_meet_every_rule(accepted: Set<Seq<char>>, task: TaskView)
    ensures
        task_fits(accepted, task) <==> {
            &&& valid_task_name(task.name)
            &&& !accepted.contains(task.name)
            &&& forall|d: int|
                0 <= d < task.depends_on.len() ==> accepted.contains(#[trigger] task.depends_on[d])
        },
{
}

/// A run that takes no request says whether it is not there or has ended, and for which directory;
/// a run under way takes it.
pub proof fn inactive_runs_say_why(shown: Seq<char>)
    ensures
        inactive_text(RunLookup::Active, shown) is None,
        inactive_text(RunLookup::Missing, shown) == Some("run_dir "@ + shown + " has no active run"@),
        inactive_text(RunLookup::Finished, shown) == Some(
            "run_dir "@ + shown + " is already terminal"@,
        ),
{
}

/// A request that a run did not get is the caller's fault where the run takes no more, and the
/// server's where too many wait; the words name the request.
pub proof fn unsent_requests_say_why(label: Seq<char>)
    ensures
        send_refusal(SendOutcome::Sent, label) is None,
        send_refusal(SendOutcome::Closed, label) == Some(
            Refusal::InvalidParams(
                label + " cannot be accepted because the run is no longer dispatchable"@,
            ),
        ),
        send_refusal(SendOutcome::Full, label) == Some(
            Refusal::Internal("dispatch queue is full while enqueuing "@ + label),
        ),
{
}

} // verus!
