//! The coordinator of one run: which tasks it has accepted, which of them wait, run or have
//! ended, and what it does about each thing that happens.
use vstd::prelude::*;
use vstd::string::*;

use crate::commands::names::{name_refusal, valid_task_name, validate_task_name};
use crate::config::{task_views, TaskDef, TaskView};
use crate::error::Error;
use crate::meta::{
    agent_for, agent_of, fresh_meta, thread_for, thread_of, MetaView, TaskMeta, TaskStatus,
};
use crate::names::{lemma_push_to_set, NameSet};
use crate::runner::{opt_meta, ReportView, TaskRunReport};
use crate::text::{opt_text, texts};
use crate::time::Timestamp;

verus! {

/// What a run is asked for while it goes on.
#[derive(Debug)]
pub enum DispatchRequest {
    /// One more task.
    Task(TaskDef),
    /// More tasks, all of which wait for everything that is under way.
    Wave(Vec<TaskDef>),
    /// No more tasks.
    Seal,
}

/// A task that waits for others.
#[derive(Debug)]
pub struct PendingTask {
    pub def: TaskDef,
    pub barrier: NameSet,
}

/// The contents of a task that waits.
#[verifier::ext_equal]
pub struct PendingView {
    pub def: TaskView,
    pub barrier: Set<Seq<char>>,
}

impl View for PendingTask {
    type V = PendingView;

    open spec fn view(&self) -> PendingView {
        PendingView { def: self.def@, barrier: self.barrier@ }
    }
}

/// The contents of a list of tasks that wait.
pub open spec fn pending_views(pending: Seq<PendingTask>) -> Seq<PendingView> {
    pending.map_values(|p: PendingTask| p@)
}

/// The names that a task waits for: its barrier and its dependencies.
pub open spec fn waits_on(p: PendingView, name: Seq<char>) -> bool {
    p.barrier.contains(name) || p.def.depends_on.contains(name)
}

/// Whether everything that a task waits for has ended.
pub open spec fn unblocked(p: PendingView, completed: Set<Seq<char>>) -> bool {
    forall|name: Seq<char>| #[trigger] waits_on(p, name) ==> completed.contains(name)
}

impl PendingTask {
    /// Whether everything that the task waits for has ended.
    pub fn is_unblocked(&self, completed: &NameSet) -> (r: bool)
        ensures
            r == unblocked(self@, completed@),
    {
        if !self.barrier.is_subset(completed) {
            proof {
                let name = choose|name: Seq<char>|
                    self.barrier@.contains(name) && !completed@.contains(name);
                assert(waits_on(self@, name));
            }
            return false;
        }
        let ghost deps = texts(self.def.depends_on@);
        let mut i: usize = 0;
        while i < self.def.depends_on.len()
            invariant
                i <= self.def.depends_on@.len(),
                deps == texts(self.def.depends_on@),
                forall|j: int| 0 <= j < i ==> completed@.contains(#[trigger] deps[j]),
            decreases self.def.depends_on@.len() - i,
        {
            if !completed.contains(self.def.depends_on[i].as_str()) {
                assert(deps[i as int] == self.def.depends_on@[i as int]@);
                assert(deps.contains(deps[i as int]));
                assert(waits_on(self@, deps[i as int]));
                return false;
            }
            i = i + 1;
        }
        true
    }
}

/// Whether the error is the one that a dispatched name is refused with.
pub open spec fn dispatch_name_refusal(name: Seq<char>, accepted: Set<Seq<char>>, e: Error) -> bool {
    if !valid_task_name(name) {
        name_refusal(name, e)
    } else {
        accepted.contains(name) && (e matches Error::AlreadyInRun { name: n } && n@ == name)
    }
}

/// Checks that a task can be dispatched under this name into a run.
pub fn validate_dispatch_name(name: &str, accepted: &NameSet) -> (r: Result<(), Error>)
    ensures
        match r {
            Ok(()) => valid_task_name(name@) && !accepted@.contains(name@),
            Err(e) => dispatch_name_refusal(name@, accepted@, e),
        },
{
    match validate_task_name(name) {
        Ok(()) => {},
        Err(e) => {
            return Err(e);
        },
    }
    if accepted.contains(name) {
        return Err(Error::AlreadyInRun { name: name.to_owned() });
    }
    Ok(())
}

/// Whether every name on a list is in a set.
pub open spec fn all_in(names: Seq<Seq<char>>, set: Set<Seq<char>>) -> bool {
    forall|i: int| 0 <= i < names.len() ==> set.contains(#[trigger] names[i])
}

/// Whether the error names the first of the names that is not in the set.
pub open spec fn dependency_refusal(names: Seq<Seq<char>>, set: Set<Seq<char>>, e: Error) -> bool {
    exists|i: int|
        {
            &&& 0 <= i < names.len()
            &&& !set.contains(#[trigger] names[i])
            &&& all_in(names.take(i), set)
            &&& e matches Error::UnacceptedDependency { dependency } && dependency@ == names[i]
        }
}

/// Checks that a task to be dispatched depends only on tasks that the run has accepted.
pub fn validate_dispatch_deps(depends_on: &Vec<String>, accepted: &NameSet) -> (r: Result<
    (),
    Error,
>)
    ensures
        match r {
            Ok(()) => all_in(texts(depends_on@), accepted@),
            Err(e) => dependency_refusal(texts(depends_on@), accepted@, e),
        },
{
    let ghost names = texts(depends_on@);
    let mut i: usize = 0;
    while i < depends_on.len()
        invariant
            i <= depends_on@.len(),
            names == texts(depends_on@),
            forall|j: int| 0 <= j < i ==> accepted@.contains(#[trigger] names[j]),
        decreases depends_on@.len() - i,
    {
        if !accepted.contains(depends_on[i].as_str()) {
            assert(names[i as int] == depends_on@[i as int]@);
            assert(all_in(names.take(i as int), accepted@));
            return Err(Error::UnacceptedDependency { dependency: depends_on[i].clone() });
        }
        i = i + 1;
    }
    Ok(())
}

/// What a task waits for that is put behind everything under way: the tasks that run, and those
/// that wait.
pub fn build_barrier(running: &NameSet, pending_names: &Vec<String>) -> (r: NameSet)
    ensures
        r@ == running@.union(texts(pending_names@).to_set()),
{
    let mut barrier = running.duplicate();
    barrier.extend(&NameSet::from_list(pending_names));
    barrier
}

/// The names of tasks that wait.
pub open spec fn names_of(pending: Seq<PendingView>) -> Seq<Seq<char>> {
    pending.map_values(|p: PendingView| p.def.name)
}

/// The names of tasks that wait, in their order.
pub fn pending_names(pending: &Vec<PendingTask>) -> (r: Vec<String>)
    ensures
        texts(r@) == names_of(pending_views(pending@)),
{
    let mut names: Vec<String> = Vec::new();
    let mut i: usize = 0;
    while i < pending.len()
        invariant
            i <= pending@.len(),
            names@.len() == i,
            forall|j: int| 0 <= j < i ==> (#[trigger] names@[j])@ == pending@[j].def.name@,
        decreases pending@.len() - i,
    {
        names.push(pending[i].def.name.clone());
        i = i + 1;
    }
    assert(texts(names@) =~= names_of(pending_views(pending@)));
    names
}

/// The status of a task that a run has accepted.
pub open spec fn pending_meta(task: TaskView, created: Timestamp, dispatched: Timestamp) -> MetaView {
    MetaView {
        agent_id: agent_of(task),
        thread_id: thread_of(task),
        dispatched_at: Some(dispatched),
        ..fresh_meta(task.name, task.cwd, task.prompt, created)
    }
}

/// Whether this is the status of a task that a run has accepted, at whatever time.
pub open spec fn is_pending_meta(task: TaskView, meta: MetaView) -> bool {
    exists|created: Timestamp, dispatched: Timestamp|
        meta == #[trigger] pending_meta(task, created, dispatched)
}

/// The status of a task that a run accepts now.
pub fn build_pending_meta(task: &TaskDef) -> (r: TaskMeta)
    ensures
        is_pending_meta(task@, r@),
{
    build_pending_meta_at(task, Timestamp::now(), Timestamp::now())
}

/// The status of a task that a run accepted at the given time.
pub fn build_pending_meta_at(task: &TaskDef, created: Timestamp, dispatched: Timestamp) -> (r:
    TaskMeta)
    ensures
        r@ == pending_meta(task@, created, dispatched),
{
    let mut meta = TaskMeta::new_at(
        task.name.as_str(),
        task.cwd.as_str(),
        task.prompt.as_str(),
        created,
    );
    meta.status = TaskStatus::Pending;
    meta.agent_id = agent_for(task);
    meta.thread_id = thread_for(task);
    meta.dispatched_at = Some(dispatched);
    meta
}

/// Accepts a task, unless the run has accepted one of its name before; gives the status to write
/// for it.
pub fn accept_pending_task(
    accepted: &mut NameSet,
    pending: &mut Vec<PendingTask>,
    task: TaskDef,
    barrier: NameSet,
) -> (r: Option<TaskMeta>)
    ensures
        final(accepted)@ == old(accepted)@.insert(task.name@),
        match r {
            Some(meta) => {
                &&& !old(accepted)@.contains(task.name@)
                &&& pending_views(final(pending)@) == pending_views(old(pending)@).push(
                    PendingView { def: task@, barrier: barrier@ },
                )
                &&& is_pending_meta(task@, meta@)
            },
            None => {
                &&& old(accepted)@.contains(task.name@)
                &&& final(pending)@ == old(pending)@
            },
        },
{
    if !accepted.insert(task.name.as_str()) {
        return None;
    }
    let meta = build_pending_meta(&task);
    let entry = PendingTask { def: task, barrier };
    let ghost added = entry@;
    pending.push(entry);
    assert(pending_views(pending@) =~= pending_views(old(pending)@).push(added));
    Some(meta)
}

/// The status of a task that is cancelled before it starts: who it is recorded under is filled in
/// where that is missing.
pub open spec fn cancelled_meta(
    existing: Option<MetaView>,
    task: TaskView,
    reason: Seq<char>,
    created: Timestamp,
    at: Timestamp,
) -> MetaView {
    let base = match existing {
        Some(m) => m,
        None => fresh_meta(task.name, task.cwd, task.prompt, created),
    };
    MetaView {
        agent_id: if base.agent_id.len() == 0 {
            agent_of(task)
        } else {
            base.agent_id
        },
        thread_id: if base.thread_id.len() == 0 {
            thread_of(task)
        } else {
            base.thread_id
        },
        status: TaskStatus::Cancelled,
        error: Some(reason),
        end_time: Some(at),
        ..base
    }
}

/// The status to write for a task that is cancelled before it starts; `existing` is the status
/// that it has so far.
pub fn cancel_before_start(
    existing: Option<TaskMeta>,
    task: &TaskDef,
    reason: &str,
    created: Timestamp,
    at: Timestamp,
) -> (r: TaskMeta)
    ensures
        r@ == cancelled_meta(opt_meta(existing), task@, reason@, created, at),
{
    let mut meta = match existing {
        Some(m) => m,
        None => TaskMeta::new_at(
            task.name.as_str(),
            task.cwd.as_str(),
            task.prompt.as_str(),
            created,
        ),
    };
    if meta.agent_id.as_str().is_empty() {
        meta.agent_id = agent_for(task);
    }
    if meta.thread_id.as_str().is_empty() {
        meta.thread_id = thread_for(task);
    }
    meta.finish(TaskStatus::Cancelled, Some(reason.to_owned()), at);
    meta
}

/// A task with what is known of the run put before its prompt, where anything is.
pub open spec fn with_preamble(task: TaskView, preamble: Option<Seq<char>>) -> TaskView {
    match preamble {
        Some(text) => TaskView { prompt: text + "\n\n"@ + task.prompt, ..task },
        None => task,
    }
}

/// Puts what is known of the run before the prompt of a task, where anything is.
pub fn add_preamble(task: TaskDef, preamble: Option<String>) -> (r: TaskDef)
    ensures
        r@ == with_preamble(task@, opt_text(preamble)),
{
    let mut task = task;
    if let Some(text) = preamble {
        let mut prompt = text;
        prompt.append("\n\n");
        prompt.append(task.prompt.as_str());
        task.prompt = prompt;
    }
    task
}

/// Where a run stands.
#[verifier::ext_equal]
pub struct RunView {
    /// The tasks that wait, first come first.
    pub pending: Seq<PendingView>,
    /// The names of all tasks that the run has ever taken on.
    pub accepted: Set<Seq<char>>,
    /// The names of the tasks that were started and have not reported.
    pub running: Set<Seq<char>>,
    /// The names of the tasks that have reported.
    pub completed: Set<Seq<char>>,
    /// How many started tasks have neither reported nor crashed.
    pub live: nat,
    /// Whether everything went well so far.
    pub all_ok: bool,
    /// Whether no more requests are taken.
    pub sealed: bool,
}

/// A run that starts with the given tasks.
pub open spec fn started(tasks: Seq<TaskView>) -> RunView {
    RunView {
        pending: tasks.map_values(|t: TaskView| PendingView { def: t, barrier: Set::empty() }),
        accepted: tasks.map_values(|t: TaskView| t.name).to_set(),
        running: Set::empty(),
        completed: Set::empty(),
        live: 0,
        all_ok: true,
        sealed: false,
    }
}

/// Everything that is under way in a run.
pub open spec fn barrier_in(s: RunView) -> Set<Seq<char>> {
    s.running.union(names_of(s.pending).to_set())
}

/// A run after a request for a task: nothing changes where it has taken on one of that name.
pub open spec fn accepting(s: RunView, task: TaskView, barrier: Set<Seq<char>>) -> RunView {
    if s.accepted.contains(task.name) {
        s
    } else {
        RunView {
            pending: s.pending.push(PendingView { def: task, barrier }),
            accepted: s.accepted.insert(task.name),
            ..s
        }
    }
}

/// A run after requests for tasks, one by one.
pub open spec fn accepting_all(s: RunView, tasks: Seq<TaskView>, barrier: Set<Seq<char>>) -> RunView
    decreases tasks.len(),
{
    if tasks.len() == 0 {
        s
    } else {
        accepting(accepting_all(s, tasks.drop_last(), barrier), tasks.last(), barrier)
    }
}

/// The tasks that a run newly takes on out of those that it is asked for.
pub open spec fn newly_accepted(accepted: Set<Seq<char>>, tasks: Seq<TaskView>) -> Seq<TaskView>
    decreases tasks.len(),
{
    if tasks.len() == 0 {
        seq![]
    } else {
        let before = tasks.drop_last();
        let known = accepted.union(before.map_values(|t: TaskView| t.name).to_set());
        if known.contains(tasks.last().name) {
            newly_accepted(accepted, before)
        } else {
            newly_accepted(accepted, before).push(tasks.last())
        }
    }
}

/// What can happen in a run.
pub enum Happening {
    /// A task has ended.
    Reported(ReportView),
    /// A task broke down without a report.
    Crashed,
    /// The run is asked for a task.
    Task(TaskView),
    /// The run is asked for a wave of tasks.
    Wave(Seq<TaskView>),
    /// No more requests come.
    Closed,
    /// The run is cancelled.
    Cancelled,
}

/// A run after something has happened in it.
pub open spec fn after(s: RunView, h: Happening) -> RunView {
    match h {
        Happening::Reported(report) => RunView {
            running: s.running.remove(report.name),
            completed: s.completed.insert(report.name),
            live: (s.live - 1) as nat,
            all_ok: s.all_ok && report.status != TaskStatus::Failed && report.status
                != TaskStatus::Cancelled,
            ..s
        },
        Happening::Crashed => RunView { live: (s.live - 1) as nat, all_ok: false, ..s },
        Happening::Task(task) => accepting(s, task, task_barrier(s, task)),
        Happening::Wave(tasks) => accepting_all(s, tasks, barrier_in(s)),
        Happening::Closed => RunView { sealed: true, ..s },
        Happening::Cancelled => RunView { pending: seq![], all_ok: false, sealed: true, ..s },
    }
}

/// What a single task waits for besides its dependencies: nothing where it has any, else
/// everything under way.
pub open spec fn task_barrier(s: RunView, task: TaskView) -> Set<Seq<char>> {
    if task.depends_on.len() == 0 {
        barrier_in(s)
    } else {
        Set::empty()
    }
}

/// The tasks that something brings to a run.
pub open spec fn brought(h: Happening) -> Seq<TaskView> {
    match h {
        Happening::Task(task) => seq![task],
        Happening::Wave(tasks) => tasks,
        _ => seq![],
    }
}

/// Whether something makes the run cancel everything that is under way.
pub open spec fn cancels(h: Happening) -> bool {
    match h {
        Happening::Reported(report) => report.status == TaskStatus::Failed,
        Happening::Crashed => true,
        _ => false,
    }
}

/// Whether the channel of requests is closed when something happens.
pub open spec fn closes(h: Happening) -> bool {
    h is Closed || h is Cancelled
}

/// The tasks that are given up when something happens.
pub open spec fn dropped(s: RunView, h: Happening) -> Seq<TaskView> {
    if h is Cancelled {
        s.pending.map_values(|p: PendingView| p.def)
    } else {
        seq![]
    }
}

/// The tasks that still wait, out of those that waited.
pub open spec fn still_waiting(pending: Seq<PendingView>, completed: Set<Seq<char>>) -> Seq<
    PendingView,
>
    decreases pending.len(),
{
    if pending.len() == 0 {
        seq![]
    } else {
        let before = still_waiting(pending.drop_last(), completed);
        if unblocked(pending.last(), completed) {
            before
        } else {
            before.push(pending.last())
        }
    }
}

/// The tasks that can start now, out of those that waited.
pub open spec fn ready_now(pending: Seq<PendingView>, completed: Set<Seq<char>>) -> Seq<TaskView>
    decreases pending.len(),
{
    if pending.len() == 0 {
        seq![]
    } else {
        let before = ready_now(pending.drop_last(), completed);
        if unblocked(pending.last(), completed) {
            before.push(pending.last().def)
        } else {
            before
        }
    }
}

/// The names of tasks.
pub open spec fn task_names(tasks: Seq<TaskView>) -> Seq<Seq<char>> {
    tasks.map_values(|t: TaskView| t.name)
}

/// A run after every task that can start has started.
pub open spec fn spawned(s: RunView) -> RunView {
    let ready = ready_now(s.pending, s.completed);
    RunView {
        pending: still_waiting(s.pending, s.completed),
        running: s.running.union(task_names(ready).to_set()),
        live: s.live + ready.len(),
        ..s
    }
}

/// Whether a run has nothing left to do.
pub open spec fn finished(s: RunView, closed: bool) -> bool {
    s.live == 0 && s.pending.len() == 0 && (s.sealed || closed)
}

/// Something that happens in a run.
#[derive(Debug)]
pub enum RunEvent {
    /// A task has ended.
    Reported(TaskRunReport),
    /// A task broke down without a report.
    Crashed,
    /// The run is asked for something.
    Received(DispatchRequest),
    /// Nobody is left who could ask for anything.
    Disconnected,
    /// The run is cancelled.
    Cancelled,
}

impl View for RunEvent {
    type V = Happening;

    open spec fn view(&self) -> Happening {
        match self {
            RunEvent::Reported(report) => Happening::Reported(report@),
            RunEvent::Crashed => Happening::Crashed,
            RunEvent::Received(DispatchRequest::Task(task)) => Happening::Task(task@),
            RunEvent::Received(DispatchRequest::Wave(tasks)) => Happening::Wave(task_views(tasks@)),
            RunEvent::Received(DispatchRequest::Seal) => Happening::Closed,
            RunEvent::Disconnected => Happening::Closed,
            RunEvent::Cancelled => Happening::Cancelled,
        }
    }
}

/// What is to be done about something that has happened.
#[derive(Debug)]
pub struct RunEffects {
    /// Cancel everything that is under way.
    pub cancel: bool,
    /// Close the channel of requests.
    pub close: bool,
    /// Write these statuses, and add as many to the run's count of tasks.
    pub accepted: Vec<TaskMeta>,
    /// Note that these tasks were cancelled before they started.
    pub dropped: Vec<TaskDef>,
}

/// Whether the statuses are those of the newly accepted tasks, one for each.
pub open spec fn statuses_for(metas: Seq<TaskMeta>, tasks: Seq<TaskView>) -> bool {
    &&& metas.len() == tasks.len()
    &&& forall|i: int| 0 <= i < metas.len() ==> is_pending_meta(tasks[i], (#[trigger] metas[i])@)
}

/// The coordinator of a run.
#[derive(Debug)]
pub struct RunCoordinator {
    pending: Vec<PendingTask>,
    accepted: NameSet,
    running: NameSet,
    completed: NameSet,
    live: usize,
    all_ok: bool,
    sealed: bool,
}

impl View for RunCoordinator {
    type V = RunView;

    closed spec fn view(&self) -> RunView {
        RunView {
            pending: pending_views(self.pending@),
            accepted: self.accepted@,
            running: self.running@,
            completed: self.completed@,
            live: self.live as nat,
            all_ok: self.all_ok,
            sealed: self.sealed,
        }
    }
}

/// What a task says when its run is cancelled before it starts.
pub fn cancelled_early() -> (r: &'static str)
    ensures
        r@ == "run cancelled before task started"@,
{
    "run cancelled before task started"
}

impl RunCoordinator {
    /// The coordinator of a run that starts with the given tasks.
    pub fn start(initial_tasks: Vec<TaskDef>) -> (r: RunCoordinator)
        ensures
            r@ == started(task_views(initial_tasks@)),
    {
        let ghost tasks = task_views(initial_tasks@);
        let ghost names = task_names(tasks);
        let mut pending: Vec<PendingTask> = Vec::new();
        let mut accepted = NameSet::new();
        assert(names.take(0).to_set() =~= Set::<Seq<char>>::empty());
        for task in it: initial_tasks
            invariant
                it.seq() == initial_tasks@,
                tasks == task_views(initial_tasks@),
                names == task_names(tasks),
                pending@.len() == it.index(),
                forall|j: int| 0 <= j < pending@.len() ==> (#[trigger] pending@[j])@ == (
                PendingView { def: tasks[j], barrier: Set::empty() }),
                accepted@ == names.take(it.index() as int).to_set(),
        {
            let ghost k = it.index() as int;
            assert(names[k] == task.name@);
            let _ = accepted.insert(task.name.as_str());
            pending.push(PendingTask { def: task, barrier: NameSet::new() });
            proof {
                assert(names.take(k + 1) =~= names.take(k).push(names[k]));
                lemma_push_to_set(names.take(k), names[k]);
            }
        }
        assert(names.take(names.len() as int) =~= names);
        let r = RunCoordinator {
            pending,
            accepted,
            running: NameSet::new(),
            completed: NameSet::new(),
            live: 0,
            all_ok: true,
            sealed: false,
        };
        assert(r@.pending =~= started(tasks).pending);
        assert(names =~= tasks.map_values(|t: TaskView| t.name));
        r
    }

    /// Whether everything went well so far.
    pub fn all_ok(&self) -> (r: bool)
        ensures
            r == self@.all_ok,
    {
        self.all_ok
    }

    /// Whether there is a task to wait for.
    pub fn awaits_tasks(&self) -> (r: bool)
        ensures
            r == (self@.live > 0),
    {
        self.live > 0
    }

    /// Whether requests are still taken.
    pub fn takes_requests(&self) -> (r: bool)
        ensures
            r == !self@.sealed,
    {
        !self.sealed
    }

    /// Whether the run has nothing left to do; `closed` tells whether the channel of requests is
    /// closed.
    pub fn is_finished(&self, closed: bool) -> (r: bool)
        ensures
            r == finished(self@, closed),
    {
        self.live == 0 && self.pending.len() == 0 && (self.sealed || closed)
    }

    /// Whether the tasks that wait could all be counted if they started.
    pub fn has_room(&self) -> (r: bool)
        ensures
            r == (self@.live + self@.pending.len() <= usize::MAX),
    {
        self.pending.len() <= usize::MAX - self.live
    }

    /// Takes out the tasks that can start now. None starts once the run is cancelled.
    pub fn spawn_ready_tasks(&mut self, cancelled: bool) -> (r: Vec<TaskDef>)
        requires
            old(self)@.live + old(self)@.pending.len() <= usize::MAX,
        ensures
            cancelled ==> final(self)@ == old(self)@ && r@.len() == 0,
            !cancelled ==> final(self)@ == spawned(old(self)@) && task_views(r@) == ready_now(
                old(self)@.pending,
                old(self)@.completed,
            ),
    {
        let mut ready: Vec<TaskDef> = Vec::new();
        if cancelled {
            return ready;
        }
        let mut waiting: Vec<PendingTask> = Vec::new();
        std::mem::swap(&mut waiting, &mut self.pending);
        let ghost start = old(self)@;
        let ghost all = pending_views(waiting@);
        let ghost defs = waiting@;
        let ghost completed = self.completed@;
        let mut kept: Vec<PendingTask> = Vec::new();
        assert(pending_views(kept@) =~= still_waiting(all.take(0), completed));
        assert(task_views(ready@) =~= ready_now(all.take(0), completed));
        assert(task_names(task_views(ready@)).to_set() =~= Set::<Seq<char>>::empty());
        assert(self.running@ =~= start.running.union(task_names(task_views(ready@)).to_set()));
        for task in it: waiting
            invariant
                it.seq() == defs,
                all == pending_views(defs),
                all == start.pending,
                completed == start.completed,
                start.live + all.len() <= usize::MAX,
                pending_views(kept@) == still_waiting(all.take(it.index() as int), completed),
                task_views(ready@) == ready_now(all.take(it.index() as int), completed),
                self.running@ == start.running.union(task_names(task_views(ready@)).to_set()),
                self.live == start.live + ready@.len(),
                ready@.len() <= it.index(),
                self.completed@ == completed,
                self.accepted@ == start.accepted,
                self.all_ok == start.all_ok,
                self.sealed == start.sealed,
                self.pending@.len() == 0,
        {
            let ghost k = it.index() as int;
            let ghost shown = task@;
            let ghost kept_before = pending_views(kept@);
            let ghost ready_before = task_views(ready@);
            proof {
                assert(all[k] == shown);
                assert(all.take(k + 1).drop_last() =~= all.take(k));
                assert(all.take(k + 1).last() == shown);
            }
            if task.is_unblocked(&self.completed) {
                let _ = self.running.insert(task.def.name.as_str());
                ready.push(task.def);
                self.live = self.live + 1;
                proof {
                    assert(task_views(ready@) =~= ready_before.push(shown.def));
                    assert(task_names(task_views(ready@)) =~= task_names(ready_before).push(
                        shown.def.name,
                    ));
                    lemma_push_to_set(task_names(ready_before), shown.def.name);
                    assert(self.running@ =~= start.running.union(
                        task_names(task_views(ready@)).to_set(),
                    ));
                }
            } else {
                kept.push(task);
                assert(pending_views(kept@) =~= kept_before.push(shown));
            }
        }
        assert(all.take(all.len() as int) =~= all);
        self.pending = kept;
        ready
    }

    /// Takes in something that has happened, and says what is to be done about it.
    pub fn handle(&mut self, event: RunEvent) -> (r: RunEffects)
        requires
            event is Reported || event is Crashed ==> old(self)@.live > 0,
        ensures
            final(self)@ == after(old(self)@, event@),
            r.cancel == cancels(event@),
            r.close == closes(event@),
            statuses_for(r.accepted@, newly_accepted(old(self)@.accepted, brought(event@))),
            task_views(r.dropped@) == dropped(old(self)@, event@),
    {
        let mut effects = RunEffects {
            cancel: false,
            close: false,
            accepted: Vec::new(),
            dropped: Vec::new(),
        };
        assert(task_views(effects.dropped@) =~= Seq::empty());
        match event {
            RunEvent::Reported(report) => {
                self.running.remove(report.name.as_str());
                let _ = self.completed.insert(report.name.as_str());
                self.live = self.live - 1;
                match report.status {
                    TaskStatus::Failed => {
                        self.all_ok = false;
                        effects.cancel = true;
                    },
                    TaskStatus::Cancelled => {
                        self.all_ok = false;
                    },
                    _ => {},
                }
            },
            RunEvent::Crashed => {
                self.live = self.live - 1;
                self.all_ok = false;
                effects.cancel = true;
            },
            RunEvent::Received(DispatchRequest::Task(task)) => {
                let waiting = pending_names(&self.pending);
                let barrier = if task.depends_on.len() == 0 {
                    build_barrier(&self.running, &waiting)
                } else {
                    NameSet::new()
                };
                let ghost shown = task@;
                let accepted = accept_pending_task(
                    &mut self.accepted,
                    &mut self.pending,
                    task,
                    barrier,
                );
                proof {
                    lemma_newly_one(old(self)@.accepted, shown);
                    if accepted is None {
                        assert(self.accepted@ =~= old(self)@.accepted);
                    }
                }
                if let Some(meta) = accepted {
                    effects.accepted.push(meta);
                }
            },
            RunEvent::Received(DispatchRequest::Wave(tasks)) => {
                effects.accepted = self.accept_wave(tasks);
            },
            RunEvent::Received(DispatchRequest::Seal) | RunEvent::Disconnected => {
                self.sealed = true;
                effects.close = true;
            },
            RunEvent::Cancelled => {
                effects.close = true;
                effects.dropped = self.drop_pending();
                self.all_ok = false;
                self.sealed = true;
            },
        }
        effects
    }

    fn accept_wave(&mut self, tasks: Vec<TaskDef>) -> (r: Vec<TaskMeta>)
        ensures
            final(self)@ == accepting_all(old(self)@, task_views(tasks@), barrier_in(old(self)@)),
            statuses_for(r@, newly_accepted(old(self)@.accepted, task_views(tasks@))),
    {
        let ghost start = self@;
        let ghost all = task_views(tasks@);
        let waiting = pending_names(&self.pending);
        let barrier = build_barrier(&self.running, &waiting);
        let ghost wall = barrier@;
        let mut metas: Vec<TaskMeta> = Vec::new();
        assert(wall == barrier_in(start));
        for task in it: tasks
            invariant
                it.seq() == tasks@,
                all == task_views(tasks@),
                wall == barrier@,
                self@ == accepting_all(start, all.take(it.index() as int), wall),
                statuses_for(
                    metas@,
                    newly_accepted(start.accepted, all.take(it.index() as int)),
                ),
        {
            let ghost k = it.index() as int;
            let ghost before = self@;
            let ghost metas_before = metas@;
            proof {
                assert(all[k] == task@);
                assert(all.take(k + 1).drop_last() =~= all.take(k));
                assert(all.take(k + 1).last() == task@);
                lemma_accepting_all(start, all.take(k), wall);
            }
            let accepted = accept_pending_task(
                &mut self.accepted,
                &mut self.pending,
                task,
                barrier.duplicate(),
            );
            proof {
                if accepted is None {
                    assert(self.accepted@ =~= before.accepted);
                }
                assert(self@ =~= accepting(before, all[k], wall));
            }
            if let Some(meta) = accepted {
                metas.push(meta);
                assert(metas@ =~= metas_before.push(meta));
            }
        }
        assert(all.take(all.len() as int) =~= all);
        metas
    }

    fn drop_pending(&mut self) -> (r: Vec<TaskDef>)
        ensures
            final(self)@ == (RunView { pending: seq![], ..old(self)@ }),
            task_views(r@) == old(self)@.pending.map_values(|p: PendingView| p.def),
    {
        let mut waiting: Vec<PendingTask> = Vec::new();
        std::mem::swap(&mut waiting, &mut self.pending);
        let mut defs: Vec<TaskDef> = Vec::new();
        let ghost all = waiting@;
        for task in it: waiting
            invariant
                it.seq() == all,
                defs@.len() == it.index(),
                forall|j: int| 0 <= j < defs@.len() ==> (#[trigger] defs@[j])@ == all[j].def@,
        {
            defs.push(task.def);
        }
        assert(pending_views(self.pending@) =~= seq![]);
        assert(task_views(defs@) =~= old(self)@.pending.map_values(|p: PendingView| p.def));
        defs
    }
}

proof fn lemma_newly_one(accepted: Set<Seq<char>>, task: TaskView)
    ensures
        newly_accepted(accepted, seq![task]) == if accepted.contains(task.name) {
            Seq::<TaskView>::empty()
        } else {
            seq![task]
        },
{
    let before = seq![task].drop_last();
    assert(before =~= Seq::<TaskView>::empty());
    assert(before.map_values(|t: TaskView| t.name).to_set() =~= Set::<Seq<char>>::empty());
    assert(newly_accepted(accepted, before) =~= Seq::<TaskView>::empty());
    assert(Seq::<TaskView>::empty().push(task) =~= seq![task]);
    assert(accepted.union(Set::<Seq<char>>::empty()) =~= accepted);
}

proof fn lemma_accepting_all(s: RunView, tasks: Seq<TaskView>, barrier: Set<Seq<char>>)
    ensures
        accepting_all(s, tasks, barrier).accepted == s.accepted.union(
            tasks.map_values(|t: TaskView| t.name).to_set(),
        ),
    decreases tasks.len(),
{
    let names = tasks.map_values(|t: TaskView| t.name);
    if tasks.len() == 0 {
        assert(names.to_set() =~= Set::<Seq<char>>::empty());
        assert(s.accepted.union(names.to_set()) =~= s.accepted);
    } else {
        let before = tasks.drop_last();
        lemma_accepting_all(s, before, barrier);
        let names_before = before.map_values(|t: TaskView| t.name);
        assert(names =~= names_before.push(tasks.last().name));
        lemma_push_to_set(names_before, tasks.last().name);
        assert(s.accepted.union(names.to_set()) =~= s.accepted.union(names_before.to_set()).insert(
            tasks.last().name,
        ));
        assert(accepting_all(s, tasks, barrier).accepted =~= s.accepted.union(names.to_set()));
    }
}

/// What happens in a run is taken for what it is.
pub proof fn events_are_taken_for_what_they_are(
    report: TaskRunReport,
    task: TaskDef,
    tasks: Vec<TaskDef>,
)
    ensures
        RunEvent::Reported(report)@ == Happening::Reported(report@),
        report@.name == report.name@ && report@.status == report.status,
        RunEvent::Received(DispatchRequest::Task(task))@ == Happening::Task(task@),
        RunEvent::Received(DispatchRequest::Wave(tasks))@ == Happening::Wave(task_views(tasks@)),
        brought(Happening::Task(task@)) == seq![task@],
        brought(Happening::Wave(task_views(tasks@))) == task_views(tasks@),
        brought(Happening::Closed).len() == 0 && brought(Happening::Cancelled).len() == 0,
{
}

/// The status of a task that a run has accepted waits, holds the task's name, directory, agent and
/// thread and the time of its dispatch, and no run; else it is as blank as a new one.
pub proof fn accepted_tasks_are_recorded_as_dispatched(task: TaskView, meta: MetaView)
    requires
        is_pending_meta(task, meta),
    ensures
        meta.name == task.name,
        meta.cwd == task.cwd,
        meta.status == TaskStatus::Pending,
        meta.dispatched_at is Some,
        meta.run_id.len() == 0,
        meta.wave is None,
        task.agent_id matches Some(a) ==> meta.agent_id == a,
        task.agent_id is None ==> meta.agent_id == task.name,
        task.thread_id matches Some(t) ==> meta.thread_id == t,
        task.thread_id is None ==> meta.thread_id == task.name,
        meta == (MetaView {
            agent_id: meta.agent_id,
            thread_id: meta.thread_id,
            dispatched_at: meta.dispatched_at,
            ..fresh_meta(task.name, task.cwd, task.prompt, meta.start_time)
        }),
{
}

/// The times that a status of an accepted task is given are the ones that it holds.
pub proof fn dispatch_times_are_kept(task: TaskView, created: Timestamp, dispatched: Timestamp)
    ensures
        pending_meta(task, created, dispatched).start_time == created,
        pending_meta(task, created, dispatched).dispatched_at == Some(dispatched),
        is_pending_meta(task, pending_meta(task, created, dispatched)),
{
}

/// A task that is cancelled before it starts ends there, for the reason given. Its agent and thread
/// are filled in where they are missing, and all else that is known of it is kept.
pub proof fn tasks_cancelled_early_keep_what_is_known(
    existing: MetaView,
    task: TaskView,
    reason: Seq<char>,
    created: Timestamp,
    at: Timestamp,
)
    ensures
        cancelled_meta(Some(existing), task, reason, created, at).status == TaskStatus::Cancelled,
        cancelled_meta(Some(existing), task, reason, created, at).error == Some(reason),
        cancelled_meta(Some(existing), task, reason, created, at).end_time == Some(at),
        existing.agent_id.len() > 0 ==> cancelled_meta(
            Some(existing),
            task,
            reason,
            created,
            at,
        ).agent_id == existing.agent_id,
        existing.agent_id.len() == 0 ==> cancelled_meta(
            Some(existing),
            task,
            reason,
            created,
            at,
        ).agent_id == (if task.agent_id is Some {
            task.agent_id->0
        } else {
            task.name
        }),
        existing.thread_id.len() > 0 ==> cancelled_meta(
            Some(existing),
            task,
            reason,
            created,
            at,
        ).thread_id == existing.thread_id,
        existing.thread_id.len() == 0 ==> cancelled_meta(
            Some(existing),
            task,
            reason,
            created,
            at,
        ).thread_id == (if task.thread_id is Some {
            task.thread_id->0
        } else {
            task.name
        }),
        cancelled_meta(Some(existing), task, reason, created, at) == (MetaView {
            agent_id: cancelled_meta(Some(existing), task, reason, created, at).agent_id,
            thread_id: cancelled_meta(Some(existing), task, reason, created, at).thread_id,
            status: TaskStatus::Cancelled,
            error: Some(reason),
            end_time: Some(at),
            ..existing
        }),
        cancelled_meta(None, task, reason, created, at) == cancelled_meta(
            Some(fresh_meta(task.name, task.cwd, task.prompt, created)),
            task,
            reason,
            created,
            at,
        ),
{
}

/// What is known of a run goes before a task's prompt, with an empty line between, and changes
/// nothing else about the task.
pub proof fn preambles_go_before_the_prompt(task: TaskView, text: Seq<char>)
    ensures
        with_preamble(task, None) == task,
        with_preamble(task, Some(text)).prompt.len() == text.len() + 2 + task.prompt.len(),
        with_preamble(task, Some(text)).prompt.take(text.len() as int) == text,
        with_preamble(task, Some(text)).prompt[text.len() as int] == '\n',
        with_preamble(task, Some(text)).prompt[text.len() as int + 1] == '\n',
        with_preamble(task, Some(text)).prompt.skip(text.len() as int + 2) == task.prompt,
        with_preamble(task, Some(text)) == (TaskView {
            prompt: with_preamble(task, Some(text)).prompt,
            ..task
        }),
{
    reveal_strlit("\n\n");
    let prompt = with_preamble(task, Some(text)).prompt;
    assert(prompt.take(text.len() as int) =~= text);
    assert(prompt.skip(text.len() as int + 2) =~= task.prompt);
}

/// A refused dependency is one that is asked for and that the run has not accepted, and all that
/// are asked for before it are accepted.
pub proof fn refused_dependencies_are_unknown(
    names: Seq<Seq<char>>,
    accepted: Set<Seq<char>>,
    e: Error,
)
    requires
        dependency_refusal(names, accepted, e),
    ensures
        e matches Error::UnacceptedDependency { dependency } && names.contains(dependency@)
            && !accepted.contains(dependency@),
        !all_in(names, accepted),
{
    let i = choose|i: int|
        {
            &&& 0 <= i < names.len()
            &&& !accepted.contains(#[trigger] names[i])
            &&& all_in(names.take(i), accepted)
            &&& e matches Error::UnacceptedDependency { dependency } && dependency@ == names[i]
        };
    assert(names.contains(names[i]));
}

/// Dependencies are all accepted just where each of them is.
pub proof fn dependencies_are_checked_one_by_one(
    names: Seq<Seq<char>>,
    accepted: Set<Seq<char>>,
)
    ensures
        all_in(names, accepted) <==> forall|name: Seq<char>| #[trigger]
            names.contains(name) ==> accepted.contains(name),
{
    if forall|name: Seq<char>| #[trigger] names.contains(name) ==> accepted.contains(name) {
        assert forall|i: int| 0 <= i < names.len() implies accepted.contains(
            #[trigger] names[i],
        ) by {
            assert(names.contains(names[i]));
        }
    }
}

/// Each task that is newly taken on has its own status, which waits under its name.
pub proof fn every_accepted_task_has_a_status(metas: Seq<TaskMeta>, tasks: Seq<TaskView>, i: int)
    requires
        statuses_for(metas, tasks),
        0 <= i < tasks.len(),
    ensures
        metas.len() == tasks.len(),
        metas[i].name@ == tasks[i].name,
        metas[i].status == TaskStatus::Pending,
        metas[i].dispatched_at is Some,
{
    assert(is_pending_meta(tasks[i], metas[i]@));
    accepted_tasks_are_recorded_as_dispatched(tasks[i], metas[i]@);
}

/// A dispatched name is refused for what is wrong with it, and a fit one only where the run has it
/// already.
pub proof fn refused_dispatches_say_why(name: Seq<char>, accepted: Set<Seq<char>>, e: Error)
    requires
        dispatch_name_refusal(name, accepted, e),
    ensures
        e is AlreadyInRun <==> valid_task_name(name),
        e matches Error::AlreadyInRun { name: n } ==> n@ == name && accepted.contains(name),
        !valid_task_name(name) ==> e is EmptyTaskName || e is InvalidTaskName || e
            is ReservedTaskName,
{
}

/// What a task waits for is what it depends on and what was under way when it came.
pub proof fn tasks_wait_for_barrier_and_dependencies(p: PendingView, name: Seq<char>)
    ensures
        waits_on(p, name) <==> p.barrier.contains(name) || exists|d: int|
            0 <= d < p.def.depends_on.len() && #[trigger] p.def.depends_on[d] == name,
{
    let deps = p.def.depends_on;
    if deps.contains(name) {
        let d = choose|d: int| 0 <= d < deps.len() && deps[d] == name;
        assert(p.def.depends_on[d] == name);
    }
}

} // verus!
