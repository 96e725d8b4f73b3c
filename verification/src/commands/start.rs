//! Starting a run on request.
use vstd::prelude::*;
use vstd::string::*;

use crate::commands::dispatch::RunLookup;
use crate::config::{
    config_refusal, schedulable, task_views, wave_views, waves_of, TaskDef, TasksConfig,
};
use crate::coordinator::task_names;
use crate::error::{quoted, Error, Refusal, ToolError};
use crate::id::{identifier, new_id};
use crate::meta::{RunMeta, RunMetaView, RunStatus, TaskMeta};
use crate::names::NameSet;
use crate::plan::{
    flatten_waves, flattened, identified_metas, names_of_tasks, plan_identified_metas,
    planned_tasks_are_in_order, RunPlan,
};
use crate::time::Timestamp;

verus! {

/// How often the status of a run is best asked for.
pub const POLL_INTERVAL_MS: u64 = 2000;

/// The answer to a request that has started a run.
#[derive(Debug)]
pub struct StartRunResult {
    pub run_dir: String,
    pub task_count: usize,
    pub wave_count: usize,
    pub poll_interval_ms: u64,
}

/// A run that is about to start.
#[derive(Debug)]
pub struct RunStart {
    pub run_id: String,
    pub plan: RunPlan,
}

impl RunStart {
    /// Whether this is the plan of the tasks, under an identifier.
    pub open spec fn plans(&self, config: TasksConfig) -> bool {
        &&& identifier(self.run_id@)
        &&& waves_of(task_views(config.tasks@), wave_views(self.plan.waves@))
        &&& self.plan.task_count == config.tasks@.len()
        &&& self.plan.wave_count == self.plan.waves@.len()
    }

    /// Plans a run of the tasks, under a new identifier.
    pub fn prepare(config: TasksConfig) -> (r: Result<RunStart, ToolError>)
        ensures
            match r {
                Ok(start) => schedulable(task_views(config.tasks@)) && start.plans(config),
                Err(e) => !schedulable(task_views(config.tasks@)) && exists|why: Error| #[trigger]
                    config_refusal(task_views(config.tasks@), why) && e@
                        == Refusal::InvalidParams(why.text()),
            },
    {
        match RunPlan::new(config) {
            Ok(plan) => Ok(RunStart { run_id: new_id(), plan }),
            Err(e) => Err(ToolError::invalid(&e)),
        }
    }

    /// The status that the run starts with.
    pub fn run_meta(&self, started_at: Timestamp) -> (r: RunMeta)
        ensures
            r@ == (RunMetaView {
                status: RunStatus::Running,
                task_count: self.plan.task_count as nat,
                wave_count: self.plan.wave_count as nat,
                started_at,
                error: None,
            }),
    {
        RunMeta::start(self.plan.task_count, self.plan.wave_count, started_at)
    }

    /// The statuses that its tasks start with, wave by wave.
    pub fn metas(&self) -> (r: Vec<Vec<TaskMeta>>)
        ensures
            identified_metas(wave_views(self.plan.waves@), self.run_id@, r@),
    {
        plan_identified_metas(&self.plan.waves, self.run_id.as_str())
    }

    /// The answer to the request that starts the run.
    pub fn result(&self, run_dir: &str) -> (r: StartRunResult)
        ensures
            r.run_dir@ == run_dir@,
            r.task_count == self.plan.task_count,
            r.wave_count == self.plan.wave_count,
            r.poll_interval_ms == POLL_INTERVAL_MS,
    {
        StartRunResult {
            run_dir: run_dir.to_owned(),
            task_count: self.plan.task_count,
            wave_count: self.plan.wave_count,
            poll_interval_ms: POLL_INTERVAL_MS,
        }
    }

    /// The tasks of the run, wave by wave, and their names.
    pub fn into_tasks(self) -> (r: (Vec<TaskDef>, NameSet))
        ensures
            task_views(r.0@) == flattened(wave_views(self.plan.waves@)),
            r.1@ == task_names(task_views(r.0@)).to_set(),
    {
        let tasks = flatten_waves(self.plan.waves);
        let names = names_of_tasks(&tasks);
        (tasks, names)
    }
}

/// Whether a run may start in a directory, as far as other runs go: no run may be under way
/// there. `shown` is the directory, quoted.
pub fn check_no_active_run(lookup: RunLookup, shown: &str) -> (r: Result<(), ToolError>)
    ensures
        match r {
            Ok(()) => !(lookup is Active),
            Err(e) => lookup is Active && e@ == Refusal::InvalidParams(
                "run_dir "@ + shown@ + " already has an active run; cancel it first"@,
            ),
        },
{
    match lookup {
        RunLookup::Active => Err(
            ToolError::InvalidParams(
                quoted("run_dir ", shown, " already has an active run; cancel it first"),
            ),
        ),
        _ => Ok(()),
    }
}

/// Whether a run may start among what earlier runs have left: not unless that is to be removed,
/// or there is nothing.
pub fn check_no_artifacts(clean: bool, log_entries: usize, output_entries: usize) -> (r: Result<
    (),
    ToolError,
>)
    ensures
        match r {
            Ok(()) => clean || (log_entries == 0 && output_entries == 0),
            Err(e) => !clean && (log_entries > 0 || output_entries > 0) && e@
                == Refusal::InvalidParams(
                "run_dir contains existing artifacts; pass clean=true to remove them"@,
            ),
        },
{
    if !clean && (log_entries > 0 || output_entries > 0) {
        Err(
            ToolError::InvalidParams(
                "run_dir contains existing artifacts; pass clean=true to remove them".to_owned(),
            ),
        )
    } else {
        Ok(())
    }
}

/// Whether a run takes no more tasks than it starts with.
pub fn seals_at_once(dynamic: bool) -> (r: bool)
    ensures
        r == !dynamic,
{
    !dynamic
}

/// A run that is started on request has tasks of different names, each of which depends only on
/// tasks before it.
pub proof fn started_runs_are_in_order(start: RunStart, config: TasksConfig)
    requires
        schedulable(task_views(config.tasks@)),
        start.plans(config),
    ensures
        task_names(flattened(wave_views(start.plan.waves@))).no_duplicates(),
        forall|i: int|
            0 <= i < flattened(wave_views(start.plan.waves@)).len()
                ==> crate::coordinator::all_in(
                (#[trigger] flattened(wave_views(start.plan.waves@))[i]).depends_on,
                task_names(flattened(wave_views(start.plan.waves@)).take(i)).to_set(),
            ),
{
    planned_tasks_are_in_order(task_views(config.tasks@), wave_views(start.plan.waves@));
}

/// A run that is about to start has an identifier, and its plan holds the waves of its tasks and
/// counts both as they are.
pub proof fn plans_count_their_tasks(start: RunStart, config: TasksConfig)
    requires
        start.plans(config),
    ensures
        identifier(start.run_id@),
        start.plan.task_count == config.tasks@.len(),
        start.plan.wave_count == start.plan.waves@.len(),
        waves_of(task_views(config.tasks@), wave_views(start.plan.waves@)),
        POLL_INTERVAL_MS == 2000,
{
}

} // verus!
