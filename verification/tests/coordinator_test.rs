use codex_par::commands::status::get_status;
use codex_par::config::{Sandbox, TaskDef};
use codex_par::coordinator::{
    accept_pending_task, add_preamble, build_barrier, build_pending_meta_at, cancel_before_start,
    cancelled_early, pending_names, validate_dispatch_deps, validate_dispatch_name,
    DispatchRequest, PendingTask, RunCoordinator, RunEvent,
};
use codex_par::error::Error;
use codex_par::meta::{bump_run_task_count, RunMeta, RunStatus, TaskMeta, TaskStatus};
use codex_par::names::NameSet;
use codex_par::runner::TaskRunReport;
use codex_par::time::Timestamp;

fn task(name: &str) -> TaskDef {
    TaskDef {
        name: name.to_string(),
        cwd: "/tmp".to_string(),
        prompt: "prompt".to_string(),
        sandbox: Sandbox::default(),
        agent_id: Some(format!("{name}-agent")),
        thread_id: Some(format!("{name}-thread")),
        output_schema: None,
        ephemeral: false,
        add_dirs: Vec::new(),
        ask_for_approval: "never".to_string(),
        config_overrides: Vec::new(),
        profile: None,
        model: None,
        depends_on: Vec::new(),
    }
}

fn after(name: &str, deps: &[&str]) -> TaskDef {
    let mut t = task(name);
    t.depends_on = deps.iter().map(|d| d.to_string()).collect();
    t
}

fn names(list: &[&str]) -> NameSet {
    let list: Vec<String> = list.iter().map(|s| s.to_string()).collect();
    NameSet::from_list(&list)
}

fn report(name: &str, status: TaskStatus) -> RunEvent {
    RunEvent::Reported(TaskRunReport { name: name.to_string(), status, error: None })
}

fn started(tasks: &Vec<TaskDef>) -> Vec<String> {
    tasks.iter().map(|t| t.name.clone()).collect()
}

#[test]
fn validate_name_rejects_duplicate() {
    let accepted = names(&["task_a"]);
    assert!(validate_dispatch_name("task_a", &accepted).is_err());
    assert!(validate_dispatch_name("task_b", &accepted).is_ok());
}

#[test]
fn validate_name_rejects_forward_dep() {
    let accepted = names(&["task_a"]);
    let result = validate_dispatch_deps(&vec!["task_b".to_string()], &accepted);
    assert!(result.is_err());
}

#[test]
fn validate_name_allows_known_dep() {
    let accepted = names(&["task_a"]);
    let result = validate_dispatch_deps(&vec!["task_a".to_string()], &accepted);
    assert!(result.is_ok());
}

#[test]
fn barrier_snapshot_includes_running_and_pending() {
    let running = names(&["r1"]);
    let pending_names = vec!["p1".to_string()];
    let barrier = build_barrier(&running, &pending_names);
    assert!(barrier.contains("r1"));
    assert!(barrier.contains("p1"));
    assert!(!barrier.contains("x1"));
    assert_eq!(barrier.len(), 2);
}

#[test]
fn pending_meta_is_written_for_newly_accepted_task() {
    let mut accepted = NameSet::new();
    let mut pending = Vec::new();

    let meta = accept_pending_task(
        &mut accepted,
        &mut pending,
        task("dynamic-task"),
        NameSet::new(),
    );

    let meta = meta.unwrap();
    assert_eq!(meta.name, "dynamic-task");
    assert_eq!(meta.status, TaskStatus::Pending);
    assert_eq!(meta.agent_id, "dynamic-task-agent");
    assert_eq!(meta.thread_id, "dynamic-task-thread");
    assert!(meta.dispatched_at.is_some());
    assert!(meta.run_id.is_empty());
    assert_eq!(pending_names(&pending), vec!["dynamic-task".to_string()]);
    assert!(accepted.contains("dynamic-task"));

    let again = accept_pending_task(
        &mut accepted,
        &mut pending,
        task("dynamic-task"),
        NameSet::new(),
    );
    assert!(again.is_none());
    assert_eq!(pending.len(), 1);
}

#[test]
fn bump_run_task_count_updates_run_meta() {
    let mut run_meta = RunMeta {
        status: RunStatus::Running,
        task_count: 2,
        wave_count: 1,
        started_at: Timestamp::now(),
        error: None,
    };

    bump_run_task_count(&mut run_meta, 3);

    assert_eq!(run_meta.task_count, 5);
    assert_eq!(run_meta.wave_count, 1);
}

#[test]
fn refused_names_say_why() {
    let accepted = names(&["task_a"]);
    assert_eq!(
        validate_dispatch_name("task_a", &accepted).unwrap_err().message(),
        "task name 'task_a' is already in this run"
    );
    assert_eq!(
        validate_dispatch_name("a/b", &accepted).unwrap_err().message(),
        "task name 'a/b' contains invalid characters (only [A-Za-z0-9._-] allowed)"
    );
    let deps = vec!["task_a".to_string(), "x".to_string(), "y".to_string()];
    let e = validate_dispatch_deps(&deps, &accepted).unwrap_err();
    assert!(matches!(e, Error::UnacceptedDependency { .. }));
    assert_eq!(
        e.message(),
        "depends_on references unknown task 'x'; only already-accepted tasks are allowed"
    );
}

#[test]
fn pending_task_waits_for_barrier_and_dependencies() {
    let waiting = PendingTask { def: after("c", &["a"]), barrier: names(&["b"]) };
    assert!(!waiting.is_unblocked(&names(&["a"])));
    assert!(!waiting.is_unblocked(&names(&["b"])));
    assert!(waiting.is_unblocked(&names(&["a", "b", "z"])));
}

#[test]
fn tasks_start_after_their_dependencies() {
    let mut run = RunCoordinator::start(vec![task("a"), after("b", &["a"]), task("c")]);
    assert_eq!(started(&run.spawn_ready_tasks(false)), vec!["a", "c"]);
    assert!(run.awaits_tasks());
    assert!(started(&run.spawn_ready_tasks(false)).is_empty());
    let effects = run.handle(report("a", TaskStatus::Done));
    assert!(!effects.cancel && !effects.close);
    assert_eq!(started(&run.spawn_ready_tasks(false)), vec!["b"]);
    run.handle(report("c", TaskStatus::Done));
    assert!(!run.is_finished(true));
    run.handle(report("b", TaskStatus::Done));
    assert!(!run.is_finished(false));
    assert!(run.is_finished(true));
    assert!(run.all_ok());
}

#[test]
fn failed_wave0_cancels_downstream_tasks_without_running_them() {
    let mut run = RunCoordinator::start(vec![task("root"), after("child", &["root"])]);
    let sealed = run.handle(RunEvent::Received(DispatchRequest::Seal));
    assert!(sealed.close);
    assert!(!run.takes_requests());
    assert_eq!(started(&run.spawn_ready_tasks(false)), vec!["root"]);
    let effects = run.handle(report("root", TaskStatus::Failed));
    assert!(effects.cancel);
    assert!(run.spawn_ready_tasks(true).is_empty());
    let effects = run.handle(RunEvent::Cancelled);
    assert_eq!(started(&effects.dropped), vec!["child"]);
    assert!(run.is_finished(false));
    assert!(!run.all_ok());

    let at = Timestamp::now();
    let mut run_meta = RunMeta::start(2, 2, at);
    run_meta.conclude(run.all_ok(), None);
    let terminal = get_status(Some(run_meta.status), Vec::new());
    assert_eq!(terminal.run_status, "failed");
    let child = cancel_before_start(None, &effects.dropped[0], cancelled_early(), at, at);
    assert_eq!(child.status, TaskStatus::Cancelled);
    assert_eq!(child.input_tokens, 0);
    assert_eq!(child.output_tokens, 0);
    assert_eq!(child.exit_code, None);
    assert!(child.error.is_some());
    assert_eq!(child.error.unwrap(), "run cancelled before task started");
}

#[test]
fn crashed_tasks_cancel_the_run() {
    let mut run = RunCoordinator::start(vec![task("a"), after("b", &["a"])]);
    run.spawn_ready_tasks(false);
    let effects = run.handle(RunEvent::Crashed);
    assert!(effects.cancel);
    assert!(!run.all_ok());
    assert!(!run.awaits_tasks());
    assert!(run.spawn_ready_tasks(true).is_empty());
    run.handle(RunEvent::Cancelled);
    assert!(run.is_finished(false));
}

#[test]
fn cancelled_tasks_spoil_the_run_without_cancelling_it() {
    let mut run = RunCoordinator::start(vec![task("a")]);
    run.spawn_ready_tasks(false);
    let effects = run.handle(report("a", TaskStatus::Cancelled));
    assert!(!effects.cancel);
    assert!(!run.all_ok());
}

#[test]
fn dispatched_tasks_wait_for_everything_under_way() {
    let mut run = RunCoordinator::start(vec![task("a"), after("b", &["a"])]);
    run.spawn_ready_tasks(false);
    let effects = run.handle(RunEvent::Received(DispatchRequest::Task(task("late"))));
    assert_eq!(effects.accepted.len(), 1);
    let effects =
        run.handle(RunEvent::Received(DispatchRequest::Task(after("soon", &["a"]))));
    assert_eq!(effects.accepted[0].name, "soon");
    run.handle(report("a", TaskStatus::Done));
    assert_eq!(started(&run.spawn_ready_tasks(false)), vec!["b", "soon"]);
    run.handle(report("soon", TaskStatus::Done));
    assert!(run.spawn_ready_tasks(false).is_empty());
    run.handle(report("b", TaskStatus::Done));
    assert_eq!(started(&run.spawn_ready_tasks(false)), vec!["late"]);
}

#[test]
fn dispatched_waves_skip_known_names() {
    let mut run = RunCoordinator::start(vec![task("a")]);
    run.spawn_ready_tasks(false);
    let wave = vec![task("a"), task("x"), task("x"), after("y", &["x"])];
    let effects = run.handle(RunEvent::Received(DispatchRequest::Wave(wave)));
    let accepted: Vec<&str> = effects.accepted.iter().map(|m| m.name.as_str()).collect();
    assert_eq!(accepted, vec!["x", "y"]);
    assert!(run.spawn_ready_tasks(false).is_empty());
    run.handle(report("a", TaskStatus::Done));
    assert_eq!(started(&run.spawn_ready_tasks(false)), vec!["x"]);
    run.handle(RunEvent::Disconnected);
    assert!(!run.takes_requests());
    run.handle(report("x", TaskStatus::Done));
    assert_eq!(started(&run.spawn_ready_tasks(false)), vec!["y"]);
    run.handle(report("y", TaskStatus::Done));
    assert!(run.is_finished(false));
    assert!(run.all_ok());
}

#[test]
fn waves_may_name_their_dependencies_in_any_order() {
    let mut run = RunCoordinator::start(Vec::new());
    let wave = vec![after("second", &["first"]), task("first")];
    run.handle(RunEvent::Received(DispatchRequest::Wave(wave)));
    assert_eq!(started(&run.spawn_ready_tasks(false)), vec!["first"]);
    run.handle(report("first", TaskStatus::Done));
    assert_eq!(started(&run.spawn_ready_tasks(false)), vec!["second"]);
}

#[test]
fn cancelled_status_keeps_what_is_known() {
    let at = Timestamp::new(1_700_000_000, 0, 0).unwrap();
    let mut existing = TaskMeta::new("t", "/w", "p");
    existing.agent_id = "kept".to_string();
    existing.run_id = "run".to_string();
    let meta = cancel_before_start(Some(existing), &task("t"), "why", at, at);
    assert_eq!(meta.agent_id, "kept");
    assert_eq!(meta.thread_id, "t-thread");
    assert_eq!(meta.run_id, "run");
    assert_eq!(meta.cwd, "/w");
    assert_eq!(meta.error.as_deref(), Some("why"));
    assert_eq!(meta.end_time, Some(at));
}

#[test]
fn pending_status_falls_back_to_the_name() {
    let at = Timestamp::new(1_700_000_000, 0, 0).unwrap();
    let mut t = task("t");
    t.agent_id = None;
    t.thread_id = None;
    let meta = build_pending_meta_at(&t, at, at);
    assert_eq!(meta.agent_id, "t");
    assert_eq!(meta.thread_id, "t");
    assert_eq!(meta.dispatched_at, Some(at));
    assert_eq!(meta.start_time, at);
}

#[test]
fn preamble_goes_before_the_prompt() {
    let t = add_preamble(task("t"), Some("known".to_string()));
    assert_eq!(t.prompt, "known\n\nprompt");
    assert_eq!(add_preamble(task("t"), None).prompt, "prompt");
}
