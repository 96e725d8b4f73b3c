use codex_par::config::{Sandbox, TaskDef};
use codex_par::event::CodexEvent;
use codex_par::meta::{RunMeta, RunStatus, TaskMeta, TaskStatus};
use codex_par::runner::{
    awaits_exit, begin_resume, begin_task, conclude_task, escalate_kill, note_cancelled,
    note_event, note_exit, note_line, start_kill, stream_step, update_meta_from_event, KillStep,
    KillWait, StreamInput, StreamNext, TaskRunner,
};
use codex_par::time::Timestamp;

fn task(name: &str) -> TaskDef {
    TaskDef {
        name: name.to_string(),
        cwd: "/work".to_string(),
        prompt: "do it".to_string(),
        sandbox: Sandbox::ReadWrite,
        agent_id: None,
        thread_id: Some("thread".to_string()),
        output_schema: None,
        ephemeral: false,
        add_dirs: Vec::new(),
        ask_for_approval: "never".to_string(),
        config_overrides: Vec::new(),
        profile: None,
        model: None,
        depends_on: Vec::new(),
    }
}

fn at(seconds: i64) -> Timestamp {
    Timestamp::new(1_700_000_000 + seconds, 0, 0).unwrap()
}

fn running() -> TaskMeta {
    begin_task(&task("t"), None, Some(2), at(0))
}

#[test]
fn runners_know_their_files() {
    let r = TaskRunner::new("/base");
    assert_eq!(r.output_dir(), "/base/outputs");
    assert_eq!(r.log_dir(), "/base/logs");
    assert_eq!(r.result_path("t"), "/base/outputs/t.md");
    assert_eq!(r.event_path("t"), "/base/logs/t.jsonl");
    assert_eq!(r.stderr_path("t"), "/base/logs/t.stderr.log");
    assert_eq!(r.meta_path("t"), "/base/logs/t.meta.json");
    assert_eq!(r.clone().log_dir(), "/base/logs");
    assert_eq!(TaskRunner::new(".").log_dir(), "./logs");
    assert_eq!(TaskRunner::new("").log_dir(), "logs");
}

#[test]
fn plain_tasks_have_plain_arguments() {
    let args = TaskRunner::new("/b").exec_args(&task("t"));
    assert_eq!(
        args,
        vec![
            "exec", "-C", "/work", "-s", "read-write", "-o", "/b/outputs/t.md", "--json",
            "--skip-git-repo-check", "-a", "never", "do it"
        ]
    );
}

#[test]
fn options_become_flags() {
    let mut t = task("t");
    t.model = Some("m".to_string());
    t.output_schema = Some("s.json".to_string());
    t.ephemeral = true;
    t.add_dirs = vec!["/x".to_string(), "/y".to_string()];
    t.config_overrides = vec!["k=v".to_string()];
    t.profile = Some("fast".to_string());
    let args = TaskRunner::new("/b").exec_args(&t);
    assert_eq!(
        args[9..],
        [
            "-m", "m", "--output-schema", "s.json", "--ephemeral", "--add-dir", "/x", "--add-dir",
            "/y", "-a", "never", "-c", "k=v", "-p", "fast", "do it"
        ]
        .map(String::from)
    );
}

#[test]
fn sessions_are_resumed_by_identifier() {
    let args = TaskRunner::new("/b").resume_args("t", "s-1", "go on");
    assert_eq!(
        args,
        vec!["exec", "resume", "s-1", "go on", "--json", "-o", "/b/outputs/t.md"]
    );
}

#[test]
fn tasks_begin_with_what_is_known() {
    let m = running();
    assert_eq!(m.status, TaskStatus::Running);
    assert_eq!(m.wave, Some(2));
    assert_eq!(m.agent_id, "t");
    assert_eq!(m.thread_id, "thread");
    assert_eq!(m.start_time, at(0));
    let mut old = TaskMeta::new("t", "/old", "old");
    old.run_id = "run".to_string();
    old.wave = Some(5);
    old.dispatched_at = Some(at(-3));
    old.events_count = 8;
    let m = begin_task(&task("t"), Some(old.clone()), None, at(1));
    assert_eq!(m.run_id, "run");
    assert_eq!(m.wave, Some(5));
    assert_eq!(m.dispatched_at, Some(at(-3)));
    assert_eq!(m.events_count, 0);
    assert_eq!(m.cwd, "/work");
    assert_eq!(begin_task(&task("t"), Some(old), Some(1), at(1)).wave, Some(1));
}

#[test]
fn events_update_the_status() {
    let mut m = running();
    let read = CodexEvent::ReadFile { file_path: "/a/b/c.rs".to_string() };
    update_meta_from_event(&mut m, &read);
    assert_eq!((m.files_read, m.last_action.as_str()), (1, "READ c.rs"));
    let long = "x".repeat(80);
    update_meta_from_event(&mut m, &CodexEvent::ExecCommand { command: long });
    assert_eq!(m.commands_run, 1);
    assert_eq!(m.last_action, format!("EXEC {}", "x".repeat(50)));
    update_meta_from_event(&mut m, &CodexEvent::TaskComplete);
    assert_eq!(m.last_action, "COMPLETED");
    update_meta_from_event(
        &mut m,
        &CodexEvent::TokenCount { input_tokens: 5, output_tokens: 6 },
    );
    assert_eq!((m.input_tokens, m.output_tokens), (5, 6));
    update_meta_from_event(&mut m, &CodexEvent::SessionStart { session_id: "s".to_string() });
    assert_eq!(m.session_id.as_deref(), Some("s"));
    update_meta_from_event(&mut m, &CodexEvent::Other("x".to_string()));
    assert_eq!(m.last_action, "COMPLETED");
}

#[test]
fn statuses_are_saved_now_and_then() {
    let mut m = running();
    for i in 1..=40u64 {
        let save = note_line(&mut m, "no event").unwrap();
        assert_eq!(save, i == 20 || i == 40);
    }
    assert_eq!(m.events_count, 40);
    assert!(!note_event(&mut m, Some(CodexEvent::TaskComplete)));
    assert_eq!(m.last_action, "COMPLETED");
}

#[test]
fn full_counters_are_told() {
    let line = r#"{"payload":{"type":"read_file","call":{"args":{"file_path":"/a"}}}}"#;
    let mut m = running();
    m.files_read = u32::MAX;
    assert_eq!(note_line(&mut m, line), None);
    assert_eq!(m.events_count, 0);
    assert_eq!(note_line(&mut m, "{}"), Some(false));
    m.events_count = u64::MAX;
    assert_eq!(stream_step(&mut m, StreamInput::Line("{}".to_string()), false), None);
}

#[test]
fn streams_are_read_to_their_end() {
    let mut m = running();
    let step = stream_step(&mut m, StreamInput::Line("{}".to_string()), false).unwrap();
    assert_eq!((step.save, step.next), (false, StreamNext::GoOn));
    let step = stream_step(&mut m, StreamInput::End, true).unwrap();
    assert_eq!(step.next, StreamNext::Stop);
    assert!(awaits_exit(&m));
    note_exit(&mut m, Some(0), true, at(5));
    assert_eq!(m.status, TaskStatus::Done);
    assert_eq!(m.exit_code, Some(0));
    assert_eq!(m.end_time, Some(at(5)));
    let report = conclude_task(&mut m, None, true, at(6));
    assert_eq!(report.status, TaskStatus::Done);
    assert_eq!(report.name, "t");
    assert_eq!(m.end_time, Some(at(5)));
}

#[test]
fn failing_processes_fail_the_task() {
    let mut m = running();
    note_exit(&mut m, Some(3), false, at(5));
    assert_eq!(m.status, TaskStatus::Failed);
    assert_eq!(m.exit_code, Some(3));
    let mut m = running();
    stream_step(&mut m, StreamInput::ReadError("pipe".to_string()), false).unwrap();
    note_exit(&mut m, Some(0), true, at(5));
    assert_eq!(m.status, TaskStatus::Failed);
    assert_eq!(m.error.as_deref(), Some("stdout read error: pipe"));
}

#[test]
fn cancelled_runs_stop_chatty_and_silent_tasks() {
    let mut m = running();
    let step = stream_step(&mut m, StreamInput::Line("{}".to_string()), true).unwrap();
    assert_eq!(step.next, StreamNext::Kill);
    let step = stream_step(&mut m, StreamInput::Cancelled, true).unwrap();
    assert_eq!(step.next, StreamNext::Kill);
    note_cancelled(&mut m, at(3));
    assert!(!awaits_exit(&m));
    let report = conclude_task(&mut m, None, true, at(4));
    assert_eq!(report.status, TaskStatus::Cancelled);
    assert_eq!(report.error, None);
}

#[test]
fn fatal_pre_task_error_is_visible_in_run_meta_json_via_get_status() {
    let mut m = running();
    let report =
        conclude_task(&mut m, Some("failed to spawn codex process".to_string()), false, at(1));
    assert_eq!(report.status, TaskStatus::Failed);
    assert_eq!(m.exit_code, None);
    assert_eq!(m.error.as_deref(), Some("failed to spawn codex process"));
    let mut run = RunMeta::start(1, 1, at(0));
    let error = codex_par::commands::status::collect_first_task_error(&vec![m]);
    run.conclude(false, error);
    assert_eq!(run.status, RunStatus::Failed);
    assert_eq!(run.error.as_deref(), Some("failed to spawn codex process"));
    let copy = run.clone();
    assert_eq!((copy.status, copy.task_count, copy.error), (run.status, 1, run.error.clone()));
    run.conclude(true, None);
    assert_eq!(run.status, RunStatus::Done);
}

#[test]
fn broken_off_tasks_of_cancelled_runs_are_cancelled() {
    let mut m = running();
    let report = conclude_task(&mut m, Some("boom".to_string()), true, at(1));
    assert_eq!(report.status, TaskStatus::Cancelled);
    assert_eq!(report.error.as_deref(), Some("cancelled by user"));
    assert_eq!(m.end_time, Some(at(1)));
}

#[test]
fn resumed_tasks_keep_their_counts() {
    let mut m = running();
    m.events_count = 7;
    m.pid = Some(3);
    note_exit(&mut m, Some(1), false, at(5));
    begin_resume(&mut m, "s-1", &"y".repeat(200), at(9));
    assert_eq!(m.status, TaskStatus::Running);
    assert_eq!(m.session_id.as_deref(), Some("s-1"));
    assert_eq!(m.prompt_preview, "y".repeat(150));
    assert_eq!((m.pid, m.exit_code, m.end_time), (None, None, None));
    assert_eq!(m.events_count, 7);
    assert_eq!(m.start_time, at(9));
}

#[test]
fn processes_are_asked_then_killed() {
    assert_eq!(start_kill(true, Some(5)), KillStep::Ended);
    assert_eq!(start_kill(false, Some(5)), KillStep::Terminate { group: Some(-5) });
    assert_eq!(start_kill(false, None), KillStep::Terminate { group: None });
    assert_eq!(escalate_kill(KillWait::Ended, Some(5)), KillStep::Ended);
    assert_eq!(escalate_kill(KillWait::TimedOut, Some(5)), KillStep::Kill { group: Some(-5) });
    assert_eq!(escalate_kill(KillWait::WaitFailed, None), KillStep::Kill { group: None });
    assert_eq!(start_kill(false, Some(u32::MAX)), KillStep::Terminate { group: Some(1) });
}

#[test]
fn statuses_end_by_failing() {
    let mut m = TaskMeta::new("t", "/w", &"é".repeat(151));
    assert_eq!(m.prompt_preview.chars().count(), 150);
    assert_eq!(m.status, TaskStatus::Pending);
    m.fail("why".to_string());
    assert_eq!(m.status, TaskStatus::Failed);
    assert_eq!(m.error.as_deref(), Some("why"));
    assert!(m.end_time.is_some());
    let c = m.clone();
    assert_eq!(c.error.as_deref(), Some("why"));
}

#[test]
fn statuses_have_words() {
    let all = [
        (TaskStatus::Pending, "pending", false),
        (TaskStatus::Running, "running", false),
        (TaskStatus::Done, "done", true),
        (TaskStatus::Failed, "failed", true),
        (TaskStatus::Cancelled, "cancelled", true),
    ];
    for (status, word, terminal) in all {
        assert_eq!(status.as_text(), word);
        assert_eq!(status.is_terminal(), terminal);
    }
}
