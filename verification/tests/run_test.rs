use codex_par::commands::run::{launch_line, wave_line, CommandRun};
use codex_par::commands::status::{get_status, FoundTask};
use codex_par::config::{Sandbox, TaskDef, TasksConfig};
use codex_par::dashboard::{
    duration_label, minutes_label, render, render_task_line, should_stop, ShownTask,
};
use codex_par::execution::{note_panic, why_skipped, OpenWave, WaveRun};
use codex_par::meta::{RunStatus, TaskMeta, TaskStatus};
use codex_par::runner::{
    begin_task, conclude_task, note_exit, stream_step, StreamInput, StreamNext, TaskRunReport,
};
use codex_par::time::Timestamp;

fn task(name: &str, deps: &[&str]) -> TaskDef {
    TaskDef {
        name: name.to_string(),
        cwd: "/tmp".to_string(),
        prompt: "p".to_string(),
        sandbox: Sandbox::default(),
        agent_id: None,
        thread_id: None,
        output_schema: None,
        ephemeral: false,
        add_dirs: Vec::new(),
        ask_for_approval: "never".to_string(),
        config_overrides: Vec::new(),
        profile: None,
        model: None,
        depends_on: deps.iter().map(|d| d.to_string()).collect(),
    }
}

fn report(name: &str, status: TaskStatus) -> TaskRunReport {
    TaskRunReport { name: name.to_string(), status, error: None }
}

fn at(seconds: i64) -> Timestamp {
    Timestamp::new(1_700_000_000 + seconds, 0, 0).unwrap()
}

/// Runs a single task whose process says two lines and ends with the exit code.
fn run_single(name: &str, prompt: &str, exit_code: i32) -> (bool, TaskMeta) {
    let mut only = task(name, &[]);
    only.prompt = prompt.to_string();
    let waves = TasksConfig { tasks: vec![only] }.into_waves().unwrap();
    let mut run = CommandRun::new();
    let mut open = OpenWave::start(&waves[0]);
    let mut meta = begin_task(&waves[0][0], None, Some(0), at(0));
    for line in ["{}", r#"{"payload":{"type":"task_complete"}}"#] {
        let step = stream_step(&mut meta, StreamInput::Line(line.to_string()), false).unwrap();
        assert_eq!(step.next, StreamNext::GoOn);
    }
    let step = stream_step(&mut meta, StreamInput::End, false).unwrap();
    assert_eq!(step.next, StreamNext::Stop);
    note_exit(&mut meta, Some(exit_code), exit_code == 0, at(1));
    let report = conclude_task(&mut meta, None, false, at(1));
    run.record(&mut open, Some(report));
    assert!(run.close_wave(&open).is_empty());
    (run.all_done(), meta)
}

#[test]
fn test_single_task_success() {
    let (ok, meta) = run_single("my_task", "Please SUCCEED at this", 0);
    assert!(ok, "expected exit 0 for SUCCEED task");
    assert_eq!(meta.name, "my_task");
    assert_eq!(meta.status.as_text(), "done", "meta status should be 'done'");
    assert_eq!(meta.exit_code, Some(0));
    assert_eq!(meta.events_count, 2);
}

#[test]
fn test_single_task_failure() {
    let (ok, meta) = run_single("bad_task", "Please FAIL at this", 1);
    assert!(!ok, "expected exit 1 for FAIL task");
    assert_eq!(meta.name, "bad_task");
    assert_eq!(meta.status.as_text(), "failed", "meta status should be 'failed'");
    assert_eq!(meta.exit_code, Some(1));
}

#[test]
fn test_rerun_truncates_logs() {
    let mut t = task("repeatable", &[]);
    t.prompt = "Please SUCCEED".to_string();
    let (ok, first) = run_single("repeatable", "Please SUCCEED", 0);
    assert!(ok, "first run should succeed");
    assert_eq!(first.status.as_text(), "done");
    assert_eq!(first.events_count, 2);

    let mut second = begin_task(&t, Some(first.clone()), Some(0), at(60));
    assert_eq!(second.status.as_text(), "running");
    assert_eq!((second.events_count, second.files_read, second.commands_run), (0, 0, 0));
    assert_eq!((second.input_tokens, second.output_tokens), (0, 0));
    assert_eq!((second.end_time, second.exit_code), (None, None));
    assert_eq!(second.last_action, "");
    assert_eq!(second.error, None);
    note_exit(&mut second, Some(0), true, at(61));
    assert_eq!(second.status.as_text(), "done", "meta after second run should be 'done'");

    let t1 = first.start_time.to_rfc3339();
    let t2 = second.start_time.to_rfc3339();
    assert!(
        t2 >= t1,
        "second run start_time ({}) should be >= first run start_time ({})",
        t2,
        t1
    );
}

#[test]
fn whole_runs_go_well_only_with_every_task() {
    let tasks = vec![task("a", &[]), task("b", &["a"]), task("c", &["b"])];
    let waves = TasksConfig { tasks }.into_waves().unwrap();
    for failing in [None, Some("a"), Some("b"), Some("c")] {
        let mut run = CommandRun::new();
        let mut quiet = WaveRun::new();
        let mut started = 0;
        for (i, wave) in waves.iter().enumerate() {
            assert_eq!(run.skip_reason(), why_skipped(quiet.wave_failed, false));
            if let Some(reason) = run.skip_reason() {
                run.skip_wave(wave, i, reason);
                quiet.skip_wave(wave, i, reason);
                continue;
            }
            started += 1;
            let (mut open, mut quiet_open) = (OpenWave::start(wave), OpenWave::start(wave));
            for t in wave {
                let status = if failing == Some(t.name.as_str()) {
                    TaskStatus::Failed
                } else {
                    TaskStatus::Done
                };
                run.record(&mut open, Some(report(&t.name, status)));
                quiet.record(&mut quiet_open, Some(report(&t.name, status)));
            }
            run.close_wave(&open);
            quiet.close_wave(&quiet_open);
        }
        assert_eq!(run.all_done(), failing.is_none());
        assert_eq!(quiet.all_ok, failing.is_none());
        let mut names: Vec<&str> = run.reports.iter().map(|r| r.name.as_str()).collect();
        names.sort();
        assert_eq!(names, vec!["a", "b", "c"]);
        let expected = match failing {
            Some("a") => 1,
            Some("b") => 2,
            _ => 3,
        };
        assert_eq!(started, expected);
    }
}

#[test]
fn test_wave_skip_on_failure() {
    let tasks = vec![task("wave0_fail", &[]), task("wave1_task", &["wave0_fail"])];
    let waves = TasksConfig { tasks }.into_waves().unwrap();
    let mut run = CommandRun::new();
    assert_eq!(run.skip_reason(), None);
    let mut open = OpenWave::start(&waves[0]);
    run.record(&mut open, Some(report("wave0_fail", TaskStatus::Failed)));
    assert!(run.close_wave(&open).is_empty());

    let reason = run.skip_reason().unwrap();
    let metas = run.skip_wave(&waves[1], 1, reason);
    assert!(!run.all_done());

    assert_eq!(metas.len(), 1);
    assert_eq!(metas[0].name, "wave1_task");
    assert_eq!(metas[0].status.as_text(), "cancelled", "wave1_task should be cancelled");
    assert_eq!(metas[0].wave, Some(1));
    let error = metas[0].error.clone().unwrap_or_default();
    assert!(
        error.contains("skipped") || error.contains("cancelled"),
        "error should mention skipped/cancelled, got: {:?}",
        error
    );
    assert_eq!(error, "skipped: previous wave had failures");
}

#[test]
fn test_wave_sequential_execution() {
    let tasks = vec![task("first", &[]), task("second", &["first"])];
    let waves = TasksConfig { tasks }.into_waves().unwrap();
    let mut run = CommandRun::new();
    for wave in &waves {
        assert_eq!(run.skip_reason(), None);
        let mut open = OpenWave::start(wave);
        for t in wave {
            let mut meta = begin_task(t, None, None, at(0));
            note_exit(&mut meta, Some(0), true, at(1));
            let report = conclude_task(&mut meta, None, false, at(1));
            assert_eq!(meta.status.as_text(), "done", "'{}' should be done", t.name);
            run.record(&mut open, Some(report));
        }
        assert!(run.close_wave(&open).is_empty());
    }
    assert!(run.all_done());
    let names: Vec<&str> = run.reports.iter().map(|r| r.name.as_str()).collect();
    assert_eq!(names, vec!["first", "second"]);
}

#[test]
fn broken_down_tasks_are_found_out() {
    let wave = vec![task("a", &[]), task("b", &[]), task("c", &[])];
    let mut run = CommandRun::new();
    let mut open = OpenWave::start(&wave);
    run.record(&mut open, Some(report("b", TaskStatus::Done)));
    run.record(&mut open, None);
    run.record(&mut open, None);
    assert_eq!(run.close_wave(&open), vec!["a".to_string(), "c".to_string()]);
    assert_eq!(run.reports.len(), 3);
    assert_eq!(run.reports[2].error.as_deref(), Some("task panicked"));
    assert!(!run.all_done());
    let mut m = TaskMeta::new("a", "/w", "p");
    note_panic(&mut m, at(1));
    assert_eq!(m.status, TaskStatus::Failed);
    assert_eq!(m.error.as_deref(), Some("task panicked"));
}

#[test]
fn interrupts_outweigh_failures() {
    let mut run = CommandRun::new();
    run.interrupt();
    assert_eq!(run.skip_reason(), Some("cancelled by user"));
    assert_eq!(why_skipped(true, true), Some("cancelled by user"));
    assert_eq!(why_skipped(true, false), Some("skipped: previous wave had failures"));
    assert_eq!(why_skipped(false, false), None);
}

#[test]
fn quiet_runs_tell_failures_from_cancellations() {
    let wave = vec![task("a", &[]), task("b", &[])];
    let mut run = WaveRun::new();
    let mut open = OpenWave::start(&wave);
    run.record(&mut open, Some(report("a", TaskStatus::Done)));
    run.record(&mut open, Some(report("b", TaskStatus::Cancelled)));
    assert!(run.close_wave(&open).is_empty());
    assert_eq!((run.all_ok, run.wave_failed), (false, false));
    let mut run = WaveRun::new();
    let mut open = OpenWave::start(&wave);
    run.record(&mut open, Some(report("a", TaskStatus::Done)));
    assert_eq!(run.close_wave(&open), vec!["b".to_string()]);
    assert_eq!((run.all_ok, run.wave_failed), (false, true));
    let metas = run.skip_wave(&wave, 4, "why");
    assert_eq!(metas[1].wave, Some(4));
    assert_eq!(metas[1].error.as_deref(), Some("why"));
    assert!(metas[1].end_time.is_some());
}

#[test]
fn runs_announce_themselves() {
    assert_eq!(launch_line(3, 2), "Launching 3 tasks in 2 wave(s)...\n");
    assert_eq!(wave_line(0, 1), "-- Wave 0 (1 task, parallel) --");
    assert_eq!(wave_line(12, 0), "-- Wave 12 (0 tasks, parallel) --");
}

#[test]
fn runs_end_with_a_summary() {
    let mut run = CommandRun::new();
    let mut open = OpenWave::start(&vec![task("a", &[]), task("b", &[])]);
    run.record(&mut open, Some(report("a", TaskStatus::Done)));
    run.record(
        &mut open,
        Some(TaskRunReport {
            name: "b".to_string(),
            status: TaskStatus::Failed,
            error: Some("boom".to_string()),
        }),
    );
    let rule = "=".repeat(50);
    let expected = format!(
        "\n{}\n  SUMMARY (2 tasks)\n{}\n  \x1b[32m✓\x1b[0m a\n  \x1b[31m✗\x1b[0m b  -- boom\n\n  Results: ./outputs/*.md\n",
        rule, rule
    );
    assert_eq!(run.summary(2, "."), expected);
}

fn found(name: &str, wave: Option<u32>, status: TaskStatus) -> FoundTask {
    let mut meta = TaskMeta::new(name, "/tmp", "p");
    meta.wave = wave;
    meta.status = status;
    FoundTask { meta, has_output: name == "alpha" }
}

#[test]
fn get_status_while_running_returns_promptly_and_sorted_by_wave_then_name() {
    let tasks = vec![
        found("mid", Some(1), TaskStatus::Pending),
        found("zeta", Some(0), TaskStatus::Running),
        found("beta", Some(1), TaskStatus::Pending),
        found("alpha", Some(0), TaskStatus::Running),
    ];
    let status = get_status(Some(RunStatus::Running), tasks);
    assert_eq!(status.run_status, "running");
    let names: Vec<_> = status.tasks.iter().map(|t| t.name.as_str()).collect();
    let waves: Vec<_> = status.tasks.iter().map(|t| t.wave.unwrap()).collect();
    assert_eq!(names, vec!["alpha", "zeta", "beta", "mid"]);
    assert_eq!(waves, vec![0, 0, 1, 1]);
    assert_eq!(status.tasks[0].status, "running");
    assert!(status.tasks[0].has_output);
    assert!(!status.tasks[1].has_output);
}

#[test]
fn unknown_run_dir_get_status_returns_not_found() {
    let status = get_status(None, Vec::new());
    assert_eq!(status.run_status, "not_found");
    assert!(status.tasks.is_empty());
}

#[test]
fn run_states_have_words() {
    assert_eq!(get_status(Some(RunStatus::Done), Vec::new()).run_status, "done");
    assert_eq!(get_status(Some(RunStatus::Failed), Vec::new()).run_status, "failed");
    let tasks = vec![found("b", Some(0), TaskStatus::Done), found("a", None, TaskStatus::Done)];
    let status = get_status(Some(RunStatus::Done), tasks);
    assert_eq!(status.tasks[0].name, "a");
}

fn shown(name: &str, wave: Option<u32>, status: TaskStatus) -> ShownTask {
    let mut meta = TaskMeta::new_at(name, "/tmp", "p", at(0));
    meta.wave = wave;
    meta.status = status;
    ShownTask { meta, tokens_in: "0".to_string(), tokens_out: "0".to_string() }
}

#[test]
fn durations_are_written_in_minutes() {
    assert_eq!(minutes_label(0), "0m00s");
    assert_eq!(minutes_label(302), "5m02s");
    assert_eq!(minutes_label(754), "12m34s");
    assert_eq!(minutes_label(-65), "-1m-5s");
    let mut m = TaskMeta::new_at("t", "/w", "p", at(0));
    assert_eq!(duration_label(&m, &at(65)), "-");
    m.status = TaskStatus::Running;
    assert_eq!(duration_label(&m, &at(65)), "1m05s");
    m.end_time = Some(at(121));
    assert_eq!(duration_label(&m, &at(65)), "2m01s");
}

#[test]
fn tasks_are_shown_in_full() {
    let mut t = shown("retry_job", Some(0), TaskStatus::Done);
    t.meta.end_time = Some(at(501));
    t.meta.events_count = 187;
    t.meta.files_read = 28;
    t.meta.commands_run = 8;
    t.meta.last_action = "COMPLETED".to_string();
    t.tokens_in = "680".to_string();
    t.tokens_out = "9".to_string();
    assert_eq!(
        render_task_line(&t, &at(600)),
        "    \x1b[32m✓\x1b[0m retry_job\n      Status: done       Duration: 8m21s    Events: 187\n      Tokens: 680K in / 9K out    Files: 28  Cmds: 8\n      Last: COMPLETED\n\n"
    );
    t.meta.error = Some("é".repeat(70));
    let text = render_task_line(&t, &at(600));
    let error = format!("      \x1b[31mError: {}\x1b[0m\n\n", "é".repeat(60));
    assert!(text.ends_with(&error));
}

#[test]
fn dashboards_group_by_wave() {
    let tasks = vec![
        shown("b", Some(1), TaskStatus::Running),
        shown("z", Some(0), TaskStatus::Done),
        shown("loose", None, TaskStatus::Pending),
        shown("a", Some(1), TaskStatus::Failed),
        shown("y", Some(0), TaskStatus::Done),
    ];
    let text = render(tasks, &at(45));
    let rule = "=".repeat(72);
    let head = format!(
        "{}\n  CODEX PARALLEL DASHBOARD  |  22:14:05  |  2/5 done, 1 running, 1 failed\n{}\n\n",
        rule, rule
    );
    assert!(text.starts_with(&head), "{}", text);
    let places: Vec<usize> = [
        "loose\n",
        "  -- Wave 0 (2/2 done) --\n",
        " y\n",
        " z\n",
        "  -- Wave 1 (0/2 done) --\n",
        " a\n",
        " b\n",
    ]
    .iter()
    .map(|part| {
        assert_eq!(text.matches(part).count(), 1, "{}", part);
        text.find(part).unwrap()
    })
    .collect();
    assert!(places.windows(2).all(|w| w[0] < w[1]));
    assert!(text.ends_with(&format!(
        "{}\n  Results: outputs/*.md  |  Logs: logs/*.jsonl  |  Ctrl+C to cancel\n",
        "-".repeat(72)
    )));
}

#[test]
fn watching_stops_when_all_tasks_have_ended() {
    let mut a = TaskMeta::new("a", "/w", "p");
    let mut b = TaskMeta::new("b", "/w", "p");
    assert!(!should_stop(&Vec::new()));
    a.status = TaskStatus::Done;
    assert!(!should_stop(&vec![a.clone(), b.clone()]));
    b.status = TaskStatus::Cancelled;
    assert!(should_stop(&vec![a, b]));
}
