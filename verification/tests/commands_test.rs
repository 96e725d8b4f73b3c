use codex_par::commands::chunk::{
    locate_task_file, missing_file, plan_chunk, read_chunk, TaskFile,
};
use codex_par::commands::dispatch::{
    admit_task, admit_wave, cancel_run, check_active, check_not_cancelled, dispatched_task,
    dispatched_wave, params_to_task_def, params_to_task_defs, sealed_dispatch, DispatchTaskParams,
    RunLookup, SendOutcome,
};
use codex_par::commands::mailbox::{
    ensure_non_empty, message_path, resolve_message_context, send_message, SendMessageParams,
};
use codex_par::commands::names::validate_task_name;
use codex_par::commands::resume::{resume_session, session_id_of};
use codex_par::commands::start::{
    check_no_active_run, check_no_artifacts, seals_at_once, RunStart,
};
use codex_par::commands::tools::is_advertised;
use codex_par::config::{Sandbox, TaskDef, TasksConfig};
use codex_par::error::ToolError;
use codex_par::message::{
    holds_message, list_mailbox_messages, page_bounds, parse_message_type, text_body,
    unreadable_message, MessageEnvelope, MessageType,
};
use codex_par::meta::{RunStatus, TaskMeta, TaskStatus};
use codex_par::names::NameSet;
use codex_par::time::Timestamp;

fn params(name: &str) -> DispatchTaskParams {
    DispatchTaskParams {
        run_dir: "/tmp/run".into(),
        name: name.into(),
        cwd: ".".into(),
        prompt: "do work".into(),
        sandbox: None,
        model: None,
        depends_on: vec![],
        agent_id: None,
        thread_id: None,
        ask_for_approval: None,
        config_overrides: vec![],
        profile: None,
    }
}

fn task(name: &str, deps: &[&str]) -> TaskDef {
    let mut p = params(name);
    p.depends_on = deps.iter().map(|d| d.to_string()).collect();
    params_to_task_def(p).unwrap()
}

fn names(list: &[&str]) -> NameSet {
    let list: Vec<String> = list.iter().map(|s| s.to_string()).collect();
    NameSet::from_list(&list)
}

fn invalid(e: ToolError) -> String {
    match e {
        ToolError::InvalidParams(text) => text,
        ToolError::Internal(text) => panic!("internal: {}", text),
    }
}

#[test]
fn validate_task_name_ok() {
    for name in &["foo", "foo-bar", "foo.bar", "foo_bar", "A1.b-c_d"] {
        assert!(validate_task_name(name).is_ok(), "expected ok for {name:?}");
    }
}

#[test]
fn validate_task_name_rejects() {
    for name in &["", ".", "..", "../evil", "foo/bar", "foo bar", "foo\nbar"] {
        assert!(validate_task_name(name).is_err(), "expected err for {name:?}");
    }
}

#[test]
fn refused_task_names_say_why() {
    assert_eq!(validate_task_name("").unwrap_err().message(), "task name cannot be empty");
    assert_eq!(
        validate_task_name("..").unwrap_err().message(),
        "task name '..' is not a valid file stem"
    );
    assert!(validate_task_name("größe").is_err());
    assert!(validate_task_name("...").is_ok());
}

fn chunk_of(file: &[u8], offset: Option<u64>, max: Option<u64>) -> (String, u64, bool) {
    let (start, len) = plan_chunk(file.len() as u64, offset, max);
    let bytes = if len == 0 {
        Vec::new()
    } else {
        file[start as usize..(start + len) as usize].to_vec()
    };
    let r = read_chunk(file.len() as u64, offset, max, &bytes);
    (r.content, r.next_offset, r.eof)
}

#[test]
fn read_file_chunked_full() {
    let (content, next_offset, eof) = chunk_of(b"hello world", None, None);
    assert_eq!(content, "hello world");
    assert!(eof);
    assert_eq!(next_offset, 11);
}

#[test]
fn read_file_chunked_with_offset() {
    let (content, next_offset, eof) = chunk_of(b"hello world", Some(6), Some(5));
    assert_eq!(content, "world");
    assert!(eof);
    assert_eq!(next_offset, 11);
}

#[test]
fn read_file_chunked_partial() {
    let (content, next_offset, eof) = chunk_of(b"hello world", Some(0), Some(5));
    assert_eq!(content, "hello");
    assert!(!eof);
    assert_eq!(next_offset, 5);
}

#[test]
fn read_file_chunked_missing() {
    assert_eq!(invalid(missing_file("/x/nope.md")), "file not found: /x/nope.md");
}

#[test]
fn chunks_beyond_the_end_are_empty() {
    assert_eq!(chunk_of(b"hello", Some(9), Some(5)), (String::new(), 9, true));
    assert_eq!(chunk_of(b"hello", Some(u64::MAX), None), (String::new(), u64::MAX, true));
    assert_eq!(chunk_of(b"hello", Some(1), Some(0)), (String::new(), 1, false));
    assert_eq!(plan_chunk(1_000_000, None, None), (0, 65536));
}

#[test]
fn chunks_join_to_the_file() {
    let file: Vec<u8> = (0..1000u32).map(|i| b'a' + (i % 26) as u8).collect();
    let mut text = String::new();
    let mut offset = 0;
    loop {
        let (content, next, eof) = chunk_of(&file, Some(offset), Some(128));
        assert!(content.len() <= 128);
        text.push_str(&content);
        offset = next;
        if eof {
            break;
        }
    }
    assert_eq!(text.as_bytes(), &file[..]);
}

#[test]
fn broken_utf8_is_replaced() {
    let (content, next, eof) = chunk_of(&[b'a', 0xff, b'b'], None, None);
    assert_eq!(content, "a\u{fffd}b");
    assert_eq!((next, eof), (3, true));
    assert_eq!(chunk_of("é✓".as_bytes(), None, None).0, "é✓");
}

#[test]
fn task_files_are_found_by_name() {
    assert_eq!(locate_task_file("/r", "ok", TaskFile::Output).unwrap(), "/r/outputs/ok.md");
    assert_eq!(
        locate_task_file("/r/", "ok", TaskFile::Stderr).unwrap(),
        "/r/logs/ok.stderr.log"
    );
    assert_eq!(
        invalid(locate_task_file("/r", "", TaskFile::Output).unwrap_err()),
        "task name cannot be empty"
    );
}

#[test]
fn params_to_task_def_rejects_empty_cwd() {
    let mut p = params("task-a");
    p.cwd = "   ".into();
    let err = params_to_task_def(p).unwrap_err();
    assert!(err.message().contains("cwd cannot be empty"));
}

#[test]
fn params_to_task_def_rejects_unknown_sandbox() {
    let mut p = params("task-a");
    p.sandbox = Some("nope".into());
    let err = params_to_task_def(p).unwrap_err();
    assert!(err
        .message()
        .contains("unknown sandbox 'nope'; use read-only, read-write, or network-read-only"));
}

#[test]
fn params_fill_in_defaults() {
    let t = task("task-a", &["x"]);
    assert_eq!(t.sandbox, Sandbox::ReadOnly);
    assert_eq!(t.ask_for_approval, "never");
    assert_eq!(t.depends_on, vec!["x".to_string()]);
    let mut p = params("b");
    p.sandbox = Some("network-read-only".into());
    p.ask_for_approval = Some("always".into());
    let t = params_to_task_def(p).unwrap();
    assert_eq!(t.sandbox, Sandbox::NetworkReadOnly);
    assert_eq!(t.ask_for_approval, "always");
}

#[test]
fn the_first_bad_request_is_refused() {
    let mut bad = params("b");
    bad.sandbox = Some("x".into());
    let mut worse = params("c");
    worse.cwd = String::new();
    let e = params_to_task_defs(vec![params("a"), bad, worse]).unwrap_err();
    assert!(e.message().starts_with("unknown sandbox 'x'"));
    assert_eq!(params_to_task_defs(vec![params("a"), params("b")]).unwrap().len(), 2);
}

#[test]
fn waves_are_admitted_by_names_and_dependencies() {
    let accepted = names(&["a"]);
    let wave = vec![task("y", &["x", "a"]), task("x", &[])];
    let batch = admit_wave(&wave, &accepted).unwrap();
    assert_eq!(batch.len(), 2);
    assert!(batch.contains("x") && batch.contains("y"));
    let e = admit_wave(&vec![task("a", &[])], &accepted).unwrap_err();
    assert_eq!(invalid(e), "duplicate task name: 'a'");
    let e = admit_wave(&vec![task("x", &[]), task("x", &[])], &accepted).unwrap_err();
    assert_eq!(invalid(e), "duplicate task name: 'x'");
    let e = admit_wave(&vec![task("x", &["zz"])], &accepted).unwrap_err();
    assert_eq!(invalid(e), "task 'x' depends on unknown task 'zz'");
    let e = admit_wave(&vec![task("x", &["y"]), task("y", &["x"])], &accepted).unwrap_err();
    assert_eq!(invalid(e), "circular dependency detected");
    let e = admit_wave(&vec![task("a b", &[])], &accepted).unwrap_err();
    assert!(invalid(e).contains("invalid characters"));
}

#[test]
fn tasks_are_admitted_by_name_and_dependencies() {
    let accepted = names(&["a"]);
    assert!(admit_task(&task("b", &["a"]), &accepted).is_ok());
    assert_eq!(
        invalid(admit_task(&task("a", &[]), &accepted).unwrap_err()),
        "task name 'a' is already in this run"
    );
    assert!(invalid(admit_task(&task("b", &["c"]), &accepted).unwrap_err())
        .starts_with("depends_on references unknown task 'c'"));
}

#[test]
fn accepted_names_grow_only_when_the_request_is_sent() {
    let mut accepted = names(&["a"]);
    let e = dispatched_task(&mut accepted, "b", SendOutcome::Full).unwrap_err();
    assert!(matches!(e, ToolError::Internal(ref t)
        if t == "dispatch queue is full while enqueuing task 'b'"));
    let e = dispatched_task(&mut accepted, "b", SendOutcome::Closed).unwrap_err();
    assert_eq!(
        invalid(e),
        "task 'b' cannot be accepted because the run is no longer dispatchable"
    );
    assert!(!accepted.contains("b"));
    let r = dispatched_task(&mut accepted, "b", SendOutcome::Sent).unwrap();
    assert_eq!((r.state.as_str(), r.task_count), ("accepted", 1));
    assert!(accepted.contains("b"));
    let batch = names(&["c", "d"]);
    let r = dispatched_wave(&mut accepted, &batch, 2, SendOutcome::Sent).unwrap();
    assert_eq!(r.task_count, 2);
    assert_eq!(accepted.len(), 4);
    assert_eq!(sealed_dispatch(SendOutcome::Sent).unwrap(), "seal_requested");
    assert!(invalid(sealed_dispatch(SendOutcome::Closed).unwrap_err())
        .starts_with("dispatch seal cannot be accepted"));
}

#[test]
fn requests_of_inactive_runs_are_refused() {
    assert!(check_active(RunLookup::Active, "\"/r\"").is_ok());
    assert_eq!(
        invalid(check_active(RunLookup::Missing, "\"/r\"").unwrap_err()),
        "run_dir \"/r\" has no active run"
    );
    assert_eq!(
        invalid(check_active(RunLookup::Finished, "\"/r\"").unwrap_err()),
        "run_dir \"/r\" is already terminal"
    );
    assert!(check_not_cancelled(false).is_ok());
    assert_eq!(
        invalid(check_not_cancelled(true).unwrap_err()),
        "run has been cancelled; no new tasks accepted"
    );
}

#[test]
fn cancelling_answers_by_how_the_run_stands() {
    let d = cancel_run(RunLookup::Active);
    assert!(d.cancel && !d.forget);
    assert_eq!(d.state, "cancel_requested");
    let d = cancel_run(RunLookup::Finished);
    assert!(!d.cancel && d.forget);
    assert_eq!(d.state, "already_terminal");
    assert_eq!(cancel_run(RunLookup::Missing).state, "not_found");
}

#[test]
fn parse_message_type_defaults_to_observation() {
    assert_eq!(parse_message_type("instruction"), MessageType::Instruction);
    assert_eq!(parse_message_type("artifact-ref"), MessageType::ArtifactRef);
    assert_eq!(parse_message_type("unknown"), MessageType::Observation);
}

#[test]
fn message_types_ignore_case_and_space() {
    assert_eq!(parse_message_type("  Artifact_Ref\n"), MessageType::ArtifactRef);
    assert_eq!(parse_message_type("CRITIQUE"), MessageType::Critique);
    assert_eq!(parse_message_type("decision"), MessageType::Decision);
    assert_eq!(parse_message_type("observation"), MessageType::Observation);
}

fn meta(name: &str, agent: &str, thread: &str, run: &str) -> TaskMeta {
    let mut m = TaskMeta::new(name, "/tmp", "p");
    m.agent_id = agent.into();
    m.thread_id = thread.into();
    m.run_id = run.into();
    m
}

#[test]
fn resolve_message_context_prefers_exact_agent_and_thread_match() {
    let first = meta("planner-task", "planner", "thread-a", "run-123");
    let second = meta("editor-task", "planner", "thread-b", "run-123");

    let (run_id, task_id) =
        resolve_message_context(&vec![first, second], "/r", "thread-b", "planner").unwrap();
    assert_eq!(run_id, "run-123");
    assert_eq!(task_id, "editor-task");
}

#[test]
fn message_context_falls_back() {
    let metas = vec![meta("t1", "x", "thread-a", ""), meta("t2", "y", "thread-b", "run-9")];
    let (run, task) = resolve_message_context(&metas, "/r", "thread-z", "y").unwrap();
    assert_eq!((run.as_str(), task.as_str()), ("run-9", "t2"));
    let (run, task) = resolve_message_context(&metas, "/r", "thread-a", "nobody").unwrap();
    assert_eq!((run.as_str(), task.as_str()), ("", "t1"));
    let (run, task) = resolve_message_context(&metas, "/r", "thread-z", "nobody").unwrap();
    assert_eq!((run.as_str(), task.as_str()), ("run-9", "nobody"));
    let none = vec![meta("t1", "x", "thread-a", "")];
    assert_eq!(
        resolve_message_context(&none, "/r", "t", "nobody").unwrap_err().message(),
        "no task metadata with run_id found in /r"
    );
}

fn message(to: &str, body: &str, seconds: i64) -> MessageEnvelope {
    stored("task-1", "thread-a", to, MessageType::Observation, body, seconds)
}

fn stored(
    task: &str,
    thread: &str,
    to: &str,
    msg_type: MessageType,
    body: &str,
    seconds: i64,
) -> MessageEnvelope {
    let mut m = MessageEnvelope::new(
        "run-1".into(),
        task.into(),
        thread.into(),
        "planner".into(),
        to.into(),
        msg_type,
        text_body(body.into()),
    );
    m.created_at = Timestamp::new(seconds, 0, 0).unwrap();
    m
}

#[test]
fn list_mailbox_messages_filters_sorts_and_pages() {
    let now = 1_700_000_000;
    let first =
        stored("task-1", "thread-a", "editor", MessageType::Observation, "first", now - 10);
    let second = stored("task-2", "thread-b", "editor", MessageType::Decision, "second", now);
    let third = stored("task-3", "thread-c", "other-agent", MessageType::Critique, "ignore", now);

    let page = list_mailbox_messages(vec![second, first, third], "editor", 1, 1);
    assert_eq!(page.len(), 1);
    assert_eq!(page[0].body, serde_json::Value::String("second".into()));
}

#[test]
fn messages_are_copied_whole() {
    let mut m = stored("t", "th", "r", MessageType::Critique, "text", 7);
    m.parent_message_id = Some("p".into());
    m.body = serde_json::from_str(r#"{"a":[1,"x"]}"#).unwrap();
    let c = m.clone();
    assert_eq!(c.body, m.body);
    assert_eq!(c.message_id, m.message_id);
    assert_eq!((c.task_id.as_str(), c.thread_id.as_str()), ("t", "th"));
    assert_eq!(c.msg_type, MessageType::Critique);
    assert_eq!(c.parent_message_id.as_deref(), Some("p"));
    assert_eq!(c.created_at, m.created_at);
}

#[test]
fn mailboxes_keep_the_stored_order_of_equal_times() {
    let all = vec![
        message("r", "b", 5),
        message("r", "c", 5),
        message("r", "a", 4),
        message("r", "d", 5),
    ];
    let page = list_mailbox_messages(all, "r", 50, 0);
    let bodies: Vec<&str> = page.iter().map(|m| m.body.as_str().unwrap()).collect();
    assert_eq!(bodies, vec!["a", "b", "c", "d"]);
    assert_eq!(list_mailbox_messages(vec![message("r", "x", 1)], "r", 5, 7).len(), 0);
    assert_eq!(list_mailbox_messages(vec![message("r", "x", 1)], "r", 0, 0).len(), 0);
    assert_eq!(page_bounds(None, None), (50, 0));
    assert_eq!(page_bounds(Some(3), Some(4)), (3, 4));
}

#[test]
fn mailbox_pages_follow_each_other() {
    let all = || (0..5).map(|i| message("r", &i.to_string(), i)).collect::<Vec<_>>();
    let bodies = |limit, offset| -> Vec<String> {
        list_mailbox_messages(all(), "r", limit, offset)
            .iter()
            .map(|m| m.body.as_str().unwrap().to_string())
            .collect()
    };
    assert_eq!(bodies(2, 0), vec!["0", "1"]);
    assert_eq!(bodies(2, 2), vec!["2", "3"]);
    assert_eq!(bodies(2, 4), vec!["4"]);
    assert_eq!(bodies(4, 0), vec!["0", "1", "2", "3"]);
}

#[test]
fn mailbox_lines_are_checked() {
    assert!(!holds_message(" \t "));
    assert!(holds_message(" {} "));
    assert_eq!(
        unreadable_message("/m/t.jsonl", 12),
        "failed to parse message in /m/t.jsonl at line 12"
    );
}

fn request() -> SendMessageParams {
    SendMessageParams {
        run_dir: "/r".into(),
        thread_id: "thread-a".into(),
        from_agent: "planner".into(),
        to_agent: "editor".into(),
        msg_type: "Decision".into(),
        body: "go".into(),
    }
}

#[test]
fn messages_are_sent_for_a_task() {
    let metas = vec![meta("t1", "planner", "thread-a", "run-1")];
    let m = send_message(request(), Ok(metas)).unwrap();
    assert_eq!(m.run_id, "run-1");
    assert_eq!(m.task_id, "t1");
    assert_eq!(m.to_agent, "editor");
    assert_eq!(m.msg_type, MessageType::Decision);
    assert_eq!(m.body, serde_json::Value::String("go".into()));
    assert_eq!(m.parent_message_id, None);
    assert_eq!(m.message_id.len(), 36);
    assert_eq!(message_path("/r", "thread-a"), "/r/logs/messages/thread-a.jsonl");
}

#[test]
fn messages_with_blank_fields_are_refused() {
    let mut p = request();
    p.from_agent = " ".into();
    p.to_agent = String::new();
    assert_eq!(
        invalid(send_message(p, Ok(Vec::new())).unwrap_err()),
        "from_agent cannot be empty"
    );
    assert_eq!(
        invalid(send_message(request(), Err("broken".into())).unwrap_err()),
        "broken"
    );
    assert_eq!(ensure_non_empty("key", "").unwrap_err().message(), "key cannot be empty");
}

#[test]
fn identifiers_are_random_uuids() {
    let a = message("r", "a", 1).message_id;
    let b = message("r", "a", 1).message_id;
    assert_ne!(a, b);
    for id in [a, b] {
        assert_eq!(id.len(), 36);
        for (i, c) in id.chars().enumerate() {
            match i {
                8 | 13 | 18 | 23 => assert_eq!(c, '-'),
                14 => assert_eq!(c, '4'),
                19 => assert!("89ab".contains(c)),
                _ => assert!("0123456789abcdef".contains(c)),
            }
        }
    }
}

#[test]
fn only_ended_tasks_with_a_session_are_resumed() {
    let mut m = meta("t", "a", "b", "r");
    assert_eq!(
        invalid(resume_session("t", Ok(m.clone())).unwrap_err()),
        "task 't' is not in a terminal state"
    );
    m.status = TaskStatus::Done;
    assert_eq!(
        invalid(resume_session("t", Ok(m.clone())).unwrap_err()),
        "task 't' has no saved session_id"
    );
    m.session_id = Some("s-1".into());
    let (meta, session) = resume_session("t", Ok(m.clone())).unwrap();
    assert_eq!(session, "s-1");
    assert_eq!(meta.name, "t");
    assert_eq!(session_id_of("t", Ok(m)).unwrap(), Some("s-1".to_string()));
    assert_eq!(
        invalid(session_id_of("t", Err("gone".into())).unwrap_err()),
        "failed to load task meta for 't': gone"
    );
    assert!(invalid(session_id_of("a/b", Err("gone".into())).unwrap_err())
        .contains("invalid characters"));
}

#[test]
fn initialize_and_tools_list_return_expected_tool_names() {
    let all = [
        "start_run",
        "get_status",
        "read_output",
        "read_stderr",
        "resume_agent",
        "get_session_id",
        "send_message",
        "list_mailbox",
        "dispatch_task",
        "dispatch_wave",
        "seal_dispatch",
        "write_fact",
        "read_facts",
        "cancel_run",
    ];
    let mut shown: Vec<&str> = all.iter().copied().filter(|t| is_advertised(t)).collect();
    shown.sort();
    assert_eq!(
        shown,
        vec!["cancel_run", "get_status", "read_output", "read_stderr", "start_run"]
    );
}

fn config(tasks: Vec<TaskDef>) -> TasksConfig {
    TasksConfig { tasks }
}

#[test]
fn started_runs_are_planned_whole() {
    let tasks = vec![task("root", &[]), task("sibling", &[]), task("downstream", &["root"])];
    let start = RunStart::prepare(config(tasks)).unwrap();
    let result = start.result("/r");
    assert_eq!(result.task_count, 3);
    assert_eq!(result.wave_count, 2);
    assert_eq!(result.poll_interval_ms, 2000);
    assert_eq!(result.run_dir, "/r");
    let at = Timestamp::now();
    let run_meta = start.run_meta(at);
    assert_eq!(run_meta.status, RunStatus::Running);
    assert_eq!(run_meta.task_count, 3);
    assert_eq!(run_meta.started_at, at);
    let metas = start.metas();
    assert_eq!(metas.len(), 2);
    assert_eq!(metas[0][0].name, "root");
    assert_eq!(metas[0][0].wave, Some(0));
    assert_eq!(metas[0][1].wave, Some(0));
    assert_eq!(metas[1][0].wave, Some(1));
    assert_eq!(metas[1][0].status, TaskStatus::Pending);
    assert_eq!(metas[1][0].agent_id, "downstream");
    assert_eq!(metas[1][0].run_id, start.run_id);
    let (tasks, accepted) = start.into_tasks();
    let order: Vec<&str> = tasks.iter().map(|t| t.name.as_str()).collect();
    assert_eq!(order, vec!["root", "sibling", "downstream"]);
    assert_eq!(accepted.len(), 3);
}

#[test]
fn runs_that_cannot_start_are_refused() {
    let e = RunStart::prepare(config(vec![task("a", &["b"])])).unwrap_err();
    assert_eq!(invalid(e), "task 'a' depends on unknown task 'b'");
    assert_eq!(
        invalid(check_no_active_run(RunLookup::Active, "\"/r\"").unwrap_err()),
        "run_dir \"/r\" already has an active run; cancel it first"
    );
    assert!(check_no_active_run(RunLookup::Finished, "\"/r\"").is_ok());
    assert!(check_no_active_run(RunLookup::Missing, "\"/r\"").is_ok());
    assert_eq!(
        invalid(check_no_artifacts(false, 0, 1).unwrap_err()),
        "run_dir contains existing artifacts; pass clean=true to remove them"
    );
    assert!(check_no_artifacts(true, 4, 1).is_ok());
    assert!(check_no_artifacts(false, 0, 0).is_ok());
    assert!(seals_at_once(false));
    assert!(!seals_at_once(true));
}
