use codex_par::commands::tail::{tail_end, tail_line, tail_step, TailLine};
use codex_par::event::{CodexEvent, EventFields};
use codex_par::json::{read_count, read_text};
use codex_par::meta::{TaskMeta, TaskStatus};

fn shown(e: Option<CodexEvent>) -> String {
    format!("{:?}", e)
}

#[test]
fn token_counts_are_read() {
    let line = r#"{"payload":{"type":"token_count","info":{"total_token_usage":{"input_tokens":1100,"output_tokens":15}}}}"#;
    assert_eq!(
        shown(CodexEvent::parse(line)),
        "Some(TokenCount { input_tokens: 1100, output_tokens: 15 })"
    );
    let line = r#"{"payload":{"type":"token_count","info":{"total_token_usage":{"input_tokens":-3}}}}"#;
    assert_eq!(
        shown(CodexEvent::parse(line)),
        "Some(TokenCount { input_tokens: 0, output_tokens: 0 })"
    );
    let line = r#"{"payload":{"type":"token_count","info":{"total_token_usage":null}}}"#;
    assert_eq!(
        shown(CodexEvent::parse(line)),
        "Some(TokenCount { input_tokens: 0, output_tokens: 0 })"
    );
    assert!(CodexEvent::parse(r#"{"payload":{"type":"token_count","info":null}}"#).is_none());
}

#[test]
fn calls_are_read() {
    let line = r#"{"payload":{"type":"read_file","call":{"args":{"file_path":"/a/b.rs"}}}}"#;
    assert_eq!(shown(CodexEvent::parse(line)), "Some(ReadFile { file_path: \"/a/b.rs\" })");
    let line = r#"{"payload":{"type":"exec_command","call":{"args":{"command":"ls"}}}}"#;
    assert_eq!(shown(CodexEvent::parse(line)), "Some(ExecCommand { command: \"ls\" })");
    let line = r#"{"payload":{"type":"read_file","call":{"args":{"file_path":7}}}}"#;
    assert_eq!(shown(CodexEvent::parse(line)), "Some(ReadFile { file_path: \"?\" })");
    let line = r#"{"payload":{"type":"exec_command"}}"#;
    assert_eq!(shown(CodexEvent::parse(line)), "Some(ExecCommand { command: \"?\" })");
}

#[test]
fn other_lines_are_told_apart() {
    let complete = r#"{"payload":{"type":"task_complete"}}"#;
    assert_eq!(shown(CodexEvent::parse(complete)), "Some(TaskComplete)");
    let other = r#"{"payload":{"type":"thinking"}}"#;
    assert_eq!(shown(CodexEvent::parse(other)), "Some(Other(\"thinking\"))");
    assert!(CodexEvent::parse("not json").is_none());
    assert!(CodexEvent::parse("{}").is_none());
    assert!(CodexEvent::parse(r#"{"payload":{"type":5}}"#).is_none());
    assert!(CodexEvent::parse("").is_none());
}

#[test]
fn events_are_made_from_fields() {
    let fields = EventFields {
        kind: Some("token_count".to_string()),
        has_usage: true,
        input_tokens: Some(9),
        output_tokens: None,
        file_path: None,
        command: None,
    };
    assert_eq!(
        shown(CodexEvent::from_fields(&fields)),
        "Some(TokenCount { input_tokens: 9, output_tokens: 0 })"
    );
    let fields = EventFields { has_usage: false, ..fields };
    assert!(CodexEvent::from_fields(&fields).is_none());
    let fields = EventFields { kind: None, ..fields };
    assert!(CodexEvent::from_fields(&fields).is_none());
}

#[test]
fn documents_are_read_by_pointer() {
    let v: serde_json::Value = serde_json::from_str(r#"{"a":{"b":["x",12]}}"#).unwrap();
    assert_eq!(read_text(&v, "/a/b/0").as_deref(), Some("x"));
    assert_eq!(read_text(&v, "/a/b/1"), None);
    assert_eq!(read_count(&v, "/a/b/1"), Some(12));
    assert_eq!(read_count(&v, "/a/c"), None);
    assert_eq!(read_count(&v, "a"), None);
}

#[test]
fn timestamps_are_cut_out() {
    let line = r#"{"timestamp":"2026-03-06T10:59:16.169Z","payload":{}}"#;
    assert_eq!(CodexEvent::extract_timestamp(line), "10:59:16");
    assert_eq!(CodexEvent::timestamp_span(line), Some((25, 33)));
    assert_eq!(CodexEvent::extract_timestamp(r#"{"payload":{}}"#), "");
    assert_eq!(CodexEvent::extract_timestamp(r#"{"timestamp":"2026"}"#), "");
    assert_eq!(CodexEvent::extract_timestamp(r#""timestamp":"2026-03-06T10:59:16"#), "10:59:16");
    assert_eq!(CodexEvent::extract_timestamp(""), "");
    let twice = r#"é "timestamp":"2026-03-06T10:59:16Z" "timestamp":"2026-03-06T11:00:00Z""#;
    assert_eq!(CodexEvent::extract_timestamp(twice), "10:59:16");
}

#[test]
fn followed_events_are_shown() {
    let line = concat_line("read_file", r#""call":{"args":{"file_path":"/a/b.rs"}}"#);
    assert_eq!(text(tail_step(&line)), "[10:59:16] READ  /a/b.rs");
    let line = concat_line("exec_command", r#""call":{"args":{"command":"ls -l"}}"#);
    assert_eq!(text(tail_step(&line)), "[10:59:16] EXEC  ls -l");
    let line = concat_line("task_complete", r#""x":1"#);
    assert_eq!(text(tail_step(&line)), "[10:59:16] === TASK COMPLETE ===");
    let line = concat_line(
        "token_count",
        r#""info":{"total_token_usage":{"input_tokens":4200}}"#,
    );
    assert!(matches!(tail_step(&line), Some(TailLine::Tokens { ref timestamp, input_tokens: 4200 })
        if timestamp == "10:59:16"));
    let line = concat_line("thinking", r#""x":1"#);
    assert!(matches!(tail_step(&line), Some(TailLine::Nothing)));
    assert!(matches!(tail_step("nothing"), Some(TailLine::Nothing)));
}

fn concat_line(kind: &str, rest: &str) -> String {
    format!(
        "{{\"timestamp\":\"2026-03-06T10:59:16.169Z\",\"payload\":{{\"type\":\"{}\",{}}}}}\r\n",
        kind, rest
    )
}

fn text(line: Option<TailLine>) -> String {
    match line {
        Some(TailLine::Text(s)) => s,
        other => panic!("no text: {:?}", other),
    }
}

#[test]
fn times_inside_a_character_are_not_cut() {
    let line = r#"{"timestamp":"2026-03-06éé:59:16.1é9Z","payload":{"type":"task_complete"}}"#;
    assert!(CodexEvent::parse(line).is_some());
    assert!(tail_step(line).is_none());
    assert!(matches!(tail_step("\"timestamp\":\"2026-03-06éé:59:16.1é9Z"), Some(TailLine::Nothing)));
}

#[test]
fn session_starts_are_not_shown() {
    let e = CodexEvent::SessionStart { session_id: "s".to_string() };
    assert!(matches!(tail_line(&e, "10:00:00"), TailLine::Nothing));
}

#[test]
fn following_ends_with_the_task() {
    let mut m = TaskMeta::new("t", "/w", "p");
    assert_eq!(tail_end(&None), None);
    m.status = TaskStatus::Running;
    assert_eq!(tail_end(&Some(m.clone())), None);
    m.status = TaskStatus::Failed;
    assert_eq!(tail_end(&Some(m)).as_deref(), Some("\n--- Task t (failed) ---"));
}
