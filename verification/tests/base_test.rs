use codex_par::artifact::{Artifact, ArtifactFormat, ArtifactType};
use codex_par::listing::{mailbox_files, status_files};
use codex_par::names::NameSet;
use codex_par::order::{pick, stable_order};
use codex_par::paths::{
    event_file_name, is_dashboard_file, is_mailbox_file, is_status_file, join_path, meta_file_name,
    meta_tmp_file_name, output_file_name, stderr_file_name,
};
use codex_par::text::{
    comes_before, contains_text, decimal_int_text, decimal_text, ends_with_text, is_blank,
    last_segment_text, lower_text, pad_right, repeat_char, same_text, trim_end_text,
    trim_text, truncate_utf8,
};
use codex_par::time::Timestamp;

fn list(items: &[&str]) -> Vec<String> {
    items.iter().map(|s| s.to_string()).collect()
}

#[test]
fn texts_are_taken_apart() {
    assert!(same_text("é", "é"));
    assert!(!same_text("a", "ab"));
    assert!(is_blank(" \u{2003}\t"));
    assert!(!is_blank(" x"));
    assert_eq!(trim_text("\u{a0} a b \n"), "a b");
    assert_eq!(trim_end_text(" a \r\n"), " a");
    assert_eq!(trim_end_text("  "), "");
    assert_eq!(lower_text("AÉz9"), "aÉz9");
    assert_eq!(truncate_utf8("héllo", 2), "hé");
    assert_eq!(truncate_utf8("hé", 9), "hé");
    assert!(ends_with_text("a.json", ".json"));
    assert!(!ends_with_text("n", ".json"));
    assert!(contains_text("a.meta.json", ".meta."));
    assert!(!contains_text("ameta", ".meta."));
    assert!(contains_text("x", ""));
    assert_eq!(last_segment_text("/a/b/c"), "c");
    assert_eq!(last_segment_text("c"), "c");
    assert_eq!(last_segment_text("c/"), "");
}

#[test]
fn texts_are_put_together() {
    assert_eq!(pad_right("é", 3), "é  ");
    assert_eq!(pad_right("long", 3), "long");
    assert_eq!(repeat_char('=', 4), "====");
    assert_eq!(decimal_text(0), "0");
    assert_eq!(decimal_text(u64::MAX), "18446744073709551615");
    assert_eq!(decimal_int_text(-42), "-42");
    assert_eq!(decimal_int_text(i64::MIN), "-9223372036854775808");
}

#[test]
fn texts_are_ordered() {
    assert!(comes_before("a", "b"));
    assert!(comes_before("a", "aa"));
    assert!(comes_before("Z", "a"));
    assert!(!comes_before("a", "a"));
    assert!(comes_before("é", "✓"));
}

#[test]
fn names_are_held_once() {
    let mut set = NameSet::from_list(&list(&["a", "b", "a"]));
    assert_eq!(set.len(), 2);
    assert!(!set.insert("a"));
    assert!(set.insert("c"));
    set.remove("b");
    assert!(!set.contains("b"));
    let mut other = set.duplicate();
    assert!(set.is_subset(&other));
    other.extend(&NameSet::from_list(&list(&["d", "a"])));
    assert_eq!(other.len(), 3);
    assert!(!other.is_subset(&set));
    let mut names = other.to_list();
    names.sort();
    assert_eq!(names, list(&["a", "c", "d"]));
}

#[test]
fn sorting_is_stable() {
    let times: Vec<Timestamp> =
        [5, 3, 5, 1].iter().map(|s| Timestamp::new(*s, 0, 0).unwrap()).collect();
    let order = stable_order(&times);
    assert_eq!(order, vec![3, 1, 0, 2]);
    assert_eq!(pick(list(&["a", "b", "c", "d"]), &order), list(&["d", "b", "a", "c"]));
}

#[test]
fn files_are_told_apart_by_name() {
    assert_eq!(meta_file_name("t"), "t.meta.json");
    assert_eq!(meta_tmp_file_name("t"), "t.meta.json.tmp");
    assert_eq!(event_file_name("t"), "t.jsonl");
    assert_eq!(stderr_file_name("t"), "t.stderr.log");
    assert_eq!(output_file_name("t"), "t.md");
    assert!(is_status_file("t.meta.json"));
    assert!(!is_status_file("t.meta.json.tmp"));
    assert!(!is_status_file("t.json"));
    assert!(is_mailbox_file("t.jsonl"));
    assert!(!is_mailbox_file(".jsonl"));
    assert!(is_dashboard_file("/l/t.meta.json", "t.meta.json"));
    assert!(!is_dashboard_file("/l/t.meta.json.tmp", "t.meta.json.tmp"));
    assert!(!is_dashboard_file("/l/t.json", "t.json"));
}

#[test]
fn paths_are_joined() {
    assert_eq!(join_path("/a", "b"), "/a/b");
    assert_eq!(join_path("/a/", "b"), "/a/b");
    assert_eq!(join_path("", "b"), "b");
    assert_eq!(join_path("/a", "/b"), "/b");
    assert_eq!(join_path("/a", ""), "/a/");
}

#[test]
fn directories_are_read_by_name() {
    let names = list(&["b.meta.json", "x.jsonl", "a.meta.json", "a.meta.json.tmp", "c.jsonl"]);
    assert_eq!(status_files(&names), vec![2, 0]);
    assert_eq!(mailbox_files(&names), vec![4, 1]);
}

#[test]
fn times_are_told_apart() {
    let a = Timestamp::new(1_772_794_756, 169_000_000, 3600).unwrap();
    assert_eq!(a.clock_text(), "11:59:16");
    assert_eq!(a.to_rfc3339(), "2026-03-06T11:59:16.169+01:00");
    let b = Timestamp::new(1_772_794_817, 0, 0).unwrap();
    assert_eq!(a.seconds_until(&b), 60);
    assert_eq!(b.seconds_until(&a), -60);
    assert_eq!((a.seconds(), a.nanos(), a.offset()), (1_772_794_756, 169_000_000, 3600));
    assert!(Timestamp::new(0, 1_000_000_000, 0).is_none());
    assert!(Timestamp::new(59, 2_000_000_000, 0).is_none());
    assert!(Timestamp::new(i64::MAX, 0, 0).is_none());
    assert!(Timestamp::new(0, 0, 86_400).is_none());
    assert!(Timestamp::now().seconds() > 1_700_000_000);
}

#[test]
fn leap_seconds_are_points_in_time() {
    // 2016-12-31T23:59:60.5Z
    let leap = Timestamp::new(1_483_228_799, 1_500_000_000, 3600).unwrap();
    assert_eq!(leap.clock_text(), "00:59:60");
    assert_eq!(leap.to_rfc3339(), "2017-01-01T00:59:60.500+01:00");
    assert_eq!((leap.seconds(), leap.nanos()), (1_483_228_799, 1_500_000_000));
    let before = Timestamp::new(1_483_228_799, 0, 0).unwrap();
    let after = Timestamp::new(1_483_228_800, 500_000_000, 0).unwrap();
    assert_eq!(before.seconds_until(&leap), 1);
    assert_eq!(leap.seconds_until(&before), -1);
    assert_eq!(leap.seconds_until(&after), 0);
    assert_eq!(stable_order(&vec![after, leap, before]), vec![2, 1, 0]);
    assert!(Timestamp::new(-1, 1_000_000_000, 0).is_some());
    assert!(Timestamp::new(-2, 1_000_000_000, 0).is_none());
    // A leap second at noon counts once the day goes on.
    let noon = Timestamp::new(43_199, 1_000_000_000, 0).unwrap();
    let later = Timestamp::new(43_200, 0, 0).unwrap();
    let evening = Timestamp::new(43_210, 0, 0).unwrap();
    assert_eq!(noon.seconds_until(&later), 1);
    assert_eq!(noon.seconds_until(&evening), 11);
    assert_eq!(evening.seconds_until(&noon), -11);
}

#[test]
fn results_are_artifacts() {
    let at = Timestamp::new(1_772_794_756, 0, 0).unwrap();
    let a = Artifact::new_output_at(
        "id-1".to_string(),
        "run",
        "task",
        "agent",
        "/r/outputs/task.md".to_string(),
        &at,
    );
    assert_eq!(a.artifact_type, ArtifactType::Output);
    assert_eq!(a.format, ArtifactFormat::Markdown);
    assert_eq!(a.created_at, "2026-03-06T10:59:16+00:00");
    assert_eq!(a.summary, "");
    assert!(a.references.is_empty());
    assert_eq!(a.file_name(), "id-1.json");
    assert_eq!(a.tmp_file_name(), "id-1.json.tmp");
    let copy = a.clone();
    assert_eq!((copy.artifact_id, copy.path), (a.artifact_id.clone(), a.path.clone()));
    let b = Artifact::new_output("run", "task", "agent", "p".to_string());
    assert_eq!(b.artifact_id.len(), 36);
    assert_eq!((b.run_id.as_str(), b.producer_agent.as_str()), ("run", "agent"));
}
