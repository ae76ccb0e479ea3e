//! The queue of a mirrored transcript.
use claude_agent_rust_sdk::sessions::mirror::{
    after_append, coalesce, dropped_files, json_dumps_len_list, plan_flush, AppendOutcome,
    AppendStep, MirrorEntry, Pending, MAX_PENDING_BYTES, MAX_PENDING_ENTRIES, MIRROR_APPEND_MAX_ATTEMPTS,
};
use claude_agent_rust_sdk::sessions::resume::pending_limits;
use claude_agent_rust_sdk::sessions::store::{SessionStoreEntry, SessionStoreFlushMode};
use serde_json::Value;

fn entry(uuid: &str) -> SessionStoreEntry {
    let mut m = SessionStoreEntry::new();
    m.insert("type".into(), Value::from("user"));
    m.insert("uuid".into(), Value::from(uuid));
    m
}

fn entry_from(text: &str) -> SessionStoreEntry {
    match serde_json::from_str(text).unwrap() {
        Value::Object(m) => m,
        _ => panic!("entry must be an object"),
    }
}

fn uuids(entries: &[SessionStoreEntry]) -> Vec<&str> {
    entries.iter().map(|e| e["uuid"].as_str().unwrap()).collect()
}

#[test]
fn json_dumps_len_matches_python() {
    let check = |v: &str, expected: usize| {
        let entries = vec![entry_from(v)];
        let mut size = 0usize;
        json_dumps_len_list(&entries, &mut size);
        assert_eq!(size, expected, "json.dumps byte length parity");
    };
    check(r#"{"type":"x","uuid":"abc"}"#, 30);
    check(r#"{"type":"x","msg":"café ☕"}"#, 42);
    check(r#"{"type":"x","msg":"emoji 😀 test"}"#, 49);
    check("{\"type\":\"x\",\"msg\":\"a\\\"b\\\\c\\nd\\te\"}", 39);
    check("{\"type\":\"x\",\"msg\":\"\\u0001\\u0008\\u000c\"}", 36);
}

#[test]
fn sizes_of_every_sort_of_value() {
    let size = |v: &str| {
        let mut n = 0usize;
        json_dumps_len_list(&vec![entry_from(v)], &mut n);
        n - 2
    };
    assert_eq!(size("{}"), "{}".len());
    assert_eq!(
        size(r#"{"a":null,"b":true,"c":false}"#),
        r#"{"a": null, "b": true, "c": false}"#.len()
    );
    assert_eq!(
        size(r#"{"a":[1,-20,3.5],"b":[],"c":{"d":"e"}}"#),
        r#"{"a": [1, -20, 3.5], "b": [], "c": {"d": "e"}}"#.len()
    );
    let mut acc = 5usize;
    json_dumps_len_list(&Vec::new(), &mut acc);
    assert_eq!(acc, 7);
    let mut full = usize::MAX - 1;
    json_dumps_len_list(&vec![entry("a")], &mut full);
    assert_eq!(full, usize::MAX, "the count stops at its end");
}

fn frame(path: &str, entries: Vec<SessionStoreEntry>) -> MirrorEntry {
    MirrorEntry {
        file_path: path.to_string(),
        entries,
    }
}

#[test]
fn flush_coalesces_entries_per_path_in_order() {
    let sid = uuid::Uuid::new_v4();
    let path = format!("/tmp/projects/proj/{sid}.jsonl");
    let mut pending = Pending::default();
    assert!(!pending.enqueue(&path, vec![entry("a")], MAX_PENDING_ENTRIES, MAX_PENDING_BYTES));
    assert!(!pending.enqueue(
        &path,
        vec![entry("b"), entry("c")],
        MAX_PENDING_ENTRIES,
        MAX_PENDING_BYTES
    ));
    let appends = plan_flush(&pending.take(), "/tmp/projects", false);
    assert_eq!(appends.len(), 1, "one append per unique path");
    assert_eq!(appends[0].key.project_key, "proj");
    assert_eq!(appends[0].key.session_id, sid.to_string());
    assert_eq!(appends[0].key.subpath, None);
    assert_eq!(uuids(&appends[0].entries), vec!["a", "b", "c"], "enqueue order preserved");
    assert!(pending.take().is_empty(), "frames are taken once");
}

#[test]
fn distinct_paths_get_distinct_appends_in_first_seen_order() {
    let s1 = uuid::Uuid::new_v4();
    let s2 = uuid::Uuid::new_v4();
    let p1 = format!("/tmp/projects/proj/{s1}.jsonl");
    let p2 = format!("/tmp/projects/proj/{s2}.jsonl");
    let items = vec![
        frame(&p2, vec![entry("x")]),
        frame(&p1, vec![entry("y")]),
        frame(&p2, vec![entry("z")]),
    ];
    assert_eq!(coalesce(&items).len(), 2);
    let appends = plan_flush(&items, "/tmp/projects", false);
    assert_eq!(appends.len(), 2);
    assert_eq!(appends[0].key.session_id, s2.to_string());
    assert_eq!(appends[1].key.session_id, s1.to_string());
    assert_eq!(uuids(&appends[0].entries), vec!["x", "z"]);
}

#[test]
fn frames_of_other_files_are_told_of_as_dropped() {
    let items = vec![
        frame("/elsewhere/a.jsonl", vec![entry("x")]),
        frame("/tmp/projects/proj/s.jsonl", vec![entry("y")]),
        frame("/elsewhere/b.jsonl", Vec::new()),
        frame("/elsewhere/a.jsonl", vec![entry("z")]),
    ];
    assert_eq!(dropped_files(&items, "/tmp/projects", false), vec!["/elsewhere/a.jsonl"]);
    let appends = plan_flush(&items, "/tmp/projects", false);
    assert_eq!(appends.len(), 1);
    assert_eq!(appends[0].file_path, "/tmp/projects/proj/s.jsonl");
}

#[test]
fn entry_threshold_signals_eager_flush() {
    let mut pending = Pending::default();
    assert!(
        pending.enqueue("/tmp/projects/p/s.jsonl", vec![entry("a")], 0, 0),
        "eager signals immediately"
    );
    let mut empty = Pending::default();
    assert!(empty.enqueue("/tmp/projects/p/s.jsonl", Vec::new(), 0, 0));
}

#[test]
fn batched_threshold_only_signals_after_overflow() {
    let mut pending = Pending::default();
    let path = "/tmp/projects/p/s.jsonl";
    assert!(!pending.enqueue(path, vec![entry("a"), entry("b")], 3, MAX_PENDING_BYTES));
    assert!(pending.enqueue(path, vec![entry("c"), entry("d")], 3, MAX_PENDING_BYTES));
    let mut large = Pending::default();
    assert!(large.enqueue(path, vec![entry(&"x".repeat(MAX_PENDING_BYTES))], 500, MAX_PENDING_BYTES));
}

#[test]
fn build_mirror_batcher_eager_vs_batched() {
    let small = || vec![entry_from(r#"{"type":"user"}"#)];
    let (entries, bytes) = pending_limits(SessionStoreFlushMode::Eager);
    assert!(Pending::default().enqueue("/x/s.jsonl", small(), entries, bytes));
    let (entries, bytes) = pending_limits(SessionStoreFlushMode::Batched);
    assert!(!Pending::default().enqueue("/x/s.jsonl", small(), entries, bytes));
    assert_eq!((entries, bytes), (MAX_PENDING_ENTRIES, MAX_PENDING_BYTES));
}

#[test]
fn empty_batch_does_not_append() {
    let items = vec![frame("/tmp/projects/proj/s.jsonl", Vec::new())];
    assert!(plan_flush(&items, "/tmp/projects", false).is_empty(), "no phantom append");
}

#[test]
fn unresolvable_path_is_dropped_without_error() {
    let items = vec![frame("/somewhere/else/foo.jsonl", vec![entry("a")])];
    assert!(plan_flush(&items, "/tmp/projects", false).is_empty());
}

/// Runs a batch whose appends end as told: how many were made, the waits
/// between them, and what was reported.
fn run(outcomes: Vec<AppendOutcome>) -> (usize, Vec<u64>, Option<String>) {
    let mut waits = Vec::new();
    let mut attempts = 0;
    for outcome in outcomes {
        attempts += 1;
        match after_append(attempts, outcome) {
            AppendStep::Finished => return (attempts, waits, None),
            AppendStep::RetryAfter(ms) => waits.push(ms),
            AppendStep::GiveUp(text) => return (attempts, waits, Some(text)),
        }
    }
    panic!("the batch never ended");
}

fn boom() -> AppendOutcome {
    AppendOutcome::Failed("boom".to_string())
}

#[test]
fn transient_failure_retries_then_succeeds() {
    let (attempts, waits, error) = run(vec![boom(), boom(), AppendOutcome::Done]);
    assert_eq!(attempts, 3);
    assert_eq!(waits, vec![200, 800]);
    assert_eq!(error, None, "eventual success");
}

#[test]
fn permanent_failure_reports_on_error_after_max_attempts() {
    let (attempts, _, error) = run(vec![boom(), boom(), boom(), boom()]);
    assert_eq!(attempts, MIRROR_APPEND_MAX_ATTEMPTS);
    assert_eq!(error.as_deref(), Some("boom"));
}

#[test]
fn timeout_is_not_retried() {
    let (attempts, waits, error) = run(vec![AppendOutcome::TimedOut("0.5".to_string()), boom()]);
    assert_eq!(attempts, 1);
    assert!(waits.is_empty());
    assert_eq!(
        error.as_deref(),
        Some("SessionStore::append timed out after 0.5s")
    );
}

#[test]
fn frames_of_windows_files() {
    let items = vec![
        frame("C:\\u\\projects\\proj\\s.jsonl", vec![entry("a")]),
        frame("D:\\u\\projects\\proj\\s.jsonl", vec![entry("b")]),
    ];
    let appends = plan_flush(&items, "C:\\u\\projects", true);
    assert_eq!(appends.len(), 1);
    assert_eq!(appends[0].key.storage_key(), "proj/s");
    assert_eq!(uuids(&appends[0].entries), vec!["a"]);
    let dropped = dropped_files(&items, "C:\\u\\projects", true);
    assert_eq!(dropped, vec!["D:\\u\\projects\\proj\\s.jsonl"]);
    assert!(plan_flush(&items, "C:\\u\\projects", false).is_empty());
}
