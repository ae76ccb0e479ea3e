//! Summaries of sessions, kept up to date entry by entry.
use claude_agent_rust_sdk::sessions::key::SessionKey;
use claude_agent_rust_sdk::sessions::summary::{
    fold_session_summary, has_tool_result, iso_to_epoch_ms, summary_entry_to_sdk_info,
    SessionSummaryEntry,
};
use claude_agent_rust_sdk::sessions::store::SessionStoreEntry;
use serde_json::Value;

fn entry(text: &str) -> SessionStoreEntry {
    match serde_json::from_str(text).unwrap() {
        Value::Object(m) => m,
        _ => panic!("entry must be a JSON object"),
    }
}

fn key() -> SessionKey {
    SessionKey::new("proj", &uuid::Uuid::from_bytes([7; 16]).to_string())
}

fn string(s: &str) -> Value {
    Value::String(s.to_string())
}

#[test]
fn iso_to_epoch_ms_delegates_and_trims() {
    let z = iso_to_epoch_ms(Some(&string("2024-01-02T03:04:05Z"))).unwrap();
    assert_eq!(z, 1_704_164_645_000);
    assert_eq!(
        iso_to_epoch_ms(Some(&string("2024-01-02T03:04:05.250Z"))),
        Some(1_704_164_645_250)
    );
    assert_eq!(
        iso_to_epoch_ms(Some(&string("2024-01-02T04:04:05+01:00"))),
        Some(z)
    );
    assert_eq!(
        iso_to_epoch_ms(Some(&string("  2024-01-02T03:04:05Z  "))),
        Some(z)
    );
    assert!(iso_to_epoch_ms(Some(&string("nonsense"))).is_none());
    assert!(iso_to_epoch_ms(Some(&string("2024-01-02T03:04:05Zextra"))).is_none());
    assert!(iso_to_epoch_ms(Some(&Value::from(42))).is_none());
    assert!(iso_to_epoch_ms(None).is_none());
}

#[test]
fn fold_created_at_set_once_first_prompt_and_last_wins() {
    let mut s = fold_session_summary(
        None,
        &key(),
        &vec![entry(
            r#"{"type": "user","timestamp": "2024-01-02T03:04:05Z","cwd": "/work","message": {"content": "hello world"}}"#,
        )],
    );
    assert_eq!(
        s.data.get("created_at").and_then(Value::as_i64),
        Some(1_704_164_645_000)
    );
    assert_eq!(s.data.get("cwd").and_then(Value::as_str), Some("/work"));
    assert_eq!(
        s.data.get("first_prompt").and_then(Value::as_str),
        Some("hello world")
    );
    assert_eq!(
        s.data.get("first_prompt_locked").and_then(Value::as_bool),
        Some(true)
    );

    s = fold_session_summary(
        Some(&s),
        &key(),
        &vec![entry(
            r#"{"type": "user","timestamp": "2024-06-06T00:00:00Z","cwd": "/other","gitBranch": "main","message": {"content": "second"}}"#,
        )],
    );
    assert_eq!(
        s.data.get("created_at").and_then(Value::as_i64),
        Some(1_704_164_645_000)
    );
    assert_eq!(s.data.get("cwd").and_then(Value::as_str), Some("/work"));
    assert_eq!(
        s.data.get("first_prompt").and_then(Value::as_str),
        Some("hello world")
    );
    assert_eq!(
        s.data.get("git_branch").and_then(Value::as_str),
        Some("main")
    );
}

#[test]
fn fold_command_fallback_then_real_prompt() {
    let s = fold_session_summary(
        None,
        &key(),
        &vec![
            entry(
                r#"{"type": "user", "message": {"content": "<command-name>clear</command-name>"}}"#,
            ),
            entry(r#"{"type": "user", "message": {"content": "real question"}}"#),
        ],
    );
    assert_eq!(
        s.data.get("command_fallback").and_then(Value::as_str),
        Some("clear")
    );
    assert_eq!(
        s.data.get("first_prompt").and_then(Value::as_str),
        Some("real question")
    );
}

#[test]
fn fold_skips_tool_result_and_meta() {
    let result =
        entry(r#"{"type": "user", "message": {"content": [{"type": "tool_result", "content": "x"}]}}"#);
    assert!(has_tool_result(&result));
    let s = fold_session_summary(
        None,
        &key(),
        &vec![
            entry(r#"{"type": "user", "isMeta": true, "message": {"content": "meta"}}"#),
            result,
            entry(r#"{"type": "user", "message": {"content": "actual"}}"#),
        ],
    );
    assert_eq!(
        s.data.get("first_prompt").and_then(Value::as_str),
        Some("actual")
    );
}

#[test]
fn fold_tag_set_then_cleared() {
    let mut s = fold_session_summary(
        None,
        &key(),
        &vec![entry(r#"{"type": "tag", "tag": "bug"}"#)],
    );
    assert_eq!(s.data.get("tag").and_then(Value::as_str), Some("bug"));
    s = fold_session_summary(
        Some(&s),
        &key(),
        &vec![entry(r#"{"type": "tag", "tag": ""}"#)],
    );
    assert!(!s.data.contains_key("tag"));
}

#[test]
fn sidechain_yields_no_info() {
    let s = fold_session_summary(
        None,
        &key(),
        &vec![entry(
            r#"{"type": "user", "isSidechain": true, "message": {"content": "x"}}"#,
        )],
    );
    assert!(summary_entry_to_sdk_info(&s, None).is_none());
}

#[test]
fn info_summary_precedence_custom_title_wins() {
    let mut s = fold_session_summary(
        None,
        &key(),
        &vec![entry(
            r#"{"type": "user","customTitle": "My Title","lastPrompt": "later","message": {"content": "first prompt here"}}"#,
        )],
    );
    s.mtime = 999;
    let info = summary_entry_to_sdk_info(&s, Some("/proj")).unwrap();
    assert_eq!(info.summary, "My Title");
    assert_eq!(info.custom_title.as_deref(), Some("My Title"));
    assert_eq!(info.first_prompt.as_deref(), Some("first prompt here"));
    assert_eq!(info.last_modified, 999);
}

#[test]
fn info_falls_back_to_project_path_cwd() {
    let s = fold_session_summary(
        None,
        &key(),
        &vec![entry(r#"{"type": "user", "message": {"content": "prompt"}}"#)],
    );
    let info = summary_entry_to_sdk_info(&s, Some("/fallback")).unwrap();
    assert_eq!(info.cwd.as_deref(), Some("/fallback"));
    assert_eq!(info.summary, "prompt");
}

#[test]
fn empty_values_do_not_end_the_search_for_a_summary() {
    let summary = |data: &str| SessionSummaryEntry {
        session_id: "s".to_string(),
        mtime: 1,
        data: entry(data),
    };
    let info = summary_entry_to_sdk_info(
        &summary(r#"{"last_prompt":"","first_prompt":"hi","first_prompt_locked":true}"#),
        None,
    )
    .unwrap();
    assert_eq!(info.summary, "hi");
    assert_eq!(info.first_prompt.as_deref(), Some("hi"));
    let info = summary_entry_to_sdk_info(
        &summary(r#"{"custom_title":"","ai_title":"made up"}"#),
        None,
    )
    .unwrap();
    assert_eq!(info.custom_title.as_deref(), Some("made up"));
    assert_eq!(info.summary, "made up");
    let info = summary_entry_to_sdk_info(
        &summary(r#"{"last_prompt":"","summary_hint":"hint","command_fallback":"/x"}"#),
        None,
    )
    .unwrap();
    assert_eq!(info.summary, "hint");
    let empty = summary(r#"{"custom_title":"","last_prompt":"","summary_hint":""}"#);
    assert!(summary_entry_to_sdk_info(&empty, None).is_none());
}

#[test]
fn folding_batch_by_batch_is_folding_at_once() {
    let entries = vec![
        entry(r#"{"type":"user","timestamp":"2024-01-02T03:04:05Z","message":{"content":"one"}}"#),
        entry(r#"{"type":"tag","tag":"x"}"#),
        entry(r#"{"type":"ai-title","aiTitle":"Title"}"#),
        entry(r#"{"type":"assistant","gitBranch":"b","lastPrompt":"p"}"#),
    ];
    let whole = fold_session_summary(None, &key(), &entries);
    let first = fold_session_summary(None, &key(), &entries[..2].to_vec());
    let both = fold_session_summary(Some(&first), &key(), &entries[2..].to_vec());
    assert_eq!(whole.data, both.data);
    assert_eq!(whole.session_id, both.session_id);
}
