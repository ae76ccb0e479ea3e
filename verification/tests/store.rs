//! The store in memory, and what every store promises.
use claude_agent_rust_sdk::sessions::key::{SessionKey, SessionListSubkeysKey};
use claude_agent_rust_sdk::sessions::store::{
    InMemorySessionStore, SessionStoreCapabilities, SessionStoreEntry, SessionStoreFlushMode,
};
use claude_agent_rust_sdk::sessions::summary::fold_session_summary;
use serde_json::Value;

fn entry(text: &str) -> SessionStoreEntry {
    match serde_json::from_str(text).unwrap() {
        Value::Object(m) => m,
        _ => panic!("entry must be a JSON object"),
    }
}

fn key(project: &str, session: &str) -> SessionKey {
    SessionKey::new(project, session)
}

fn sub(project: &str, session: &str, subpath: &str) -> SessionKey {
    SessionKey::with_subpath(project, session, subpath).unwrap()
}

fn subkeys(store: &InMemorySessionStore, session: &str) -> Vec<String> {
    store.list_subkeys(&SessionListSubkeysKey::new("proj", session))
}

fn ids(store: &InMemorySessionStore, project: &str) -> Vec<String> {
    let mut ids: Vec<String> = store
        .list_sessions(project)
        .into_iter()
        .map(|e| e.session_id)
        .collect();
    ids.sort();
    ids
}

#[test]
fn append_load_roundtrip_deep_equal() {
    let mut store = InMemorySessionStore::new();
    let k = key("proj", &uuid::Uuid::from_bytes([1; 16]).to_string());
    let e1 = entry(r#"{"type": "user", "uuid": "a", "n": 1}"#);
    let e2 = entry(r#"{"type": "assistant", "uuid": "b", "nested": {"x": [1, 2]}}"#);
    store.append(&k, vec![e1.clone()]);
    store.append(&k, vec![e2.clone()]);
    let loaded = store.load(&k).unwrap();
    assert_eq!(loaded, vec![e1, e2]);
}

#[test]
fn load_absent_returns_none() {
    let store = InMemorySessionStore::new();
    let k = key("proj", &uuid::Uuid::from_bytes([9; 16]).to_string());
    assert!(store.load(&k).is_none());
    assert!(store.get_entries(&k).is_empty());
}

#[test]
fn a_default_store_is_empty_and_its_listing_can_be_copied() {
    let mut store = InMemorySessionStore::default();
    assert!(store.list_sessions("proj").is_empty());
    store.append_at(&key("proj", "s"), vec![entry(r#"{"uuid": "a"}"#)], 7);
    let copy = store.list_sessions("proj")[0].clone();
    assert_eq!(copy.session_id, "s");
    assert_eq!(copy.mtime, 7);
}

#[test]
fn contract_append_ordering() {
    let mut store = InMemorySessionStore::new();
    let k = key("proj", "sess");
    let e1 = entry(r#"{"type": "x", "uuid": "z", "n": 1}"#);
    let e2 = entry(r#"{"type": "x", "uuid": "a", "n": 2}"#);
    let e3 = entry(r#"{"type": "x", "uuid": "m", "n": 3}"#);
    let e4 = entry(r#"{"type": "x", "uuid": "b", "n": 4}"#);
    store.append(&k, vec![e1.clone()]);
    store.append(&k, vec![e2.clone(), e3.clone()]);
    store.append(&k, vec![e4.clone()]);
    assert_eq!(store.load(&k).unwrap(), vec![e1, e2, e3, e4]);
}

#[test]
fn contract_load_unknown_subpath_is_none() {
    let mut store = InMemorySessionStore::new();
    store.append(&key("proj", "sess"), vec![entry(r#"{"type": "x", "uuid": "x"}"#)]);
    assert!(store.load(&sub("proj", "sess", "subagents/nope")).is_none());
}

#[test]
fn contract_empty_append_is_noop() {
    let mut store = InMemorySessionStore::new();
    let k = key("proj", "sess");
    let e = entry(r#"{"type": "x", "uuid": "a", "n": 1}"#);
    store.append(&k, vec![e.clone()]);
    store.append(&k, Vec::new());
    assert_eq!(store.load(&k).unwrap(), vec![e]);
}

#[test]
fn an_empty_append_writes_no_key() {
    let mut store = InMemorySessionStore::new();
    let k = key("proj", "sess");
    store.append(&k, Vec::new());
    assert!(store.load(&k).is_none());
    assert!(store.list_sessions("proj").is_empty());
    assert!(store.list_session_summaries("proj").is_empty());
    assert_eq!(store.size(), 0);
    store.append_at(&k, vec![entry(r#"{"type": "x", "uuid": "a"}"#)], 1000);
    store.append_at(&k, Vec::new(), 2000);
    assert_eq!(store.list_sessions("proj")[0].mtime, 1000);
    assert_eq!(store.list_session_summaries("proj")[0].mtime, 1000);
}

#[test]
fn contract_project_isolation() {
    let mut store = InMemorySessionStore::new();
    let a = key("A", "s1");
    let b = key("B", "s1");
    store.append(&a, vec![entry(r#"{"type": "x", "from": "A"}"#)]);
    store.append(&b, vec![entry(r#"{"type": "x", "from": "B"}"#)]);
    assert_eq!(store.load(&a).unwrap()[0].get("from").unwrap(), "A");
    assert_eq!(store.load(&b).unwrap()[0].get("from").unwrap(), "B");
    assert_eq!(store.list_sessions("A").len(), 1);
    assert_eq!(store.list_sessions("B").len(), 1);
}

#[test]
fn contract_subpath_isolation() {
    let mut store = InMemorySessionStore::new();
    let main = key("proj", "sess");
    let s = sub("proj", "sess", "subagents/agent-1");
    store.append(&main, vec![entry(r#"{"type": "x", "who": "main"}"#)]);
    store.append(&s, vec![entry(r#"{"type": "x", "who": "sub"}"#)]);
    assert_eq!(store.load(&main).unwrap()[0].get("who").unwrap(), "main");
    assert_eq!(store.load(&s).unwrap()[0].get("who").unwrap(), "sub");
}

#[test]
fn contract_arbitrary_string_keys_roundtrip() {
    let mut store = InMemorySessionStore::new();
    let k = key("proj", "abc-123");
    let e = entry(r#"{"type": "x", "uuid": "1"}"#);
    store.append(&k, vec![e.clone()]);
    assert_eq!(store.load(&k).unwrap(), vec![e]);
    assert_eq!(ids(&store, "proj"), vec!["abc-123".to_string()]);
}

#[test]
fn contract_list_sessions() {
    let mut store = InMemorySessionStore::new();
    store.append(&key("proj", "a"), vec![entry(r#"{"type": "x", "n": 1}"#)]);
    store.append(&key("proj", "b"), vec![entry(r#"{"type": "x", "n": 1}"#)]);
    store.append(&key("other", "c"), vec![entry(r#"{"type": "x", "n": 1}"#)]);
    assert_eq!(ids(&store, "proj"), vec!["a".to_string(), "b".to_string()]);
    assert_eq!(store.list_sessions("never-appended-project").len(), 0);
}

#[test]
fn contract_list_sessions_mtime_epoch_ms_and_monotonic() {
    let mut store = InMemorySessionStore::new();
    store.append(&key("proj", "a"), vec![entry(r#"{"type": "x"}"#)]);
    store.append(&key("proj", "b"), vec![entry(r#"{"type": "x"}"#)]);
    let entries = store.list_sessions("proj");
    for e in &entries {
        assert!(e.mtime > 1_000_000_000_000);
    }
    let ma = entries.iter().find(|e| e.session_id == "a").unwrap().mtime;
    let mb = entries.iter().find(|e| e.session_id == "b").unwrap().mtime;
    assert!(mb > ma);
}

#[test]
fn contract_list_sessions_excludes_subpaths() {
    let mut store = InMemorySessionStore::new();
    store.append(&key("proj", "main"), vec![entry(r#"{"type": "x"}"#)]);
    store.append(
        &sub("proj", "main", "subagents/agent-1"),
        vec![entry(r#"{"type": "x"}"#)],
    );
    assert_eq!(ids(&store, "proj"), vec!["main".to_string()]);
    assert_eq!(store.size(), 1);
}

#[test]
fn contract_list_session_summaries() {
    let mut store = InMemorySessionStore::new();
    store.append(
        &key("proj", "summ"),
        vec![entry(
            r#"{"type": "user","timestamp": "2024-01-02T03:04:05Z","message": {"content": "hi there"}}"#,
        )],
    );
    let summaries = store.list_session_summaries("proj");
    assert_eq!(summaries.len(), 1);
    assert_eq!(summaries[0].session_id, "summ");
    assert!(summaries[0].mtime > 1_000_000_000_000);
    assert_eq!(
        summaries[0].data.get("first_prompt").and_then(Value::as_str),
        Some("hi there")
    );
    assert_eq!(store.list_session_summaries("never-appended-project").len(), 0);
}

#[test]
fn contract_summary_clock_refold_opaque_subpath_delete() {
    let mut store = InMemorySessionStore::new();
    let k = key("proj", "summ-sess");
    store.append(
        &k,
        vec![
            entry(r#"{"type": "x", "timestamp": "2024-01-01T00:00:00.000Z", "customTitle": "first"}"#),
            entry(r#"{"type": "x", "timestamp": "2024-01-01T00:00:01.000Z"}"#),
        ],
    );
    store.append(
        &k,
        vec![entry(
            r#"{"type": "x", "timestamp": "2024-01-01T00:00:02.000Z", "customTitle": "second"}"#,
        )],
    );
    store.append(
        &key("other", "elsewhere"),
        vec![entry(r#"{"type": "x", "timestamp": "2024-01-01T00:00:00.000Z"}"#)],
    );
    let summaries = store.list_session_summaries("proj");
    assert_eq!(summaries.len(), 1);
    let summ = &summaries[0];
    assert_eq!(summ.session_id, "summ-sess");
    assert_eq!(
        summ.data.get("custom_title").and_then(Value::as_str),
        Some("second")
    );
    let listed = store.list_sessions("proj");
    let ls_mtime = listed.iter().find(|e| e.session_id == "summ-sess").unwrap().mtime;
    assert!(summ.mtime >= ls_mtime);

    let refolded = fold_session_summary(
        Some(summ),
        &k,
        &vec![entry(r#"{"type": "x", "timestamp": "2024-01-01T00:00:03.000Z"}"#)],
    );
    assert_eq!(refolded.session_id, "summ-sess");
    assert_eq!(refolded.mtime, summ.mtime);

    store.append(
        &sub("proj", "summ-sess", "subagents/agent-1"),
        vec![entry(
            r#"{"type": "x", "timestamp": "2024-01-01T00:00:09.000Z", "customTitle": "subagent"}"#,
        )],
    );
    let after = store.list_session_summaries("proj");
    assert_eq!(after[0].data, summ.data);

    store.delete(&k);
    assert!(store.list_session_summaries("proj").is_empty());
}

#[test]
fn contract_delete() {
    let mut store = InMemorySessionStore::new();
    store.delete(&key("proj", "never-written"));
    let k = key("proj", "sess");
    store.append(&k, vec![entry(r#"{"type": "x"}"#)]);
    store.delete(&k);
    assert!(store.load(&k).is_none());
}

#[test]
fn contract_delete_cascades_subkeys() {
    let mut store = InMemorySessionStore::new();
    let main = key("proj", "sess");
    let sub1 = sub("proj", "sess", "subagents/agent-1");
    let sub2 = sub("proj", "sess", "subagents/agent-2");
    let other = key("proj", "sess2");
    let other_proj = key("other-proj", "sess");
    for k in [&main, &sub1, &sub2, &other, &other_proj] {
        store.append(k, vec![entry(r#"{"type": "x"}"#)]);
    }
    store.delete(&main);
    assert!(store.load(&main).is_none());
    assert!(store.load(&sub1).is_none());
    assert!(store.load(&sub2).is_none());
    assert_eq!(store.load(&other).map(|e| e.len()), Some(1));
    assert_eq!(store.load(&other_proj).map(|e| e.len()), Some(1));
    assert!(subkeys(&store, "sess").is_empty());
    assert_eq!(ids(&store, "proj"), vec!["sess2".to_string()]);
}

#[test]
fn contract_delete_targeted_subpath() {
    let mut store = InMemorySessionStore::new();
    let main = key("proj", "sess");
    let sub1 = sub("proj", "sess", "subagents/agent-1");
    let sub2 = sub("proj", "sess", "subagents/agent-2");
    for k in [&main, &sub1, &sub2] {
        store.append(k, vec![entry(r#"{"type": "x"}"#)]);
    }
    store.delete(&sub1);
    assert!(store.load(&sub1).is_none());
    assert_eq!(store.load(&sub2).map(|e| e.len()), Some(1));
    assert_eq!(store.load(&main).map(|e| e.len()), Some(1));
    assert_eq!(subkeys(&store, "sess"), vec!["subagents/agent-2".to_string()]);
}

#[test]
fn contract_list_subkeys() {
    let mut store = InMemorySessionStore::new();
    store.append(&key("proj", "sess"), vec![entry(r#"{"type": "x"}"#)]);
    for s in ["subagents/agent-1", "subagents/agent-2"] {
        store.append(&sub("proj", "sess", s), vec![entry(r#"{"type": "x"}"#)]);
    }
    store.append(
        &sub("proj", "other-sess", "subagents/agent-x"),
        vec![entry(r#"{"type": "x"}"#)],
    );
    let mut found = subkeys(&store, "sess");
    found.sort();
    assert_eq!(
        found,
        vec![
            "subagents/agent-1".to_string(),
            "subagents/agent-2".to_string()
        ]
    );
}

#[test]
fn contract_list_subkeys_excludes_main() {
    let mut store = InMemorySessionStore::new();
    store.append(&key("proj", "sess"), vec![entry(r#"{"type": "x"}"#)]);
    assert!(subkeys(&store, "sess").is_empty());
    assert!(subkeys(&store, "never-appended").is_empty());
}

#[test]
fn write_times_are_given_or_follow_the_last_one() {
    let mut store = InMemorySessionStore::new();
    assert!(store.can_append());
    store.append_at(&key("p", "a"), vec![entry("{}")], 100);
    store.append_at(&key("p", "b"), vec![entry("{}")], 100);
    store.append_at(&key("p", "c"), vec![entry("{}")], 50);
    let times: Vec<i64> = store.list_sessions("p").iter().map(|e| e.mtime).collect();
    assert_eq!(times, vec![100, 101, 102]);
    store.clear();
    assert_eq!(store.size(), 0);
    assert!(store.list_sessions("p").is_empty());
}

#[test]
fn flush_modes_and_capabilities() {
    assert_eq!(
        SessionStoreFlushMode::default(),
        SessionStoreFlushMode::Batched
    );
    let caps = SessionStoreCapabilities::default();
    assert!(!caps.list_sessions && !caps.delete);
    assert!(!caps.list_subkeys && !caps.list_session_summaries);
    let own = InMemorySessionStore::new().capabilities();
    assert!(own.list_sessions && own.delete && own.list_subkeys && own.list_session_summaries);
}
