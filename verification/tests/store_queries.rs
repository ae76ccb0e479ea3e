//! Queries on the sessions of a store.
use claude_agent_rust_sdk::error::ClaudeError;
use claude_agent_rust_sdk::sessions::key::SessionKey;
use claude_agent_rust_sdk::sessions::store::{
    InMemorySessionStore, SDKSessionInfo, SessionStoreCapabilities, SessionStoreEntry,
    SessionStoreListEntry,
};
use claude_agent_rust_sdk::sessions::store_queries::{
    build_summary_slots, check_subagent_listing, choose_list_plan, complete_page, derive_infos,
    entries_to_jsonl, fill_slots, find_subagent_subpath, info_of_entries, jsonl_to_lite, list_loaded_sessions,
    messages_from_entries, mtime_from_jsonl_tail, page_slots, session_info_from_entries,
    slots_to_fill, subagent_ids, subagent_key, subagent_messages_from_entries, summary_page,
    timestamp_of_last_line, ListPlan, LoadOutcome,
};
use serde_json::Value;

const SID: &str = "11111111-1111-4111-8111-111111111111";
const SID2: &str = "22222222-2222-4222-8222-222222222222";

fn entry(text: &str) -> SessionStoreEntry {
    match serde_json::from_str(text).unwrap() {
        Value::Object(m) => m,
        _ => panic!("entry must be a JSON object"),
    }
}

fn session() -> Vec<SessionStoreEntry> {
    vec![
        entry(&format!(
            r#"{{"type": "user","uuid": "u1","parentUuid": null,"sessionId": "{SID}","cwd": "/work","timestamp": "2026-08-17T00:00:00Z","message": {{"content": "the first prompt"}}}}"#
        )),
        entry(&format!(
            r#"{{"type": "assistant","uuid": "a1","parentUuid": "u1","sessionId": "{SID}","message": {{"content": "answer"}}}}"#
        )),
    ]
}

fn store_with_session() -> InMemorySessionStore {
    let mut store = InMemorySessionStore::new();
    store.append(&SessionKey::new("proj", SID), session());
    store
}

/// The listing of the sessions of a store, as it is put together from the
/// store's answers.
fn list(
    store: &InMemorySessionStore,
    limit: Option<usize>,
    offset: usize,
) -> (Vec<SDKSessionInfo>, usize) {
    assert_eq!(
        choose_list_plan(&store.capabilities()).unwrap(),
        ListPlan::SummariesAndListing
    );
    let listing = store.list_sessions("proj");
    let summaries = store.list_session_summaries("proj");
    let page = summary_page(&summaries, Some(&listing), "/work", limit, offset);
    let wanted = slots_to_fill(&page);
    let outcomes: Vec<LoadOutcome> = wanted
        .iter()
        .map(|w| match store.load(&SessionKey::new("proj", &w.session_id)) {
            Some(es) => LoadOutcome::Loaded(es),
            None => LoadOutcome::Missing,
        })
        .collect();
    let infos = complete_page(&page, &outcomes, "/work").expect("an outcome for each gap");
    (infos, wanted.len())
}

#[test]
fn get_info_rejects_non_canonical_uuid() {
    let braced = "{11111111-1111-4111-8111-111111111111}";
    let info = session_info_from_entries(braced, Some(&session()), "/tmp/x");
    assert!(info.is_none(), "non-canonical uuid rejected");
}

#[test]
fn get_info_returns_summary_from_store() {
    let store = store_with_session();
    let entries = store.load(&SessionKey::new("proj", SID));
    let info = session_info_from_entries(SID, entries.as_ref(), "/work").expect("session info");
    assert_eq!(info.session_id, SID);
    assert_eq!(info.summary, "the first prompt");
    assert_eq!(info.first_prompt.as_deref(), Some("the first prompt"));
    assert!(session_info_from_entries(SID, None, "/work").is_none());
    assert!(session_info_from_entries(SID, Some(&Vec::new()), "/work").is_none());
}

#[test]
fn get_messages_builds_chain() {
    let store = store_with_session();
    let entries = store.load(&SessionKey::new("proj", SID));
    let msgs = messages_from_entries(SID, entries.as_ref(), None, 0);
    let uuids: Vec<&str> = msgs.iter().map(|m| m.uuid.as_str()).collect();
    assert_eq!(uuids, vec!["u1", "a1"]);
    assert!(messages_from_entries("bad", entries.as_ref(), None, 0).is_empty());
    assert!(messages_from_entries(SID, None, None, 0).is_empty());
}

#[test]
fn list_uses_summary_fast_path() {
    let store = store_with_session();
    let (infos, loads) = list(&store, None, 0);
    assert_eq!(infos.len(), 1);
    assert_eq!(infos[0].session_id, SID);
    assert_eq!(infos[0].summary, "the first prompt");
    assert_eq!(loads, 0, "no session is loaded");
}

#[test]
fn list_paginates_by_mtime_desc() {
    let mut store = store_with_session();
    store.append(
        &SessionKey::new("proj", SID2),
        vec![entry(&format!(
            r#"{{"type": "user","uuid": "u2","sessionId": "{SID2}","timestamp": "2026-08-18T00:00:00Z","message": {{"content": "second session"}}}}"#
        ))],
    );
    let (page, _) = list(&store, Some(1), 0);
    assert_eq!(page.len(), 1, "limit=1 returns one");
    assert_eq!(page[0].session_id, SID2, "newest first");
    let (page2, _) = list(&store, Some(1), 1);
    assert_eq!(page2.len(), 1);
    assert_eq!(page2[0].session_id, SID, "offset skips newest");
}

fn listed(id: &str, mtime: i64) -> SessionStoreListEntry {
    SessionStoreListEntry {
        session_id: id.to_string(),
        mtime,
    }
}

#[test]
fn stale_and_missing_summaries_leave_gaps() {
    let store = store_with_session();
    let mut summaries = store.list_session_summaries("proj");
    summaries[0].mtime = 10;
    let listing = vec![listed(SID, 11), listed("unsummarised", 20)];
    let page = page_slots(build_summary_slots(&summaries, Some(&listing), "/w"), None, 0);
    let wanted: Vec<String> = slots_to_fill(&page).into_iter().map(|w| w.session_id).collect();
    assert_eq!(wanted, vec!["unsummarised".to_string(), SID.to_string()]);
    let filled = fill_slots(
        &page,
        &derive_infos(
            &slots_to_fill(&page),
            &vec![LoadOutcome::Failed, LoadOutcome::Loaded(session())],
            "/w",
        ),
    );
    assert_eq!(filled.len(), 2);
    assert_eq!(filled[0].summary, "", "a failed load gives a bare row");
    assert_eq!(filled[1].summary, "the first prompt");
    assert_eq!(filled[1].last_modified, 11);
    assert!(
        complete_page(&page, &vec![LoadOutcome::Failed], "/w").is_none(),
        "one outcome for two gaps"
    );

    summaries[0].mtime = 11;
    let fresh = build_summary_slots(&summaries, Some(&vec![listed(SID, 11)]), "/w");
    assert!(fresh[0].info.is_some());
    let unlisted = build_summary_slots(&summaries, Some(&Vec::new()), "/w");
    assert!(unlisted.is_empty());
    assert_eq!(build_summary_slots(&summaries, None, "/w").len(), 1);
}

#[test]
fn no_more_sessions_are_loaded_than_a_page_holds() {
    let listing: Vec<SessionStoreListEntry> =
        (0..10).map(|i| listed(&format!("s{i}"), i)).collect();
    let page = page_slots(
        build_summary_slots(&Vec::new(), Some(&listing), "/w"),
        Some(3),
        2,
    );
    let wanted: Vec<String> = slots_to_fill(&page).into_iter().map(|w| w.session_id).collect();
    assert_eq!(wanted, vec!["s7", "s6", "s5"]);
}

#[test]
fn listings_without_summaries_load_every_session() {
    let listing = vec![listed(SID, 1), listed("empty", 2), listed("gone", 3)];
    let infos = list_loaded_sessions(
        &listing,
        &vec![
            LoadOutcome::Loaded(session()),
            LoadOutcome::Loaded(Vec::new()),
            LoadOutcome::Missing,
        ],
        "/w",
        None,
        0,
    );
    assert_eq!(infos.len(), 1);
    assert_eq!(infos[0].session_id, SID);
    assert_eq!(infos[0].last_modified, 1);
}

#[test]
fn list_requires_a_capability() {
    let err = choose_list_plan(&SessionStoreCapabilities::default()).unwrap_err();
    match err {
        ClaudeError::InvalidConfig(m) => assert!(m.contains("neither")),
        other => panic!("unexpected {other:?}"),
    }
    let mut caps = SessionStoreCapabilities::default();
    caps.list_sessions = true;
    assert_eq!(choose_list_plan(&caps).unwrap(), ListPlan::Listing);
    caps.list_session_summaries = true;
    caps.list_sessions = false;
    assert_eq!(choose_list_plan(&caps).unwrap(), ListPlan::Summaries);
}

#[test]
fn list_subagents_dedupes_and_strips_prefix() {
    let keys: Vec<String> = [
        "subagents/agent-inv",
        "other/agent-x",
        "subagents/workflows/run-1/agent-inv",
        "subagents/notes",
        "subagents/agent-b",
    ]
    .iter()
    .map(|s| s.to_string())
    .collect();
    assert_eq!(subagent_ids(&keys), vec!["inv".to_string(), "b".to_string()]);
    let caps = InMemorySessionStore::new().capabilities();
    assert!(check_subagent_listing(SID, &caps).unwrap());
    assert!(!check_subagent_listing("bad", &caps).unwrap());
    let bare = SessionStoreCapabilities::default();
    assert!(matches!(
        check_subagent_listing(SID, &bare),
        Err(ClaudeError::InvalidConfig(_))
    ));
    assert!(!check_subagent_listing("bad", &bare).unwrap());
}

#[test]
fn get_subagent_messages_drops_metadata() {
    let mut store = store_with_session();
    store.append(
        &SessionKey::with_subpath("proj", SID, "subagents/agent-inv").unwrap(),
        vec![
            entry(r#"{"type": "agent_metadata", "agentType": "investigator"}"#),
            entry(&format!(
                r#"{{"type": "user", "uuid": "su1", "sessionId": "{SID}", "message": {{"content": "hi"}}}}"#
            )),
            entry(&format!(
                r#"{{"type": "assistant", "uuid": "sa1", "parentUuid": "su1", "sessionId": "{SID}", "message": {{"content": "yo"}}}}"#
            )),
        ],
    );
    let keys = vec!["subagents/agent-inv".to_string()];
    let key = subagent_key("proj", SID, "inv", Some(&keys)).unwrap();
    let msgs = subagent_messages_from_entries(store.load(&key).as_ref(), None, 0);
    let uuids: Vec<&str> = msgs.iter().map(|m| m.uuid.as_str()).collect();
    assert_eq!(uuids, vec!["su1", "sa1"]);
    assert!(subagent_messages_from_entries(None, None, 0).is_empty());
}

#[test]
fn keys_of_subagents() {
    let keys = vec![
        "subagents/agent-a".to_string(),
        "subagents/workflows/r/agent-b".to_string(),
    ];
    assert_eq!(
        find_subagent_subpath("b", Some(&keys)).as_deref(),
        Some("subagents/workflows/r/agent-b")
    );
    assert_eq!(find_subagent_subpath("c", Some(&keys)), None);
    assert_eq!(
        find_subagent_subpath("c", None).as_deref(),
        Some("subagents/agent-c")
    );
    assert!(subagent_key("proj", "bad", "a", Some(&keys)).is_none());
    assert!(subagent_key("proj", SID, "", Some(&keys)).is_none());
    assert!(subagent_key("proj", SID, "/../../x", None).is_none());
    assert_eq!(
        subagent_key("proj", SID, "a", None).unwrap().subpath.as_deref(),
        Some("subagents/agent-a")
    );
}

#[test]
fn texts_of_entries_start_with_the_type() {
    let e = entry(r#"{"uuid":"u","tag":"x","type":"tag"}"#);
    let text = entries_to_jsonl(&vec![e.clone(), entry(r#"{"n":1}"#)]);
    assert_eq!(text, "{\"type\":\"tag\",\"uuid\":\"u\",\"tag\":\"x\"}\n{\"n\":1}\n");
    let lite = jsonl_to_lite(&text, 7);
    assert_eq!(lite.head, text);
    assert_eq!(lite.size, text.len() as i64);
    let mut reordered = session();
    reordered.push(e);
    let info = info_of_entries(SID, &reordered, 3, "/w").unwrap();
    assert_eq!(info.tag.as_deref(), Some("x"), "the tag is found whatever the order");
}

#[test]
fn times_of_transcripts() {
    let text = "{\"timestamp\":\"1970-01-01T00:00:01Z\"}\n  \n";
    assert_eq!(timestamp_of_last_line(text), Some(1000));
    assert_eq!(mtime_from_jsonl_tail(text), 1000);
    assert_eq!(timestamp_of_last_line("{\"timestamp\":5}"), None);
    assert_eq!(timestamp_of_last_line("nonsense"), None);
    assert!(mtime_from_jsonl_tail("{}") > 1_000_000_000_000);
}
