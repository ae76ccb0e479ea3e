//! Resuming sessions from a store.
use claude_agent_rust_sdk::agent::{env_get, AgentOptions, EnvVar};
use claude_agent_rust_sdk::error::ClaudeError;
use claude_agent_rust_sdk::sessions::resume::{
    apply_materialized_options, call_failed, call_timed_out, caller_config_dir, config_sources,
    is_retryable_errno, is_safe_subpath, is_unset, mirror_projects_dir, plan_resume,
    redact_credentials, sidecar_text, split_subagent_entries, strip_settings_for_resume,
    with_extra_jsonl, LatestSearch, MaterializedResume, ResumePlan, StoreCall,
};
use claude_agent_rust_sdk::sessions::path::{join_path, lexical_realpath};
use claude_agent_rust_sdk::sessions::store::{
    SessionStoreCapabilities, SessionStoreEntry, SessionStoreListEntry,
};
use serde_json::Value;

const SID: &str = "11111111-1111-4111-8111-111111111111";

fn entry(text: &str) -> SessionStoreEntry {
    match serde_json::from_str(text).unwrap() {
        Value::Object(m) => m,
        _ => panic!("entry must be a JSON object"),
    }
}

fn options(list_sessions: bool) -> AgentOptions {
    AgentOptions {
        session_store: Some(SessionStoreCapabilities {
            list_sessions,
            ..Default::default()
        }),
        ..Default::default()
    }
}

#[test]
fn store_only_resume_is_planned_and_applied() {
    let mut opts = options(false);
    opts.resume = Some(SID.to_string());
    opts.continue_conversation = true;
    opts.env = vec![
        EnvVar {
            name: "KEEP".into(),
            value: "1".into(),
        },
        EnvVar {
            name: "CLAUDE_CONFIG_DIR".into(),
            value: "/old".into(),
        },
    ];
    assert!(matches!(plan_resume(&opts), ResumePlan::Session(id) if id == SID));
    let mat = MaterializedResume {
        config_dir: "/tmp/new".to_string(),
        resume_session_id: SID.to_string(),
    };
    let applied = apply_materialized_options(&opts, &mat);
    assert_eq!(env_get(&applied.env, "CLAUDE_CONFIG_DIR"), Some("/tmp/new"));
    assert_eq!(env_get(&applied.env, "KEEP"), Some("1"));
    assert_eq!(env_get(&applied.env, "NONE"), None);
    assert_eq!(applied.env.len(), 2);
    assert_eq!(applied.resume.as_deref(), Some(SID));
    assert!(!applied.continue_conversation);
    assert!(applied.session_store.is_some());
    assert_eq!(mirror_projects_dir(Some(&mat), "/own"), "/tmp/new/projects");
    assert_eq!(mirror_projects_dir(None, "/own"), "/own");
}

#[test]
fn a_new_variable_is_added_to_the_environment() {
    let mat = MaterializedResume {
        config_dir: "/tmp/new".to_string(),
        resume_session_id: SID.to_string(),
    };
    let applied = apply_materialized_options(&options(true), &mat);
    assert_eq!(env_get(&applied.env, "CLAUDE_CONFIG_DIR"), Some("/tmp/new"));
}

#[test]
fn non_uuid_resume_returns_none() {
    let mut opts = options(true);
    opts.resume = Some("not-a-uuid".into());
    assert!(matches!(plan_resume(&opts), ResumePlan::Nothing));
}

#[test]
fn no_store_returns_none() {
    let opts = AgentOptions {
        resume: Some(uuid::Uuid::new_v4().to_string()),
        ..Default::default()
    };
    assert!(matches!(plan_resume(&opts), ResumePlan::Nothing));
}

#[test]
fn continuing_needs_a_store_that_lists_sessions() {
    let mut opts = options(true);
    assert!(matches!(plan_resume(&opts), ResumePlan::Nothing));
    opts.continue_conversation = true;
    assert!(matches!(plan_resume(&opts), ResumePlan::Latest));
    let mut bare = options(false);
    bare.continue_conversation = true;
    assert!(matches!(plan_resume(&bare), ResumePlan::Nothing));
}

fn listed(id: &str, mtime: i64) -> SessionStoreListEntry {
    SessionStoreListEntry {
        session_id: id.to_string(),
        mtime,
    }
}

#[test]
fn continue_resolves_newest_non_sidechain() {
    let old = uuid::Uuid::new_v4().to_string();
    let newest_sidechain = uuid::Uuid::new_v4().to_string();
    let newest_main = uuid::Uuid::new_v4().to_string();
    let mut search = LatestSearch::new(vec![
        listed(&old, 10),
        listed(&newest_sidechain, 30),
        listed(&newest_main, 20),
    ]);
    assert_eq!(search.candidate(), Some(newest_sidechain.as_str()));
    let side = vec![entry(r#"{"type":"user","uuid":"side","isSidechain":true}"#)];
    assert!(!search.offer(Some(&side)));
    assert_eq!(
        search.candidate(),
        Some(newest_main.as_str()),
        "sidechain skipped, newest non-sidechain wins"
    );
    let main = vec![entry(r#"{"type":"user","uuid":"main"}"#)];
    assert!(search.offer(Some(&main)));
    assert_eq!(search.candidate(), Some(newest_main.as_str()));
}

#[test]
fn continue_empty_store_returns_none() {
    let search = LatestSearch::new(Vec::new());
    assert_eq!(search.candidate(), None);
    let mut one = LatestSearch::new(vec![listed("a", 1)]);
    assert!(!one.offer(None));
    assert_eq!(one.candidate(), None);
    let mut empty = LatestSearch::new(vec![listed("a", 1)]);
    assert!(!empty.offer(Some(&Vec::new())));
    assert_eq!(empty.candidate(), None);
}

#[test]
fn a_latest_session_without_a_uuid_ends_the_search() {
    let main = vec![entry(r#"{"type":"user","uuid":"main"}"#)];
    let mut search = LatestSearch::new(vec![listed("abc-123", 2), listed(SID, 1)]);
    assert_eq!(search.candidate(), Some("abc-123"));
    assert!(!search.offer(Some(&main)));
    assert_eq!(search.candidate(), None);
    let mut search = LatestSearch::new(vec![listed("abc-123", 2), listed(SID, 1)]);
    assert!(!search.offer(None));
    assert!(search.offer(Some(&main)));
    assert_eq!(search.candidate(), Some(SID));
}

#[test]
fn subkeys_materialize_transcript_and_meta() {
    let files = split_subagent_entries(&vec![
        entry(r#"{"type":"agent_metadata","title":"Old"}"#),
        entry(r#"{"type":"assistant","uuid":"s1"}"#),
        entry(r#"{"type":"agent_metadata","title":"Sub Agent"}"#),
    ]);
    assert_eq!(files.transcript.len(), 1);
    let text = sidecar_text(&files.metadata.unwrap());
    assert_eq!(text, r#"{"title":"Sub Agent"}"#, "type field stripped, last one counts");
    assert_eq!(
        with_extra_jsonl("/p/sess/subagents/agent-1"),
        "/p/sess/subagents/agent-1.jsonl"
    );
    let plain = split_subagent_entries(&vec![entry(r#"{"type":"assistant"}"#)]);
    assert!(plain.metadata.is_none());
}

/// A subpath under a directory without links.
fn is_safe(subpath: &str, session_dir: &str) -> bool {
    let target = with_extra_jsonl(&join_path(session_dir, subpath));
    is_safe_subpath(
        subpath,
        &lexical_realpath(&target, "/"),
        &lexical_realpath(session_dir, "/"),
    )
}

#[test]
fn unsafe_subpath_is_refused() {
    let session_dir = "/tmp/proj/sess";
    assert!(!is_safe("", session_dir));
    assert!(!is_safe("/etc/passwd", session_dir));
    assert!(!is_safe("../escape", session_dir));
    assert!(!is_safe("subagents/../../escape", session_dir));
    assert!(!is_safe("C:evil", session_dir));
    assert!(!is_safe("a\0b", session_dir));
    assert!(is_safe("subagents/agent-1", session_dir));
}

#[test]
fn backslashes_part_subpaths_too() {
    assert!(!is_safe("\\x", "/s"));
    assert!(!is_safe("a\\..\\b", "/s"));
    assert!(!is_safe("a/./b", "/s"));
    assert!(is_safe("a..b/c.d", "/s"));
    assert!(is_safe("1:x", "/s"));
}

#[test]
fn symlink_intermediate_escape_is_refused() {
    assert!(
        !is_safe_subpath("subagents/agent-1", "/outside/agent-1.jsonl", "/proj/sess"),
        "symlinked intermediate directory escape must be refused"
    );
    assert!(is_safe_subpath(
        "subagents/agent-1",
        "/proj/sess/subagents/agent-1.jsonl",
        "/proj/sess"
    ));
    assert!(!is_safe_subpath("a", "/proj/sess2/a.jsonl", "/proj/sess"));
}

#[test]
fn credentials_refresh_token_redacted() {
    let creds = r#"{"claudeAiOauth":{"accessToken":"keep","refreshToken":"secret"}}"#;
    let written: Value = serde_json::from_str(&redact_credentials(creds)).unwrap();
    let oauth = &written["claudeAiOauth"];
    assert_eq!(oauth["accessToken"], Value::from("keep"));
    assert!(
        oauth.get("refreshToken").is_none(),
        "refresh token redacted"
    );
    assert_eq!(redact_credentials("not json"), "not json");
    assert_eq!(redact_credentials("[ 1 ]"), "[1]");
    assert_eq!(redact_credentials("{\"a\": 1}"), "{\"a\":1}");
}

#[test]
fn settings_strip_plugins_and_config_dir() {
    let content = r#"{"enabledPlugins":{"a":true},"extraKnownMarketplaces":["x"],"apiKeyHelper":"helper","env":{"CLAUDE_CONFIG_DIR":"/x","KEEP":"1"}}"#;
    let out = strip_settings_for_resume(content.as_bytes());
    let parsed: Value = serde_json::from_slice(&out).unwrap();
    assert!(parsed.get("enabledPlugins").is_none());
    assert!(parsed.get("extraKnownMarketplaces").is_none());
    assert_eq!(parsed["apiKeyHelper"], Value::from("helper"), "auth preserved");
    assert!(parsed["env"].get("CLAUDE_CONFIG_DIR").is_none());
    assert_eq!(parsed["env"]["KEEP"], Value::from("1"));
}

#[test]
fn settings_non_object_untouched() {
    let content = b"[1, 2, 3]";
    assert_eq!(strip_settings_for_resume(content), content.to_vec());
}

#[test]
fn settings_bom_stripped_and_parsed() {
    let mut content = vec![0xEF, 0xBB, 0xBF];
    content.extend_from_slice(br#"{"enabledPlugins":{}}"#);
    let out = strip_settings_for_resume(&content);
    let parsed: Value = serde_json::from_slice(&out).unwrap();
    assert!(parsed.get("enabledPlugins").is_none());
}

#[test]
fn settings_without_anything_to_strip_keep_their_bytes() {
    let content = b"{ \"a\" :  1, \"env\": {\"X\": \"y\"} }";
    assert_eq!(strip_settings_for_resume(content), content.to_vec());
    assert_eq!(strip_settings_for_resume(b""), Vec::<u8>::new());
    let only_env = br#"{"env":{"CLAUDE_CONFIG_DIR":"/x"}}"#;
    assert_eq!(strip_settings_for_resume(only_env), br#"{"env":{}}"#.to_vec());
}

#[test]
fn configuration_sources() {
    assert_eq!(caller_config_dir(Some("/a"), Some("/b")), Some("/a"));
    assert_eq!(caller_config_dir(None, Some("/b")), Some("/b"));
    assert_eq!(caller_config_dir(Some(""), Some("/b")), None);
    let named = config_sources(Some("/cfg"), Some("/home/u"), None, "agent");
    assert_eq!(named.config_dir, "/cfg");
    assert_eq!(named.claude_json, "/cfg/.agent.json");
    let default = config_sources(None, Some("/home/u"), None, "agent");
    assert_eq!(default.config_dir, "/home/u/.agent");
    assert_eq!(default.claude_json, "/home/u/.agent.json");
    assert_eq!(config_sources(None, None, None, "agent").config_dir, "./.agent");
    assert!(is_unset(None, Some("")));
    assert!(!is_unset(Some("x"), None));
    assert!(!is_unset(None, Some("x")));
}

fn transport_text(e: ClaudeError) -> String {
    match e {
        ClaudeError::TransportError(m) => m,
        other => panic!("unexpected {other:?}"),
    }
}

#[test]
fn failed_calls_say_which() {
    assert_eq!(
        transport_text(call_failed(StoreCall::Load("s"), "boom")),
        "SessionStore::load() for session s failed during resume materialization: boom"
    );
    assert_eq!(
        transport_text(call_timed_out(StoreCall::ListSessions, 1500)),
        "SessionStore::list_sessions() timed out after 1500ms during resume materialization"
    );
    assert_eq!(
        transport_text(call_timed_out(StoreCall::LoadSubpath("s", "p"), 0)),
        "SessionStore::load() for session s subpath p timed out after 0ms during resume materialization"
    );
    assert_eq!(
        transport_text(call_failed(StoreCall::ListSubkeys("s"), "x")),
        "SessionStore::list_subkeys() for session s failed during resume materialization: x"
    );
}

#[test]
fn some_failed_removals_are_tried_again() {
    for code in [1, 13, 16, 23, 24, 39] {
        assert!(is_retryable_errno(code));
    }
    assert!(!is_retryable_errno(2));
}
