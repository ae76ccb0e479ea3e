//! Checks of session options.
use claude_agent_rust_sdk::agent::AgentOptions;
use claude_agent_rust_sdk::error::ClaudeError;
use claude_agent_rust_sdk::sessions::store::SessionStoreCapabilities;
use claude_agent_rust_sdk::sessions::validation::validate_session_store_options;

fn minimal_store() -> SessionStoreCapabilities {
    SessionStoreCapabilities::default()
}

fn listing_store() -> SessionStoreCapabilities {
    SessionStoreCapabilities {
        list_sessions: true,
        ..Default::default()
    }
}

fn text(e: ClaudeError) -> String {
    match e {
        ClaudeError::InvalidConfig(m) => m,
        other => panic!("unexpected {other:?}"),
    }
}

#[test]
fn no_store_is_always_valid() {
    let opts = AgentOptions {
        continue_conversation: true,
        enable_file_checkpointing: true,
        ..Default::default()
    };
    assert!(validate_session_store_options(&opts).is_ok());
}

#[test]
fn continue_without_list_sessions_rejected() {
    let opts = AgentOptions {
        session_store: Some(minimal_store()),
        continue_conversation: true,
        ..Default::default()
    };
    let err = validate_session_store_options(&opts).unwrap_err();
    assert!(matches!(err, ClaudeError::InvalidConfig(_)));
    assert!(text(err).contains("list_sessions"));
}

#[test]
fn continue_with_list_sessions_allowed() {
    let opts = AgentOptions {
        session_store: Some(listing_store()),
        continue_conversation: true,
        ..Default::default()
    };
    assert!(validate_session_store_options(&opts).is_ok());
}

#[test]
fn continue_with_explicit_resume_allows_minimal_store() {
    let opts = AgentOptions {
        session_store: Some(minimal_store()),
        continue_conversation: true,
        resume: Some(uuid::Uuid::new_v4().to_string()),
        ..Default::default()
    };
    assert!(validate_session_store_options(&opts).is_ok());
}

#[test]
fn store_with_file_checkpointing_rejected() {
    let opts = AgentOptions {
        session_store: Some(listing_store()),
        enable_file_checkpointing: true,
        ..Default::default()
    };
    let err = validate_session_store_options(&opts).unwrap_err();
    assert!(matches!(err, ClaudeError::InvalidConfig(_)));
    assert!(text(err).contains("enable_file_checkpointing"));
}

#[test]
fn plain_resume_store_valid() {
    let opts = AgentOptions {
        session_store: Some(minimal_store()),
        resume: Some(uuid::Uuid::new_v4().to_string()),
        ..Default::default()
    };
    assert!(validate_session_store_options(&opts).is_ok());
}
