//! Parts of requests and responses.
use claude_agent_rust_sdk::types::batch::ListBatchesParams;
use claude_agent_rust_sdk::types::{
    CacheControl, CreateMessageResponse, ResponseContentBlock, Role, ToolChoice, ToolChoiceFault,
    Usage,
};

#[test]
fn cache_control_ephemeral() {
    let cc = CacheControl::ephemeral();
    assert_eq!(cc.cache_type, "ephemeral");
    assert!(cc.ttl.is_none());
}

#[test]
fn cache_control_5m() {
    let cc = CacheControl::ephemeral_5m();
    assert_eq!(cc.cache_type, "ephemeral");
    assert_eq!(cc.ttl.as_deref(), Some("5m"));
}

#[test]
fn cache_control_1h() {
    let cc = CacheControl::ephemeral_1h();
    assert_eq!(cc.cache_type, "ephemeral");
    assert_eq!(cc.ttl.as_deref(), Some("1h"));
}

fn read_back(tc: &ToolChoice) -> Result<ToolChoice, ToolChoiceFault> {
    ToolChoice::from_wire(tc.wire_type(), tc.wire_name().map(|n| n.to_string()))
}

#[test]
fn tool_choice_auto_round_trip() {
    let tc = ToolChoice::Auto;
    assert_eq!(tc.wire_type(), "auto");
    assert!(matches!(read_back(&tc), Ok(ToolChoice::Auto)));
}

#[test]
fn tool_choice_any_round_trip() {
    let tc = ToolChoice::Any;
    assert_eq!(tc.wire_type(), "any");
    assert!(matches!(read_back(&tc), Ok(ToolChoice::Any)));
}

#[test]
fn tool_choice_tool_round_trip() {
    let tc = ToolChoice::Tool {
        name: "get_weather".into(),
    };
    assert_eq!(tc.wire_type(), "tool");
    assert_eq!(tc.wire_name(), Some("get_weather"));
    match read_back(&tc) {
        Ok(ToolChoice::Tool { name }) => assert_eq!(name, "get_weather"),
        _ => panic!("expected Tool"),
    }
}

#[test]
fn tool_choice_none_round_trip() {
    let tc = ToolChoice::NoTool;
    assert_eq!(tc.wire_type(), "none");
    assert!(matches!(read_back(&tc), Ok(ToolChoice::NoTool)));
}

#[test]
fn tool_choices_that_cannot_be_read() {
    assert!(matches!(
        ToolChoice::from_wire("tool", None),
        Err(ToolChoiceFault::MissingName)
    ));
    assert!(matches!(
        ToolChoice::from_wire("Auto", None),
        Err(ToolChoiceFault::Unknown(k)) if k == "Auto"
    ));
    assert!(matches!(
        ToolChoice::from_wire("auto", Some("ignored".into())),
        Ok(ToolChoice::Auto)
    ));
}

#[test]
fn usage_default() {
    let u = Usage::default();
    assert_eq!(u.input_tokens, 0);
    assert_eq!(u.output_tokens, 0);
}

fn response(content: Vec<ResponseContentBlock>) -> CreateMessageResponse {
    CreateMessageResponse {
        id: "msg_123".into(),
        response_type: Some("message".into()),
        model: "haiku-4-5".into(),
        role: Role::Assistant,
        content,
        stop_reason: Some("end_turn".into()),
        stop_sequence: None,
        usage: Usage::default(),
    }
}

#[test]
fn create_message_response_text_helper() {
    let resp = response(vec![
        ResponseContentBlock::Thinking {
            thinking: "hmm".into(),
            signature: None,
        },
        ResponseContentBlock::Text {
            text: "Hello!".into(),
            citations: None,
        },
    ]);
    assert_eq!(resp.text(), Some("Hello!"));
    assert_eq!(resp.thinking(), Some("hmm"));
    assert_eq!(resp.tool_uses().len(), 0);
}

#[test]
fn create_message_response_tool_uses_helper() {
    let resp = response(vec![ResponseContentBlock::ToolUse {
        id: "toolu_1".into(),
        name: "calc".into(),
        input: serde_json::from_str(r#"{"x": 1}"#).unwrap(),
    }]);
    let uses = resp.tool_uses();
    assert_eq!(uses.len(), 1);
    assert_eq!(uses[0].0, "toolu_1");
    assert_eq!(uses[0].1, "calc");
    assert_eq!(uses[0].2["x"], 1);
}

#[test]
fn responses_without_text_or_thinking() {
    let resp = response(vec![ResponseContentBlock::RedactedThinking { data: "x".into() }]);
    assert_eq!(resp.text(), None);
    assert_eq!(resp.thinking(), None);
}

#[test]
fn list_params_default() {
    let params = ListBatchesParams::default();
    assert!(params.after_id.is_none());
    assert!(params.before_id.is_none());
    assert!(params.limit.is_none());
}
