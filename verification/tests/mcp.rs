use webai::mcp::{ask_arguments, route_request, tool_result, McpReply, ToolArgs, PROTOCOL_VERSION};
use webai::protocol::AskResultData;

#[test]
fn notifications_get_no_reply() {
    assert!(matches!(route_request(false, "initialize", ""), McpReply::NoReply));
    assert!(matches!(route_request(false, "tools/call", "ask"), McpReply::NoReply));
}

#[test]
fn methods() {
    assert!(matches!(route_request(true, "initialize", ""), McpReply::Initialize));
    assert!(matches!(route_request(true, "ping", ""), McpReply::Pong));
    assert!(matches!(route_request(true, "tools/list", ""), McpReply::ToolList));
    assert!(matches!(route_request(true, "tools/call", "ask"), McpReply::CallAsk));
    match route_request(true, "tools/call", "other") {
        McpReply::Error { code, message } => {
            assert_eq!(code, -32602);
            assert_eq!(message, "unknown tool");
        }
        _ => panic!("expected an error"),
    }
    match route_request(true, "", "") {
        McpReply::Error { code, message } => {
            assert_eq!(code, -32601);
            assert_eq!(message, "method not found");
        }
        _ => panic!("expected an error"),
    }
    assert_eq!(PROTOCOL_VERSION, "2025-06-18");
}

#[test]
fn argument_defaults() {
    let a = ask_arguments(ToolArgs {
        message: None,
        site: None,
        conversation: None,
        reinit: None,
        timeout_secs: None,
        system: None,
        skills: None,
    });
    assert_eq!(a.message, "");
    assert_eq!(a.site, "chatgpt");
    assert!(a.conversation.is_none());
    assert!(!a.reinit);
    assert_eq!(a.timeout_secs, 300);
    assert!(a.system.is_empty() && a.skills.is_empty());
}

#[test]
fn arguments_given() {
    let a = ask_arguments(ToolArgs {
        message: Some("q".to_string()),
        site: Some("kimi".to_string()),
        conversation: Some("https://kimi.com/c/1".to_string()),
        reinit: Some(true),
        timeout_secs: Some(42),
        system: Some(vec![Some("a.md".to_string()), None, Some("b.md".to_string())]),
        skills: Some(vec![None]),
    });
    assert_eq!(a.message, "q");
    assert_eq!(a.site, "kimi");
    assert_eq!(a.conversation.as_deref(), Some("https://kimi.com/c/1"));
    assert!(a.reinit);
    assert_eq!(a.timeout_secs, 42);
    assert_eq!(a.system, vec!["a.md".to_string(), "b.md".to_string()]);
    assert!(a.skills.is_empty());
}

#[test]
fn tool_results() {
    let ok = tool_result(Ok(AskResultData {
        text: "reply".to_string(),
        url: "https://grok.com/c/5".to_string(),
        title: "t".to_string(),
    }));
    assert!(!ok.is_error);
    assert_eq!(ok.texts, vec!["reply".to_string(), "conversation: https://grok.com/c/5".to_string()]);
    let err = tool_result(Err("message is empty".to_string()));
    assert!(err.is_error);
    assert_eq!(err.texts, vec!["error: message is empty".to_string()]);
}
