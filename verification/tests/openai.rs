use webai::openai::{
    prompt_text, site_for_model, sse_chunks, ChatContent, ChatMsg, ChatSession, ChunkEvent, OPENAI_PORT,
};
use webai::protocol::AskResultData;

#[test]
fn sites_by_model_name() {
    assert_eq!(site_for_model("grok-web"), "grok");
    assert_eq!(site_for_model("GROK-3"), "grok");
    assert_eq!(site_for_model("Kimi-K2"), "kimi");
    assert_eq!(site_for_model("glm-4"), "glm");
    assert_eq!(site_for_model("ZhiPu"), "glm");
    assert_eq!(site_for_model("gpt-4o"), "chatgpt");
    assert_eq!(site_for_model(""), "chatgpt");
    assert_eq!(site_for_model("grok-kimi"), "grok");
    assert_eq!(OPENAI_PORT, 19001);
}

fn msg(role: &str, content: ChatContent) -> ChatMsg {
    ChatMsg { role: role.to_string(), content }
}

#[test]
fn message_text() {
    assert_eq!(msg("user", ChatContent::Text("hi".to_string())).text(), "hi");
    let parts = ChatContent::Parts(vec![Some("a".to_string()), None, Some("b".to_string())]);
    assert_eq!(msg("user", parts).text(), "ab");
    assert_eq!(msg("user", ChatContent::Other).text(), "");
}

#[test]
fn last_user_message_is_the_prompt() {
    let msgs = vec![
        msg("system", ChatContent::Text("be brief".to_string())),
        msg("user", ChatContent::Text("first".to_string())),
        msg("assistant", ChatContent::Text("ok".to_string())),
        msg("user", ChatContent::Text("second".to_string())),
        msg("assistant", ChatContent::Text("?".to_string())),
    ];
    assert_eq!(prompt_text(&msgs), "second");
    assert_eq!(prompt_text(&vec![msg("system", ChatContent::Text("x".to_string()))]), "");
    assert_eq!(prompt_text(&vec![]), "");
}

#[test]
fn session_continues_last_conversation() {
    let mut s = ChatSession::new();
    assert!(s.conversation().is_none());
    let r = s.finish(Ok(AskResultData { text: "t".to_string(), url: "https://grok.com/c/1".to_string(), title: String::new() }));
    assert_eq!(r, Ok("t".to_string()));
    assert_eq!(s.conversation().as_deref(), Some("https://grok.com/c/1"));
    let r = s.finish(Err("boom".to_string()));
    assert_eq!(r, Err("boom".to_string()));
    assert_eq!(s.conversation().as_deref(), Some("https://grok.com/c/1"));
}

fn contents(events: &[ChunkEvent]) -> Vec<String> {
    events
        .iter()
        .filter_map(|e| match e {
            ChunkEvent::Content(s) => Some(s.clone()),
            _ => None,
        })
        .collect()
}

#[test]
fn stream_of_empty_reply() {
    let ev = sse_chunks("");
    assert_eq!(ev.len(), 3);
    assert!(matches!(ev[0], ChunkEvent::Start));
    assert!(matches!(ev[1], ChunkEvent::Stop));
    assert!(matches!(ev[2], ChunkEvent::Done));
}

#[test]
fn stream_cuts_every_120_bytes() {
    let text: String = (0..250).map(|i| char::from(b'a' + (i % 26) as u8)).collect();
    let ev = sse_chunks(&text);
    assert_eq!(ev.len(), 3 + 3);
    let parts = contents(&ev);
    assert_eq!(parts.iter().map(|p| p.len()).collect::<Vec<_>>(), vec![120, 120, 10]);
    assert_eq!(parts.concat(), text);
    assert!(matches!(ev[4], ChunkEvent::Stop));
    assert!(matches!(ev[5], ChunkEvent::Done));
}

#[test]
fn cuts_never_split_a_character() {
    // 119 ASCII bytes then a 3-byte character: the cut comes before it
    let text = format!("{}\u{4f60}", "x".repeat(119));
    let parts = contents(&sse_chunks(&text));
    assert_eq!(parts, vec!["x".repeat(119), "\u{4f60}".to_string()]);
    // one ASCII byte then sixty 2-byte characters (121 bytes)
    let text = format!("a{}", "\u{e9}".repeat(60));
    let ev = sse_chunks(&text);
    assert_eq!(ev.len(), 5);
    let parts = contents(&ev);
    assert_eq!(parts[0].len(), 119);
    assert_eq!(parts[1], "\u{e9}");
    assert_eq!(parts.concat(), text);
}
