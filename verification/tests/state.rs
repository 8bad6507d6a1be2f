use webai::state::key_from_conversation;

#[test]
fn key_from_url() {
    assert_eq!(key_from_conversation("https://chatgpt.com/c/abc-def"), "/c/abc-def");
    assert_eq!(key_from_conversation("https://chatgpt.com/c/abc-def/"), "/c/abc-def");
    assert_eq!(key_from_conversation("https://chatgpt.com/other"), "https://chatgpt.com/other");
}

use webai::state::{is_initialized, mark_initialized, InitRecord, State};

#[test]
fn key_without_id_falls_back_to_url() {
    assert_eq!(key_from_conversation("https://chatgpt.com/c/"), "https://chatgpt.com/c/");
    assert_eq!(key_from_conversation("https://chatgpt.com/c///"), "https://chatgpt.com/c///");
    assert_eq!(key_from_conversation(""), "");
}

#[test]
fn key_uses_first_marker_and_keeps_inner_slashes() {
    assert_eq!(key_from_conversation("https://grok.com/c/x/c/y"), "/c/x/c/y");
    assert_eq!(key_from_conversation("https://grok.com/c/x//"), "/c/x");
    assert_eq!(key_from_conversation("https://kimi.com/c/\u{4f60}\u{597d}"), "/c/\u{4f60}\u{597d}");
}

#[test]
fn key_is_stable() {
    for url in ["https://chatgpt.com/c/abc-def/", "https://chatgpt.com/other", "/c/abc", "x/c/"] {
        let k = key_from_conversation(url);
        assert_eq!(key_from_conversation(&k), k);
    }
}

#[test]
fn trailing_slash_gives_same_key() {
    let url = "https://chatgpt.com/c/abc";
    assert_eq!(key_from_conversation(&format!("{url}/")), key_from_conversation(url));
}

#[test]
fn fresh_table_knows_nothing() {
    let s = State::new();
    assert!(!is_initialized(&s, "/c/a", "0123456789abcdef"));
    assert!(s.rows().is_empty());
}

#[test]
fn query_after_mark() {
    let mut s = State::new();
    mark_initialized(&mut s, "/c/a", "fp1", Some(1700000000));
    assert!(is_initialized(&s, "/c/a", "fp1"));
    assert!(!is_initialized(&s, "/c/a", "fp2"));
    assert!(!is_initialized(&s, "/c/b", "fp1"));
    assert_eq!(s.rows()[0].1.injected_at, "1700000000");
    mark_initialized(&mut s, "/c/b", "fp9", None);
    mark_initialized(&mut s, "/c/a", "fp2", Some(0));
    assert!(is_initialized(&s, "/c/a", "fp2"));
    assert!(!is_initialized(&s, "/c/a", "fp1"));
    assert!(is_initialized(&s, "/c/b", "fp9"));
    assert_eq!(s.rows().len(), 2);
    let b = s.rows().iter().find(|r| r.0 == "/c/b").unwrap();
    assert_eq!(b.1.injected_at, "?");
    let a = s.rows().iter().find(|r| r.0 == "/c/a").unwrap();
    assert_eq!(a.1.injected_at, "0");
}

#[test]
fn later_rows_win_when_loading() {
    let rows = vec![
        ("/c/a".to_string(), InitRecord { fingerprint: "old".to_string(), injected_at: "1".to_string() }),
        ("/c/b".to_string(), InitRecord { fingerprint: "b".to_string(), injected_at: "2".to_string() }),
        ("/c/a".to_string(), InitRecord { fingerprint: "new".to_string(), injected_at: "3".to_string() }),
    ];
    let s = State::from_rows(&rows);
    assert!(is_initialized(&s, "/c/a", "new"));
    assert!(!is_initialized(&s, "/c/a", "old"));
    assert!(is_initialized(&s, "/c/b", "b"));
    assert_eq!(s.rows().len(), 2);
}

#[test]
fn defaults_are_empty() {
    let s = State::default();
    assert!(s.rows().is_empty());
    let r = InitRecord::default();
    assert_eq!((r.fingerprint.as_str(), r.injected_at.as_str()), ("", ""));
}
