use std::hash::{Hash, Hasher};

use webai::ask::{
    build_init, fingerprint, fingerprint_of_hash, is_skill_file_name, is_whitespace, message_is_blank, new_ask,
    plan_injection, read_reply, skill_files, terminal_output, Injection, InitError, ReplyFields, ReplyStep, SkillDir,
};
use webai::state::{mark_initialized, State};

const HEADER: &str = "\n\n[SYSTEM CONSTRAINTS \u{2014} loaded once at the start of this conversation. Please acknowledge these rules and follow them for the rest of this conversation. Do not repeat them back, do not ask about them again; they apply to every follow-up message.]\n";

fn std_fingerprint(s: &str) -> String {
    let mut h = std::collections::hash_map::DefaultHasher::new();
    s.hash(&mut h);
    format!("{:016x}", h.finish())
}

#[test]
fn blank_messages() {
    assert!(message_is_blank(""));
    assert!(message_is_blank("  \t\n"));
    assert!(message_is_blank("\u{3000}\u{a0}"));
    assert!(!message_is_blank(" x "));
    assert!(!message_is_blank("\u{4f60}"));
}

#[test]
fn fingerprint_is_hex_of_default_hash() {
    for s in ["", "RULE A", "\u{4f60}\u{597d}"] {
        let f = fingerprint(s);
        assert_eq!(f.len(), 16);
        assert_eq!(f, std_fingerprint(s));
        assert!(f.chars().all(|c| c.is_ascii_hexdigit() && !c.is_ascii_uppercase()));
    }
    assert_ne!(fingerprint("a"), fingerprint("b"));
}

#[test]
fn no_sources_no_init() {
    assert!(matches!(build_init(&vec![], &vec![]), Ok(None)));
}

#[test]
fn system_files_are_sections() {
    let system = vec![("a.txt".to_string(), "RULE A".to_string()), ("b.txt".to_string(), "RULE B".to_string())];
    let (text, fp) = match build_init(&system, &vec![]) {
        Ok(Some(x)) => x,
        _ => panic!("expected constraint text"),
    };
    let expected = format!(
        "## Constraint (a.txt)\nRULE A\n\n## Constraint (b.txt)\nRULE B\n{HEADER}\n\n[Acknowledge by replying OK.]"
    );
    assert_eq!(text, expected);
    assert_eq!(fp, std_fingerprint("6:RULE A6:RULE B"));
}

#[test]
fn skills_follow_system_files() {
    let system = vec![("s.md".to_string(), "S".to_string())];
    let skills = vec![SkillDir {
        dir: "skills".to_string(),
        files: vec![("one.md".to_string(), "ONE".to_string()), ("two.mdx".to_string(), "TWO".to_string())],
    }];
    let (text, fp) = match build_init(&system, &skills) {
        Ok(Some(x)) => x,
        _ => panic!("expected constraint text"),
    };
    let expected = format!(
        "## Constraint (s.md)\nS\n\n## Skill: one.md\nONE\n\n## Skill: two.mdx\nTWO\n{HEADER}\n\n[Acknowledge by replying OK.]"
    );
    assert_eq!(text, expected);
    assert_eq!(fp, std_fingerprint("1:S3:ONE3:TWO"));
}

#[test]
fn empty_skill_dir_is_an_error() {
    let skills = vec![
        SkillDir { dir: "ok".to_string(), files: vec![("a.md".to_string(), "A".to_string())] },
        SkillDir { dir: "empty".to_string(), files: vec![] },
    ];
    match build_init(&vec![], &skills) {
        Err(InitError::NoSkillFiles(d)) => assert_eq!(d, "empty"),
        _ => panic!("expected an error"),
    }
}

#[test]
fn skill_file_names() {
    assert!(is_skill_file_name("a.md"));
    assert!(is_skill_file_name("a.b.mdx"));
    assert!(is_skill_file_name("..md"));
    assert!(!is_skill_file_name(".md"));
    assert!(!is_skill_file_name("md"));
    assert!(!is_skill_file_name("a.MD"));
    assert!(!is_skill_file_name("a.mdxx"));
    assert!(!is_skill_file_name("a.txt"));
    assert!(!is_skill_file_name(".."));
    assert!(!is_skill_file_name("a."));
}

#[test]
fn injection_plans() {
    let mut table = State::new();
    let conv = Some("https://chatgpt.com/c/abc".to_string());
    assert!(matches!(plan_injection(None, &conv, false, &table), Injection::Nothing));
    assert!(matches!(plan_injection(Some("fp"), &None, false, &table), Injection::NewConversation));
    match plan_injection(Some("fp"), &conv, false, &table) {
        Injection::IntoConversation { key, forced } => {
            assert_eq!(key, "/c/abc");
            assert!(!forced);
        }
        _ => panic!("expected an injection"),
    }
    mark_initialized(&mut table, "/c/abc", "fp", Some(1));
    match plan_injection(Some("fp"), &Some("https://chatgpt.com/c/abc/".to_string()), false, &table) {
        Injection::AlreadyLoaded { key } => assert_eq!(key, "/c/abc"),
        _ => panic!("expected a skip"),
    }
    match plan_injection(Some("fp"), &conv, true, &table) {
        Injection::IntoConversation { forced, .. } => assert!(forced),
        _ => panic!("expected a forced injection"),
    }
    match plan_injection(Some("fp2"), &conv, false, &table) {
        Injection::IntoConversation { forced, .. } => assert!(!forced),
        _ => panic!("changed constraints are injected again"),
    }
}

#[test]
fn new_ask_carries_payload() {
    let a = new_ask("id-1", "hi", &Some("https://grok.com/c/1".to_string()), 300, "grok");
    assert_eq!(a.ty, "ask");
    assert_eq!(a.payload.message, "hi");
    assert_eq!(a.payload.conversation.as_deref(), Some("https://grok.com/c/1"));
    assert_eq!(a.payload.timeout_ms, Some(300_000));
    assert_eq!(a.payload.site.as_deref(), Some("grok"));
    assert_eq!(a.id, "id-1");
    let b = new_ask("id-2", "hi", &None, 1, "chatgpt");
    assert_eq!(b.payload.timeout_ms, Some(1000));
    assert!(b.payload.conversation.is_none());
}

fn fields(ty: &str, id: &str) -> ReplyFields {
    ReplyFields {
        ty: Some(ty.to_string()),
        id: Some(id.to_string()),
        ok: None,
        delta: None,
        text: None,
        url: None,
        title: None,
        code: None,
        message: None,
    }
}

#[test]
fn replies_for_other_requests_are_ignored() {
    assert!(matches!(read_reply(fields("ask_result", "other"), "mine"), ReplyStep::Ignore));
    assert!(matches!(read_reply(fields("status", "mine"), "mine"), ReplyStep::Ignore));
    let mut f = fields("ask_result", "mine");
    f.ty = None;
    assert!(matches!(read_reply(f, "mine"), ReplyStep::Ignore));
}

#[test]
fn successful_reply() {
    let mut f = fields("ask_result", "mine");
    f.ok = Some(true);
    f.text = Some("answer".to_string());
    f.url = Some("https://chatgpt.com/c/9".to_string());
    match read_reply(f, "mine") {
        ReplyStep::Done(d) => {
            assert_eq!(d.text, "answer");
            assert_eq!(d.url, "https://chatgpt.com/c/9");
            assert_eq!(d.title, "");
        }
        _ => panic!("expected the reply"),
    }
}

#[test]
fn failed_reply_text() {
    let mut f = fields("ask_result", "mine");
    f.ok = Some(false);
    f.code = Some("TIMEOUT".to_string());
    f.message = Some("took too long".to_string());
    match read_reply(f, "mine") {
        ReplyStep::Failed(m) => assert_eq!(m, "[TIMEOUT] took too long"),
        _ => panic!("expected a failure"),
    }
    match read_reply(fields("ask_result", "mine"), "mine") {
        ReplyStep::Failed(m) => assert_eq!(m, "[?] ?"),
        _ => panic!("expected a failure"),
    }
}

#[test]
fn stream_deltas() {
    let mut f = fields("ask_chunk", "mine");
    f.delta = Some("par".to_string());
    match read_reply(f, "mine") {
        ReplyStep::Delta(d) => assert_eq!(d, "par"),
        _ => panic!("expected a delta"),
    }
    assert!(matches!(read_reply(fields("ask_chunk", "mine"), "mine"), ReplyStep::Ignore));
}

#[test]
fn plain_output_ends_with_newline() {
    assert_eq!(terminal_output("hi"), "hi\n");
    assert_eq!(terminal_output("hi\n"), "hi\n");
    assert_eq!(terminal_output(""), "\n");
}

#[test]
fn fingerprint_digits() {
    assert_eq!(fingerprint_of_hash(0), "0000000000000000");
    assert_eq!(fingerprint_of_hash(0xdead_beef), "00000000deadbeef");
    assert_eq!(fingerprint_of_hash(u64::MAX), "ffffffffffffffff");
}

#[test]
fn whitespace_matches_std() {
    for c in (0u32..0x3100).filter_map(char::from_u32) {
        assert_eq!(is_whitespace(c), c.is_whitespace(), "{:?}", c);
    }
    assert_eq!(is_whitespace(char::MAX), char::MAX.is_whitespace());
}

#[test]
fn file_boundaries_change_the_fingerprint() {
    let a = vec![("x".to_string(), "ab".to_string()), ("y".to_string(), "c".to_string())];
    let b = vec![("x".to_string(), "a".to_string()), ("y".to_string(), "bc".to_string())];
    let fa = match build_init(&a, &vec![]) {
        Ok(Some((_, f))) => f,
        _ => panic!(),
    };
    let fb = match build_init(&b, &vec![]) {
        Ok(Some((_, f))) => f,
        _ => panic!(),
    };
    assert_ne!(fa, fb);
}

#[test]
fn skill_files_are_sorted_markdown() {
    let names: Vec<String> =
        ["b.md", "notes.txt", "a.mdx", "B.md", ".md", "a.md", "\u{e9}.md"].iter().map(|s| s.to_string()).collect();
    let r = skill_files(&names);
    assert_eq!(r, vec!["B.md", "a.md", "a.mdx", "b.md", "\u{e9}.md"]);
    assert!(skill_files(&vec![]).is_empty());
}
