use webai::protocol::{Ask, AskPayload, AskResult, AskResultData, Hello, Role};
use webai::router::{Action, Incoming, Notice, Outgoing, Router};

fn hello(role: Role) -> Incoming {
    Incoming {
        ty: "hello".to_string(),
        hello: Some(Hello { ty: "hello".to_string(), role }),
        ask: None,
        ask_result: None,
    }
}

fn ask(id: &str) -> Incoming {
    Incoming {
        ty: "ask".to_string(),
        hello: None,
        ask: Some(Ask {
            ty: "ask".to_string(),
            id: id.to_string(),
            payload: AskPayload { message: "hi".to_string(), conversation: None, timeout_ms: Some(1000), site: None },
        }),
        ask_result: None,
    }
}

fn answer(id: &str, text: &str) -> Incoming {
    Incoming {
        ty: "ask_result".to_string(),
        hello: None,
        ask: None,
        ask_result: Some(AskResult {
            ty: "ask_result".to_string(),
            id: id.to_string(),
            ok: true,
            data: Some(AskResultData { text: text.to_string(), url: "u".to_string(), title: "t".to_string() }),
            error: None,
        }),
    }
}

fn setup() -> (Router, Option<Role>, Option<Role>) {
    let mut r = Router::new();
    r.connect(1);
    r.connect(2);
    let mut cli = None;
    let mut ext = None;
    let a = r.on_text(1, &mut cli, hello(Role::Cli)).ok().unwrap();
    assert!(matches!(a.as_slice(), [Action::Notice(Notice::CliConnected(1))]));
    let a = r.on_text(2, &mut ext, hello(Role::Extension)).ok().unwrap();
    assert!(matches!(a.as_slice(), [Action::Notice(Notice::ExtensionConnected)]));
    assert_eq!(cli, Some(Role::Cli));
    assert_eq!(ext, Some(Role::Extension));
    (r, cli, ext)
}

#[test]
fn answer_returns_to_asker() {
    let (mut r, mut cli, mut ext) = setup();
    let a = r.on_text(1, &mut cli, ask("q1")).ok().unwrap();
    match a.as_slice() {
        [Action::Send(2, Outgoing::Forward(f))] => assert_eq!(f.id, "q1"),
        _ => panic!("ask not forwarded"),
    }
    let a = r.on_text(2, &mut ext, answer("q1", "hello back")).ok().unwrap();
    match a.as_slice() {
        [Action::Send(1, Outgoing::Result(res))] => {
            assert_eq!(res.id, "q1");
            assert_eq!(res.data.as_ref().unwrap().text, "hello back");
        }
        _ => panic!("answer not routed"),
    }
    // a second answer with the same id finds no one waiting
    let a = r.on_text(2, &mut ext, answer("q1", "again")).ok().unwrap();
    assert!(a.is_empty());
}

#[test]
fn ask_without_extension_fails_at_once() {
    let mut r = Router::new();
    r.connect(7);
    let mut role = None;
    r.on_text(7, &mut role, hello(Role::Cli)).ok().unwrap();
    let a = r.on_text(7, &mut role, ask("q")).ok().unwrap();
    match a.as_slice() {
        [Action::Send(7, Outgoing::Result(res))] => {
            assert!(!res.ok);
            assert_eq!(res.id, "q");
            let e = res.error.as_ref().unwrap();
            assert_eq!(e.code, "NO_EXTENSION");
            assert_eq!(
                e.message,
                "extension not connected \u{2014} open Chrome and check the WebAI Bridge icon is ON"
            );
        }
        _ => panic!("expected an immediate error"),
    }
}

#[test]
fn extension_loss_answers_everyone_waiting() {
    let (mut r, mut cli, ext) = setup();
    r.connect(3);
    let mut cli2 = None;
    r.on_text(3, &mut cli2, hello(Role::Cli)).ok().unwrap();
    r.on_text(1, &mut cli, ask("a")).ok().unwrap();
    r.on_text(3, &mut cli2, ask("b")).ok().unwrap();
    let acts = r.disconnect(2, ext);
    assert!(matches!(acts[0], Action::Notice(Notice::ExtensionDisconnected)));
    let mut got: Vec<(u64, String)> = Vec::new();
    for a in &acts[1..] {
        match a {
            Action::Send(c, Outgoing::Result(res)) => {
                assert_eq!(res.error.as_ref().unwrap().code, "NO_EXTENSION");
                assert_eq!(res.error.as_ref().unwrap().message, "extension disconnected while waiting");
                got.push((*c, res.id.clone()));
            }
            _ => panic!("unexpected action"),
        }
    }
    got.sort();
    assert_eq!(got, vec![(1, "a".to_string()), (3, "b".to_string())]);
    // with no extension, a new ask fails at once
    let a = r.on_text(1, &mut cli, ask("c")).ok().unwrap();
    assert!(matches!(a.as_slice(), [Action::Send(1, Outgoing::Result(_))]));
}

#[test]
fn departed_cli_gets_no_answer() {
    let (mut r, mut cli, mut ext) = setup();
    r.on_text(1, &mut cli, ask("a")).ok().unwrap();
    assert!(r.disconnect(1, cli).is_empty());
    let a = r.on_text(2, &mut ext, answer("a", "x")).ok().unwrap();
    assert!(a.is_empty());
}

#[test]
fn new_extension_replaces_old() {
    let (mut r, _cli, ext) = setup();
    r.connect(5);
    let mut ext2 = None;
    let a = r.on_text(5, &mut ext2, hello(Role::Extension)).ok().unwrap();
    assert!(matches!(a.as_slice(), [Action::Close(2), Action::Notice(Notice::ExtensionConnected)]));
    // the old extension leaving does not disturb the new one
    let a = r.disconnect(2, ext);
    assert!(a.is_empty());
}

#[test]
fn second_hello_keeps_first_role() {
    let (mut r, mut cli, _) = setup();
    let a = r.on_text(1, &mut cli, hello(Role::Extension)).ok().unwrap();
    assert!(a.is_empty());
    assert_eq!(cli, Some(Role::Cli));
}

#[test]
fn malformed_messages_are_errors() {
    let (mut r, mut cli, mut ext) = setup();
    let bad_hello = Incoming { ty: "hello".to_string(), hello: None, ask: None, ask_result: None };
    assert!(r.on_text(1, &mut cli, bad_hello).is_err());
    let bad_ask = Incoming { ty: "ask".to_string(), hello: None, ask: None, ask_result: None };
    assert!(r.on_text(1, &mut cli, bad_ask).is_err());
    let bad_result = Incoming { ty: "ask_result".to_string(), hello: None, ask: None, ask_result: None };
    assert!(r.on_text(2, &mut ext, bad_result).is_err());
}

#[test]
fn messages_outside_role_are_ignored() {
    let (mut r, mut cli, mut ext) = setup();
    // an extension cannot ask, a cli cannot answer, unknown types do nothing
    assert!(r.on_text(2, &mut ext, ask("x")).ok().unwrap().is_empty());
    assert!(r.on_text(1, &mut cli, answer("x", "y")).ok().unwrap().is_empty());
    let other = Incoming { ty: "ping".to_string(), hello: None, ask: None, ask_result: None };
    assert!(r.on_text(1, &mut cli, other).ok().unwrap().is_empty());
    // a connection that never said hello is ignored as well
    r.connect(9);
    let mut none = None;
    assert!(r.on_text(9, &mut none, ask("z")).ok().unwrap().is_empty());
}
