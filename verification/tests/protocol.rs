use webai::protocol::{AskResult, AskResultData, ERR_NO_EXTENSION, ERR_TIMEOUT, DEFAULT_PORT};
use webai::router::daemon_port;

#[test]
fn error_result_shape() {
    let r = AskResult::error("id-1", ERR_TIMEOUT, "too slow");
    assert_eq!(r.ty, "ask_result");
    assert_eq!(r.id, "id-1");
    assert!(!r.ok);
    assert!(r.data.is_none());
    let e = r.error.unwrap();
    assert_eq!(e.code, "TIMEOUT");
    assert_eq!(e.message, "too slow");
    assert_eq!(ERR_NO_EXTENSION, "NO_EXTENSION");
}

#[test]
fn empty_reply_data() {
    let d = AskResultData::default();
    assert_eq!((d.text.as_str(), d.url.as_str(), d.title.as_str()), ("", "", ""));
}

#[test]
fn port_zero_means_default() {
    assert_eq!(daemon_port(0), DEFAULT_PORT);
    assert_eq!(daemon_port(0), 8765);
    assert_eq!(daemon_port(9000), 9000);
}
