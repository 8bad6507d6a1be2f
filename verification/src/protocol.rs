//! The bridge's wire vocabulary: the messages that the CLI, the daemon and
//! the browser extension exchange, as plain values.
//!
//! Wire shapes (JSON over WebSocket, each with a `type` field):
//!   hello       {type, role: "cli" | "extension"}
//!   ask         {type, id, payload: {message, conversation?, timeout_ms?, site?}}
//!   ask_result  {type, id, ok, data?: {text, url, title}, error?: {code, message}}

use vstd::prelude::*;

verus! {

/// The port the daemon listens on unless told otherwise.
pub const DEFAULT_PORT: u16 = 8765;

pub const ERR_NO_EXTENSION: &'static str = "NO_EXTENSION";
pub const ERR_TIMEOUT: &'static str = "TIMEOUT";
pub const ERR_BUSY: &'static str = "BUSY";
pub const ERR_TAB: &'static str = "NO_TAB";
pub const ERR_LOGIN_REQUIRED: &'static str = "LOGIN_REQUIRED";
pub const ERR_SITE_DRIFT: &'static str = "SITE_DRIFT";
pub const ERR_INTERNAL: &'static str = "INTERNAL";

/// Which side of the bridge a connection speaks for.
#[derive(Clone, Copy, PartialEq, Eq, Debug, Structural)]
pub enum Role {
    Cli,
    Extension,
}

/// The first message of every connection.
#[derive(Clone, Debug)]
pub struct Hello {
    pub ty: String,
    pub role: Role,
}

/// What a CLI asks the web AI.
#[derive(Clone, Debug)]
pub struct AskPayload {
    pub message: String,
    pub conversation: Option<String>,
    pub timeout_ms: Option<u64>,
    /// Site key: chatgpt | grok | kimi | glm (default chatgpt)
    pub site: Option<String>,
}

/// A request, identified by `id`.
#[derive(Clone, Debug)]
pub struct Ask {
    pub ty: String,
    pub id: String,
    pub payload: AskPayload,
}

/// Why a request failed: one of the `ERR_*` codes and a message.
#[derive(Clone, Debug)]
pub struct ErrorObj {
    pub code: String,
    pub message: String,
}

/// The reply the web AI gave, with the page it came from.
#[derive(Clone, Debug)]
pub struct AskResultData {
    pub text: String,
    pub url: String,
    pub title: String,
}

/// The answer to the request `id`: `data` when `ok`, `error` otherwise.
#[derive(Clone, Debug)]
pub struct AskResult {
    pub ty: String,
    pub id: String,
    pub ok: bool,
    pub data: Option<AskResultData>,
    pub error: Option<ErrorObj>,
}

pub struct HelloView {
    pub ty: Seq<char>,
    pub role: Role,
}

pub struct AskPayloadView {
    pub message: Seq<char>,
    pub conversation: Option<Seq<char>>,
    pub timeout_ms: Option<u64>,
    pub site: Option<Seq<char>>,
}

pub struct AskView {
    pub ty: Seq<char>,
    pub id: Seq<char>,
    pub payload: AskPayloadView,
}

pub struct ErrorObjView {
    pub code: Seq<char>,
    pub message: Seq<char>,
}

pub struct AskResultDataView {
    pub text: Seq<char>,
    pub url: Seq<char>,
    pub title: Seq<char>,
}

pub struct AskResultView {
    pub ty: Seq<char>,
    pub id: Seq<char>,
    pub ok: bool,
    pub data: Option<AskResultDataView>,
    pub error: Option<ErrorObjView>,
}

/// The abstract value of an optional string.
pub open spec fn opt_view(s: Option<String>) -> Option<Seq<char>> {
    match s {
        Some(s) => Some(s@),
        None => None,
    }
}

impl View for Hello {
    type V = HelloView;

    open spec fn view(&self) -> HelloView {
        HelloView { ty: self.ty@, role: self.role }
    }
}

impl View for AskPayload {
    type V = AskPayloadView;

    open spec fn view(&self) -> AskPayloadView {
        AskPayloadView {
            message: self.message@,
            conversation: opt_view(self.conversation),
            timeout_ms: self.timeout_ms,
            site: opt_view(self.site),
        }
    }
}

impl View for Ask {
    type V = AskView;

    open spec fn view(&self) -> AskView {
        AskView { ty: self.ty@, id: self.id@, payload: self.payload@ }
    }
}

impl View for ErrorObj {
    type V = ErrorObjView;

    open spec fn view(&self) -> ErrorObjView {
        ErrorObjView { code: self.code@, message: self.message@ }
    }
}

impl View for AskResultData {
    type V = AskResultDataView;

    open spec fn view(&self) -> AskResultDataView {
        AskResultDataView { text: self.text@, url: self.url@, title: self.title@ }
    }
}

impl View for AskResult {
    type V = AskResultView;

    open spec fn view(&self) -> AskResultView {
        AskResultView {
            ty: self.ty@,
            id: self.id@,
            ok: self.ok,
            data: match self.data {
                Some(d) => Some(d@),
                None => None,
            },
            error: match self.error {
                Some(e) => Some(e@),
                None => None,
            },
        }
    }
}

/// The failed answer to request `id`.
pub open spec fn error_result(id: Seq<char>, code: Seq<char>, message: Seq<char>) -> AskResultView {
    AskResultView {
        ty: "ask_result"@,
        id,
        ok: false,
        data: None,
        error: Some(ErrorObjView { code, message }),
    }
}

impl AskResult {
    /// A failed answer to request `id` with the given code and message.
    pub fn error(id: &str, code: &str, message: &str) -> (r: AskResult)
        ensures
            r@ == error_result(id@, code@, message@),
    {
        AskResult {
            ty: String::from_str("ask_result"),
            id: String::from_str(id),
            ok: false,
            data: None,
            error: Some(ErrorObj { code: String::from_str(code), message: String::from_str(message) }),
        }
    }
}

impl Default for AskResultData {
    /// An empty reply: no text, no URL, no title.
    fn default() -> (r: AskResultData)
        ensures
            r@ == (AskResultDataView { text: Seq::empty(), url: Seq::empty(), title: Seq::empty() }),
    {
        AskResultData { text: String::new(), url: String::new(), title: String::new() }
    }
}

} // verus!
