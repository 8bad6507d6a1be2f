//! The decisions of the stdio MCP (Model Context Protocol) server: which
//! answer a JSON-RPC request gets, how the `ask` tool's arguments are read,
//! and what the tool returns.

use vstd::prelude::*;
use crate::protocol::{AskResultData, AskResultDataView, opt_view};
use crate::text::{string_items, strings_view};

verus! {

/// The MCP protocol revision this server speaks.
pub const PROTOCOL_VERSION: &'static str = "2025-06-18";

/// The answer a JSON-RPC request gets.
pub enum McpReply {
    /// A notification (no `id`): nothing is sent back.
    NoReply,
    /// The `initialize` handshake result.
    Initialize,
    /// The empty result of `ping`.
    Pong,
    /// The list of tools (the one tool, `ask`).
    ToolList,
    /// Run the `ask` tool with the request's arguments.
    CallAsk,
    /// A JSON-RPC error.
    Error { code: i64, message: String },
}

pub enum McpReplyView {
    NoReply,
    Initialize,
    Pong,
    ToolList,
    CallAsk,
    Error { code: i64, message: Seq<char> },
}

impl View for McpReply {
    type V = McpReplyView;

    open spec fn view(&self) -> McpReplyView {
        match self {
            McpReply::NoReply => McpReplyView::NoReply,
            McpReply::Initialize => McpReplyView::Initialize,
            McpReply::Pong => McpReplyView::Pong,
            McpReply::ToolList => McpReplyView::ToolList,
            McpReply::CallAsk => McpReplyView::CallAsk,
            McpReply::Error { code, message } => McpReplyView::Error { code: *code, message: message@ },
        }
    }
}

/// The answer to a request with the given `method` (empty where absent) and,
/// for `tools/call`, the tool `tool` (empty where absent); `has_id` is false
/// for notifications.
pub open spec fn mcp_reply(has_id: bool, method: Seq<char>, tool: Seq<char>) -> McpReplyView {
    if !has_id {
        McpReplyView::NoReply
    } else if method == "initialize"@ {
        McpReplyView::Initialize
    } else if method == "ping"@ {
        McpReplyView::Pong
    } else if method == "tools/list"@ {
        McpReplyView::ToolList
    } else if method == "tools/call"@ {
        if tool == "ask"@ {
            McpReplyView::CallAsk
        } else {
            McpReplyView::Error { code: -32602i64, message: "unknown tool"@ }
        }
    } else {
        McpReplyView::Error { code: -32601i64, message: "method not found"@ }
    }
}

fn text_is(s: &str, lit: &str) -> (r: bool)
    ensures
        r == (s@ == lit@),
{
    String::from_str(s) == String::from_str(lit)
}

/// Decides how to answer a JSON-RPC request.
pub fn route_request(has_id: bool, method: &str, tool: &str) -> (r: McpReply)
    ensures
        r@ == mcp_reply(has_id, method@, tool@),
{
    if !has_id {
        McpReply::NoReply
    } else if text_is(method, "initialize") {
        McpReply::Initialize
    } else if text_is(method, "ping") {
        McpReply::Pong
    } else if text_is(method, "tools/list") {
        McpReply::ToolList
    } else if text_is(method, "tools/call") {
        if text_is(tool, "ask") {
            McpReply::CallAsk
        } else {
            McpReply::Error { code: -32602, message: String::from_str("unknown tool") }
        }
    } else {
        McpReply::Error { code: -32601, message: String::from_str("method not found") }
    }
}

/// The `ask` tool's arguments as they were given: each where present with
/// the expected JSON type (`timeout` already in whole seconds); for `system`
/// and `skills`, each array item that is a string, `None` for one that is not.
pub struct ToolArgs {
    pub message: Option<String>,
    pub site: Option<String>,
    pub conversation: Option<String>,
    pub reinit: Option<bool>,
    pub timeout_secs: Option<u64>,
    pub system: Option<Vec<Option<String>>>,
    pub skills: Option<Vec<Option<String>>>,
}

/// The `ask` tool's arguments with the defaults applied.
pub struct ToolAsk {
    pub message: String,
    pub site: String,
    pub conversation: Option<String>,
    pub reinit: bool,
    pub timeout_secs: u64,
    pub system: Vec<String>,
    pub skills: Vec<String>,
}

/// The string items of an optional array argument (none where it is absent).
pub open spec fn string_list(items: Option<Vec<Option<String>>>) -> Seq<Seq<char>> {
    match items {
        Some(v) => string_items(v@),
        None => Seq::empty(),
    }
}

fn string_items_exec(items: Option<Vec<Option<String>>>) -> (r: Vec<String>)
    ensures
        strings_view(r@) == string_list(items),
{
    let mut r: Vec<String> = Vec::new();
    match items {
        None => {
            assert(strings_view(r@) =~= Seq::empty());
        }
        Some(v) => {
            let ghost all = v@;
            let mut i: usize = 0;
            while i < v.len()
                invariant
                    i <= all.len(),
                    all == v@,
                    strings_view(r@) == string_items(all.take(i as int)),
                decreases v.len() - i,
            {
                assert(all.take(i + 1).drop_last() =~= all.take(i as int));
                match &v[i] {
                    Some(s) => {
                        let ghost prev = r@;
                        r.push(s.clone());
                        assert(strings_view(r@) =~= strings_view(prev).push(s@));
                    }
                    None => {}
                }
                i += 1;
            }
            assert(all.take(all.len() as int) =~= all);
        }
    }
    r
}

/// Applies the defaults to the `ask` tool's arguments: an empty message,
/// site `chatgpt`, no re-injection, 300 seconds, no constraint files.
pub fn ask_arguments(args: ToolArgs) -> (r: ToolAsk)
    ensures
        r.message@ == match args.message {
            Some(m) => m@,
            None => Seq::empty(),
        },
        r.site@ == match args.site {
            Some(s) => s@,
            None => "chatgpt"@,
        },
        opt_view(r.conversation) == opt_view(args.conversation),
        r.reinit == match args.reinit {
            Some(b) => b,
            None => false,
        },
        r.timeout_secs == match args.timeout_secs {
            Some(t) => t,
            None => 300,
        },
        strings_view(r.system@) == string_list(args.system),
        strings_view(r.skills@) == string_list(args.skills),
{
    ToolAsk {
        message: match args.message {
            Some(m) => m,
            None => String::new(),
        },
        site: match args.site {
            Some(s) => s,
            None => String::from_str("chatgpt"),
        },
        conversation: args.conversation,
        reinit: match args.reinit {
            Some(b) => b,
            None => false,
        },
        timeout_secs: match args.timeout_secs {
            Some(t) => t,
            None => 300,
        },
        system: string_items_exec(args.system),
        skills: string_items_exec(args.skills),
    }
}

/// What the `ask` tool returns: text items, and whether it failed.
pub struct ToolResult {
    pub texts: Vec<String>,
    pub is_error: bool,
}

/// The reply and the conversation URL on success; the error otherwise.
pub open spec fn tool_result_texts(outcome: Result<AskResultDataView, Seq<char>>) -> Seq<Seq<char>> {
    match outcome {
        Ok(d) => seq![d.text, "conversation: "@ + d.url],
        Err(e) => seq!["error: "@ + e],
    }
}

/// Turns the outcome of an ask (the reply, or the error's text) into the
/// tool's result.
pub fn tool_result(outcome: Result<AskResultData, String>) -> (r: ToolResult)
    ensures
        strings_view(r.texts@) == tool_result_texts(
            match outcome {
                Ok(d) => Ok(d@),
                Err(e) => Err(e@),
            },
        ),
        r.is_error == outcome is Err,
{
    match outcome {
        Ok(d) => {
            let mut conv = String::from_str("conversation: ");
            conv.append(d.url.as_str());
            let texts = vec![d.text, conv];
            assert(strings_view(texts@) =~= seq![d.text@, "conversation: "@ + d.url@]);
            ToolResult { texts, is_error: false }
        }
        Err(e) => {
            let mut m = String::from_str("error: ");
            m.append(e.as_str());
            let texts = vec![m];
            assert(strings_view(texts@) =~= seq!["error: "@ + e@]);
            ToolResult { texts, is_error: true }
        }
    }
}

} // verus!
