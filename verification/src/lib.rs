//! Verified core of webai: the wire protocol, the daemon's routing rules,
//! the per-conversation initialization table and the text processing that the
//! CLI, the MCP server and the OpenAI-compatible endpoint share.

pub mod ask;
pub mod mcp;
pub mod openai;
pub mod protocol;
pub mod router;
pub mod text;
pub mod state;
