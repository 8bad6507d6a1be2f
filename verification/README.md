# webai

Ask free web AIs (chatgpt.com, grok.com, kimi.com, chatglm.cn) from the
terminal: a local WebSocket daemon routes requests from the CLI, an MCP
server or an OpenAI-compatible endpoint to a browser extension that drives
the logged-in page, and routes the reply back.

## Layout

- `src/` — the verified library (Verus):
  - `protocol.rs` — the wire vocabulary (hello, ask, ask_result) as plain values;
  - `router.rs` — the daemon's routing state machine: requests go to the
    extension under their id, answers go back to the CLI that asked, and the
    loss of the extension answers every waiting request;
  - `state.rs` — the per-conversation initialization table and conversation keys;
  - `ask.rs` — the ask pipeline's decisions: blank messages, the constraint
    text and its fingerprint, when to inject it, request building, reading replies;
  - `mcp.rs` — which answer a JSON-RPC request gets, the `ask` tool's arguments and result;
  - `openai.rs` — model name to site, the prompt, the session that continues a
    conversation, and the cutting of a reply into stream chunks;
  - `text.rs` — string helpers.
- `app/` — the program around it: sockets, files, clock, JSON and the command line.
- `tests/` — tests of the library.
