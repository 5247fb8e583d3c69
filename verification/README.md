# m_desk_new

The core of mDesk, a client for MCP (Model Context Protocol) tool servers with
chat through OpenRouter, written in Verus.  Verus proves the contract of every
function in `src/` except a small set of trusted wrappers, each marked
`#[verifier::external_body]`, whose bodies make one call into `std` or an
outside crate and whose contracts state what that call is documented to do.
They live in `src/serde_bridge.rs` and `src/identity.rs` (`serde_json`,
`jsonschema`, `uuid`, `chrono`, the clock), `src/text.rs` (string equality,
characters, lowercasing, pushing a character), `src/tool_manager.rs` (`regex`)
and `src/openrouter.rs` (substring search).

## Layout

- `src/json.rs` – JSON values and their model; objects keep their keys in
  order, once each.
- `src/text.rs` – character-level helpers: trimming, cutting at a byte limit,
  control characters, HTML escaping, white space.
- `src/server_config.rs` – the MCP server configurations; at most one default.
- `src/server_form.rs` – the dialog that adds or edits a server.
- `src/mcp_state.rs` – which servers run, have failed or are selected.
- `src/parameter_validation.rs` – checking tool input against its JSON schema
  (draft 7, through `jsonschema`) and filling in defaults.
- `src/validation_pipeline.rs` – sanitizing and validating tool input.
- `src/tool_selection_cache.rs` – remembered tool selections, with a time to
  live and eviction of the least recently used entry.
- `src/tool_manager.rs` – spotting tool suggestions in replies, rendering tool
  results.
- `src/tool_selection.rs` – reading the model's ranking of tools.
- `src/tool_test.rs` – the parameter template for trying a tool by hand.
- `src/openrouter.rs` – decisions on API answers: failures, request spacing,
  recovering model lists; keyword tool selection.
- `src/message.rs`, `src/chat_session.rs` – chat messages, how each event
  of a chat changes them, and the system message that presents the tools.
- `src/serde_bridge.rs`, `src/identity.rs` – the calls into `serde_json`,
  `jsonschema`, `uuid`, `chrono` and the clock, with the contracts they are
  trusted to meet (the other trusted wrappers sit beside their callers, see
  above).
- `app/` – a terminal front end: keyboard, network, files and logging.
- `tests/` – tests of the library.

The front end reads `servers.json` and `.env` (with `OPENROUTER_API_KEY`)
from the working directory.
