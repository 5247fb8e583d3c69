//! Verified core of the mDesk MCP desktop client: server configuration
//! management, tool-input sanitation and validation, tool-selection
//! caching, tool-suggestion detection and chat message handling.

pub mod identity;
pub mod parameter_validation;
pub mod json;
pub mod chat_session;
pub mod mcp_state;
pub mod message;
pub mod openrouter;
pub mod text;
pub mod tool;
pub mod tool_manager;
pub mod tool_selection;
pub mod tool_test;
pub mod tool_selection_cache;
pub mod validation_pipeline;
pub mod serde_bridge;
pub mod server_config;
pub mod server_form;
