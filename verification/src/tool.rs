//! MCP tools as the library sees them.

use vstd::prelude::*;

use crate::json::JsonValue;

verus! {

/// A tool offered by an MCP server: its name, its description and the JSON
/// schema of its input.
#[derive(Debug, PartialEq)]
pub struct Tool {
    pub name: String,
    pub description: String,
    pub input_schema: JsonValue,
}

impl Tool {
    /// A tool with the given name, description and input schema.
    pub fn new(name: String, description: String, input_schema: JsonValue) -> (t: Tool)
        ensures
            t.name == name,
            t.description == description,
            t.input_schema == input_schema,
    {
        Tool { name, description, input_schema }
    }
}

} // verus!
