//! Reading the model's ranking of tools.
//!
//! The model is asked to answer with a JSON text holding a list of
//! `selections` (each with a `tool_name`, a `confidence`, a `reasoning` and
//! `parameters`) and an `overall_reasoning`.  This module turns such a text
//! into the matches among the available tools.  The confidence is kept as the
//! JSON number the model wrote: reading it as a floating point number is left
//! to the caller.

use vstd::prelude::*;

use crate::json::{view_get, JsonNumber, JsonValue, JsonView, NumberView};
use crate::serde_bridge::{parse_json, parse_json_text};
use crate::tool::Tool;
use crate::tool_manager::{first_named, ToolManager};

verus! {

/// One tool the model ranked: the tool, the confidence as the model wrote it
/// (none when it is not a number), the parameters it suggests and its
/// reasoning.
#[derive(Debug)]
pub struct ToolMatchData {
    pub tool: Tool,
    pub confidence: Option<JsonNumber>,
    pub suggested_parameters: JsonValue,
    pub specific_reasoning: String,
}

/// The model's ranking: the matches in the order the model gave them, and
/// its overall reasoning.
#[derive(Debug)]
pub struct SelectionData {
    pub selections: Vec<ToolMatchData>,
    pub reasoning: String,
}

/// The model of a match.
pub struct MatchModel {
    pub name: Seq<char>,
    pub description: Seq<char>,
    pub schema: JsonView,
    pub confidence: Option<NumberView>,
    pub parameters: JsonView,
    pub reasoning: Seq<char>,
}

impl ToolMatchData {
    pub open spec fn view(&self) -> MatchModel {
        MatchModel {
            name: self.tool.name@,
            description: self.tool.description@,
            schema: self.tool.input_schema@,
            confidence: match self.confidence {
                Some(n) => Some(n@),
                None => None,
            },
            parameters: self.suggested_parameters@,
            reasoning: self.specific_reasoning@,
        }
    }
}

/// `v[key]` as `serde_json` indexes a value: the field when `v` is an object
/// that has it, else null.
pub open spec fn field(v: JsonView, key: Seq<char>) -> JsonView {
    match view_get(v, key) {
        Some(x) => x,
        None => JsonView::Null,
    }
}

/// The text of `v` when it is a string, else the empty text.
pub open spec fn text_or_empty(v: JsonView) -> Seq<char> {
    match v {
        JsonView::Str(s) => s,
        _ => Seq::empty(),
    }
}

/// The number `v` holds, if it is one.
pub open spec fn number_in(v: JsonView) -> Option<NumberView> {
    match v {
        JsonView::Number(n) => Some(n),
        _ => None,
    }
}

/// The match that one ranked item gives: none when no available tool has the
/// name it gives.
pub open spec fn match_of(item: JsonView, tools: Seq<Tool>) -> Option<MatchModel> {
    match first_named(tools, text_or_empty(field(item, "tool_name"@))) {
        None => None,
        Some(t) => Some(
            MatchModel {
                name: t.name@,
                description: t.description@,
                schema: t.input_schema@,
                confidence: number_in(field(item, "confidence"@)),
                parameters: field(item, "parameters"@),
                reasoning: text_or_empty(field(item, "reasoning"@)),
            },
        ),
    }
}

/// The matches of the ranked items, in order, leaving out those that name no
/// available tool.
pub open spec fn matches_of(items: Seq<JsonView>, tools: Seq<Tool>) -> Seq<MatchModel>
    decreases items.len(),
{
    if items.len() == 0 {
        Seq::empty()
    } else {
        let prev = matches_of(items.drop_last(), tools);
        match match_of(items.last(), tools) {
            Some(m) => prev.push(m),
            None => prev,
        }
    }
}

/// The ranked items of a parsed answer: its `selections` when that is an
/// array, else none.
pub open spec fn ranked_items(answer: JsonView) -> Seq<JsonView> {
    match field(answer, "selections"@) {
        JsonView::Array(a) => a,
        _ => Seq::empty(),
    }
}

/// `v[key]` of a value.
fn field_of<'a>(v: &'a JsonValue, key: &str) -> (r: Option<&'a JsonValue>)
    ensures
        match r {
            Some(x) => field(v@, key@) == x@,
            None => field(v@, key@) == JsonView::Null,
        },
{
    v.get(key)
}

/// The text of `v[key]`, or the empty text.
fn text_field(v: &JsonValue, key: &str) -> (r: String)
    ensures
        r@ == text_or_empty(field(v@, key@)),
{
    match field_of(v, key) {
        Some(x) => match x.as_str() {
            Some(t) => t.to_owned(),
            None => String::new(),
        },
        None => String::new(),
    }
}

/// Reads the model's answer `content` against the available `tools`: none
/// when the answer is not JSON; else the matches of its ranked items, in the
/// order given, each with the first available tool of the name it gives
/// (items naming no available tool are left out), and the overall
/// reasoning.
pub fn parse_tool_selection(content: &str, tools: &[Tool]) -> (r: Option<SelectionData>)
    ensures
        match parse_json(content@) {
            None => r is None,
            Some(answer) => r matches Some(sel) && sel.selections@.map_values(|m: ToolMatchData| m@)
                == matches_of(ranked_items(answer), tools@) && sel.reasoning@ == text_or_empty(
                field(answer, "overall_reasoning"@),
            ),
        },
{
    let answer = match parse_json_text(content) {
        Some(v) => v,
        None => {
            return None;
        },
    };
    let empty: Vec<JsonValue> = Vec::new();
    let items: &Vec<JsonValue> = match field_of(&answer, "selections") {
        Some(x) => match x.as_array() {
            Some(a) => a,
            None => &empty,
        },
        None => &empty,
    };
    let ghost iv = ranked_items(answer@);
    assert(iv =~= items@.map_values(|x: JsonValue| x@));
    let mut selections: Vec<ToolMatchData> = Vec::new();
    let mut i: usize = 0;
    assert(iv.take(0) =~= Seq::<JsonView>::empty());
    while i < items.len()
        invariant
            i <= items@.len(),
            iv == items@.map_values(|x: JsonValue| x@),
            selections@.map_values(|m: ToolMatchData| m@) == matches_of(iv.take(i as int), tools@),
        decreases items@.len() - i,
    {
        proof {
            assert(iv.take(i + 1).drop_last() =~= iv.take(i as int));
            assert(iv.take(i + 1).last() == items@[i as int]@);
        }
        let item = &items[i];
        let name = text_field(item, "tool_name");
        match ToolManager::find_tool_by_name(name.as_str(), tools) {
            Some(tool) => {
                let confidence = match field_of(item, "confidence") {
                    Some(JsonValue::Number(n)) => Some(n.copy()),
                    _ => None,
                };
                let parameters = match field_of(item, "parameters") {
                    Some(p) => p.deep_copy(),
                    None => JsonValue::Null,
                };
                let m = ToolMatchData {
                    tool: tool.copy(),
                    confidence,
                    suggested_parameters: parameters,
                    specific_reasoning: text_field(item, "reasoning"),
                };
                let ghost before = selections@.map_values(|m: ToolMatchData| m@);
                assert(match_of(items@[i as int]@, tools@) == Some(m@));
                selections.push(m);
                assert(selections@.map_values(|m: ToolMatchData| m@) =~= before.push(m@));
            },
            None => {
                assert(match_of(items@[i as int]@, tools@) is None);
            },
        }
        i = i + 1;
    }
    assert(iv.take(items@.len() as int) =~= iv);
    Some(SelectionData { selections, reasoning: text_field(&answer, "overall_reasoning") })
}

} // verus!
