//! Data of the OpenRouter chat API, the keyword tool selector, and the
//! decisions the OpenRouter client takes around its requests.

use vstd::prelude::*;

use crate::json::{get_str, view_as_array, view_get, JsonValue, JsonView};
use crate::serde_bridge::{parse_json, parse_json_text};
use crate::text::{lowercase, push_text, to_lowercase};
use crate::tool::Tool;

verus! {

/// A chat message as the API takes it.
#[derive(Debug, Clone)]
pub struct ChatMessage {
    pub role: String,
    pub content: String,
}

/// A chat completion answer.
#[derive(Debug)]
pub struct ChatCompletionResponse {
    pub id: String,
    pub object: String,
    pub created: u64,
    pub model: String,
    pub choices: Vec<ChatCompletionChoice>,
    pub usage: Option<Usage>,
}

/// One choice of a chat completion answer.
#[derive(Debug)]
pub struct ChatCompletionChoice {
    pub index: usize,
    pub message: ChatMessage,
    pub finish_reason: Option<String>,
}

/// Token usage of a chat completion.
#[derive(Debug)]
pub struct Usage {
    pub prompt_tokens: u32,
    pub completion_tokens: u32,
    pub total_tokens: u32,
}

/// Whether `needle` occurs in `hay`.
pub open spec fn occurs_in(hay: Seq<char>, needle: Seq<char>) -> bool {
    exists|i: int| 0 <= i <= hay.len() - needle.len() && #[trigger] hay.subrange(i, i + needle.len()) == needle
}

/// `str::contains` of std with a string pattern: whether `needle` matches a
/// sub-slice of `hay`.
#[verifier::external_body]
pub(crate) fn text_contains(hay: &str, needle: &str) -> (r: bool)
    ensures
        r == occurs_in(hay@, needle@),
{
    hay.contains(needle)
}

/// Whether a tool matches a query by keyword: the lowercase query occurs in
/// its lowercase name or its lowercase description.
pub open spec fn keyword_match(t: Tool, query: Seq<char>) -> bool {
    occurs_in(lowercase(t.name@), lowercase(query)) || occurs_in(lowercase(t.description@), lowercase(query))
}

/// The tools of `tools` that match `query` by keyword, in order.
pub open spec fn keyword_selection(tools: Seq<Tool>, query: Seq<char>) -> Seq<Tool>
    decreases tools.len(),
{
    if tools.len() == 0 {
        tools
    } else if keyword_match(tools.last(), query) {
        keyword_selection(tools.drop_last(), query).push(tools.last())
    } else {
        keyword_selection(tools.drop_last(), query)
    }
}

/// Keyword selection keeps exactly the given tools whose lowercase name, or
/// whose lowercase description, holds the lowercase query, in their order.
pub proof fn lemma_keyword_selection_members(tools: Seq<Tool>, query: Seq<char>)
    ensures
        keyword_selection(tools, query) == tools.filter(
            |t: Tool|
                occurs_in(lowercase(t.name@), lowercase(query)) || occurs_in(lowercase(t.description@), lowercase(query)),
        ),
        forall|t: Tool|
            #[trigger] keyword_selection(tools, query).contains(t) <==> tools.contains(t) && (occurs_in(
                lowercase(t.name@),
                lowercase(query),
            ) || occurs_in(lowercase(t.description@), lowercase(query))),
    decreases tools.len(),
{
    let pred = |t: Tool|
        occurs_in(lowercase(t.name@), lowercase(query)) || occurs_in(lowercase(t.description@), lowercase(query));
    reveal(Seq::filter);
    if tools.len() > 0 {
        let d = tools.drop_last();
        let last = tools.last();
        lemma_keyword_selection_members(d, query);
        let sd = keyword_selection(d, query);
        let s = keyword_selection(tools, query);
        assert(tools.filter(pred) == if pred(last) { d.filter(pred).push(last) } else { d.filter(pred) });
        assert(sd == d.filter(pred));
        assert(s == tools.filter(pred));
        assert forall|t: Tool| #[trigger] s.contains(t) <==> tools.contains(t) && (occurs_in(
            lowercase(t.name@),
            lowercase(query),
        ) || occurs_in(lowercase(t.description@), lowercase(query))) by {
            assert(tools.contains(t) <==> d.contains(t) || t == last) by {
                if tools.contains(t) && t != last {
                    let j = choose|j: int| 0 <= j < tools.len() && tools[j] == t;
                    assert(j != tools.len() - 1);
                    assert(d[j] == t);
                }
                if d.contains(t) {
                    let j = choose|j: int| 0 <= j < d.len() && d[j] == t;
                    assert(tools[j] == t);
                }
                if t == last {
                    assert(tools[tools.len() - 1] == t);
                }
            }
            if keyword_match(last, query) {
                assert(s == sd.push(last));
                assert(s.contains(t) <==> sd.contains(t) || t == last) by {
                    if s.contains(t) && t != last {
                        let j = choose|j: int| 0 <= j < s.len() && s[j] == t;
                        assert(j != s.len() - 1);
                        assert(sd[j] == t);
                    }
                    if sd.contains(t) {
                        let j = choose|j: int| 0 <= j < sd.len() && sd[j] == t;
                        assert(s[j] == t);
                    }
                    if t == last {
                        assert(s[s.len() - 1] == t);
                    }
                }
            } else {
                assert(s == sd);
            }
        }
    }
}

/// Two tools with the same name, description and schema.
pub open spec fn same_tool(a: Tool, b: Tool) -> bool {
    a.name@ == b.name@ && a.description@ == b.description@ && a.input_schema@ == b.input_schema@
}

impl Tool {
    /// A copy of the tool.
    pub fn copy(&self) -> (r: Tool)
        ensures
            same_tool(r, *self),
    {
        Tool {
            name: self.name.clone(),
            description: self.description.clone(),
            input_schema: self.input_schema.deep_copy(),
        }
    }
}

/// Keyword-based tool selection.
pub struct ToolSelector;

impl ToolSelector {
    pub fn new() -> (r: Self) {
        ToolSelector
    }

    /// The tools whose name or description holds the query, compared in lowercase.
    pub fn select_tools(&self, query: &str, available_tools: &[Tool]) -> (r: Vec<Tool>)
        ensures
            r@.len() == keyword_selection(available_tools@, query@).len(),
            forall|i: int| 0 <= i < r@.len() ==> same_tool(#[trigger] r@[i], keyword_selection(available_tools@, query@)[i]),
    {
        let query_lower = to_lowercase(query);
        let mut selected: Vec<Tool> = Vec::new();
        let mut i: usize = 0;
        assert(available_tools@.take(0) =~= Seq::<Tool>::empty());
        while i < available_tools.len()
            invariant
                i <= available_tools@.len(),
                query_lower@ == lowercase(query@),
                selected@.len() == keyword_selection(available_tools@.take(i as int), query@).len(),
                forall|k: int| 0 <= k < selected@.len() ==> same_tool(#[trigger] selected@[k], keyword_selection(available_tools@.take(i as int), query@)[k]),
            decreases available_tools@.len() - i,
        {
            proof {
                assert(available_tools@.take(i + 1).drop_last() =~= available_tools@.take(i as int));
            }
            let tool = &available_tools[i];
            let name_lower = to_lowercase(tool.name.as_str());
            let desc_lower = to_lowercase(tool.description.as_str());
            if text_contains(name_lower.as_str(), query_lower.as_str()) || text_contains(
                desc_lower.as_str(),
                query_lower.as_str(),
            ) {
                selected.push(tool.copy());
            }
            i = i + 1;
        }
        assert(available_tools@.take(available_tools@.len() as int) =~= available_tools@);
        selected
    }
}

/// Why an API call failed, as decided from the HTTP status.
#[derive(Debug)]
pub enum ApiFailure {
    RateLimitExceeded,
    ApiError(String),
}

/// Whether a status code means success (the 2xx range).
pub open spec fn is_success(code: u16) -> bool {
    200 <= code <= 299
}

/// The failure an answer with status `code` stands for: none on success,
/// rate limiting on 429, else an API error quoting the status (`status_text`,
/// as HTTP prints it) and the body of the answer.
pub open spec fn failure_for_status(code: u16, status_text: Seq<char>, body: Seq<char>) -> Option<Result<(), Seq<char>>> {
    if is_success(code) {
        None
    } else if code == 429 {
        Some(Ok(()))
    } else {
        Some(Err("HTTP "@ + status_text + ": "@ + body))
    }
}

/// The failure an answer with status `code` stands for (see [`failure_for_status`]).
pub fn status_failure(code: u16, status_text: &str, body: &str) -> (r: Option<ApiFailure>)
    ensures
        match r {
            None => failure_for_status(code, status_text@, body@) is None,
            Some(ApiFailure::RateLimitExceeded) => failure_for_status(code, status_text@, body@) == Some(
                Ok::<(), Seq<char>>(()),
            ),
            Some(ApiFailure::ApiError(m)) => failure_for_status(code, status_text@, body@) == Some(
                Err::<(), Seq<char>>(m@),
            ),
        },
{
    if 200 <= code && code <= 299 {
        None
    } else if code == 429 {
        Some(ApiFailure::RateLimitExceeded)
    } else {
        let mut m = "HTTP ".to_owned();
        push_text(&mut m, status_text);
        push_text(&mut m, ": ");
        push_text(&mut m, body);
        Some(ApiFailure::ApiError(m))
    }
}

/// How long to wait before the next request so that requests stay at least
/// `min_interval` apart: the rest of the interval since the last request
/// (none when there was none, or when the clock reads earlier).
pub open spec fn wait_before_request(last: Option<u64>, now: u64, min_interval: u64) -> nat {
    match last {
        None => 0,
        Some(t) => if now >= t && now - t < min_interval {
            (min_interval - (now - t)) as nat
        } else if now < t {
            min_interval as nat
        } else {
            0
        },
    }
}

/// The wait before the next request (see [`wait_before_request`]).
pub fn throttle_wait(last: Option<u64>, now: u64, min_interval: u64) -> (r: u64)
    ensures
        r == wait_before_request(last, now, min_interval),
{
    match last {
        None => 0,
        Some(t) => {
            if now >= t {
                let elapsed = now - t;
                if elapsed < min_interval {
                    min_interval - elapsed
                } else {
                    0
                }
            } else {
                min_interval
            }
        },
    }
}

/// Waiting as told keeps requests at least the minimum interval apart: the
/// next request starts no earlier than `min_interval` after the last one
/// (when the clock has not gone back).
pub proof fn lemma_throttle_spaces_requests(last: u64, now: u64, min_interval: u64)
    requires
        now >= last,
    ensures
        now + wait_before_request(Some(last), now, min_interval) >= last + min_interval,
        wait_before_request(Some(last), now, min_interval) <= min_interval,
        wait_before_request(None, now, min_interval) == 0,
{
}

/// The (id, name) pair of a model entry, when it has both as strings.
pub open spec fn model_pair(item: JsonView) -> Option<(Seq<char>, Seq<char>)> {
    match (get_str(item, "id"@), get_str(item, "name"@)) {
        (Some(id), Some(name)) => Some((id, name)),
        _ => None,
    }
}

/// The pairs of the first `n` entries of `items` that have both.
pub open spec fn model_pairs(items: Seq<JsonView>, n: nat) -> Seq<(Seq<char>, Seq<char>)>
    decreases n,
{
    if n == 0 || n > items.len() {
        Seq::empty()
    } else {
        let prev = model_pairs(items, (n - 1) as nat);
        match model_pair(items[n - 1]) {
            Some(p) => prev.push(p),
            None => prev,
        }
    }
}

/// The models that can still be read from a model list that did not
/// deserialize: the (id, name) pairs of the entries of its `data` array, when
/// the body is JSON, has such an array, and at least one entry has both.
pub open spec fn recovered_models(body: Seq<char>) -> Option<Seq<(Seq<char>, Seq<char>)>> {
    match parse_json(body) {
        Some(v) => match view_get(v, "data"@) {
            Some(JsonView::Array(items)) => {
                let pairs = model_pairs(items, items.len());
                if pairs.len() > 0 { Some(pairs) } else { None }
            },
            _ => None,
        },
        None => None,
    }
}

/// The (id, name) pairs recovered from a model list (see [`recovered_models`]).
pub fn fallback_models(body: &str) -> (r: Option<Vec<(String, String)>>)
    ensures
        match r {
            Some(v) => recovered_models(body@) == Some(v@.map_values(|p: (String, String)| (p.0@, p.1@))),
            None => recovered_models(body@) is None,
        },
{
    let value = match parse_json_text(body) {
        Some(v) => v,
        None => {
            return None;
        },
    };
    let data = match value.get("data") {
        Some(d) => d,
        None => {
            return None;
        },
    };
    let items = match data.as_array() {
        Some(a) => a,
        None => {
            return None;
        },
    };
    let ghost iv = Seq::new(items@.len(), |k: int| items@[k]@);
    let mut pairs: Vec<(String, String)> = Vec::new();
    let mut i: usize = 0;
    while i < items.len()
        invariant
            i <= items@.len(),
            iv == Seq::new(items@.len(), |k: int| items@[k]@),
            pairs@.map_values(|p: (String, String)| (p.0@, p.1@)) == model_pairs(iv, i as nat),
        decreases items@.len() - i,
    {
        let item = &items[i];
        let ghost before = pairs@.map_values(|p: (String, String)| (p.0@, p.1@));
        match (item.get_str("id"), item.get_str("name")) {
            (Some(id), Some(name)) => {
                pairs.push((id.to_owned(), name.to_owned()));
                assert(pairs@.map_values(|p: (String, String)| (p.0@, p.1@)) =~= before.push((id@, name@)));
            },
            _ => {},
        }
        i = i + 1;
    }
    if pairs.len() > 0 {
        Some(pairs)
    } else {
        None
    }
}

} // verus!
