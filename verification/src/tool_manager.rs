//! Detection of tool suggestions in model replies, rendering of tool
//! results, and the choice of the tools that may run without confirmation.

use vstd::prelude::*;

use crate::json::{JsonValue, JsonView};
use crate::serde_bridge::{parse_json, parse_json_text};
use crate::text::{cuts_at_boundary, push_char, push_text, str_eq, string_from_chars, truncate_bytes, utf8_len};
use crate::tool::Tool;

verus! {

/// What the `regex` crate finds of group `group` in each successive
/// non-overlapping match of `pattern` in `text` (`Regex::captures_iter`):
/// none at all when `pattern` does not compile, else per match the text of
/// the group, or none when the group took no part in the match.
pub uninterp spec fn regex_group_captures(pattern: Seq<char>, text: Seq<char>, group: nat) -> Option<Seq<Option<Seq<char>>>>;

/// What the `regex` crate finds as the first match of `pattern` in `text`
/// (`Regex::find`): none at all when `pattern` does not compile, else the
/// text of the leftmost-first match, if there is one.
pub uninterp spec fn regex_find(pattern: Seq<char>, text: Seq<char>) -> Option<Option<Seq<char>>>;

/// `regex::Regex::new(pattern)`, then `Regex::captures_iter(text)`, keeping
/// group `group` of every match.  The outcome depends on the arguments alone.
#[verifier::external_body]
fn regex_captures(pattern: &str, text: &str, group: usize) -> (r: Option<Vec<Option<String>>>)
    ensures
        match r {
            Some(v) => regex_group_captures(pattern@, text@, group as nat) == Some(
                v@.map_values(|x: Option<String>| match x { Some(s) => Some(s@), None => None }),
            ),
            None => regex_group_captures(pattern@, text@, group as nat) is None,
        },
{
    let re = regex::Regex::new(pattern).ok()?;
    Some(re.captures_iter(text).map(|c| c.get(group).map(|m| m.as_str().to_string())).collect())
}

/// `regex::Regex::new(pattern)`, then `Regex::find(text)`.  The outcome
/// depends on the arguments alone.
#[verifier::external_body]
fn regex_first_match(pattern: &str, text: &str) -> (r: Option<Option<String>>)
    ensures
        match r {
            Some(Some(s)) => regex_find(pattern@, text@) == Some(Some(s@)),
            Some(None) => regex_find(pattern@, text@) == Some(None::<Seq<char>>),
            None => regex_find(pattern@, text@) is None,
        },
{
    let re = regex::Regex::new(pattern).ok()?;
    Some(re.find(text).map(|m| m.as_str().to_string()))
}

/// The pattern of a word followed by white space and `tool`, the word captured.
pub open spec fn mention_pattern() -> Seq<char> {
    "([a-zA-Z0-9_]+)\\s+tool"@
}

/// The pattern of the shortest text from a `{` to the next `}`.
pub open spec fn arguments_pattern() -> Seq<char> {
    "\\{[\\s\\S]*?\\}"@
}

/// The pattern of the phrase `I need to use the <name> tool`, the name captured.
pub open spec fn request_pattern() -> Seq<char> {
    "I need to use the (?P<tool_name>[a-zA-Z0-9_]+) tool"@
}

/// The names of `tools`, in order.
pub open spec fn tool_names(tools: Seq<Tool>) -> Seq<Seq<char>> {
    tools.map_values(|t: Tool| t.name@)
}

/// The first captured mention among `caps` that names one of `names`
/// (any mention when `names` is empty).
pub open spec fn first_accepted(caps: Seq<Option<Seq<char>>>, names: Seq<Seq<char>>) -> Option<Seq<char>>
    decreases caps.len(),
{
    if caps.len() == 0 {
        None
    } else {
        match caps[0] {
            Some(c) => if names.len() == 0 || names.contains(c) {
                Some(c)
            } else {
                first_accepted(caps.drop_first(), names)
            },
            None => first_accepted(caps.drop_first(), names),
        }
    }
}

/// The empty JSON object.
pub open spec fn empty_object() -> JsonView {
    JsonView::Object(Seq::empty())
}

/// The arguments found in a message: the first `{...}` text when it parses
/// as JSON, else the empty object.
pub open spec fn arguments_from(found: Option<Seq<char>>) -> JsonView {
    match found {
        Some(t) => match parse_json(t) {
            Some(v) => v,
            None => empty_object(),
        },
        None => empty_object(),
    }
}

/// The tool suggestion in `message`, given the names of the available tools.
pub open spec fn detected(message: Seq<char>, names: Seq<Seq<char>>) -> Option<(Seq<char>, JsonView)> {
    match regex_group_captures(mention_pattern(), message, 1) {
        None => None,
        Some(caps) => match first_accepted(caps, names) {
            Some(c) => match regex_find(arguments_pattern(), message) {
                None => None,
                Some(found) => Some((c, arguments_from(found))),
            },
            None => match regex_group_captures(request_pattern(), message, 1) {
                None => None,
                Some(reqs) => if reqs.len() == 0 {
                    None
                } else {
                    match reqs[0] {
                        None => None,
                        Some(t) => if !names.contains(t) {
                            None
                        } else {
                            match regex_find(arguments_pattern(), message) {
                                None => None,
                                Some(found) => Some((t, arguments_from(found))),
                            }
                        },
                    }
                },
            },
        },
    }
}

/// The first tool of `tools` named `name`.
pub open spec fn first_named(tools: Seq<Tool>, name: Seq<char>) -> Option<Tool>
    decreases tools.len(),
{
    if tools.len() == 0 {
        None
    } else if tools[0].name@ == name {
        Some(tools[0])
    } else {
        first_named(tools.drop_first(), name)
    }
}

proof fn lemma_first_named(tools: Seq<Tool>, name: Seq<char>, i: int)
    requires
        0 <= i < tools.len(),
        tools[i].name@ == name,
        forall|j: int| 0 <= j < i ==> tools[j].name@ != name,
    ensures
        first_named(tools, name) == Some(tools[i]),
    decreases i,
{
    if i > 0 {
        let d = tools.drop_first();
        assert forall|j: int| 0 <= j < i - 1 implies d[j].name@ != name by {
            assert(d[j] == tools[j + 1]);
        }
        lemma_first_named(d, name, i - 1);
    }
}

proof fn lemma_first_named_none(tools: Seq<Tool>, name: Seq<char>)
    requires
        forall|j: int| 0 <= j < tools.len() ==> tools[j].name@ != name,
    ensures
        first_named(tools, name) is None,
    decreases tools.len(),
{
    if tools.len() > 0 {
        let d = tools.drop_first();
        assert forall|j: int| 0 <= j < d.len() implies d[j].name@ != name by {
            assert(d[j] == tools[j + 1]);
        }
        lemma_first_named_none(d, name);
    }
}

proof fn lemma_first_accepted_named(caps: Seq<Option<Seq<char>>>, names: Seq<Seq<char>>)
    requires
        names.len() > 0,
    ensures
        first_accepted(caps, names) matches Some(c) ==> names.contains(c),
    decreases caps.len(),
{
    if caps.len() > 0 {
        lemma_first_accepted_named(caps.drop_first(), names);
    }
}

/// The earliest accepted mention is the one picked: when the mention at
/// position `i` names an accepted tool (an available one, or any when none is
/// available) and no mention before it does, the pick is that mention.
proof fn lemma_first_accepted_at(caps: Seq<Option<Seq<char>>>, names: Seq<Seq<char>>, i: int)
    requires
        0 <= i < caps.len(),
        caps[i] is Some,
        names.len() == 0 || names.contains(caps[i]->0),
        forall|j: int| 0 <= j < i ==> ((#[trigger] caps[j]) matches Some(d) ==> !(names.len() == 0 || names.contains(d))),
    ensures
        first_accepted(caps, names) == caps[i],
    decreases i,
{
    if i > 0 {
        let d = caps.drop_first();
        assert forall|j: int| 0 <= j < i - 1 implies (#[trigger] d[j]) matches Some(x) ==> !(names.len() == 0 || names.contains(x)) by {
            assert(d[j] == caps[j + 1]);
        }
        assert(caps[0] matches Some(x) ==> !(names.len() == 0 || names.contains(x)));
        lemma_first_accepted_at(d, names, i - 1);
    }
}

/// No accepted mention, no pick from the mentions.
proof fn lemma_first_accepted_none(caps: Seq<Option<Seq<char>>>, names: Seq<Seq<char>>)
    requires
        forall|j: int| 0 <= j < caps.len() ==> ((#[trigger] caps[j]) matches Some(d) ==> !(names.len() == 0 || names.contains(d))),
    ensures
        first_accepted(caps, names) is None,
    decreases caps.len(),
{
    if caps.len() > 0 {
        let d = caps.drop_first();
        assert forall|j: int| 0 <= j < d.len() implies (#[trigger] d[j]) matches Some(x) ==> !(names.len() == 0 || names.contains(x)) by {
            assert(d[j] == caps[j + 1]);
        }
        assert(caps[0] matches Some(x) ==> !(names.len() == 0 || names.contains(x)));
        lemma_first_accepted_none(d, names);
    }
}

/// The first mention wins.  When the mentions `<name> tool` found in
/// `message` name an accepted tool (one of `names`, or any tool when `names`
/// is empty) at position `i`, and none before `i` does, a suggestion is made
/// exactly when the search for `{...}` runs; it names the mention at `i`, and
/// its arguments are the first `{...}` of the message when that text is JSON,
/// else the empty object.
pub proof fn lemma_first_mention_wins(message: Seq<char>, names: Seq<Seq<char>>, caps: Seq<Option<Seq<char>>>, i: int)
    requires
        regex_group_captures("([a-zA-Z0-9_]+)\\s+tool"@, message, 1) == Some(caps),
        0 <= i < caps.len(),
        caps[i] is Some,
        names.len() == 0 || names.contains(caps[i]->0),
        forall|j: int| 0 <= j < i ==> ((#[trigger] caps[j]) matches Some(d) ==> !(names.len() == 0 || names.contains(d))),
    ensures
        detected(message, names) is Some <==> regex_find("\\{[\\s\\S]*?\\}"@, message) is Some,
        detected(message, names) matches Some((name, args)) ==> name == caps[i]->0 && args == match regex_find(
            "\\{[\\s\\S]*?\\}"@,
            message,
        )->0 {
            Some(t) => match parse_json(t) {
                Some(v) => v,
                None => JsonView::Object(Seq::empty()),
            },
            None => JsonView::Object(Seq::empty()),
        },
{
    lemma_first_accepted_at(caps, names, i);
}

/// With no accepted mention among the mentions `<name> tool`, a suggestion is
/// made exactly when the first phrase `I need to use the <name> tool` names
/// an available tool and the search for `{...}` runs, and it names that tool.
pub proof fn lemma_no_mention_falls_back(message: Seq<char>, names: Seq<Seq<char>>, caps: Seq<Option<Seq<char>>>)
    requires
        regex_group_captures("([a-zA-Z0-9_]+)\\s+tool"@, message, 1) == Some(caps),
        forall|j: int| 0 <= j < caps.len() ==> ((#[trigger] caps[j]) matches Some(d) ==> !(names.len() == 0 || names.contains(d))),
    ensures
        detected(message, names) is Some <==> ({
            let reqs = regex_group_captures("I need to use the (?P<tool_name>[a-zA-Z0-9_]+) tool"@, message, 1);
            &&& reqs is Some
            &&& reqs->0.len() > 0
            &&& reqs->0[0] is Some
            &&& names.contains(reqs->0[0]->0)
            &&& regex_find("\\{[\\s\\S]*?\\}"@, message) is Some
        }),
        detected(message, names) matches Some((name, _)) ==> Some(name) == regex_group_captures(
            "I need to use the (?P<tool_name>[a-zA-Z0-9_]+) tool"@,
            message,
            1,
        )->0[0],
{
    lemma_first_accepted_none(caps, names);
}

/// When some tools are available, a detected suggestion always names one of
/// them.
pub proof fn lemma_suggestion_names_available_tool(message: Seq<char>, names: Seq<Seq<char>>)
    requires
        names.len() > 0,
    ensures
        detected(message, names) matches Some((name, _)) ==> names.contains(name),
{
    if let Some(caps) = regex_group_captures(mention_pattern(), message, 1) {
        lemma_first_accepted_named(caps, names);
    }
}

/// Whether a tool may run without the user's confirmation: the read-only
/// file system tools.
pub open spec fn safe_auto_tool(name: Seq<char>) -> bool {
    ||| name == "list_allowed_directories"@
    ||| name == "list_directory"@
    ||| name == "get_file_info"@
    ||| name == "search_files"@
    ||| name == "directory_tree"@
    ||| name == "read_multiple_files"@
}

/// Whether the tool named `tool_name` may run without confirmation.
pub fn is_safe_auto_executable_tool(tool_name: &str) -> (r: bool)
    ensures
        r == safe_auto_tool(tool_name@),
{
    str_eq(tool_name, "list_allowed_directories") || str_eq(tool_name, "list_directory")
        || str_eq(tool_name, "get_file_info") || str_eq(tool_name, "search_files")
        || str_eq(tool_name, "directory_tree") || str_eq(tool_name, "read_multiple_files")
}

/// One piece of content of a tool result: text, an image (base64 data and
/// its MIME type), or the text of an embedded resource.
#[derive(Debug)]
pub enum ToolContent {
    Text(String),
    Image { data: String, mime_type: String },
    Resource(String),
}

/// The result of a tool call.
#[derive(Debug)]
pub struct CallToolResult {
    pub content: Vec<ToolContent>,
    pub is_error: Option<bool>,
}

/// How one piece of content reads in a result text.
pub open spec fn content_text(c: ToolContent) -> Seq<char> {
    match c {
        ToolContent::Text(t) => t@.push('\n'),
        ToolContent::Image { data, mime_type } => {
            let shown = if utf8_len(data@) > 20 {
                truncate_bytes(data@, 20) + "..."@
            } else {
                data@
            };
            "[Image: "@ + shown + " ("@ + mime_type@ + ")]"@ + seq!['\n']
        },
        ToolContent::Resource(t) => t@.push('\n'),
    }
}

/// The text of a list of contents, each piece on its own line.
pub open spec fn contents_text(cs: Seq<ToolContent>) -> Seq<char>
    decreases cs.len(),
{
    if cs.len() == 0 {
        Seq::empty()
    } else {
        contents_text(cs.drop_last()) + content_text(cs.last())
    }
}

/// Whether every image of `cs` whose data is longer than 20 bytes can be cut
/// at byte 20 (a cut inside a character panics).
pub open spec fn images_cuttable(cs: Seq<ToolContent>) -> bool {
    forall|i: int| 0 <= i < cs.len() ==> match #[trigger] cs[i] {
        ToolContent::Image { data, .. } => cuts_at_boundary(data@, 20),
        _ => true,
    }
}

/// Marker of the tool interface.
pub struct ToolManager;

impl ToolManager {
    /// The tool suggested in `message`: the first mention `<name> tool` of an
    /// available tool (of any tool when none is available), or else the
    /// phrase `I need to use the <name> tool` naming an available tool, with
    /// the first `{...}` of the message as arguments when it is JSON, else `{}`.
    pub fn detect_tool_suggestion(message: &str, available_tools: &[Tool]) -> (r: Option<(String, JsonValue)>)
        ensures
            match r {
                Some((name, args)) => detected(message@, tool_names(available_tools@)) == Some((name@, args@)),
                None => detected(message@, tool_names(available_tools@)) is None,
            },
    {
        let ghost names = tool_names(available_tools@);
        let caps = match regex_captures("([a-zA-Z0-9_]+)\\s+tool", message, 1) {
            Some(c) => c,
            None => {
                return None;
            },
        };
        let ghost cv = caps@.map_values(|x: Option<String>| match x { Some(s) => Some(s@), None => None });
        let mut k: usize = 0;
        assert(cv.skip(0) =~= cv);
        while k < caps.len()
            invariant
                regex_group_captures(mention_pattern(), message@, 1) == Some(cv),
                k <= caps@.len(),
                cv == caps@.map_values(|x: Option<String>| match x { Some(s) => Some(s@), None => None }),
                names == tool_names(available_tools@),
                first_accepted(cv, names) == first_accepted(cv.skip(k as int), names),
            decreases caps@.len() - k,
        {
            proof {
                assert(cv.skip(k as int).drop_first() =~= cv.skip(k + 1));
                assert(cv.skip(k as int)[0] == cv[k as int]);
            }
            if let Some(candidate) = &caps[k] {
                let accepted = available_tools.len() == 0 || Self::has_tool_named(available_tools, candidate.as_str());
                if accepted {
                    let found = match regex_first_match("\\{[\\s\\S]*?\\}", message) {
                        Some(f) => f,
                        None => {
                            return None;
                        },
                    };
                    let args = Self::arguments_of(&found);
                    return Some((candidate.clone(), args));
                }
            }
            k = k + 1;
        }
        assert(cv.skip(k as int).len() == 0);
        let reqs = match regex_captures("I need to use the (?P<tool_name>[a-zA-Z0-9_]+) tool", message, 1) {
            Some(c) => c,
            None => {
                return None;
            },
        };
        if reqs.len() == 0 {
            return None;
        }
        let tool_name = match &reqs[0] {
            Some(t) => t,
            None => {
                return None;
            },
        };
        if !Self::has_tool_named(available_tools, tool_name.as_str()) {
            return None;
        }
        let found = match regex_first_match("\\{[\\s\\S]*?\\}", message) {
            Some(f) => f,
            None => {
                return None;
            },
        };
        let args = Self::arguments_of(&found);
        Some((tool_name.clone(), args))
    }

    /// The arguments found in a message (see [`arguments_from`]).
    fn arguments_of(found: &Option<String>) -> (r: JsonValue)
        ensures
            r@ == arguments_from(match found { Some(s) => Some(s@), None => None }),
    {
        match found {
            Some(text) => match parse_json_text(text.as_str()) {
                Some(v) => v,
                None => JsonValue::empty_object(),
            },
            None => JsonValue::empty_object(),
        }
    }

    /// Whether some tool of `tools` is named `name`.
    pub(crate) fn has_tool_named(tools: &[Tool], name: &str) -> (r: bool)
        ensures
            r == tool_names(tools@).contains(name@),
    {
        let mut i: usize = 0;
        while i < tools.len()
            invariant
                i <= tools@.len(),
                forall|j: int| 0 <= j < i ==> tools@[j].name@ != name@,
            decreases tools@.len() - i,
        {
            if str_eq(tools[i].name.as_str(), name) {
                assert(tool_names(tools@)[i as int] == name@);
                return true;
            }
            i = i + 1;
        }
        proof {
            if tool_names(tools@).contains(name@) {
                let j = choose|j: int| 0 <= j < tool_names(tools@).len() && tool_names(tools@)[j] == name@;
                assert(tools@[j].name@ == name@);
            }
        }
        false
    }

    /// The first tool of `tools` named `name`.
    pub fn find_tool_by_name<'a>(name: &str, tools: &'a [Tool]) -> (r: Option<&'a Tool>)
        ensures
            match r {
                Some(t) => exists|i: int|
                    0 <= i < tools@.len() && tools@[i] == *t && t.name@ == name@ && forall|j: int|
                        0 <= j < i ==> tools@[j].name@ != name@,
                None => forall|j: int| 0 <= j < tools@.len() ==> tools@[j].name@ != name@,
            },
            match r {
                Some(t) => first_named(tools@, name@) == Some(*t),
                None => first_named(tools@, name@) is None,
            },
    {
        let mut i: usize = 0;
        while i < tools.len()
            invariant
                i <= tools@.len(),
                forall|j: int| 0 <= j < i ==> tools@[j].name@ != name@,
            decreases tools@.len() - i,
        {
            if str_eq(tools[i].name.as_str(), name) {
                proof {
                    lemma_first_named(tools@, name@, i as int);
                }
                return Some(&tools[i]);
            }
            i = i + 1;
        }
        proof {
            lemma_first_named_none(tools@, name@);
        }
        None
    }

    /// The text of a tool result: every text and resource on its own line,
    /// every image as `[Image: <data> (<type>)]` with its data cut to 20 bytes
    /// and `...` when longer.
    pub fn format_tool_result(result: &CallToolResult) -> (r: String)
        requires
            images_cuttable(result.content@),
        ensures
            r@ == contents_text(result.content@),
    {
        let cs = &result.content;
        let mut output = String::new();
        let mut i: usize = 0;
        assert(cs@.take(0) =~= Seq::<ToolContent>::empty());
        while i < cs.len()
            invariant
                i <= cs@.len(),
                images_cuttable(cs@),
                output@ == contents_text(cs@.take(i as int)),
            decreases cs@.len() - i,
        {
            proof {
                assert(cs@.take(i + 1).drop_last() =~= cs@.take(i as int));
            }
            match &cs[i] {
                ToolContent::Text(t) => {
                    push_text(&mut output, t.as_str());
                    push_char(&mut output, '\n');
                },
                ToolContent::Image { data, mime_type } => {
                    push_text(&mut output, "[Image: ");
                    let chars = crate::text::chars_of(data.as_str());
                    let total = Self::byte_length(&chars);
                    if total > 20 {
                        assert(cuts_at_boundary(data@, 20));
                        let cut = crate::text::truncate_chars(&chars, 20);
                        let shown = string_from_chars(cut.as_slice());
                        push_text(&mut output, shown.as_str());
                        push_text(&mut output, "...");
                    } else {
                        push_text(&mut output, data.as_str());
                    }
                    push_text(&mut output, " (");
                    push_text(&mut output, mime_type.as_str());
                    push_text(&mut output, ")]");
                    push_char(&mut output, '\n');
                },
                ToolContent::Resource(t) => {
                    push_text(&mut output, t.as_str());
                    push_char(&mut output, '\n');
                },
            }
            i = i + 1;
        }
        assert(cs@.take(cs@.len() as int) =~= cs@);
        output
    }

    /// Number of bytes of the characters `s` in UTF-8, capped at 21.
    fn byte_length(s: &Vec<char>) -> (r: usize)
        ensures
            (r > 20) == (utf8_len(s@) > 20),
    {
        let mut i: usize = 0;
        let mut total: usize = 0;
        assert(s@.take(0) =~= Seq::<char>::empty());
        while i < s.len()
            invariant
                i <= s@.len(),
                total <= 21,
                total == if utf8_len(s@.take(i as int)) > 21 { 21 } else { utf8_len(s@.take(i as int)) },
            decreases s@.len() - i,
        {
            proof {
                crate::text::lemma_utf8_len_take(s@, i as int);
            }
            let w = crate::text::utf8_width_of(s[i]);
            total = if total + w > 21 { 21 } else { total + w };
            i = i + 1;
        }
        assert(s@.take(s@.len() as int) =~= s@);
        total
    }
}

} // verus!
