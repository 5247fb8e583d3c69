//! Chat messages and the tool interactions attached to them.

use vstd::prelude::*;

use crate::identity::{is_v4_uuid_text, new_uuid_string, utc_now_millis};
use crate::json::{JsonValue, JsonView};
use crate::openrouter::{occurs_in, text_contains, ChatMessage};
use crate::text::{chars_of, concat, string_from_chars, trim, trim_chars};
use crate::tool::Tool;
use crate::tool_manager::{first_named, ToolManager};
use crate::validation_pipeline::texts;

verus! {

/// Who a message comes from.
#[derive(Debug, Clone, Copy, PartialEq, Eq)]
pub enum MessageRole {
    User,
    Assistant,
    System,
    Thinking,
    Tool,
}

/// The state of a tool execution.
#[derive(Debug, Clone, PartialEq)]
pub enum ToolExecutionStatus {
    Running,
    Completed,
    Failed(String),
}

/// A tool interaction found in, or attached to, a message.
#[derive(Debug)]
pub enum ToolInteraction {
    /// The assistant suggests using a tool.
    Suggestion { tool_name: String, suggested_args: JsonValue, message_idx: usize },
    /// A tool has been executed.
    Execution {
        tool_name: String,
        arguments: JsonValue,
        status: ToolExecutionStatus,
        result: Option<String>,
        message_idx: usize,
    },
}

/// A chat message.
#[derive(Debug)]
pub struct Message {
    pub id: String,
    pub role: MessageRole,
    pub content: String,
    /// When the message was made, in milliseconds since the Unix epoch.
    pub timestamp: i64,
    pub tool_interaction: Option<ToolInteraction>,
}

/// The model of a tool execution status.
pub enum StatusModel {
    Running,
    Completed,
    Failed(Seq<char>),
}

/// The model of a tool interaction.
pub enum InteractionModel {
    Suggestion { tool_name: Seq<char>, args: JsonView, message_idx: nat },
    Execution {
        tool_name: Seq<char>,
        args: JsonView,
        status: StatusModel,
        result: Option<Seq<char>>,
        message_idx: nat,
    },
}

/// The model of a message: who sent it, its text and its tool interaction
/// (its id and time are left out).
pub struct MessageModel {
    pub role: MessageRole,
    pub content: Seq<char>,
    pub interaction: Option<InteractionModel>,
}

impl ToolExecutionStatus {
    pub open spec fn view(&self) -> StatusModel {
        match self {
            ToolExecutionStatus::Running => StatusModel::Running,
            ToolExecutionStatus::Completed => StatusModel::Completed,
            ToolExecutionStatus::Failed(e) => StatusModel::Failed(e@),
        }
    }
}

impl ToolInteraction {
    pub open spec fn view(&self) -> InteractionModel {
        match self {
            ToolInteraction::Suggestion { tool_name, suggested_args, message_idx } => InteractionModel::Suggestion {
                tool_name: tool_name@,
                args: suggested_args@,
                message_idx: *message_idx as nat,
            },
            ToolInteraction::Execution { tool_name, arguments, status, result, message_idx } => InteractionModel::Execution {
                tool_name: tool_name@,
                args: arguments@,
                status: status.view(),
                result: match result {
                    Some(t) => Some(t@),
                    None => None,
                },
                message_idx: *message_idx as nat,
            },
        }
    }
}

impl Message {
    pub open spec fn view(&self) -> MessageModel {
        MessageModel {
            role: self.role,
            content: self.content@,
            interaction: match self.tool_interaction {
                Some(i) => Some(i.view()),
                None => None,
            },
        }
    }
}

/// The models of a list of messages.
pub open spec fn models(ms: Seq<Message>) -> Seq<MessageModel> {
    ms.map_values(|m: Message| m@)
}

/// The history sent to the model, read off the message models.
pub open spec fn model_history(ms: Seq<MessageModel>) -> Seq<(Seq<char>, Seq<char>)>
    decreases ms.len(),
{
    if ms.len() == 0 {
        Seq::empty()
    } else if ms.last().role != MessageRole::Thinking && ms.last().role != MessageRole::Tool {
        model_history(ms.drop_last()).push((api_role(ms.last().role), ms.last().content))
    } else {
        model_history(ms.drop_last())
    }
}

/// The history of a list of messages is that of their models.
pub proof fn lemma_history_of_models(ms: Seq<Message>)
    ensures
        history(ms) == model_history(models(ms)),
    decreases ms.len(),
{
    if ms.len() > 0 {
        assert(models(ms.drop_last()) =~= models(ms).drop_last());
        lemma_history_of_models(ms.drop_last());
    }
}

/// The role name the API knows for a message role: thinking messages count
/// as the assistant's, tool messages as the system's.
pub open spec fn api_role(role: MessageRole) -> Seq<char> {
    match role {
        MessageRole::User => "user"@,
        MessageRole::Assistant => "assistant"@,
        MessageRole::System => "system"@,
        MessageRole::Thinking => "assistant"@,
        MessageRole::Tool => "system"@,
    }
}

/// Whether a message goes into the history sent to the model: all but the
/// thinking and tool messages.
pub open spec fn sent_to_model(m: Message) -> bool {
    m.role != MessageRole::Thinking && m.role != MessageRole::Tool
}

/// The history sent to the model: role and content of every message that is
/// sent, in order.
pub open spec fn history(ms: Seq<Message>) -> Seq<(Seq<char>, Seq<char>)>
    decreases ms.len(),
{
    if ms.len() == 0 {
        Seq::empty()
    } else if sent_to_model(ms.last()) {
        history(ms.drop_last()).push((api_role(ms.last().role), ms.last().content@))
    } else {
        history(ms.drop_last())
    }
}

impl Message {
    /// A new message with a fresh id, made now, without tool interaction.
    pub fn new(role: MessageRole, content: String) -> (m: Self)
        ensures
            is_v4_uuid_text(m.id@),
            m.role == role,
            m.content == content,
            m.tool_interaction is None,
    {
        Message { id: new_uuid_string(), role, content, timestamp: utc_now_millis(), tool_interaction: None }
    }

    /// The message with `interaction` attached.
    pub fn with_tool_interaction(self, interaction: ToolInteraction) -> (m: Self)
        ensures
            m.id == self.id,
            m.role == self.role,
            m.content == self.content,
            m.timestamp == self.timestamp,
            m.tool_interaction == Some(interaction),
    {
        let mut m = self;
        m.tool_interaction = Some(interaction);
        m
    }

    /// The message as the chat API takes it.
    pub fn to_openrouter_format(&self) -> (r: ChatMessage)
        ensures
            r.role@ == api_role(self.role),
            r.content@ == self.content@,
    {
        let role = match self.role {
            MessageRole::User => "user",
            MessageRole::Assistant => "assistant",
            MessageRole::System => "system",
            MessageRole::Thinking => "assistant",
            MessageRole::Tool => "system",
        };
        ChatMessage { role: role.to_owned(), content: self.content.clone() }
    }
}

/// The chat history sent to the model: every message but the thinking and
/// tool messages, in the API's form.
pub fn chat_history(messages: &[Message]) -> (r: Vec<ChatMessage>)
    ensures
        r@.map_values(|c: ChatMessage| (c.role@, c.content@)) == history(messages@),
{
    let mut out: Vec<ChatMessage> = Vec::new();
    let mut i: usize = 0;
    assert(messages@.take(0) =~= Seq::<Message>::empty());
    while i < messages.len()
        invariant
            i <= messages@.len(),
            out@.map_values(|c: ChatMessage| (c.role@, c.content@)) == history(messages@.take(i as int)),
        decreases messages@.len() - i,
    {
        proof {
            assert(messages@.take(i + 1).drop_last() =~= messages@.take(i as int));
        }
        let m = &messages[i];
        let keep = match m.role {
            MessageRole::Thinking => false,
            MessageRole::Tool => false,
            _ => true,
        };
        if keep {
            let ghost before = out@.map_values(|c: ChatMessage| (c.role@, c.content@));
            let c = m.to_openrouter_format();
            out.push(c);
            assert(out@.map_values(|c: ChatMessage| (c.role@, c.content@)) =~= before.push(
                (api_role(m.role), m.content@),
            ));
        }
        i = i + 1;
    }
    assert(messages@.take(messages@.len() as int) =~= messages@);
    out
}

} // verus!

verus! {

/// The label shown for the sender of a message.
pub open spec fn sender_label(role: MessageRole) -> Seq<char> {
    match role {
        MessageRole::User => "You"@,
        MessageRole::Assistant => "Assistant"@,
        MessageRole::System => "System"@,
        MessageRole::Thinking => "Thinking..."@,
        MessageRole::Tool => "Tool"@,
    }
}

/// The style class of a message of the role.
pub open spec fn role_class(role: MessageRole) -> Seq<char> {
    match role {
        MessageRole::User => "user-message"@,
        MessageRole::Assistant => "assistant-message"@,
        MessageRole::System => "system-message"@,
        MessageRole::Thinking => "thinking-message"@,
        MessageRole::Tool => "tool-message"@,
    }
}

impl MessageRole {
    /// The label shown for the sender of a message of this role.
    pub fn sender_label(&self) -> (r: &'static str)
        ensures
            r@ == sender_label(*self),
    {
        match self {
            MessageRole::User => "You",
            MessageRole::Assistant => "Assistant",
            MessageRole::System => "System",
            MessageRole::Thinking => "Thinking...",
            MessageRole::Tool => "Tool",
        }
    }

    /// The style class of a message of this role.
    pub fn role_class(&self) -> (r: &'static str)
        ensures
            r@ == role_class(*self),
    {
        match self {
            MessageRole::User => "user-message",
            MessageRole::Assistant => "assistant-message",
            MessageRole::System => "system-message",
            MessageRole::Thinking => "thinking-message",
            MessageRole::Tool => "tool-message",
        }
    }
}

/// The parts of `s` between the separators `\n\n`, as `str::split` cuts
/// them: each separator is the leftmost one after the previous.
pub open spec fn split_blank_lines(s: Seq<char>) -> Seq<Seq<char>>
    decreases s.len(),
{
    if s.len() == 0 {
        seq![Seq::empty()]
    } else if s.len() >= 2 && s[0] == '\n' && s[1] == '\n' {
        seq![Seq::<char>::empty()] + split_blank_lines(s.skip(2))
    } else {
        let rest = split_blank_lines(s.skip(1));
        rest.update(0, seq![s[0]] + rest[0])
    }
}

/// The parts of `parts` that hold more than white space, in order.
pub open spec fn nonblank(parts: Seq<Seq<char>>) -> Seq<Seq<char>>
    decreases parts.len(),
{
    if parts.len() == 0 {
        parts
    } else if trim(parts.last()).len() > 0 {
        nonblank(parts.drop_last()).push(parts.last())
    } else {
        nonblank(parts.drop_last())
    }
}

/// The paragraphs of a message as they are shown: the parts between blank
/// lines that hold more than white space.
pub open spec fn paragraphs_of(s: Seq<char>) -> Seq<Seq<char>> {
    nonblank(split_blank_lines(s))
}

proof fn lemma_split_nonempty(s: Seq<char>)
    ensures
        split_blank_lines(s).len() >= 1,
    decreases s.len(),
{
    if s.len() >= 2 && s[0] == '\n' && s[1] == '\n' {
        lemma_split_nonempty(s.skip(2));
    } else if s.len() > 0 {
        lemma_split_nonempty(s.skip(1));
    }
}

/// The paragraphs of `content` (see [`paragraphs_of`]).
pub fn paragraphs(content: &str) -> (r: Vec<String>)
    ensures
        texts(r@) == paragraphs_of(content@),
{
    let cs = chars_of(content);
    let ghost s = cs@;
    let mut out: Vec<String> = Vec::new();
    let mut cur: Vec<char> = Vec::new();
    let ghost mut done: Seq<Seq<char>> = Seq::empty();
    let mut i: usize = 0;
    proof {
        lemma_split_nonempty(s);
        assert(s.skip(0) =~= s);
        let r = split_blank_lines(s);
        assert(done + seq![cur@ + r[0]] + r.drop_first() =~= r);
    }
    while i < cs.len()
        invariant
            s == cs@,
            i <= s.len(),
            split_blank_lines(s.skip(i as int)).len() >= 1,
            ({
                let r = split_blank_lines(s.skip(i as int));
                split_blank_lines(s) == done + seq![cur@ + r[0]] + r.drop_first()
            }),
            texts(out@) == nonblank(done),
        decreases s.len() - i,
    {
        let ghost t = s.skip(i as int);
        let ghost r = split_blank_lines(t);
        if i + 1 < cs.len() && cs[i] == '\n' && cs[i + 1] == '\n' {
            proof {
                assert(t[0] == '\n' && t[1] == '\n');
                assert(t.skip(2) =~= s.skip(i + 2));
                lemma_split_nonempty(s.skip(i + 2));
                let r2 = split_blank_lines(s.skip(i + 2));
                assert(r == seq![Seq::<char>::empty()] + r2);
                assert(r[0] == Seq::<char>::empty());
                assert(r.drop_first() =~= r2);
                assert(cur@ + Seq::<char>::empty() =~= cur@);
                assert(done.push(cur@) + seq![Seq::<char>::empty() + r2[0]] + r2.drop_first() =~= done + seq![
                    cur@,
                ] + r2);
                assert(done + seq![cur@] + r2 =~= done + seq![cur@ + r[0]] + r.drop_first());
            }
            let ghost before = out@;
            let trimmed = trim_chars(&cur);
            if trimmed.len() > 0 {
                out.push(string_from_chars(cur.as_slice()));
                assert(texts(out@) =~= texts(before).push(cur@));
            } else {
                assert(texts(out@) =~= texts(before));
            }
            proof {
                assert(done.push(cur@).drop_last() =~= done);
                done = done.push(cur@);
            }
            cur = Vec::new();
            i = i + 2;
        } else {
            proof {
                assert(t.skip(1) =~= s.skip(i + 1));
                lemma_split_nonempty(s.skip(i + 1));
                let rest = split_blank_lines(s.skip(i + 1));
                assert(t[0] == s[i as int]);
                assert(r == rest.update(0, seq![t[0]] + rest[0]));
                assert(r.drop_first() =~= rest.drop_first());
                assert(cur@ + r[0] =~= cur@.push(s[i as int]) + rest[0]);
            }
            cur.push(cs[i]);
            i = i + 1;
        }
    }
    proof {
        assert(s.skip(s.len() as int) =~= Seq::<char>::empty());
        let r = split_blank_lines(s.skip(i as int));
        assert(r =~= seq![Seq::<char>::empty()]);
        assert(cur@ + Seq::<char>::empty() =~= cur@);
        assert(split_blank_lines(s) =~= done.push(cur@));
    }
    let ghost before = out@;
    let trimmed = trim_chars(&cur);
    if trimmed.len() > 0 {
        out.push(string_from_chars(cur.as_slice()));
        assert(texts(out@) =~= texts(before).push(cur@));
    } else {
        assert(texts(out@) =~= texts(before));
    }
    proof {
        assert(done.push(cur@).drop_last() =~= done);
    }
    out
}

/// How a message is shown.
#[derive(Debug, Clone, Copy, PartialEq, Eq)]
pub enum MessageLayout {
    /// The typing indicator of a waiting message.
    Typing,
    /// A failed validation with alternative tools.
    Alternatives,
    /// A note on recovered input.
    Recovery,
    /// Plain paragraphs.
    Paragraphs,
}

/// The layout of a message with `role` and `content`.
pub open spec fn layout_of(role: MessageRole, content: Seq<char>) -> MessageLayout {
    if role == MessageRole::Thinking {
        MessageLayout::Typing
    } else if role == MessageRole::System && occurs_in(content, "Alternative tools"@) {
        MessageLayout::Alternatives
    } else if role == MessageRole::System && occurs_in(content, "recovered"@) {
        MessageLayout::Recovery
    } else {
        MessageLayout::Paragraphs
    }
}

impl Message {
    /// How the message is shown: waiting messages as a typing indicator,
    /// system notes on alternatives or recovered input in their own frames,
    /// everything else as paragraphs.
    pub fn layout(&self) -> (r: MessageLayout)
        ensures
            r == layout_of(self.role, self.content@),
    {
        match self.role {
            MessageRole::Thinking => MessageLayout::Typing,
            MessageRole::System => {
                if text_contains(self.content.as_str(), "Alternative tools") {
                    MessageLayout::Alternatives
                } else if text_contains(self.content.as_str(), "recovered") {
                    MessageLayout::Recovery
                } else {
                    MessageLayout::Paragraphs
                }
            },
            _ => MessageLayout::Paragraphs,
        }
    }
}

impl Message {
    /// The tool whose suggestion is shown with this message: the first tool of
    /// `tools` named by the message's suggestion.  A suggestion of a tool that
    /// is not among `tools`, or a message without one, shows none.
    pub fn shown_suggestion<'a>(&self, tools: &'a [Tool]) -> (r: Option<&'a Tool>)
        ensures
            match self@.interaction {
                Some(InteractionModel::Suggestion { tool_name, .. }) => match r {
                    Some(t) => first_named(tools@, tool_name) == Some(*t),
                    None => first_named(tools@, tool_name) is None,
                },
                _ => r is None,
            },
    {
        match &self.tool_interaction {
            Some(ToolInteraction::Suggestion { tool_name, .. }) => ToolManager::find_tool_by_name(tool_name.as_str(), tools),
            _ => None,
        }
    }
}

/// The heading shown for a run of `tool_name` in status `st`.
pub open spec fn status_heading(st: StatusModel, tool_name: Seq<char>) -> Seq<char> {
    match st {
        StatusModel::Running => "Running "@ + tool_name + "..."@,
        StatusModel::Completed => "Completed "@ + tool_name,
        StatusModel::Failed(e) => "Failed: "@ + e,
    }
}

impl ToolExecutionStatus {
    /// The heading shown for a run of `tool_name` in this status.
    pub fn heading(&self, tool_name: &str) -> (r: String)
        ensures
            r@ == status_heading(self.view(), tool_name@),
    {
        match self {
            ToolExecutionStatus::Running => concat(concat("Running ", tool_name).as_str(), "..."),
            ToolExecutionStatus::Completed => concat("Completed ", tool_name),
            ToolExecutionStatus::Failed(e) => concat("Failed: ", e.as_str()),
        }
    }
}

} // verus!
