//! The chat between the user, the model and the tools: the list of messages
//! and how each event (the user sends, the model replies, a tool runs, the
//! user turns a suggestion down) changes it.
//!
//! The calls themselves (to the model, to the tool servers) and the clock
//! that stamps messages are made by the caller; this module decides which
//! messages appear, with which text and which tool interaction.

use vstd::prelude::*;

use crate::identity::is_v4_uuid_text;
use crate::json::{JsonValue, JsonView};
use crate::message::{
    lemma_history_of_models, model_history, models, InteractionModel, Message, MessageModel, MessageRole,
    StatusModel, ToolExecutionStatus, ToolInteraction,
};
use crate::openrouter::{occurs_in, text_contains, ChatMessage};
use crate::parameter_validation::join_texts;
use crate::serde_bridge::{compact_json, json_text};
use crate::text::{chars_of, concat, join, push_text, str_eq, string_from_chars, trim, trim_chars};
use crate::tool::Tool;
use crate::tool_manager::{detected, first_named, tool_names, ToolManager};
use crate::validation_pipeline::{
    texts, validation_outcome, StateView, ValidationPipeline, ValidationState,
};

verus! {

/// A message model without tool interaction.
pub open spec fn plain(role: MessageRole, content: Seq<char>) -> MessageModel {
    MessageModel { role, content, interaction: None }
}

/// The note added when the model mentions a tool that no server offers.
pub open spec fn unavailable_text(name: Seq<char>) -> Seq<char> {
    "The '"@ + name + "' tool was mentioned, but it's not available in the current MCP server."@
}

/// The assistant's offer to run a tool with prepared parameters.
pub open spec fn suggestion_text(name: Seq<char>) -> Seq<char> {
    "I'll help you with that using the `"@ + name
        + "` tool.\n\nParameters prepared based on your request.\n\nWould you like me to proceed?"@
}

/// The assistant's offer to run a tool whose remembered parameters had to be
/// sanitized, naming the changes.
pub open spec fn adjusted_suggestion_text(name: Seq<char>, changes: Seq<Seq<char>>) -> Seq<char> {
    "I'll help you with that using the `"@ + name + "` tool."@ + (if changes.len() > 0 {
        "\n\nNote: I've made minor adjustments to the parameters: "@ + join(changes, ", "@)
    } else {
        Seq::empty()
    }) + "\n\nWould you like me to proceed?"@
}

/// The text that replaces the waiting message when the model call failed.
pub open spec fn error_text(e: Seq<char>) -> Seq<char> {
    "Error: "@ + e
}

/// The note for a tool that is not among the available ones.
pub open spec fn not_found_text(name: Seq<char>) -> Seq<char> {
    "Tool '"@ + name + "' not found in available tools."@
}

/// The text of a tool message while the tool runs.
pub open spec fn executing_text(name: Seq<char>) -> Seq<char> {
    "Executing tool: "@ + name
}

/// The note for arguments that failed validation.
pub open spec fn validation_failed_text(name: Seq<char>, errors: Seq<Seq<char>>) -> Seq<char> {
    "Tool validation failed for '"@ + name + "':\n"@ + join(errors, "\n"@)
}

/// The text of a tool message once the tool has answered.
pub open spec fn completed_text(name: Seq<char>) -> Seq<char> {
    "Tool execution completed: "@ + name
}

/// The note that hands a tool's result to the model.
pub open spec fn returned_text(name: Seq<char>, result: Seq<char>) -> Seq<char> {
    "Tool '"@ + name + "' returned result:\n\n"@ + result
}

/// The text of a tool message once the tool has failed.
pub open spec fn failed_text(name: Seq<char>) -> Seq<char> {
    "Tool execution failed: "@ + name
}

/// The note for a suggestion the user turned down.
pub open spec fn rejected_text(name: Seq<char>) -> Seq<char> {
    "Tool usage rejected: "@ + name
}

/// `ms` without the message at `i`, when there is one.
pub open spec fn without_at(ms: Seq<MessageModel>, i: int) -> Seq<MessageModel> {
    if 0 <= i < ms.len() {
        ms.remove(i)
    } else {
        ms
    }
}

/// A tool that works on a SQL database: one of the SQLite server's tools by
/// name, or any tool whose name holds `sql`.
pub open spec fn database_tool(name: Seq<char>) -> bool {
    ||| name == "execute_query"@
    ||| name == "create_table"@
    ||| name == "list_tables"@
    ||| occurs_in(name, "sql"@)
}

/// Whether some tool of `tools` works on a SQL database (the model is then
/// told how to use them).
pub fn has_database_tools(tools: &[Tool]) -> (r: bool)
    ensures
        r == exists|i: int| 0 <= i < tools@.len() && database_tool(#[trigger] tools@[i].name@),
{
    let mut i: usize = 0;
    while i < tools.len()
        invariant
            i <= tools@.len(),
            forall|j: int| 0 <= j < i ==> !database_tool(#[trigger] tools@[j].name@),
        decreases tools@.len() - i,
    {
        let name = tools[i].name.as_str();
        if str_eq(name, "execute_query") || str_eq(name, "create_table") || str_eq(name, "list_tables")
            || text_contains(name, "sql") {
            return true;
        }
        i = i + 1;
    }
    false
}

/// How one tool is shown to the model: its name, description and the compact
/// JSON text of its input schema.
pub open spec fn tool_lines(t: Tool) -> Seq<char> {
    "- "@ + t.name@ + ": "@ + t.description@ + "\n"@ + "  Parameters: "@ + compact_json(t.input_schema@) + "\n\n"@
}

/// The tools `tools[..n]` as the model is shown them, one after another.
pub open spec fn tools_listing(tools: Seq<Tool>, n: nat) -> Seq<char>
    decreases n,
{
    if n == 0 || n > tools.len() {
        Seq::empty()
    } else {
        tools_listing(tools, (n - 1) as nat) + tool_lines(tools[n - 1])
    }
}

/// The hints given when database tools are among the tools.
pub open spec fn database_hint() -> Seq<char> {
    "\nIMPORTANT: I notice you have SQLite database tools available. You can use these to work with tables and data in a SQLite database. For example:\n"@
        + "- Use list_tables to see what tables are available\n"@
        + "- Use execute_query with a SQL query to run commands like SELECT, INSERT, UPDATE, etc.\n"@
        + "- Use create_table to create new database tables\n"@
}

/// The system message that tells the model which tools it may mention, with
/// the user's confidence threshold written as `threshold`.
pub open spec fn system_prompt_text(tools: Seq<Tool>, threshold: Seq<char>) -> Seq<char> {
    let intro = "You are a helpful AI assistant with access to special tools. "@;
    if tools.len() == 0 {
        intro
            + "IMPORTANT: No MCP tools are currently available. Please do not suggest using any tools as they cannot be executed."@
    } else {
        let example = tools[0].name@;
        intro + "IMPORTANT: You only have access to the following tools from the MCP server:\n\n"@
            + tools_listing(tools, tools.len())
            + "\nWhen you need to use one of these tools, simply mention the tool by name.\n"@
            + "For example, you can say something like:\n"@
            + "\"I'll use the "@ + example + " tool to help with that\"\n"@
            + "\"Let me try the "@ + example + " tool\"\n"@
            + (if exists|i: int| 0 <= i < tools.len() && database_tool(#[trigger] tools[i].name@) {
                database_hint()
            } else {
                Seq::empty()
            })
            + "You must only mention tools from the above list. Other standard AI tools like 'Web Search', 'Calculator', etc. are NOT available.\n"@
            + "The system will detect your desire to use the tool, and the user will approve or deny the tool usage.\n"@
            + "If a tool would be helpful, always suggest using one of the AVAILABLE tools listed above to help the user."@
            + "\nIMPORTANT: The user's confidence threshold is set to "@ + threshold
            + ". Only suggest tools when you are confident they will help address the user's query directly."@
    }
}

/// The system message for a chat with `tools` and the confidence threshold
/// written as `threshold`.
pub fn system_prompt(tools: &[Tool], threshold: &str) -> (r: String)
    ensures
        r@ == system_prompt_text(tools@, threshold@),
{
    let mut r = String::new();
    push_text(&mut r, "You are a helpful AI assistant with access to special tools. ");
    if tools.len() == 0 {
        push_text(
            &mut r,
            "IMPORTANT: No MCP tools are currently available. Please do not suggest using any tools as they cannot be executed.",
        );
        return r;
    }
    push_text(&mut r, "IMPORTANT: You only have access to the following tools from the MCP server:\n\n");
    let ghost head = r@;
    let mut i: usize = 0;
    while i < tools.len()
        invariant
            i <= tools@.len(),
            r@ == head + tools_listing(tools@, i as nat),
        decreases tools@.len() - i,
    {
        let t = &tools[i];
        push_text(&mut r, "- ");
        push_text(&mut r, t.name.as_str());
        push_text(&mut r, ": ");
        push_text(&mut r, t.description.as_str());
        push_text(&mut r, "\n");
        push_text(&mut r, "  Parameters: ");
        let schema = json_text(&t.input_schema);
        push_text(&mut r, schema.as_str());
        push_text(&mut r, "\n\n");
        proof {
            assert(r@ =~= head + tools_listing(tools@, (i + 1) as nat));
        }
        i = i + 1;
    }
    let example = tools[0].name.as_str();
    push_text(&mut r, "\nWhen you need to use one of these tools, simply mention the tool by name.\n");
    push_text(&mut r, "For example, you can say something like:\n");
    push_text(&mut r, "\"I'll use the ");
    push_text(&mut r, example);
    push_text(&mut r, " tool to help with that\"\n");
    push_text(&mut r, "\"Let me try the ");
    push_text(&mut r, example);
    push_text(&mut r, " tool\"\n");
    let ghost before_hint = r@;
    if has_database_tools(tools) {
        push_text(
            &mut r,
            "\nIMPORTANT: I notice you have SQLite database tools available. You can use these to work with tables and data in a SQLite database. For example:\n",
        );
        push_text(&mut r, "- Use list_tables to see what tables are available\n");
        push_text(&mut r, "- Use execute_query with a SQL query to run commands like SELECT, INSERT, UPDATE, etc.\n");
        push_text(&mut r, "- Use create_table to create new database tables\n");
        assert(r@ =~= before_hint + database_hint());
    } else {
        assert(r@ =~= before_hint + Seq::<char>::empty());
    }
    push_text(
        &mut r,
        "You must only mention tools from the above list. Other standard AI tools like 'Web Search', 'Calculator', etc. are NOT available.\n",
    );
    push_text(
        &mut r,
        "The system will detect your desire to use the tool, and the user will approve or deny the tool usage.\n",
    );
    push_text(
        &mut r,
        "If a tool would be helpful, always suggest using one of the AVAILABLE tools listed above to help the user.",
    );
    push_text(&mut r, "\nIMPORTANT: The user's confidence threshold is set to ");
    push_text(&mut r, threshold);
    push_text(
        &mut r,
        ". Only suggest tools when you are confident they will help address the user's query directly.",
    );
    assert(r@ =~= system_prompt_text(tools@, threshold@));
    r
}

/// The state of a chat: its messages and whether a request to the model is
/// under way.
pub struct ChatSession {
    messages: Vec<Message>,
    is_sending: bool,
}

/// The model of a chat.
pub struct SessionView {
    pub messages: Seq<MessageModel>,
    pub is_sending: bool,
}

impl View for ChatSession {
    type V = SessionView;

    closed spec fn view(&self) -> SessionView {
        SessionView { messages: models(self.messages@), is_sending: self.is_sending }
    }
}

impl ChatSession {
    #[verifier::type_invariant]
    closed spec fn ids_well_formed(&self) -> bool {
        forall|i: int| 0 <= i < self.messages@.len() ==> is_v4_uuid_text(#[trigger] self.messages@[i].id@)
    }

    /// An empty chat, with no request under way.
    pub fn new() -> (r: Self)
        ensures
            r@.messages == Seq::<MessageModel>::empty(),
            !r@.is_sending,
    {
        let r = ChatSession { messages: Vec::new(), is_sending: false };
        assert(r@.messages =~= Seq::<MessageModel>::empty());
        r
    }

    /// The messages of the chat, in order; each has its own random UUID as
    /// its id, drawn when the message was made.
    pub fn messages(&self) -> (r: &[Message])
        ensures
            models(r@) == self@.messages,
            forall|i: int| 0 <= i < r@.len() ==> is_v4_uuid_text(#[trigger] r@[i].id@),
    {
        proof {
            use_type_invariant(self);
        }
        self.messages.as_slice()
    }

    /// Whether a request to the model is under way.
    pub fn is_sending(&self) -> (r: bool)
        ensures
            r == self@.is_sending,
    {
        self.is_sending
    }

    fn set_sending(&mut self, sending: bool)
        ensures
            final(self)@ == (SessionView { is_sending: sending, ..old(self)@ }),
    {
        proof {
            use_type_invariant(&*self);
        }
        self.is_sending = sending;
    }

    fn push_message(&mut self, m: Message)
        requires
            is_v4_uuid_text(m.id@),
        ensures
            final(self)@ == (SessionView { messages: old(self)@.messages.push(m@), ..old(self)@ }),
    {
        proof {
            use_type_invariant(&*self);
        }
        let ghost before = self@.messages;
        let mut ms: Vec<Message> = Vec::new();
        std::mem::swap(&mut ms, &mut self.messages);
        ms.push(m);
        assert(models(ms@) =~= before.push(m@));
        assert forall|i: int| 0 <= i < ms@.len() implies is_v4_uuid_text(#[trigger] ms@[i].id@) by {
            if i < ms@.len() - 1 {
                assert(ms@[i] == old(self).messages@[i]);
            }
        }
        self.messages = ms;
    }

    fn set_message(&mut self, i: usize, m: Message)
        requires
            i < old(self)@.messages.len(),
            is_v4_uuid_text(m.id@),
        ensures
            final(self)@ == (SessionView { messages: old(self)@.messages.update(i as int, m@), ..old(self)@ }),
    {
        proof {
            use_type_invariant(&*self);
        }
        let ghost before = self@.messages;
        let mut ms: Vec<Message> = Vec::new();
        std::mem::swap(&mut ms, &mut self.messages);
        ms.set(i, m);
        assert(models(ms@) =~= before.update(i as int, m@));
        assert forall|k: int| 0 <= k < ms@.len() implies is_v4_uuid_text(#[trigger] ms@[k].id@) by {
            if k != i {
                assert(ms@[k] == old(self).messages@[k]);
            }
        }
        self.messages = ms;
    }

    fn remove_at(&mut self, i: usize)
        ensures
            final(self)@ == (SessionView { messages: without_at(old(self)@.messages, i as int), ..old(self)@ }),
    {
        proof {
            use_type_invariant(&*self);
        }
        let ghost before = self@.messages;
        if i < self.messages.len() {
            let mut ms: Vec<Message> = Vec::new();
            std::mem::swap(&mut ms, &mut self.messages);
            ms.remove(i);
            assert(models(ms@) =~= before.remove(i as int));
            assert forall|k: int| 0 <= k < ms@.len() implies is_v4_uuid_text(#[trigger] ms@[k].id@) by {
                if k < i {
                    assert(ms@[k] == old(self).messages@[k]);
                } else {
                    assert(ms@[k] == old(self).messages@[k + 1]);
                }
            }
            self.messages = ms;
        }
    }

    /// The user sends `input`.  Nothing happens when the trimmed input is
    /// empty or a request is under way.  Otherwise the trimmed input becomes
    /// a user message, a waiting (thinking) message follows, and the history
    /// to send to the model comes back with the position of the waiting
    /// message.
    pub fn begin_send(&mut self, input: &str) -> (r: Option<(Vec<ChatMessage>, usize)>)
        ensures
            trim(input@).len() == 0 || old(self)@.is_sending ==> r is None && final(self)@ == old(self)@,
            trim(input@).len() > 0 && !old(self)@.is_sending ==> {
                let ms = old(self)@.messages.push(plain(MessageRole::User, trim(input@))).push(
                    plain(MessageRole::Thinking, Seq::empty()),
                );
                &&& final(self)@ == (SessionView { messages: ms, is_sending: true })
                &&& r matches Some((h, id)) && id == old(self)@.messages.len() + 1 && h@.map_values(
                    |c: ChatMessage| (c.role@, c.content@),
                ) == model_history(ms)
            },
    {
        let trimmed = trim_chars(&chars_of(input));
        if trimmed.len() == 0 || self.is_sending {
            return None;
        }
        let text = string_from_chars(trimmed.as_slice());
        self.push_message(Message::new(MessageRole::User, text));
        self.set_sending(true);
        let thinking_id = self.messages.len();
        self.push_message(Message::new(MessageRole::Thinking, String::new()));
        let history = crate::message::chat_history(self.messages.as_slice());
        proof {
            lemma_history_of_models(self.messages@);
        }
        Some((history, thinking_id))
    }

    /// The model replied `content` to the request whose waiting message is at
    /// `thinking_id`: the waiting message goes, and the reply is added.  When
    /// the reply suggests a tool (see [`ToolManager::detect_tool_suggestion`])
    /// that is among `tools`, the reply carries the suggestion, and the tool
    /// and its arguments come back for the caller to remember; a suggested
    /// tool that is not available gets a note after the reply.  The request
    /// is over.
    pub fn reply_received(&mut self, thinking_id: usize, content: String, tools: &[Tool]) -> (r: Option<(String, JsonValue)>)
        ensures
            !final(self)@.is_sending,
            ({
                let base = without_at(old(self)@.messages, thinking_id as int);
                match detected(content@, tool_names(tools@)) {
                    Some((name, args)) => if tool_names(tools@).contains(name) {
                        &&& final(self)@.messages == base.push(
                            MessageModel {
                                role: MessageRole::Assistant,
                                content: content@,
                                interaction: Some(
                                    InteractionModel::Suggestion { tool_name: name, args, message_idx: base.len() },
                                ),
                            },
                        )
                        &&& r matches Some((n, a)) && n@ == name && a@ == args
                    } else {
                        &&& final(self)@.messages == base.push(plain(MessageRole::Assistant, content@)).push(
                            plain(MessageRole::System, unavailable_text(name)),
                        )
                        &&& r is None
                    },
                    None => {
                        &&& final(self)@.messages == base.push(plain(MessageRole::Assistant, content@))
                        &&& r is None
                    },
                }
            }),
    {
        self.remove_at(thinking_id);
        let r = match ToolManager::detect_tool_suggestion(content.as_str(), tools) {
            Some((name, args)) => {
                if ToolManager::has_tool_named(tools, name.as_str()) {
                    let idx = self.messages.len();
                    let remembered = (name.clone(), args.deep_copy());
                    let interaction = ToolInteraction::Suggestion {
                        tool_name: name,
                        suggested_args: args,
                        message_idx: idx,
                    };
                    self.push_message(Message::new(MessageRole::Assistant, content).with_tool_interaction(interaction));
                    Some(remembered)
                } else {
                    let note = concat(
                        concat("The '", name.as_str()).as_str(),
                        "' tool was mentioned, but it's not available in the current MCP server.",
                    );
                    self.push_message(Message::new(MessageRole::Assistant, content));
                    self.push_message(Message::new(MessageRole::System, note));
                    None
                }
            },
            None => {
                self.push_message(Message::new(MessageRole::Assistant, content));
                None
            },
        };
        self.set_sending(false);
        r
    }

    /// The model replied `content` and no tool is to be offered with it: the
    /// waiting message at `thinking_id` goes and the reply is added.  The
    /// request is over.
    pub fn reply_plain(&mut self, thinking_id: usize, content: String)
        ensures
            final(self)@ == (SessionView {
                messages: without_at(old(self)@.messages, thinking_id as int).push(
                    plain(MessageRole::Assistant, content@),
                ),
                is_sending: false,
            }),
    {
        self.remove_at(thinking_id);
        self.push_message(Message::new(MessageRole::Assistant, content));
        self.set_sending(false);
    }

    /// The model answered without any reply: the waiting message at
    /// `thinking_id` goes and nothing is added.  The request is over.
    pub fn reply_empty(&mut self, thinking_id: usize)
        ensures
            final(self)@ == (SessionView {
                messages: without_at(old(self)@.messages, thinking_id as int),
                is_sending: false,
            }),
    {
        self.remove_at(thinking_id);
        self.set_sending(false);
    }

    /// A tool was chosen for the request whose waiting message is at
    /// `thinking_id`: the waiting message goes, and the assistant offers to
    /// run `tool_name` with `args`.  The request is over.
    pub fn reply_with_suggestion(&mut self, thinking_id: usize, tool_name: String, args: JsonValue)
        ensures
            ({
                let base = without_at(old(self)@.messages, thinking_id as int);
                final(self)@ == (SessionView {
                    messages: base.push(
                        MessageModel {
                            role: MessageRole::Assistant,
                            content: suggestion_text(tool_name@),
                            interaction: Some(
                                InteractionModel::Suggestion {
                                    tool_name: tool_name@,
                                    args: args@,
                                    message_idx: base.len(),
                                },
                            ),
                        },
                    ),
                    is_sending: false,
                })
            }),
    {
        self.remove_at(thinking_id);
        let text = concat(
            concat("I'll help you with that using the `", tool_name.as_str()).as_str(),
            "` tool.\n\nParameters prepared based on your request.\n\nWould you like me to proceed?",
        );
        let idx = self.messages.len();
        let interaction = ToolInteraction::Suggestion { tool_name, suggested_args: args, message_idx: idx };
        self.push_message(Message::new(MessageRole::Assistant, text).with_tool_interaction(interaction));
        self.set_sending(false);
    }

    /// A remembered selection of `tool_name` with `args` is offered for the
    /// request whose waiting message is at `thinking_id`, when the tool is
    /// among `tools` and the arguments pass `pipeline`: valid arguments are
    /// offered as they are, sanitized or repaired ones with a note of the
    /// changes, and the request is over.  Arguments that stay invalid, or an
    /// unknown tool, leave the chat as it was and give `false`.
    pub fn reply_from_cache(
        &mut self,
        thinking_id: usize,
        tool_name: &str,
        args: JsonValue,
        tools: &[Tool],
        pipeline: &ValidationPipeline,
    ) -> (r: bool)
        ensures
            ({
                let base = without_at(old(self)@.messages, thinking_id as int);
                let offer = |text: Seq<char>, v: JsonView|
                    SessionView {
                        messages: base.push(
                            MessageModel {
                                role: MessageRole::Assistant,
                                content: text,
                                interaction: Some(
                                    InteractionModel::Suggestion { tool_name: tool_name@, args: v, message_idx: base.len() },
                                ),
                            },
                        ),
                        is_sending: false,
                    };
                match first_named(tools@, tool_name@) {
                    None => !r && final(self)@ == old(self)@,
                    Some(t) => match validation_outcome(pipeline@, t.input_schema@, args@) {
                        StateView::Valid(v) => r && final(self)@ == offer(suggestion_text(tool_name@), v),
                        StateView::Sanitized { sanitized, changes, .. } => r && final(self)@ == offer(
                            adjusted_suggestion_text(tool_name@, changes),
                            sanitized,
                        ),
                        StateView::Invalid { .. } => !r && final(self)@ == old(self)@,
                    },
                }
            }),
    {
        let tool = match ToolManager::find_tool_by_name(tool_name, tools) {
            Some(t) => t,
            None => {
                return false;
            },
        };
        match pipeline.validate_input(tool, args) {
            ValidationState::Valid(v) => {
                self.remove_at(thinking_id);
                let text = concat(
                    concat("I'll help you with that using the `", tool_name).as_str(),
                    "` tool.\n\nParameters prepared based on your request.\n\nWould you like me to proceed?",
                );
                let idx = self.messages.len();
                let interaction = ToolInteraction::Suggestion {
                    tool_name: tool_name.to_owned(),
                    suggested_args: v,
                    message_idx: idx,
                };
                self.push_message(Message::new(MessageRole::Assistant, text).with_tool_interaction(interaction));
                self.set_sending(false);
                true
            },
            ValidationState::Sanitized { sanitized, changes, .. } => {
                self.remove_at(thinking_id);
                let mut text = concat(concat("I'll help you with that using the `", tool_name).as_str(), "` tool.");
                let ghost head = text@;
                let ghost note = if changes@.len() > 0 {
                    "\n\nNote: I've made minor adjustments to the parameters: "@ + join(texts(changes@), ", "@)
                } else {
                    Seq::<char>::empty()
                };
                if changes.len() > 0 {
                    push_text(&mut text, "\n\nNote: I've made minor adjustments to the parameters: ");
                    let joined = join_texts(&changes, ", ");
                    push_text(&mut text, joined.as_str());
                }
                assert(text@ =~= head + note);
                push_text(&mut text, "\n\nWould you like me to proceed?");
                assert(text@ == adjusted_suggestion_text(tool_name@, texts(changes@)));
                let idx = self.messages.len();
                let interaction = ToolInteraction::Suggestion {
                    tool_name: tool_name.to_owned(),
                    suggested_args: sanitized,
                    message_idx: idx,
                };
                self.push_message(Message::new(MessageRole::Assistant, text).with_tool_interaction(interaction));
                self.set_sending(false);
                true
            },
            ValidationState::Invalid { .. } => false,
        }
    }

    /// The request to the model whose waiting message is at `thinking_id`
    /// failed with `error`: the waiting message becomes a system message
    /// telling so.  The request is over.
    pub fn reply_failed(&mut self, thinking_id: usize, error: &str)
        ensures
            final(self)@ == (SessionView {
                messages: if thinking_id < old(self)@.messages.len() {
                    old(self)@.messages.update(thinking_id as int, plain(MessageRole::System, error_text(error@)))
                } else {
                    old(self)@.messages
                },
                is_sending: false,
            }),
    {
        if thinking_id < self.messages.len() {
            self.set_message(thinking_id, Message::new(MessageRole::System, concat("Error: ", error)));
        }
        self.set_sending(false);
    }

    /// The user asks to run `tool_name` with `arguments`.  An unknown tool
    /// gets a note.  Otherwise the arguments go through `pipeline`: when they
    /// are valid (as they came or sanitized) a running tool message is added
    /// and its position and the arguments to run the tool with come back;
    /// when they are not, a note lists the errors.
    pub fn start_tool(
        &mut self,
        tool_name: &str,
        arguments: JsonValue,
        tools: &[Tool],
        pipeline: &ValidationPipeline,
    ) -> (r: Option<(usize, JsonValue)>)
        ensures
            final(self)@.is_sending == old(self)@.is_sending,
            ({
                let ms = old(self)@.messages;
                let run = |v: JsonView|
                    {
                        &&& final(self)@.messages == ms.push(
                            MessageModel {
                                role: MessageRole::Tool,
                                content: executing_text(tool_name@),
                                interaction: Some(
                                    InteractionModel::Execution {
                                        tool_name: tool_name@,
                                        args: v,
                                        status: StatusModel::Running,
                                        result: None,
                                        message_idx: ms.len(),
                                    },
                                ),
                            },
                        )
                        &&& r matches Some((i, a)) && i == ms.len() && a@ == v
                    };
                match first_named(tools@, tool_name@) {
                    None => r is None && final(self)@.messages == ms.push(
                        plain(MessageRole::System, not_found_text(tool_name@)),
                    ),
                    Some(t) => match validation_outcome(pipeline@, t.input_schema@, arguments@) {
                        StateView::Valid(v) => run(v),
                        StateView::Sanitized { sanitized, .. } => run(sanitized),
                        StateView::Invalid { errors, .. } => r is None && final(self)@.messages == ms.push(
                            plain(MessageRole::System, validation_failed_text(tool_name@, errors)),
                        ),
                    },
                }
            }),
    {
        let tool = match ToolManager::find_tool_by_name(tool_name, tools) {
            Some(t) => t,
            None => {
                let note = concat(concat("Tool '", tool_name).as_str(), "' not found in available tools.");
                self.push_message(Message::new(MessageRole::System, note));
                return None;
            },
        };
        let idx = self.messages.len();
        let validated = match pipeline.validate_input(tool, arguments) {
            ValidationState::Valid(v) => v,
            ValidationState::Sanitized { sanitized, .. } => sanitized,
            ValidationState::Invalid { errors, .. } => {
                let mut note = concat(concat("Tool validation failed for '", tool_name).as_str(), "':\n");
                let joined = join_texts(&errors, "\n");
                push_text(&mut note, joined.as_str());
                self.push_message(Message::new(MessageRole::System, note));
                return None;
            },
        };
        let interaction = ToolInteraction::Execution {
            tool_name: tool_name.to_owned(),
            arguments: validated.deep_copy(),
            status: ToolExecutionStatus::Running,
            result: None,
            message_idx: idx,
        };
        self.push_message(
            Message::new(MessageRole::Tool, concat("Executing tool: ", tool_name)).with_tool_interaction(interaction),
        );
        Some((idx, validated))
    }

    /// The tool started at position `idx` (see [`Self::start_tool`]) with
    /// `arguments` answered: with its result text, the tool message shows the
    /// completed run and a note hands the result to the model; with an error,
    /// the tool message shows the failure.  A position past the end changes
    /// nothing.
    pub fn tool_finished(&mut self, idx: usize, tool_name: &str, arguments: JsonValue, outcome: Result<String, String>)
        ensures
            final(self)@.is_sending == old(self)@.is_sending,
            ({
                let ms = old(self)@.messages;
                let exec = |status: StatusModel, result: Option<Seq<char>>|
                    Some(
                        InteractionModel::Execution {
                            tool_name: tool_name@,
                            args: arguments@,
                            status,
                            result,
                            message_idx: idx as nat,
                        },
                    );
                if idx >= ms.len() {
                    final(self)@.messages == ms
                } else {
                    match outcome {
                        Ok(text) => final(self)@.messages == ms.update(
                            idx as int,
                            MessageModel {
                                role: MessageRole::Tool,
                                content: completed_text(tool_name@),
                                interaction: exec(StatusModel::Completed, Some(text@)),
                            },
                        ).push(plain(MessageRole::System, returned_text(tool_name@, text@))),
                        Err(e) => final(self)@.messages == ms.update(
                            idx as int,
                            MessageModel {
                                role: MessageRole::Tool,
                                content: failed_text(tool_name@),
                                interaction: exec(StatusModel::Failed(e@), None),
                            },
                        ),
                    }
                }
            }),
    {
        if idx >= self.messages.len() {
            return;
        }
        match outcome {
            Ok(text) => {
                let note = concat(
                    concat(concat("Tool '", tool_name).as_str(), "' returned result:\n\n").as_str(),
                    text.as_str(),
                );
                let interaction = ToolInteraction::Execution {
                    tool_name: tool_name.to_owned(),
                    arguments,
                    status: ToolExecutionStatus::Completed,
                    result: Some(text),
                    message_idx: idx,
                };
                let m = Message::new(MessageRole::Tool, concat("Tool execution completed: ", tool_name));
                self.set_message(idx, m.with_tool_interaction(interaction));
                self.push_message(Message::new(MessageRole::System, note));
            },
            Err(e) => {
                let interaction = ToolInteraction::Execution {
                    tool_name: tool_name.to_owned(),
                    arguments,
                    status: ToolExecutionStatus::Failed(e),
                    result: None,
                    message_idx: idx,
                };
                let m = Message::new(MessageRole::Tool, concat("Tool execution failed: ", tool_name));
                self.set_message(idx, m.with_tool_interaction(interaction));
            },
        }
    }

    /// The user turns down the tool suggested by the message at `idx`: a note
    /// says so and the message no longer carries the suggestion.  A message
    /// without a suggestion, or a position past the end, changes nothing.
    pub fn cancel_tool(&mut self, idx: usize)
        ensures
            final(self)@.is_sending == old(self)@.is_sending,
            ({
                let ms = old(self)@.messages;
                if 0 <= idx < ms.len() {
                    match ms[idx as int].interaction {
                        Some(InteractionModel::Suggestion { tool_name, .. }) => final(self)@.messages == ms.update(
                            idx as int,
                            MessageModel { interaction: None, ..ms[idx as int] },
                        ).push(plain(MessageRole::System, rejected_text(tool_name))),
                        _ => final(self)@.messages == ms,
                    }
                } else {
                    final(self)@.messages == ms
                }
            }),
    {
        if idx >= self.messages.len() {
            return;
        }
        let name = match &self.messages[idx].tool_interaction {
            Some(ToolInteraction::Suggestion { tool_name, .. }) => tool_name.clone(),
            _ => {
                return;
            },
        };
        proof {
            use_type_invariant(&*self);
        }
        let ghost before = self@.messages;
        let mut ms: Vec<Message> = Vec::new();
        std::mem::swap(&mut ms, &mut self.messages);
        let mut m = ms.remove(idx);
        m.tool_interaction = None;
        ms.insert(idx, m);
        assert(models(ms@) =~= before.update(idx as int, MessageModel { interaction: None, ..before[idx as int] }));
        assert forall|k: int| 0 <= k < ms@.len() implies is_v4_uuid_text(#[trigger] ms@[k].id@) by {
            assert(ms@[k].id == old(self).messages@[k].id);
        }
        self.messages = ms;
        self.push_message(Message::new(MessageRole::System, concat("Tool usage rejected: ", name.as_str())));
    }
}

} // verus!
