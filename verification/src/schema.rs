//! The records of the archive: stored sessions and their messages, the
//! looser input form, and the events of streamed ingestion.
use vstd::prelude::*;

pub use crate::chatgpt::{
    ChatGptAuthor, ChatGptContent, ChatGptConversation, ChatGptMessage, ChatGptNode,
};
use crate::metadata::{clone_members, json_text, reads_back, render_members, Metadata, MetadataView};

verus! {

/// Who speaks in a message.
#[derive(Clone, Copy, Debug, PartialEq, Eq, Structural)]
pub enum MessageRole {
    User,
    System,
    /// Standard AI response
    Model,
    /// Internal reasoning/Chain of thought
    Thought,
    /// Tool execution result
    Tool,
}

impl DeepView for MessageRole {
    type V = MessageRole;

    open spec fn deep_view(&self) -> MessageRole {
        *self
    }
}

#[derive(Debug)]
pub struct ToolCall {
    pub name: String,
    pub arguments: String,
    pub id: Option<String>,
}

#[verifier::ext_equal]
pub ghost struct ToolCallView {
    pub name: Seq<char>,
    pub arguments: Seq<char>,
    pub id: Option<Seq<char>>,
}

impl DeepView for ToolCall {
    type V = ToolCallView;

    open spec fn deep_view(&self) -> ToolCallView {
        ToolCallView {
            name: self.name@,
            arguments: self.arguments@,
            id: self.id.deep_view(),
        }
    }
}

impl Clone for ToolCall {
    fn clone(&self) -> (r: Self)
        ensures
            r == *self,
    {
        ToolCall {
            name: self.name.clone(),
            arguments: self.arguments.clone(),
            id: self.id.clone(),
        }
    }
}

#[derive(Debug)]
pub struct ToolOutput {
    pub tool_call_id: Option<String>,
    pub content: String,
}

#[verifier::ext_equal]
pub ghost struct ToolOutputView {
    pub tool_call_id: Option<Seq<char>>,
    pub content: Seq<char>,
}

impl DeepView for ToolOutput {
    type V = ToolOutputView;

    open spec fn deep_view(&self) -> ToolOutputView {
        ToolOutputView { tool_call_id: self.tool_call_id.deep_view(), content: self.content@ }
    }
}

impl Clone for ToolOutput {
    fn clone(&self) -> (r: Self)
        ensures
            r == *self,
    {
        ToolOutput { tool_call_id: self.tool_call_id.clone(), content: self.content.clone() }
    }
}

/// A stored message.
#[derive(Debug)]
pub struct MessageV1 {
    pub role: MessageRole,
    pub content: String,
    pub tool_calls: Option<Vec<ToolCall>>,
    pub tool_outputs: Option<Vec<ToolOutput>>,
    pub id: Option<String>,
    pub parent_id: Option<String>,
    /// Stored as JSON string
    pub metadata_json: String,
}

#[verifier::ext_equal]
pub ghost struct MessageView {
    pub role: MessageRole,
    pub content: Seq<char>,
    pub tool_calls: Option<Seq<ToolCallView>>,
    pub tool_outputs: Option<Seq<ToolOutputView>>,
    pub id: Option<Seq<char>>,
    pub parent_id: Option<Seq<char>>,
    pub metadata_json: Seq<char>,
}

impl DeepView for MessageV1 {
    type V = MessageView;

    open spec fn deep_view(&self) -> MessageView {
        MessageView {
            role: self.role,
            content: self.content@,
            tool_calls: self.tool_calls.deep_view(),
            tool_outputs: self.tool_outputs.deep_view(),
            id: self.id.deep_view(),
            parent_id: self.parent_id.deep_view(),
            metadata_json: self.metadata_json@,
        }
    }
}

/// The tool calls of a message, copied.
pub fn clone_tool_calls(calls: &Option<Vec<ToolCall>>) -> (r: Option<Vec<ToolCall>>)
    ensures
        r.deep_view() == calls.deep_view(),
{
    match calls {
        Some(v) => {
            let w = v.clone();
            assert(w@ =~= v@);
            assert(w.deep_view() =~= v.deep_view());
            Some(w)
        },
        None => None,
    }
}

/// The tool outputs of a message, copied.
pub fn clone_tool_outputs(outputs: &Option<Vec<ToolOutput>>) -> (r: Option<Vec<ToolOutput>>)
    ensures
        r.deep_view() == outputs.deep_view(),
{
    match outputs {
        Some(v) => {
            let w = v.clone();
            assert(w@ =~= v@);
            assert(w.deep_view() =~= v.deep_view());
            Some(w)
        },
        None => None,
    }
}

impl Clone for MessageV1 {
    fn clone(&self) -> (r: Self)
        ensures
            r.deep_view() == self.deep_view(),
    {
        MessageV1 {
            role: self.role,
            content: self.content.clone(),
            tool_calls: clone_tool_calls(&self.tool_calls),
            tool_outputs: clone_tool_outputs(&self.tool_outputs),
            id: self.id.clone(),
            parent_id: self.parent_id.clone(),
            metadata_json: self.metadata_json.clone(),
        }
    }
}

/// A stored session.
#[derive(Debug)]
pub struct ChatSessionV1 {
    pub id: String,
    pub title: Option<String>,
    pub source: Option<String>,
    pub model: Option<String>,
    pub created_at: Option<u64>,
    /// Stored as JSON string
    pub metadata_json: String,
    pub messages: Vec<MessageV1>,
}

#[verifier::ext_equal]
pub ghost struct SessionView {
    pub id: Seq<char>,
    pub title: Option<Seq<char>>,
    pub source: Option<Seq<char>>,
    pub model: Option<Seq<char>>,
    pub created_at: Option<u64>,
    pub metadata_json: Seq<char>,
    pub messages: Seq<MessageView>,
}

impl DeepView for ChatSessionV1 {
    type V = SessionView;

    open spec fn deep_view(&self) -> SessionView {
        SessionView {
            id: self.id@,
            title: self.title.deep_view(),
            source: self.source.deep_view(),
            model: self.model.deep_view(),
            created_at: self.created_at,
            metadata_json: self.metadata_json@,
            messages: self.messages.deep_view(),
        }
    }
}

impl Clone for ChatSessionV1 {
    fn clone(&self) -> (r: Self)
        ensures
            r.deep_view() == self.deep_view(),
    {
        let messages = self.messages.clone();
        assert(messages.deep_view() =~= self.messages.deep_view());
        ChatSessionV1 {
            id: self.id.clone(),
            title: self.title.clone(),
            source: self.source.clone(),
            model: self.model.clone(),
            created_at: self.created_at,
            metadata_json: self.metadata_json.clone(),
            messages,
        }
    }
}

/// The text of the first messages: each message's content with a space
/// behind it.
pub open spec fn text_of(messages: Seq<MessageView>) -> Seq<char>
    decreases messages.len(),
{
    if messages.len() == 0 {
        Seq::empty()
    } else {
        text_of(messages.drop_last()) + messages.last().content.push(' ')
    }
}

impl ChatSessionV1 {
    /// All message contents, each with a space behind it, so that the last
    /// word of one never runs into the first word of the next.
    pub fn extract_full_text(&self) -> (r: String)
        ensures
            r@ == text_of(self.deep_view().messages),
    {
        let mut out = String::new();
        let ghost all = self.messages.deep_view();
        let mut i: usize = 0;
        assert(all.take(0) =~= Seq::<MessageView>::empty());
        while i < self.messages.len()
            invariant
                i <= self.messages@.len(),
                all == self.messages.deep_view(),
                out@ == text_of(all.take(i as int)),
            decreases self.messages@.len() - i,
        {
            let ghost before = out@;
            out.append(self.messages[i].content.as_str());
            out.push(' ');
            proof {
                let t = all.take(i + 1);
                assert(t.drop_last() =~= all.take(i as int));
                assert(t.last() == self.messages@[i as int].deep_view());
                assert(out@ =~= before + t.last().content.push(' '));
            }
            i += 1;
        }
        assert(all.take(i as int) =~= all);
        out
    }
}

/// Several sessions stored together, second form.
#[derive(Debug)]
pub struct SessionBlockV2 {
    pub sessions: Vec<ChatSessionV1>,
}

/// What one block of a data file holds. The variants are told apart by a
/// number, counted from zero in this order.
#[derive(Debug)]
pub enum StoredSession {
    V1(ChatSessionV1),
    Block(Vec<ChatSessionV1>),
    V2(SessionBlockV2),
}

#[verifier::ext_equal]
pub ghost enum StoredView {
    V1(SessionView),
    Block(Seq<SessionView>),
    V2(Seq<SessionView>),
}

impl StoredView {
    /// The sessions of the block, in order.
    pub open spec fn sessions(self) -> Seq<SessionView> {
        match self {
            StoredView::V1(s) => seq![s],
            StoredView::Block(v) => v,
            StoredView::V2(v) => v,
        }
    }
}

impl DeepView for StoredSession {
    type V = StoredView;

    open spec fn deep_view(&self) -> StoredView {
        match self {
            StoredSession::V1(s) => StoredView::V1(s.deep_view()),
            StoredSession::Block(v) => StoredView::Block(v.deep_view()),
            StoredSession::V2(b) => StoredView::V2(b.sessions.deep_view()),
        }
    }
}

impl StoredSession {
    /// How many sessions the block holds.
    pub fn session_count(&self) -> (r: usize)
        ensures
            r == self.deep_view().sessions().len(),
    {
        match self {
            StoredSession::V1(_) => 1,
            StoredSession::Block(v) => v.len(),
            StoredSession::V2(b) => b.sessions.len(),
        }
    }

    /// The sessions of the block, in order.
    pub fn into_sessions(self) -> (r: Vec<ChatSessionV1>)
        ensures
            r.deep_view() == self.deep_view().sessions(),
    {
        match self {
            StoredSession::V1(s) => {
                let mut v: Vec<ChatSessionV1> = Vec::new();
                let ghost view = s.deep_view();
                v.push(s);
                assert(v.deep_view() =~= seq![view]);
                v
            },
            StoredSession::Block(v) => v,
            StoredSession::V2(b) => b.sessions,
        }
    }
}

/// A message as it comes in.
#[derive(Debug)]
pub struct MessageInput {
    pub role: MessageRole,
    pub content: String,
    pub tool_calls: Option<Vec<ToolCall>>,
    pub tool_outputs: Option<Vec<ToolOutput>>,
    pub id: Option<String>,
    pub parent_id: Option<String>,
    pub metadata: Metadata,
}

#[verifier::ext_equal]
pub ghost struct MessageInputView {
    pub role: MessageRole,
    pub content: Seq<char>,
    pub tool_calls: Option<Seq<ToolCallView>>,
    pub tool_outputs: Option<Seq<ToolOutputView>>,
    pub id: Option<Seq<char>>,
    pub parent_id: Option<Seq<char>>,
    pub metadata: MetadataView,
}

impl DeepView for MessageInput {
    type V = MessageInputView;

    open spec fn deep_view(&self) -> MessageInputView {
        MessageInputView {
            role: self.role,
            content: self.content@,
            tool_calls: self.tool_calls.deep_view(),
            tool_outputs: self.tool_outputs.deep_view(),
            id: self.id.deep_view(),
            parent_id: self.parent_id.deep_view(),
            metadata: self.metadata.deep_view(),
        }
    }
}

impl MessageInputView {
    /// The message as it is stored: its metadata as JSON text.
    pub open spec fn stored(self) -> MessageView {
        MessageView {
            role: self.role,
            content: self.content,
            tool_calls: self.tool_calls,
            tool_outputs: self.tool_outputs,
            id: self.id,
            parent_id: self.parent_id,
            metadata_json: json_text(self.metadata),
        }
    }
}

impl Clone for MessageInput {
    fn clone(&self) -> (r: Self)
        ensures
            r.deep_view() == self.deep_view(),
    {
        MessageInput {
            role: self.role,
            content: self.content.clone(),
            tool_calls: clone_tool_calls(&self.tool_calls),
            tool_outputs: clone_tool_outputs(&self.tool_outputs),
            id: self.id.clone(),
            parent_id: self.parent_id.clone(),
            metadata: clone_members(&self.metadata),
        }
    }
}

impl From<MessageInput> for MessageV1 {
    fn from(input: MessageInput) -> (r: Self)
        ensures
            r.deep_view() == input.deep_view().stored(),
            reads_back(input.deep_view().metadata),
    {
        let metadata_json = render_members(&input.metadata);
        MessageV1 {
            role: input.role,
            content: input.content,
            tool_calls: input.tool_calls,
            tool_outputs: input.tool_outputs,
            id: input.id,
            parent_id: input.parent_id,
            metadata_json,
        }
    }
}

impl vstd::std_specs::convert::FromSpecImpl<MessageInput> for MessageV1 {
    open spec fn obeys_from_spec() -> bool {
        false
    }

    open spec fn from_spec(v: MessageInput) -> Self {
        arbitrary()
    }
}

/// A session as it comes in: everything but the messages may be missing, and
/// members without a field of their own are metadata.
#[derive(Debug)]
pub struct ChatSessionInput {
    pub id: Option<String>,
    pub title: Option<String>,
    pub source: Option<String>,
    pub model: Option<String>,
    pub created_at: Option<u64>,
    pub metadata: Metadata,
    pub messages: Vec<MessageInput>,
}

#[verifier::ext_equal]
pub ghost struct SessionInputView {
    pub id: Option<Seq<char>>,
    pub title: Option<Seq<char>>,
    pub source: Option<Seq<char>>,
    pub model: Option<Seq<char>>,
    pub created_at: Option<u64>,
    pub metadata: MetadataView,
    pub messages: Seq<MessageInputView>,
}

impl DeepView for ChatSessionInput {
    type V = SessionInputView;

    open spec fn deep_view(&self) -> SessionInputView {
        SessionInputView {
            id: self.id.deep_view(),
            title: self.title.deep_view(),
            source: self.source.deep_view(),
            model: self.model.deep_view(),
            created_at: self.created_at,
            metadata: self.metadata.deep_view(),
            messages: self.messages.deep_view(),
        }
    }
}

impl Clone for ChatSessionInput {
    fn clone(&self) -> (r: Self)
        ensures
            r.deep_view() == self.deep_view(),
    {
        let messages = self.messages.clone();
        assert(messages.deep_view() =~= self.messages.deep_view());
        ChatSessionInput {
            id: self.id.clone(),
            title: self.title.clone(),
            source: self.source.clone(),
            model: self.model.clone(),
            created_at: self.created_at,
            metadata: clone_members(&self.metadata),
            messages,
        }
    }
}

/// Messages as they are stored.
pub open spec fn stored_messages(messages: Seq<MessageInputView>) -> Seq<MessageView> {
    messages.map_values(|m: MessageInputView| m.stored())
}

impl SessionInputView {
    /// The metadata of the session and its messages is read back from the
    /// text that is stored.
    pub open spec fn reads_back(self) -> bool {
        &&& reads_back(self.metadata)
        &&& forall|j: int|
            0 <= j < self.messages.len() ==> reads_back((#[trigger] self.messages[j]).metadata)
    }

    /// The session as it is stored under an id.
    pub open spec fn stored(self, id: Seq<char>) -> SessionView {
        SessionView {
            id,
            title: self.title,
            source: self.source,
            model: self.model,
            created_at: self.created_at,
            metadata_json: json_text(self.metadata),
            messages: stored_messages(self.messages),
        }
    }
}

/// Whether `s` is the text of a random (version 4) UUID: 32 lower-case
/// hexadecimal digits in groups of 8, 4, 4, 4 and 12 with hyphens between.
pub open spec fn is_uuid_text(s: Seq<char>) -> bool {
    &&& s.len() == 36
    &&& forall|i: int|
        0 <= i < 36 ==> if i == 8 || i == 13 || i == 18 || i == 23 {
            #[trigger] s[i] == '-'
        } else {
            ('0' <= s[i] <= '9') || ('a' <= s[i] <= 'f')
        }
    &&& s[14] == '4'
    &&& s[19] == '8' || s[19] == '9' || s[19] == 'a' || s[19] == 'b'
}

/// `uuid::Uuid::new_v4` and its text: random, of the fixed form of version 4.
#[verifier::external_body]
fn new_uuid() -> (r: String)
    ensures
        is_uuid_text(r@),
{
    uuid::Uuid::new_v4().to_string()
}

impl ChatSessionV1 {
    /// The stored form of an incoming session under the given id.
    pub fn with_id(input: ChatSessionInput, id: String) -> (r: Self)
        ensures
            r.deep_view() == input.deep_view().stored(id@),
            input.deep_view().reads_back(),
    {
        let ghost all = input.messages.deep_view();
        let metadata_json = render_members(&input.metadata);
        let mut messages: Vec<MessageV1> = Vec::new();
        for m in it: input.messages.into_iter()
            invariant
                it.seq().len() == all.len(),
                forall|k: int|
                    0 <= k < all.len() ==> (#[trigger] it.seq()[k]).deep_view() == all[k],
                messages@.len() == it.index(),
                forall|k: int|
                    0 <= k < messages@.len() ==> (#[trigger] messages@[k]).deep_view()
                        == all[k].stored() && reads_back(all[k].metadata),
        {
            assert(m.deep_view() == it.seq()[it.index() as int].deep_view());
            messages.push(MessageV1::from(m));
        }
        assert(messages.deep_view() =~= stored_messages(all));
        assert forall|j: int| 0 <= j < all.len() implies reads_back(
            (#[trigger] all[j]).metadata,
        ) by {
            assert(messages@[j].deep_view() == all[j].stored());
        }
        ChatSessionV1 {
            id,
            title: input.title,
            source: input.source,
            model: input.model,
            created_at: input.created_at,
            metadata_json,
            messages,
        }
    }
}

impl From<ChatSessionInput> for ChatSessionV1 {
    /// The stored form of an incoming session; one without an id gets a
    /// random UUID.
    fn from(input: ChatSessionInput) -> (r: Self)
        ensures
            r.deep_view() == input.deep_view().stored(r.id@),
            match input.id {
                Some(id) => r.id@ == id@,
                None => is_uuid_text(r.id@),
            },
    {
        let mut input = input;
        let id = match input.id.take() {
            Some(id) => id,
            None => new_uuid(),
        };
        ChatSessionV1::with_id(input, id)
    }
}

impl vstd::std_specs::convert::FromSpecImpl<ChatSessionInput> for ChatSessionV1 {
    open spec fn obeys_from_spec() -> bool {
        false
    }

    open spec fn from_spec(v: ChatSessionInput) -> Self {
        arbitrary()
    }
}

/// Events for streaming ingestion
#[derive(Debug)]
pub enum StreamEvent {
    SessionStart { session_id: String, metadata: Metadata },
    AppendMessage { session_id: String, message: MessageInput },
    Finalize { session_id: String },
}

#[verifier::ext_equal]
pub ghost enum EventView {
    SessionStart { session_id: Seq<char>, metadata: MetadataView },
    AppendMessage { session_id: Seq<char>, message: MessageInputView },
    Finalize { session_id: Seq<char> },
}

impl EventView {
    /// The session that the event belongs to.
    pub open spec fn session_id(self) -> Seq<char> {
        match self {
            EventView::SessionStart { session_id, .. } => session_id,
            EventView::AppendMessage { session_id, .. } => session_id,
            EventView::Finalize { session_id } => session_id,
        }
    }
}

impl DeepView for StreamEvent {
    type V = EventView;

    open spec fn deep_view(&self) -> EventView {
        match self {
            StreamEvent::SessionStart { session_id, metadata } => EventView::SessionStart {
                session_id: session_id@,
                metadata: metadata.deep_view(),
            },
            StreamEvent::AppendMessage { session_id, message } => EventView::AppendMessage {
                session_id: session_id@,
                message: message.deep_view(),
            },
            StreamEvent::Finalize { session_id } => EventView::Finalize {
                session_id: session_id@,
            },
        }
    }
}

impl Clone for StreamEvent {
    fn clone(&self) -> (r: Self)
        ensures
            r.deep_view() == self.deep_view(),
    {
        match self {
            StreamEvent::SessionStart { session_id, metadata } => StreamEvent::SessionStart {
                session_id: session_id.clone(),
                metadata: clone_members(metadata),
            },
            StreamEvent::AppendMessage { session_id, message } => StreamEvent::AppendMessage {
                session_id: session_id.clone(),
                message: message.clone(),
            },
            StreamEvent::Finalize { session_id } => StreamEvent::Finalize {
                session_id: session_id.clone(),
            },
        }
    }
}

impl StreamEvent {
    /// The session that the event belongs to.
    pub fn session_id(&self) -> (r: &String)
        ensures
            r@ == self.deep_view().session_id(),
    {
        match self {
            StreamEvent::SessionStart { session_id, .. } => session_id,
            StreamEvent::AppendMessage { session_id, .. } => session_id,
            StreamEvent::Finalize { session_id } => session_id,
        }
    }
}

} // verus!
