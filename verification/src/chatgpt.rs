//! Conversations of a ChatGPT export.
use vstd::prelude::*;
use vstd::set_lib::{lemma_int_range, lemma_len_subset, set_int_range};
use crate::schema::{ChatSessionV1, MessageRole, MessageV1, MessageView, SessionView};
use crate::text::{chars_of, same_text};

verus! {

/// One part of a message: text, or anything else.
#[derive(Debug)]
pub enum ContentPart {
    Text(String),
    Other,
}

#[verifier::ext_equal]
pub ghost enum PartView {
    Text(Seq<char>),
    Other,
}

impl DeepView for ContentPart {
    type V = PartView;

    open spec fn deep_view(&self) -> PartView {
        match self {
            ContentPart::Text(s) => PartView::Text(s@),
            ContentPart::Other => PartView::Other,
        }
    }
}

/// Content structure for ChatGPT messages.
/// Messages can have multiple parts, which may include text or structured data.
#[derive(Debug)]
pub struct ChatGptContent {
    pub content_type: String,
    pub parts: Option<Vec<ContentPart>>,
}

/// Author information for a ChatGPT message.
#[derive(Debug)]
pub struct ChatGptAuthor {
    pub role: String,
}

/// Represents a message in a ChatGPT export.
#[derive(Debug)]
pub struct ChatGptMessage {
    pub id: String,
    pub author: ChatGptAuthor,
    pub content: ChatGptContent,
    /// Whole seconds
    pub create_time: Option<u64>,
}

/// What the import reads of a message.
#[verifier::ext_equal]
pub ghost struct ExportedView {
    pub id: Seq<char>,
    pub role: Seq<char>,
    pub parts: Option<Seq<PartView>>,
}

impl DeepView for ChatGptMessage {
    type V = ExportedView;

    open spec fn deep_view(&self) -> ExportedView {
        ExportedView {
            id: self.id@,
            role: self.author.role@,
            parts: self.content.parts.deep_view(),
        }
    }
}

/// Represents a node in the ChatGPT conversation tree structure.
/// Each node contains an optional message and links to its parent.
#[derive(Debug)]
pub struct ChatGptNode {
    pub id: String,
    pub message: Option<ChatGptMessage>,
    pub parent: Option<String>,
}

#[verifier::ext_equal]
pub ghost struct NodeView {
    pub message: Option<ExportedView>,
    pub parent: Option<Seq<char>>,
}

impl DeepView for ChatGptNode {
    type V = NodeView;

    open spec fn deep_view(&self) -> NodeView {
        NodeView { message: self.message.deep_view(), parent: self.parent.deep_view() }
    }
}

/// A conversation: a tree of nodes, and the node that it ends at.
#[derive(Debug)]
pub struct ChatGptConversation {
    pub id: String,
    pub title: Option<String>,
    /// Whole seconds
    pub create_time: Option<u64>,
    pub mapping: Vec<(String, ChatGptNode)>,
    pub current_node: Option<String>,
}

#[verifier::ext_equal]
pub ghost struct ConversationView {
    pub id: Seq<char>,
    pub title: Option<Seq<char>>,
    pub create_time: Option<u64>,
    pub mapping: Seq<(Seq<char>, NodeView)>,
    pub current_node: Option<Seq<char>>,
}

impl DeepView for ChatGptConversation {
    type V = ConversationView;

    open spec fn deep_view(&self) -> ConversationView {
        ConversationView {
            id: self.id@,
            title: self.title.deep_view(),
            create_time: self.create_time,
            mapping: self.mapping.deep_view(),
            current_node: self.current_node.deep_view(),
        }
    }
}

/// Why a conversation was not imported.
#[derive(Clone, Copy, Debug, PartialEq, Eq, Structural)]
pub enum ImportError {
    /// Going from parent to parent never ends.
    EndlessConversation,
}

impl ImportError {
    /// The error in words.
    pub fn message(&self) -> (r: String)
        ensures
            r@ == "Conversation has no first message"@,
    {
        "Conversation has no first message".to_owned()
    }
}

/// The text parts, one behind the other.
pub open spec fn parts_text(parts: Seq<PartView>) -> Seq<char>
    decreases parts.len(),
{
    if parts.len() == 0 {
        Seq::empty()
    } else {
        match parts.last() {
            PartView::Text(s) => parts_text(parts.drop_last()) + s,
            PartView::Other => parts_text(parts.drop_last()),
        }
    }
}

pub open spec fn message_text(m: ExportedView) -> Seq<char> {
    match m.parts {
        Some(p) => parts_text(p),
        None => Seq::empty(),
    }
}

/// The role that an author's role stands for.
pub open spec fn role_named(role: Seq<char>) -> MessageRole {
    if role == "user"@ {
        MessageRole::User
    } else if role == "assistant"@ {
        MessageRole::Model
    } else if role == "system"@ {
        MessageRole::System
    } else if role == "tool"@ {
        MessageRole::Tool
    } else {
        MessageRole::User
    }
}

/// The stored message of a node: none where it has no text.
pub open spec fn node_messages(n: NodeView) -> Seq<MessageView> {
    match n.message {
        Some(m) if message_text(m).len() > 0 => seq![
            MessageView {
                role: role_named(m.role),
                content: message_text(m),
                tool_calls: None,
                tool_outputs: None,
                id: Some(m.id),
                parent_id: n.parent,
                metadata_json: Seq::empty(),
            },
        ],
        _ => Seq::empty(),
    }
}

/// The position of the first node of a name, or the number of nodes.
pub open spec fn node_at(mapping: Seq<(Seq<char>, NodeView)>, name: Seq<char>) -> nat
    decreases mapping.len(),
{
    if mapping.len() == 0 || mapping[0].0 == name {
        0
    } else {
        1 + node_at(mapping.skip(1), name)
    }
}

/// The messages from the first ancestor of a node down to the node itself,
/// oldest first; none where more than `steps` nodes lie on the way.
pub open spec fn ancestry(
    mapping: Seq<(Seq<char>, NodeView)>,
    node: Option<Seq<char>>,
    steps: nat,
) -> Option<Seq<MessageView>>
    decreases steps,
{
    match node {
        None => Some(Seq::empty()),
        Some(name) => {
            let at = node_at(mapping, name) as int;
            if at >= mapping.len() {
                Some(Seq::empty())
            } else if steps == 0 {
                None
            } else {
                match ancestry(mapping, mapping[at].1.parent, (steps - 1) as nat) {
                    None => None,
                    Some(earlier) => Some(earlier + node_messages(mapping[at].1)),
                }
            }
        },
    }
}

/// The session that a conversation makes: the messages on the way to its
/// current node. Where that way never ends there is none.
pub open spec fn imported(c: ConversationView) -> Option<SessionView> {
    match ancestry(c.mapping, c.current_node, c.mapping.len()) {
        None => None,
        Some(messages) => Some(
            SessionView {
                id: c.id,
                title: c.title,
                source: Some("chatgpt-export"@),
                model: None,
                created_at: c.create_time,
                metadata_json: Seq::empty(),
                messages,
            },
        ),
    }
}

/// How many nodes lie on the way from a node to its first ancestor.
spec fn way_length(
    mapping: Seq<(Seq<char>, NodeView)>,
    node: Option<Seq<char>>,
    steps: nat,
) -> Option<nat>
    decreases steps,
{
    match node {
        None => Some(0),
        Some(name) => {
            let at = node_at(mapping, name) as int;
            if at >= mapping.len() {
                Some(0)
            } else if steps == 0 {
                None
            } else {
                match way_length(mapping, mapping[at].1.parent, (steps - 1) as nat) {
                    None => None,
                    Some(n) => Some(n + 1),
                }
            }
        },
    }
}

proof fn lemma_more_steps(
    mapping: Seq<(Seq<char>, NodeView)>,
    node: Option<Seq<char>>,
    few: nat,
    many: nat,
)
    requires
        few <= many,
        way_length(mapping, node, few) is Some,
    ensures
        way_length(mapping, node, many) == way_length(mapping, node, few),
        ancestry(mapping, node, many) == ancestry(mapping, node, few),
        ancestry(mapping, node, few) is Some,
    decreases few,
{
    if node is Some {
        let at = node_at(mapping, node->0) as int;
        if at < mapping.len() {
            lemma_more_steps(
                mapping,
                mapping[at].1.parent,
                (few - 1) as nat,
                (many - 1) as nat,
            );
        }
    }
}

proof fn lemma_way_needs_steps(
    mapping: Seq<(Seq<char>, NodeView)>,
    node: Option<Seq<char>>,
    steps: nat,
)
    ensures
        ancestry(mapping, node, steps) is Some <==> way_length(mapping, node, steps) is Some,
        way_length(mapping, node, steps) is Some ==> {
            &&& way_length(mapping, node, steps)->0 <= steps
            &&& way_length(mapping, node, way_length(mapping, node, steps)->0)
                == way_length(mapping, node, steps)
        },
    decreases steps,
{
    if node is Some {
        let at = node_at(mapping, node->0) as int;
        if at < mapping.len() && steps > 0 {
            lemma_way_needs_steps(mapping, mapping[at].1.parent, (steps - 1) as nat);
        }
    }
}

/// The nodes on the way, by their positions: as many as the way is long, and
/// each has no longer way than the first.
proof fn lemma_way_nodes(
    mapping: Seq<(Seq<char>, NodeView)>,
    node: Option<Seq<char>>,
    steps: nat,
) -> (nodes: Set<int>)
    requires
        way_length(mapping, node, steps) is Some,
    ensures
        nodes.finite(),
        nodes.len() == way_length(mapping, node, steps)->0,
        nodes.subset_of(set_int_range(0, mapping.len() as int)),
        forall|k: int| #[trigger]
            nodes.contains(k) ==> exists|s: nat|
                {
                    &&& #[trigger] way_length(mapping, mapping[k].1.parent, s) is Some
                    &&& way_length(mapping, mapping[k].1.parent, s)->0 < way_length(
                        mapping,
                        node,
                        steps,
                    )->0
                },
    decreases steps,
{
    lemma_int_range(0, mapping.len() as int);
    if node is None || node_at(mapping, node->0) >= mapping.len() {
        Set::empty()
    } else {
        let at = node_at(mapping, node->0) as int;
        let parent = mapping[at].1.parent;
        let less = (steps - 1) as nat;
        let rest = lemma_way_nodes(mapping, parent, less);
        let length = way_length(mapping, node, steps)->0;
        if rest.contains(at) {
            let s = choose|s: nat|
                {
                    &&& #[trigger] way_length(mapping, mapping[at].1.parent, s) is Some
                    &&& way_length(mapping, mapping[at].1.parent, s)->0 < way_length(
                        mapping,
                        parent,
                        less,
                    )->0
                };
            if s <= less {
                lemma_more_steps(mapping, parent, s, less);
            } else {
                lemma_more_steps(mapping, parent, less, s);
            }
        }
        let nodes = rest.insert(at);
        assert forall|k: int| #[trigger] nodes.contains(k) implies exists|s: nat|
            {
                &&& #[trigger] way_length(mapping, mapping[k].1.parent, s) is Some
                &&& way_length(mapping, mapping[k].1.parent, s)->0 < length
            } by {
            if k == at {
                assert(way_length(mapping, mapping[k].1.parent, less) is Some);
            } else {
                let s = choose|s: nat|
                    {
                        &&& #[trigger] way_length(mapping, mapping[k].1.parent, s) is Some
                        &&& way_length(mapping, mapping[k].1.parent, s)->0 < way_length(
                            mapping,
                            parent,
                            less,
                        )->0
                    };
                assert(way_length(mapping, mapping[k].1.parent, s) is Some);
            }
        }
        nodes
    }
}

/// A conversation whose way to the first message ends, after however many
/// steps, is imported: a way that ends visits no node twice.
pub proof fn law_ending_conversation_is_imported(c: ConversationView, steps: nat)
    requires
        ancestry(c.mapping, c.current_node, steps) is Some,
    ensures
        imported(c) is Some,
        Some(imported(c)->0.messages) == ancestry(c.mapping, c.current_node, steps),
{
    let m = c.mapping;
    lemma_way_needs_steps(m, c.current_node, steps);
    let nodes = lemma_way_nodes(m, c.current_node, steps);
    let range = set_int_range(0, m.len() as int);
    lemma_int_range(0, m.len() as int);
    lemma_len_subset(nodes, range);
    let n = way_length(m, c.current_node, steps)->0;
    lemma_more_steps(m, c.current_node, n, m.len());
    lemma_more_steps(m, c.current_node, n, steps);
}

fn find_node(mapping: &Vec<(String, ChatGptNode)>, name: &String) -> (r: usize)
    ensures
        r == node_at(mapping.deep_view(), name@),
        r <= mapping@.len(),
{
    let ghost all = mapping.deep_view();
    let mut i: usize = 0;
    assert(all.skip(0) =~= all);
    while i < mapping.len()
        invariant
            i <= mapping@.len(),
            all == mapping.deep_view(),
            node_at(all, name@) == i + node_at(all.skip(i as int), name@),
        decreases mapping@.len() - i,
    {
        assert(all.skip(i as int)[0] == mapping@[i as int].deep_view());
        if mapping[i].0 == *name {
            return i;
        }
        assert(all.skip(i as int).skip(1) =~= all.skip(i + 1));
        i += 1;
    }
    i
}

fn text_of_message(m: &ChatGptMessage) -> (r: String)
    ensures
        r@ == message_text(m.deep_view()),
{
    let mut out = String::new();
    match &m.content.parts {
        None => {},
        Some(parts) => {
            let ghost all = parts.deep_view();
            let mut i: usize = 0;
            assert(all.take(0) =~= Seq::<PartView>::empty());
            while i < parts.len()
                invariant
                    i <= parts@.len(),
                    all == parts.deep_view(),
                    out@ == parts_text(all.take(i as int)),
                decreases parts@.len() - i,
            {
                proof {
                    let t = all.take(i + 1);
                    assert(t.drop_last() =~= all.take(i as int));
                    assert(t.last() == parts@[i as int].deep_view());
                }
                match &parts[i] {
                    ContentPart::Text(s) => out.append(s.as_str()),
                    ContentPart::Other => {},
                }
                i += 1;
            }
            assert(all.take(i as int) =~= all);
        },
    }
    out
}

fn role_of_author(role: &str) -> (r: MessageRole)
    ensures
        r == role_named(role@),
{
    if same_text(role, "user") {
        MessageRole::User
    } else if same_text(role, "assistant") {
        MessageRole::Model
    } else if same_text(role, "system") {
        MessageRole::System
    } else if same_text(role, "tool") {
        MessageRole::Tool
    } else {
        MessageRole::User
    }
}

fn message_of_node(n: &ChatGptNode) -> (r: Option<MessageV1>)
    ensures
        match r {
            Some(m) => node_messages(n.deep_view()) == seq![m.deep_view()],
            None => node_messages(n.deep_view()) == Seq::<MessageView>::empty(),
        },
{
    match &n.message {
        None => None,
        Some(m) => {
            let content = text_of_message(m);
            if chars_of(content.as_str()).len() == 0 {
                return None;
            }
            let message = MessageV1 {
                role: role_of_author(m.author.role.as_str()),
                content,
                tool_calls: None,
                tool_outputs: None,
                id: Some(m.id.clone()),
                parent_id: n.parent.clone(),
                metadata_json: String::new(),
            };
            assert(node_messages(n.deep_view()) =~= seq![message.deep_view()]);
            Some(message)
        },
    }
}

fn reversed(back: Vec<MessageV1>) -> (r: Vec<MessageV1>)
    ensures
        r.deep_view() == back.deep_view().reverse(),
{
    let ghost all = back.deep_view();
    let mut back = back;
    let mut out: Vec<MessageV1> = Vec::new();
    while back.len() > 0
        invariant
            back@.len() + out@.len() == all.len(),
            forall|k: int|
                0 <= k < back@.len() ==> (#[trigger] back@[k]).deep_view() == all[k],
            forall|k: int|
                0 <= k < out@.len() ==> (#[trigger] out@[k]).deep_view() == all[all.len() - 1 - k],
        decreases back@.len(),
    {
        let m = back.pop().unwrap();
        out.push(m);
    }
    assert(out.deep_view() =~= all.reverse());
    out
}

impl ChatSessionV1 {
    /// Converts a ChatGPT export conversation into our internal stored session format.
    ///
    /// - Traverses messages backwards from the `current_node`.
    /// - Extracts text content from message parts.
    /// - Filters out empty messages (structural nodes).
    /// - Reverses the list to get chronological order.
    pub fn try_from(raw: ChatGptConversation) -> (r: Result<Self, ImportError>)
        ensures
            match r {
                Ok(s) => imported(raw.deep_view()) == Some(s.deep_view()),
                Err(e) => imported(raw.deep_view()) is None && e
                    == ImportError::EndlessConversation,
            },
            r is Ok ==> {
                let s = r->Ok_0.deep_view();
                &&& s.id == raw.deep_view().id
                &&& s.title == raw.deep_view().title
                &&& s.created_at == raw.deep_view().create_time
                &&& s.source == Some("chatgpt-export"@)
            },
    {
        let ghost mapping = raw.mapping.deep_view();
        let ghost start = raw.current_node.deep_view();
        let ghost total = mapping.len();
        let mut left: usize = raw.mapping.len();
        let mut curr: Option<String> = raw.current_node.clone();
        let mut back: Vec<MessageV1> = Vec::new();
        proof {
            let e = ancestry(mapping, start, total);
            assert(back.deep_view().reverse() =~= Seq::<MessageView>::empty());
            if e is Some {
                assert(e->0 + back.deep_view().reverse() =~= e->0);
            }
        }
        loop
            invariant
                mapping == raw.mapping.deep_view(),
                total == mapping.len(),
                start == raw.current_node.deep_view(),
                ancestry(mapping, start, total) == match ancestry(
                    mapping,
                    curr.deep_view(),
                    left as nat,
                ) {
                    None => None,
                    Some(earlier) => Some(earlier + back.deep_view().reverse()),
                },
            ensures
                ancestry(mapping, start, total) == Some(back.deep_view().reverse()),
            decreases left,
        {
            let name = match &curr {
                None => {
                    assert(Seq::<MessageView>::empty() + back.deep_view().reverse()
                        =~= back.deep_view().reverse());
                    break ;
                },
                Some(name) => name.clone(),
            };
            let at: usize = find_node(&raw.mapping, &name);
            if at == raw.mapping.len() {
                assert(Seq::<MessageView>::empty() + back.deep_view().reverse()
                    =~= back.deep_view().reverse());
                break ;
            }
            if left == 0 {
                return Err(ImportError::EndlessConversation);
            }
            let node = &raw.mapping[at].1;
            let ghost view = node.deep_view();
            let ghost before = back.deep_view();
            assert(view == mapping[at as int].1);
            match message_of_node(node) {
                Some(m) => {
                    let ghost v = m.deep_view();
                    back.push(m);
                    assert(back.deep_view() =~= before.push(v));
                    assert(back.deep_view().reverse() =~= node_messages(view) + before.reverse());
                },
                None => {
                    assert(node_messages(view) + before.reverse() =~= before.reverse());
                },
            }
            proof {
                match ancestry(mapping, view.parent, (left - 1) as nat) {
                    Some(e) => {
                        assert((e + node_messages(view)) + before.reverse() =~= e
                            + back.deep_view().reverse());
                    },
                    None => {},
                }
            }
            curr = node.parent.clone();
            left = left - 1;
        }
        let messages = reversed(back);
        Ok(
            ChatSessionV1 {
                id: raw.id,
                title: raw.title,
                source: Some("chatgpt-export".to_owned()),
                model: None,
                created_at: raw.create_time,
                metadata_json: String::new(),
                messages,
            },
        )
    }
}

} // verus!
