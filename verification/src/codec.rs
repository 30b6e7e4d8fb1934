//! Bytes of the stored records: bincode for the layout, zstd for the size.
//!
//! bincode writes a struct as its fields in order and an enum as the number
//! of the variant and then its fields, so a record goes to it as a tuple (a
//! row) of plain values, and variant numbers are checked here.
use vstd::prelude::*;
use crate::schema::{
    ChatSessionV1, MessageRole, MessageV1, MessageView, SessionBlockV2, SessionView, StoredSession,
    StoredView, ToolCall, ToolCallView, ToolOutput, ToolOutputView,
};
use crate::storage::types::StorageError;

verus! {

/// zstd level of everything that is written: the highest without extra memory.
pub const COMPRESSION_LEVEL: i32 = 19;

pub type ToolCallRow = (String, String, Option<String>);

pub type ToolOutputRow = (Option<String>, String);

pub type MessageRow = (
    u32,
    String,
    Option<Vec<ToolCallRow>>,
    Option<Vec<ToolOutputRow>>,
    Option<String>,
    Option<String>,
    String,
);

pub type SessionRow = (
    String,
    Option<String>,
    Option<String>,
    Option<String>,
    Option<u64>,
    String,
    Vec<MessageRow>,
);

pub type ToolCallRowView = (Seq<char>, Seq<char>, Option<Seq<char>>);

pub type ToolOutputRowView = (Option<Seq<char>>, Seq<char>);

pub type MessageRowView = (
    u32,
    Seq<char>,
    Option<Seq<ToolCallRowView>>,
    Option<Seq<ToolOutputRowView>>,
    Option<Seq<char>>,
    Option<Seq<char>>,
    Seq<char>,
);

pub type SessionRowView = (
    Seq<char>,
    Option<Seq<char>>,
    Option<Seq<char>>,
    Option<Seq<char>>,
    Option<u64>,
    Seq<char>,
    Seq<MessageRowView>,
);

/// The bytes that `bincode::serialize` gives for a variant number and one session.
pub uninterp spec fn bincode_session(row: (u32, SessionRowView)) -> Seq<u8>;

/// The bytes that `bincode::serialize` gives for a variant number and a list of sessions.
pub uninterp spec fn bincode_sessions(row: (u32, Seq<SessionRowView>)) -> Seq<u8>;

/// What `bincode::deserialize` reads as a variant number.
pub uninterp spec fn unbincode_tag(bytes: Seq<u8>) -> Option<u32>;

/// What `bincode::deserialize` reads as a variant number and one session.
pub uninterp spec fn unbincode_session(bytes: Seq<u8>) -> Option<(u32, SessionRowView)>;

/// What `bincode::deserialize` reads as a variant number and a list of sessions.
pub uninterp spec fn unbincode_sessions(bytes: Seq<u8>) -> Option<(u32, Seq<SessionRowView>)>;

/// `bincode::serialize` on strings, options, integers and lists, which it
/// never refuses: the row alone determines the bytes, and
/// `bincode::deserialize` reads the row, and its leading number, back from them.
#[verifier::external_body]
fn serialize_session(row: &(u32, SessionRow)) -> (r: Vec<u8>)
    ensures
        r@ == bincode_session(row.deep_view()),
        unbincode_tag(r@) == Some(row.0),
        unbincode_session(r@) == Some(row.deep_view()),
{
    bincode::serialize(row).unwrap()
}

/// `bincode::serialize` on a list of rows, with the same claims as for one row.
#[verifier::external_body]
fn serialize_sessions(row: &(u32, Vec<SessionRow>)) -> (r: Vec<u8>)
    ensures
        r@ == bincode_sessions(row.deep_view()),
        unbincode_tag(r@) == Some(row.0),
        unbincode_sessions(r@) == Some(row.deep_view()),
{
    bincode::serialize(row).unwrap()
}

/// `bincode::deserialize` of a leading `u32`: the bytes alone decide.
#[verifier::external_body]
fn deserialize_tag(bytes: &[u8]) -> (r: Option<u32>)
    ensures
        r == unbincode_tag(bytes@),
{
    bincode::deserialize(bytes).ok()
}

/// `bincode::deserialize` of a variant number and one session: the bytes
/// alone decide whether it succeeds and what it gives.
#[verifier::external_body]
fn deserialize_session(bytes: &[u8]) -> (r: Option<(u32, SessionRow)>)
    ensures
        r.deep_view() == unbincode_session(bytes@),
{
    bincode::deserialize(bytes).ok()
}

/// `bincode::deserialize` of a variant number and a list of sessions: the
/// bytes alone decide whether it succeeds and what it gives.
#[verifier::external_body]
fn deserialize_sessions(bytes: &[u8]) -> (r: Option<(u32, Vec<SessionRow>)>)
    ensures
        r.deep_view() == unbincode_sessions(bytes@),
{
    bincode::deserialize(bytes).ok()
}

/// What `zstd::encode_all` gives for the bytes at a level, when it succeeds.
pub uninterp spec fn zstd_encoded(bytes: Seq<u8>, level: i32) -> Option<Seq<u8>>;

/// What `zstd::decode_all` gives for the bytes, when they are whole zstd frames.
pub uninterp spec fn zstd_decoded(bytes: Seq<u8>) -> Option<Seq<u8>>;

/// `zstd::encode_all`: bytes and level determine the outcome, and
/// `zstd::decode_all` restores the bytes from what it gives.
#[verifier::external_body]
pub(crate) fn zstd_encode(bytes: &[u8], level: i32) -> (r: Option<Vec<u8>>)
    ensures
        r.deep_view() == zstd_encoded(bytes@, level),
        r is Some ==> zstd_decoded(r->0@) == Some(bytes@),
{
    zstd::encode_all(bytes, level).ok()
}

/// `zstd::decode_all`: the bytes alone determine the outcome.
#[verifier::external_body]
pub(crate) fn zstd_decode(bytes: &[u8]) -> (r: Option<Vec<u8>>)
    ensures
        r.deep_view() == zstd_decoded(bytes@),
{
    zstd::decode_all(bytes).ok()
}

/// The number of a role in stored bytes.
pub open spec fn role_number(role: MessageRole) -> u32 {
    match role {
        MessageRole::User => 0,
        MessageRole::System => 1,
        MessageRole::Model => 2,
        MessageRole::Thought => 3,
        MessageRole::Tool => 4,
    }
}

/// The role that a number below five stands for.
pub open spec fn numbered_role(n: u32) -> MessageRole {
    if n == 0 {
        MessageRole::User
    } else if n == 1 {
        MessageRole::System
    } else if n == 2 {
        MessageRole::Model
    } else if n == 3 {
        MessageRole::Thought
    } else {
        MessageRole::Tool
    }
}

pub open spec fn call_row(v: ToolCallView) -> ToolCallRowView {
    (v.name, v.arguments, v.id)
}

pub open spec fn row_call(row: ToolCallRowView) -> ToolCallView {
    ToolCallView { name: row.0, arguments: row.1, id: row.2 }
}

pub open spec fn output_row(v: ToolOutputView) -> ToolOutputRowView {
    (v.tool_call_id, v.content)
}

pub open spec fn row_output(row: ToolOutputRowView) -> ToolOutputView {
    ToolOutputView { tool_call_id: row.0, content: row.1 }
}

pub open spec fn message_row(v: MessageView) -> MessageRowView {
    (
        role_number(v.role),
        v.content,
        match v.tool_calls {
            Some(c) => Some(c.map_values(|c: ToolCallView| call_row(c))),
            None => None,
        },
        match v.tool_outputs {
            Some(o) => Some(o.map_values(|o: ToolOutputView| output_row(o))),
            None => None,
        },
        v.id,
        v.parent_id,
        v.metadata_json,
    )
}

pub open spec fn row_message(row: MessageRowView) -> MessageView {
    MessageView {
        role: numbered_role(row.0),
        content: row.1,
        tool_calls: match row.2 {
            Some(c) => Some(c.map_values(|c: ToolCallRowView| row_call(c))),
            None => None,
        },
        tool_outputs: match row.3 {
            Some(o) => Some(o.map_values(|o: ToolOutputRowView| row_output(o))),
            None => None,
        },
        id: row.4,
        parent_id: row.5,
        metadata_json: row.6,
    }
}

pub open spec fn session_row(v: SessionView) -> SessionRowView {
    (
        v.id,
        v.title,
        v.source,
        v.model,
        v.created_at,
        v.metadata_json,
        v.messages.map_values(|m: MessageView| message_row(m)),
    )
}

pub open spec fn row_session(row: SessionRowView) -> SessionView {
    SessionView {
        id: row.0,
        title: row.1,
        source: row.2,
        model: row.3,
        created_at: row.4,
        metadata_json: row.5,
        messages: row.6.map_values(|m: MessageRowView| row_message(m)),
    }
}

/// Every role number of the row stands for a role.
pub open spec fn row_has_roles(row: SessionRowView) -> bool {
    forall|i: int| 0 <= i < row.6.len() ==> (#[trigger] row.6[i]).0 < 5
}

pub open spec fn rows_have_roles(rows: Seq<SessionRowView>) -> bool {
    forall|i: int| 0 <= i < rows.len() ==> row_has_roles(#[trigger] rows[i])
}

pub open spec fn session_rows(sessions: Seq<SessionView>) -> Seq<SessionRowView> {
    sessions.map_values(|s: SessionView| session_row(s))
}

pub open spec fn row_sessions(rows: Seq<SessionRowView>) -> Seq<SessionView> {
    rows.map_values(|r: SessionRowView| row_session(r))
}

proof fn lemma_message_row_inverse(v: MessageView)
    ensures
        row_message(message_row(v)) == v,
{
    match v.tool_calls {
        Some(c) => {
            let rows = c.map_values(|c: ToolCallView| call_row(c));
            assert(rows.map_values(|c: ToolCallRowView| row_call(c)) =~= c);
        },
        None => {},
    }
    match v.tool_outputs {
        Some(o) => {
            let rows = o.map_values(|o: ToolOutputView| output_row(o));
            assert(rows.map_values(|o: ToolOutputRowView| row_output(o)) =~= o);
        },
        None => {},
    }
    assert(row_message(message_row(v)) =~= v);
}

/// A session's row holds the whole session.
pub proof fn lemma_session_row_inverse(v: SessionView)
    ensures
        row_has_roles(session_row(v)),
        row_session(session_row(v)) == v,
{
    let rows = session_row(v).6;
    assert forall|i: int| 0 <= i < rows.len() implies (#[trigger] rows[i]).0 < 5 by {
        assert(rows[i] == message_row(v.messages[i]));
    }
    assert forall|i: int| 0 <= i < rows.len() implies row_message(#[trigger] rows[i])
        == v.messages[i] by {
        lemma_message_row_inverse(v.messages[i]);
    }
    assert(row_session(session_row(v)).messages =~= v.messages);
}

pub proof fn lemma_session_rows_inverse(v: Seq<SessionView>)
    ensures
        rows_have_roles(session_rows(v)),
        row_sessions(session_rows(v)) == v,
{
    let rows = session_rows(v);
    assert forall|i: int| 0 <= i < rows.len() implies row_has_roles(#[trigger] rows[i])
        && row_session(rows[i]) == v[i] by {
        lemma_session_row_inverse(v[i]);
    }
    assert(row_sessions(rows) =~= v);
}

/// The bytes of a stored record.
pub open spec fn stored_bytes(v: StoredView) -> Seq<u8> {
    match v {
        StoredView::V1(s) => bincode_session((0u32, session_row(s))),
        StoredView::Block(s) => bincode_sessions((1u32, session_rows(s))),
        StoredView::V2(s) => bincode_sessions((2u32, session_rows(s))),
    }
}

/// The stored record that bytes hold, if they hold one.
pub open spec fn stored_value(bytes: Seq<u8>) -> Option<StoredView> {
    match unbincode_tag(bytes) {
        Some(0u32) => match unbincode_session(bytes) {
            Some(row) if row_has_roles(row.1) => Some(StoredView::V1(row_session(row.1))),
            _ => None,
        },
        Some(1u32) => match unbincode_sessions(bytes) {
            Some(row) if rows_have_roles(row.1) => Some(StoredView::Block(row_sessions(row.1))),
            _ => None,
        },
        Some(2u32) => match unbincode_sessions(bytes) {
            Some(row) if rows_have_roles(row.1) => Some(StoredView::V2(row_sessions(row.1))),
            _ => None,
        },
        _ => None,
    }
}

fn number_of(role: MessageRole) -> (r: u32)
    ensures
        r == role_number(role),
{
    match role {
        MessageRole::User => 0,
        MessageRole::System => 1,
        MessageRole::Model => 2,
        MessageRole::Thought => 3,
        MessageRole::Tool => 4,
    }
}

fn role_of(n: u32) -> (r: MessageRole)
    ensures
        r == numbered_role(n),
{
    if n == 0 {
        MessageRole::User
    } else if n == 1 {
        MessageRole::System
    } else if n == 2 {
        MessageRole::Model
    } else if n == 3 {
        MessageRole::Thought
    } else {
        MessageRole::Tool
    }
}

fn rows_of_calls(calls: &Vec<ToolCall>) -> (r: Vec<ToolCallRow>)
    ensures
        r.deep_view() == calls.deep_view().map_values(|c: ToolCallView| call_row(c)),
{
    let mut out: Vec<ToolCallRow> = Vec::new();
    let mut i: usize = 0;
    while i < calls.len()
        invariant
            i <= calls@.len(),
            out@.len() == i,
            forall|k: int|
                0 <= k < i ==> (#[trigger] out@[k]).deep_view() == call_row(calls@[k].deep_view()),
        decreases calls@.len() - i,
    {
        let c = &calls[i];
        out.push((c.name.clone(), c.arguments.clone(), c.id.clone()));
        i += 1;
    }
    assert(out.deep_view() =~= calls.deep_view().map_values(|c: ToolCallView| call_row(c)));
    out
}

fn rows_of_outputs(outputs: &Vec<ToolOutput>) -> (r: Vec<ToolOutputRow>)
    ensures
        r.deep_view() == outputs.deep_view().map_values(|o: ToolOutputView| output_row(o)),
{
    let mut out: Vec<ToolOutputRow> = Vec::new();
    let mut i: usize = 0;
    while i < outputs.len()
        invariant
            i <= outputs@.len(),
            out@.len() == i,
            forall|k: int|
                0 <= k < i ==> (#[trigger] out@[k]).deep_view() == output_row(
                    outputs@[k].deep_view(),
                ),
        decreases outputs@.len() - i,
    {
        let o = &outputs[i];
        out.push((o.tool_call_id.clone(), o.content.clone()));
        i += 1;
    }
    assert(out.deep_view() =~= outputs.deep_view().map_values(|o: ToolOutputView| output_row(o)));
    out
}

fn row_of_message(m: &MessageV1) -> (r: MessageRow)
    ensures
        r.deep_view() == message_row(m.deep_view()),
{
    let calls = match &m.tool_calls {
        Some(c) => Some(rows_of_calls(c)),
        None => None,
    };
    let outputs = match &m.tool_outputs {
        Some(o) => Some(rows_of_outputs(o)),
        None => None,
    };
    (
        number_of(m.role),
        m.content.clone(),
        calls,
        outputs,
        m.id.clone(),
        m.parent_id.clone(),
        m.metadata_json.clone(),
    )
}

fn row_of_session(s: &ChatSessionV1) -> (r: SessionRow)
    ensures
        r.deep_view() == session_row(s.deep_view()),
{
    let mut messages: Vec<MessageRow> = Vec::new();
    let mut i: usize = 0;
    while i < s.messages.len()
        invariant
            i <= s.messages@.len(),
            messages@.len() == i,
            forall|k: int|
                0 <= k < i ==> (#[trigger] messages@[k]).deep_view() == message_row(
                    s.messages@[k].deep_view(),
                ),
        decreases s.messages@.len() - i,
    {
        messages.push(row_of_message(&s.messages[i]));
        i += 1;
    }
    assert(messages.deep_view() =~= s.messages.deep_view().map_values(
        |m: MessageView| message_row(m),
    ));
    (
        s.id.clone(),
        s.title.clone(),
        s.source.clone(),
        s.model.clone(),
        s.created_at,
        s.metadata_json.clone(),
        messages,
    )
}

fn rows_of_sessions(sessions: &Vec<ChatSessionV1>) -> (r: Vec<SessionRow>)
    ensures
        r.deep_view() == session_rows(sessions.deep_view()),
{
    let mut out: Vec<SessionRow> = Vec::new();
    let mut i: usize = 0;
    while i < sessions.len()
        invariant
            i <= sessions@.len(),
            out@.len() == i,
            forall|k: int|
                0 <= k < i ==> (#[trigger] out@[k]).deep_view() == session_row(
                    sessions@[k].deep_view(),
                ),
        decreases sessions@.len() - i,
    {
        out.push(row_of_session(&sessions[i]));
        i += 1;
    }
    assert(out.deep_view() =~= session_rows(sessions.deep_view()));
    out
}

fn calls_of_rows(rows: Vec<ToolCallRow>) -> (r: Vec<ToolCall>)
    ensures
        r.deep_view() == rows.deep_view().map_values(|c: ToolCallRowView| row_call(c)),
{
    let ghost all = rows.deep_view();
    let mut out: Vec<ToolCall> = Vec::new();
    for row in it: rows.into_iter()
        invariant
            it.seq().len() == all.len(),
            forall|k: int| 0 <= k < all.len() ==> (#[trigger] it.seq()[k]).deep_view() == all[k],
            out@.len() == it.index(),
            forall|k: int|
                0 <= k < out@.len() ==> (#[trigger] out@[k]).deep_view() == row_call(all[k]),
    {
        let ghost view = row.deep_view();
        assert(view == it.seq()[it.index() as int].deep_view());
        out.push(ToolCall { name: row.0, arguments: row.1, id: row.2 });
    }
    assert(out.deep_view() =~= all.map_values(|c: ToolCallRowView| row_call(c)));
    out
}

fn outputs_of_rows(rows: Vec<ToolOutputRow>) -> (r: Vec<ToolOutput>)
    ensures
        r.deep_view() == rows.deep_view().map_values(|o: ToolOutputRowView| row_output(o)),
{
    let ghost all = rows.deep_view();
    let mut out: Vec<ToolOutput> = Vec::new();
    for row in it: rows.into_iter()
        invariant
            it.seq().len() == all.len(),
            forall|k: int| 0 <= k < all.len() ==> (#[trigger] it.seq()[k]).deep_view() == all[k],
            out@.len() == it.index(),
            forall|k: int|
                0 <= k < out@.len() ==> (#[trigger] out@[k]).deep_view() == row_output(all[k]),
    {
        let ghost view = row.deep_view();
        assert(view == it.seq()[it.index() as int].deep_view());
        out.push(ToolOutput { tool_call_id: row.0, content: row.1 });
    }
    assert(out.deep_view() =~= all.map_values(|o: ToolOutputRowView| row_output(o)));
    out
}

fn message_of_row(row: MessageRow) -> (r: MessageV1)
    ensures
        r.deep_view() == row_message(row.deep_view()),
{
    let (role, content, calls, outputs, id, parent_id, metadata_json) = row;
    let tool_calls = match calls {
        Some(c) => Some(calls_of_rows(c)),
        None => None,
    };
    let tool_outputs = match outputs {
        Some(o) => Some(outputs_of_rows(o)),
        None => None,
    };
    MessageV1 {
        role: role_of(role),
        content,
        tool_calls,
        tool_outputs,
        id,
        parent_id,
        metadata_json,
    }
}

fn session_of_row(row: SessionRow) -> (r: Option<ChatSessionV1>)
    ensures
        match r {
            Some(s) => row_has_roles(row.deep_view()) && s.deep_view() == row_session(
                row.deep_view(),
            ),
            None => !row_has_roles(row.deep_view()),
        },
{
    let mut i: usize = 0;
    while i < row.6.len()
        invariant
            i <= row.6@.len(),
            forall|k: int| 0 <= k < i ==> (#[trigger] row.deep_view().6[k]).0 < 5,
        decreases row.6@.len() - i,
    {
        assert(row.deep_view().6[i as int] == row.6@[i as int].deep_view());
        if row.6[i].0 >= 5 {
            return None;
        }
        i += 1;
    }
    let (id, title, source, model, created_at, metadata_json, rows) = row;
    let ghost all = rows.deep_view();
    let mut messages: Vec<MessageV1> = Vec::new();
    for m in it: rows.into_iter()
        invariant
            it.seq().len() == all.len(),
            forall|k: int| 0 <= k < all.len() ==> (#[trigger] it.seq()[k]).deep_view() == all[k],
            messages@.len() == it.index(),
            forall|k: int|
                0 <= k < messages@.len() ==> (#[trigger] messages@[k]).deep_view() == row_message(
                    all[k],
                ),
    {
        let ghost view = m.deep_view();
        assert(view == it.seq()[it.index() as int].deep_view());
        messages.push(message_of_row(m));
    }
    assert(messages.deep_view() =~= all.map_values(|m: MessageRowView| row_message(m)));
    Some(ChatSessionV1 { id, title, source, model, created_at, metadata_json, messages })
}

fn sessions_of_rows(rows: Vec<SessionRow>) -> (r: Option<Vec<ChatSessionV1>>)
    ensures
        match r {
            Some(v) => rows_have_roles(rows.deep_view()) && v.deep_view() == row_sessions(
                rows.deep_view(),
            ),
            None => !rows_have_roles(rows.deep_view()),
        },
{
    let ghost all = rows.deep_view();
    let mut out: Vec<ChatSessionV1> = Vec::new();
    for row in it: rows.into_iter()
        invariant
            it.seq().len() == all.len(),
            all == rows.deep_view(),
            forall|k: int| 0 <= k < all.len() ==> (#[trigger] it.seq()[k]).deep_view() == all[k],
            out@.len() == it.index(),
            forall|k: int| 0 <= k < out@.len() ==> row_has_roles(#[trigger] all[k]),
            forall|k: int|
                0 <= k < out@.len() ==> (#[trigger] out@[k]).deep_view() == row_session(all[k]),
    {
        let ghost view = row.deep_view();
        assert(view == it.seq()[it.index() as int].deep_view());
        match session_of_row(row) {
            Some(s) => {
                assert(row_has_roles(view) && s.deep_view() == row_session(view));
                assert(view == all[it.index() as int]);
                out.push(s);
            },
            None => {
                assert(!row_has_roles(all[it.index() as int]));
                return None;
            },
        }
    }
    assert(out.deep_view() =~= row_sessions(all));
    Some(out)
}

/// The bytes of a stored record.
pub fn encode_stored(stored: &StoredSession) -> (r: Vec<u8>)
    ensures
        r@ == stored_bytes(stored.deep_view()),
        stored_value(r@) == Some(stored.deep_view()),
{
    match stored {
        StoredSession::V1(s) => {
            proof {
                lemma_session_row_inverse(s.deep_view());
            }
            serialize_session(&(0, row_of_session(s)))
        },
        StoredSession::Block(v) => {
            proof {
                lemma_session_rows_inverse(v.deep_view());
            }
            serialize_sessions(&(1, rows_of_sessions(v)))
        },
        StoredSession::V2(b) => {
            proof {
                lemma_session_rows_inverse(b.sessions.deep_view());
            }
            serialize_sessions(&(2, rows_of_sessions(&b.sessions)))
        },
    }
}

/// The stored record that bytes hold, if they hold one.
pub fn decode_stored(bytes: &[u8]) -> (r: Option<StoredSession>)
    ensures
        r.deep_view() == stored_value(bytes@),
{
    let tag: u32 = match deserialize_tag(bytes) {
        Some(tag) => tag,
        None => return None,
    };
    if tag == 0 {
        match deserialize_session(bytes) {
            Some((_, row)) => match session_of_row(row) {
                Some(s) => Some(StoredSession::V1(s)),
                None => None,
            },
            None => None,
        }
    } else if tag == 1 || tag == 2 {
        match deserialize_sessions(bytes) {
            Some((_, rows)) => match sessions_of_rows(rows) {
                Some(sessions) => if tag == 1 {
                    Some(StoredSession::Block(sessions))
                } else {
                    Some(StoredSession::V2(SessionBlockV2 { sessions }))
                },
                None => None,
            },
            None => None,
        }
    } else {
        None
    }
}

/// The record in a compressed block, or what stops it from being read.
pub open spec fn unpacked(payload: Seq<u8>) -> Result<(StoredView, nat), StorageError> {
    match zstd_decoded(payload) {
        None => Err(StorageError::Decompress),
        Some(raw) => match stored_value(raw) {
            None => Err(StorageError::Decode),
            Some(v) => Ok((v, raw.len())),
        },
    }
}

/// The compressed block that a record makes.
pub open spec fn packed(v: StoredView) -> Option<Seq<u8>> {
    zstd_encoded(stored_bytes(v), COMPRESSION_LEVEL)
}

/// Reads a compressed block: the record and its size before compression.
pub fn unpack(payload: &[u8]) -> (r: Result<(StoredSession, usize), StorageError>)
    ensures
        match r {
            Ok((s, n)) => unpacked(payload@) == Ok::<(StoredView, nat), StorageError>(
                (s.deep_view(), n as nat),
            ),
            Err(e) => unpacked(payload@) == Err::<(StoredView, nat), StorageError>(e),
        },
{
    match zstd_decode(payload) {
        None => Err(StorageError::Decompress),
        Some(raw) => {
            assert(raw.deep_view() =~= raw@);
            match decode_stored(raw.as_slice()) {
                None => Err(StorageError::Decode),
                Some(s) => Ok((s, raw.len())),
            }
        },
    }
}

/// Makes the compressed block of a record, and gives the record's size
/// before compression with it. What was packed can be read back.
pub fn pack(stored: &StoredSession) -> (r: Option<(Vec<u8>, usize)>)
    ensures
        match r {
            Some((block, n)) => {
                &&& packed(stored.deep_view()) == Some(block@)
                &&& n == stored_bytes(stored.deep_view()).len()
                &&& unpacked(block@) == Ok::<(StoredView, nat), StorageError>(
                    (stored.deep_view(), n as nat),
                )
            },
            None => packed(stored.deep_view()) is None,
        },
{
    let raw = encode_stored(stored);
    match zstd_encode(raw.as_slice(), COMPRESSION_LEVEL) {
        Some(block) => {
            assert(block.deep_view() =~= block@);
            Some((block, raw.len()))
        },
        None => None,
    }
}

} // verus!
