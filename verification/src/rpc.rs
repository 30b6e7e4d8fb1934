//! Requests to the tool server and the replies to them.
use vstd::prelude::*;
use crate::import::{ingest_content, ingest_outcome, worded, Candidates, IngestError};
use crate::schema::{ChatSessionV1, SessionView};
use crate::storage::{Storage, StorageView};
use crate::storage::directory::{active_segment, data_name};
use crate::storage::lookup::session_by_id;
use crate::storage::scan::scanned;
use crate::storage::search::{searched, Query};
use crate::storage::stats::counted;
use crate::storage::types::{Counts, DbStats, StorageError};
use crate::text::same_text;

verus! {

/// The message could not be read as a request.
pub const PARSE_ERROR: i32 = -32700;

/// There is no such method or tool.
pub const METHOD_NOT_FOUND: i32 = -32601;

/// The parameters are missing or wrong.
pub const INVALID_PARAMS: i32 = -32602;

/// The tool was called and failed.
pub const TOOL_FAILED: i32 = 1;

/// How many recent sessions are given where no number is asked for.
pub const DEFAULT_RECENT: u64 = 10;

/// The methods of the server.
#[derive(Clone, Copy, Debug, PartialEq, Eq, Structural)]
pub enum Method {
    Initialize,
    Initialized,
    ListTools,
    CallTool,
    Ping,
    Unknown,
}

pub open spec fn method_named(name: Seq<char>) -> Method {
    if name == "initialize"@ {
        Method::Initialize
    } else if name == "notifications/initialized"@ {
        Method::Initialized
    } else if name == "tools/list"@ {
        Method::ListTools
    } else if name == "tools/call"@ {
        Method::CallTool
    } else if name == "ping"@ {
        Method::Ping
    } else {
        Method::Unknown
    }
}

/// The method of a name.
pub fn method_of(name: &str) -> (r: Method)
    ensures
        r == method_named(name@),
{
    if same_text(name, "initialize") {
        Method::Initialize
    } else if same_text(name, "notifications/initialized") {
        Method::Initialized
    } else if same_text(name, "tools/list") {
        Method::ListTools
    } else if same_text(name, "tools/call") {
        Method::CallTool
    } else if same_text(name, "ping") {
        Method::Ping
    } else {
        Method::Unknown
    }
}

/// The tools of the server.
#[derive(Clone, Copy, Debug, PartialEq, Eq, Structural)]
pub enum Tool {
    AddLog,
    Search,
    ReadSession,
    GetRecentSessions,
    Stats,
    Unknown,
}

pub open spec fn tool_named(name: Seq<char>) -> Tool {
    if name == "add_log"@ {
        Tool::AddLog
    } else if name == "search"@ {
        Tool::Search
    } else if name == "read_session"@ {
        Tool::ReadSession
    } else if name == "get_recent_sessions"@ {
        Tool::GetRecentSessions
    } else if name == "stats"@ {
        Tool::Stats
    } else {
        Tool::Unknown
    }
}

/// The tool of a name.
pub fn tool_of(name: &str) -> (r: Tool)
    ensures
        r == tool_named(name@),
{
    if same_text(name, "add_log") {
        Tool::AddLog
    } else if same_text(name, "search") {
        Tool::Search
    } else if same_text(name, "read_session") {
        Tool::ReadSession
    } else if same_text(name, "get_recent_sessions") {
        Tool::GetRecentSessions
    } else if same_text(name, "stats") {
        Tool::Stats
    } else {
        Tool::Unknown
    }
}

/// The names of the tools, in the order in which they are listed.
pub open spec fn listed_tools() -> Seq<Seq<char>> {
    seq!["add_log"@, "search"@, "read_session"@, "get_recent_sessions"@, "stats"@]
}

/// The names of the tools, in the order in which they are listed.
pub fn tool_names() -> (r: Vec<String>)
    ensures
        r.deep_view() == listed_tools(),
{
    let mut out: Vec<String> = Vec::new();
    out.push("add_log".to_owned());
    out.push("search".to_owned());
    out.push("read_session".to_owned());
    out.push("get_recent_sessions".to_owned());
    out.push("stats".to_owned());
    assert(out.deep_view() =~= listed_tools());
    out
}

/// Exactly the listed tools can be called.
pub proof fn law_listed_tools_are_known(name: Seq<char>)
    ensures
        tool_named(name) != Tool::Unknown <==> listed_tools().contains(name),
{
    let all = listed_tools();
    assert(all[0] == "add_log"@);
    assert(all[1] == "search"@);
    assert(all[2] == "read_session"@);
    assert(all[3] == "get_recent_sessions"@);
    assert(all[4] == "stats"@);
}

/// The log that is to be added.
pub enum LogData {
    /// There is none among the arguments.
    Missing,
    /// It cannot be read, for this reason.
    Unusable(String),
    /// What it reads as.
    Content(Candidates),
}

/// A call of a tool: the tool's name and the arguments that tools look at.
pub struct ToolRequest {
    pub name: String,
    pub data: LogData,
    pub query: Option<String>,
    pub id: Option<String>,
    pub count: Option<u64>,
}

/// The parameters of a request.
pub enum Params {
    Missing,
    /// They cannot be read, for this reason.
    Invalid(String),
    Call(ToolRequest),
}

/// What a search tells of a session.
pub struct Summary {
    pub id: String,
    pub title: Option<String>,
    pub message_count: usize,
    pub created_at: Option<u64>,
}

#[verifier::ext_equal]
pub ghost struct SummaryView {
    pub id: Seq<char>,
    pub title: Option<Seq<char>>,
    pub message_count: nat,
    pub created_at: Option<u64>,
}

impl DeepView for Summary {
    type V = SummaryView;

    open spec fn deep_view(&self) -> SummaryView {
        SummaryView {
            id: self.id@,
            title: self.title.deep_view(),
            message_count: self.message_count as nat,
            created_at: self.created_at,
        }
    }
}

pub open spec fn summary(s: SessionView) -> SummaryView {
    SummaryView {
        id: s.id,
        title: s.title,
        message_count: s.messages.len(),
        created_at: s.created_at,
    }
}

/// The reply to a request.
pub enum Reply {
    /// Nothing at all.
    Empty,
    /// What the server is.
    ServerInfo,
    /// The tools there are.
    Tools,
    /// An empty result.
    Pong,
    Text(String),
    Summaries(Vec<Summary>),
    Session(ChatSessionV1),
    Sessions(Vec<ChatSessionV1>),
    Stats(DbStats),
    Error { code: i32, message: String },
}

#[verifier::ext_equal]
pub ghost enum ReplyView {
    Empty,
    ServerInfo,
    Tools,
    Pong,
    Text(Seq<char>),
    Summaries(Seq<SummaryView>),
    Session(SessionView),
    Sessions(Seq<SessionView>),
    Stats(Seq<char>, Counts),
    Error { code: i32, message: Seq<char> },
}

impl DeepView for Reply {
    type V = ReplyView;

    open spec fn deep_view(&self) -> ReplyView {
        match self {
            Reply::Empty => ReplyView::Empty,
            Reply::ServerInfo => ReplyView::ServerInfo,
            Reply::Tools => ReplyView::Tools,
            Reply::Pong => ReplyView::Pong,
            Reply::Text(s) => ReplyView::Text(s@),
            Reply::Summaries(v) => ReplyView::Summaries(v.deep_view()),
            Reply::Session(s) => ReplyView::Session(s.deep_view()),
            Reply::Sessions(v) => ReplyView::Sessions(v.deep_view()),
            Reply::Stats(s) => ReplyView::Stats(s.file_name@, s.counts()),
            Reply::Error { code, message } => ReplyView::Error { code: *code, message: message@ },
        }
    }
}

/// The last `count` sessions, newest first.
pub open spec fn recent(sessions: Seq<SessionView>, count: nat) -> Seq<SessionView> {
    let start = if sessions.len() > count {
        sessions.len() - count
    } else {
        0
    };
    sessions.skip(start as int).reverse()
}

pub open spec fn failure(lead: Seq<char>, why: Seq<char>) -> ReplyView {
    ReplyView::Error { code: TOOL_FAILED, message: lead + why }
}

/// The argument, or its default.
pub open spec fn text_or_empty(s: Option<String>) -> Seq<char> {
    match s {
        Some(t) => t@,
        None => Seq::empty(),
    }
}

/// The reply of a search.
pub open spec fn search_reply(v: StorageView, dir: Seq<char>, query: Seq<char>) -> ReplyView {
    match searched(v, Query { text: query, after: None, before: None }) {
        Ok(sessions) => ReplyView::Summaries(
            sessions.map_values(|s: SessionView| summary(s)),
        ),
        Err(e) => failure("Search failed: "@, e.text_in(dir)),
    }
}

/// The reply of reading a session.
pub open spec fn read_reply(v: StorageView, dir: Seq<char>, id: Seq<char>) -> ReplyView {
    match session_by_id(v, id) {
        Ok(Some(s)) => ReplyView::Session(s),
        Ok(None) => ReplyView::Error { code: TOOL_FAILED, message: "Session not found"@ },
        Err(e) => failure("Error reading session: "@, e.text_in(dir)),
    }
}

/// The reply with the recent sessions.
pub open spec fn recent_reply(v: StorageView, dir: Seq<char>, count: nat) -> ReplyView {
    match scanned(v) {
        Ok(sessions) => ReplyView::Sessions(recent(sessions, count)),
        Err(e) => failure("Error getting recent sessions: "@, e.text_in(dir)),
    }
}

/// The reply with the statistics.
pub open spec fn stats_reply(v: StorageView, dir: Seq<char>) -> ReplyView {
    match counted(v) {
        Ok(c) => ReplyView::Stats(data_name(active_segment(v.files)), c),
        Err(e) => failure("Error getting stats: "@, e.text_in(dir)),
    }
}

/// The reply to added content.
pub open spec fn ingest_reply(r: Result<Seq<char>, IngestError>, dir: Seq<char>) -> ReplyView {
    match r {
        Ok(text) => ReplyView::Text(text),
        Err(e) => failure("Ingestion failed: "@, e.text_in(dir)),
    }
}

/// What a tool call replies and does: only added content changes the archive.
pub open spec fn tool_outcome(
    before: StorageView,
    after: StorageView,
    request: ToolRequest,
    dir: Seq<char>,
    reply: ReplyView,
) -> bool {
    match tool_named(request.name@) {
        Tool::AddLog => match request.data {
            LogData::Missing => after == before && reply == (ReplyView::Error {
                code: INVALID_PARAMS,
                message: "Missing required argument: data"@,
            }),
            LogData::Unusable(why) => after == before && reply == failure(
                "Input processing failed: "@,
                why@,
            ),
            LogData::Content(content) => exists|r: Result<Seq<char>, IngestError>|
                {
                    &&& #[trigger] ingest_outcome(
                        before.files,
                        after.files,
                        content.deep_view(),
                        r,
                    )
                    &&& after.pending == before.pending
                    &&& reply == ingest_reply(r, dir)
                },
        },
        Tool::Search => after == before && reply == search_reply(
            before,
            dir,
            text_or_empty(request.query),
        ),
        Tool::ReadSession => after == before && reply == read_reply(
            before,
            dir,
            text_or_empty(request.id),
        ),
        Tool::GetRecentSessions => after == before && reply == recent_reply(
            before,
            dir,
            recent_count(request.count) as nat,
        ),
        Tool::Stats => after == before && reply == stats_reply(before, dir),
        Tool::Unknown => after == before && reply == (ReplyView::Error {
            code: METHOD_NOT_FOUND,
            message: "Unknown tool: "@ + request.name@,
        }),
    }
}

/// The number of recent sessions that is asked for, as far as a list can be
/// long.
pub open spec fn recent_count(count: Option<u64>) -> usize {
    let n = match count {
        Some(n) => n,
        None => DEFAULT_RECENT,
    };
    n as usize
}

/// What a request is answered and does.
pub open spec fn request_outcome(
    before: StorageView,
    after: StorageView,
    method: Seq<char>,
    params: Params,
    dir: Seq<char>,
    reply: ReplyView,
) -> bool {
    match method_named(method) {
        Method::Initialize => after == before && reply == ReplyView::ServerInfo,
        Method::Initialized => after == before && reply == ReplyView::Empty,
        Method::ListTools => after == before && reply == ReplyView::Tools,
        Method::Ping => after == before && reply == ReplyView::Pong,
        Method::CallTool => match params {
            Params::Missing => after == before && reply == (ReplyView::Error {
                code: INVALID_PARAMS,
                message: "Missing params"@,
            }),
            Params::Invalid(why) => after == before && reply == (ReplyView::Error {
                code: INVALID_PARAMS,
                message: "Invalid params: "@ + why@,
            }),
            Params::Call(request) => tool_outcome(before, after, request, dir, reply),
        },
        Method::Unknown => after == before && reply == (ReplyView::Error {
            code: METHOD_NOT_FOUND,
            message: "Method not found: "@ + method,
        }),
    }
}

/// Retrieves the most recent N sessions from storage.
///
/// Scans all sessions and returns the last `count` entries in reverse chronological order
/// (newest first).
pub fn get_recent(storage: &Storage, count: usize) -> (r: Result<
    Vec<ChatSessionV1>,
    StorageError,
>)
    ensures
        match r {
            Ok(v) => scanned(storage@) is Ok && v.deep_view() == recent(
                scanned(storage@)->Ok_0,
                count as nat,
            ),
            Err(e) => scanned(storage@) == Err::<Seq<SessionView>, StorageError>(e),
        },
        r is Ok ==> {
            let all = scanned(storage@)->Ok_0;
            &&& r->Ok_0@.len() == if all.len() < count {
                all.len() as int
            } else {
                count as int
            }
            &&& forall|i: int|
                0 <= i < r->Ok_0@.len() ==> (#[trigger] r->Ok_0@[i]).deep_view() == all[all.len()
                    - 1 - i]
        },
{
    let mut sessions = match storage.scan_all() {
        Ok(s) => s,
        Err(e) => {
            return Err(e);
        },
    };
    let ghost all = sessions.deep_view();
    let mut out: Vec<ChatSessionV1> = Vec::new();
    while sessions.len() > 0 && out.len() < count
        invariant
            sessions@.len() + out@.len() == all.len(),
            out@.len() <= count,
            forall|k: int|
                0 <= k < sessions@.len() ==> (#[trigger] sessions@[k]).deep_view() == all[k],
            forall|k: int|
                0 <= k < out@.len() ==> (#[trigger] out@[k]).deep_view() == all[all.len() - 1 - k],
        decreases sessions@.len(),
    {
        let s = sessions.pop().unwrap();
        out.push(s);
    }
    assert(out.deep_view() =~= recent(all, count as nat));
    Ok(out)
}

fn fail(lead: &str, why: &str) -> (r: Reply)
    ensures
        r.deep_view() == failure(lead@, why@),
{
    let mut message = String::new();
    message.append(lead);
    message.append(why);
    assert(message@ =~= lead@ + why@);
    Reply::Error { code: TOOL_FAILED, message }
}

fn refuse(code: i32, lead: &str, what: &str) -> (r: Reply)
    ensures
        r.deep_view() == (ReplyView::Error { code, message: lead@ + what@ }),
{
    let mut message = String::new();
    message.append(lead);
    message.append(what);
    assert(message@ =~= lead@ + what@);
    Reply::Error { code, message }
}

fn decline(code: i32, message: &str) -> (r: Reply)
    ensures
        r.deep_view() == (ReplyView::Error { code, message: message@ }),
{
    Reply::Error { code, message: message.to_owned() }
}

fn summarise(sessions: Vec<ChatSessionV1>) -> (r: Vec<Summary>)
    ensures
        r.deep_view() == sessions.deep_view().map_values(|s: SessionView| summary(s)),
{
    let ghost all = sessions.deep_view();
    let mut out: Vec<Summary> = Vec::new();
    for s in it: sessions.into_iter()
        invariant
            it.seq().len() == all.len(),
            forall|k: int| 0 <= k < all.len() ==> (#[trigger] it.seq()[k]).deep_view() == all[k],
            out@.len() == it.index(),
            forall|k: int|
                0 <= k < out@.len() ==> (#[trigger] out@[k]).deep_view() == summary(all[k]),
    {
        let ghost k = it.index() as int;
        assert(s.deep_view() == it.seq()[k].deep_view());
        assert(s.deep_view().messages.len() == s.messages@.len());
        out.push(
            Summary {
                id: s.id,
                title: s.title,
                message_count: s.messages.len(),
                created_at: s.created_at,
            },
        );
    }
    assert(out.deep_view() =~= all.map_values(|s: SessionView| summary(s)));
    out
}

fn or_empty(s: &Option<String>) -> (r: String)
    ensures
        r@ == text_or_empty(*s),
{
    match s {
        Some(t) => t.clone(),
        None => String::new(),
    }
}

/// Calls a tool. Errors of the archive name its files in the directory
/// `db_path`.
pub fn handle_tool_call(storage: &mut Storage, request: ToolRequest, db_path: &str) -> (r: Reply)
    ensures
        tool_outcome(old(storage)@, final(storage)@, request, db_path@, r.deep_view()),
{
    match tool_of(request.name.as_str()) {
        Tool::AddLog => match request.data {
            LogData::Missing => decline(INVALID_PARAMS, "Missing required argument: data"),
            LogData::Unusable(why) => fail("Input processing failed: ", why.as_str()),
            LogData::Content(content) => {
                let ghost before = storage@;
                let ghost view = content.deep_view();
                let r = ingest_content(storage, content);
                assert(ingest_outcome(before.files, storage@.files, view, worded(r)));
                match r {
                    Ok(text) => Reply::Text(text),
                    Err(e) => {
                        let why = e.message_in(db_path);
                        fail("Ingestion failed: ", why.as_str())
                    },
                }
            },
        },
        Tool::Search => {
            let query = or_empty(&request.query);
            match storage.search(query.as_str(), None, None) {
                Ok(sessions) => Reply::Summaries(summarise(sessions)),
                Err(e) => {
                    let why = e.message_in(db_path);
                    fail("Search failed: ", why.as_str())
                },
            }
        },
        Tool::ReadSession => {
            let id = or_empty(&request.id);
            match storage.get_session_by_id(id.as_str()) {
                Ok(Some(s)) => Reply::Session(s),
                Ok(None) => decline(TOOL_FAILED, "Session not found"),
                Err(e) => {
                    let why = e.message_in(db_path);
                    fail("Error reading session: ", why.as_str())
                },
            }
        },
        Tool::GetRecentSessions => {
            let count: u64 = match request.count {
                Some(n) => n,
                None => DEFAULT_RECENT,
            };
            match get_recent(storage, count as usize) {
                Ok(sessions) => Reply::Sessions(sessions),
                Err(e) => {
                    let why = e.message_in(db_path);
                    fail("Error getting recent sessions: ", why.as_str())
                },
            }
        },
        Tool::Stats => match storage.get_stats() {
            Ok(stats) => Reply::Stats(stats),
            Err(e) => {
                let why = e.message_in(db_path);
                fail("Error getting stats: ", why.as_str())
            },
        },
        Tool::Unknown => refuse(METHOD_NOT_FOUND, "Unknown tool: ", request.name.as_str()),
    }
}

/// Handles incoming JSON-RPC requests for the MCP server.
///
/// Note: Per MCP spec, requests have IDs and expect responses.
/// Notifications (like "notifications/initialized") may have null IDs and typically don't require responses,
/// but we return empty responses for compatibility.
///
/// Errors of the archive name its files in the directory `db_path`.
pub fn handle_request(storage: &mut Storage, method: &str, params: Params, db_path: &str) -> (r:
    Reply)
    ensures
        request_outcome(
            old(storage)@,
            final(storage)@,
            method@,
            params,
            db_path@,
            r.deep_view(),
        ),
{
    match method_of(method) {
        Method::Initialize => Reply::ServerInfo,
        Method::Initialized => Reply::Empty,
        Method::ListTools => Reply::Tools,
        Method::Ping => Reply::Pong,
        Method::CallTool => match params {
            Params::Missing => decline(INVALID_PARAMS, "Missing params"),
            Params::Invalid(why) => refuse(INVALID_PARAMS, "Invalid params: ", why.as_str()),
            Params::Call(request) => handle_tool_call(storage, request, db_path),
        },
        Method::Unknown => refuse(METHOD_NOT_FOUND, "Method not found: ", method),
    }
}

/// What the message of a tool that failed begins with.
pub open spec fn failure_lead(tool: Tool) -> Seq<char> {
    match tool {
        Tool::AddLog => "Ingestion failed: "@,
        Tool::Search => "Search failed: "@,
        Tool::ReadSession => "Error reading session: "@,
        Tool::GetRecentSessions => "Error getting recent sessions: "@,
        Tool::Stats => "Error getting stats: "@,
        Tool::Unknown => "Error: "@,
    }
}

/// The reply of a tool that could not reach the archive.
pub fn tool_failure(name: &str, why: &str) -> (r: Reply)
    ensures
        r.deep_view() == failure(failure_lead(tool_named(name@)), why@),
{
    match tool_of(name) {
        Tool::AddLog => fail("Ingestion failed: ", why),
        Tool::Search => fail("Search failed: ", why),
        Tool::ReadSession => fail("Error reading session: ", why),
        Tool::GetRecentSessions => fail("Error getting recent sessions: ", why),
        Tool::Stats => fail("Error getting stats: ", why),
        Tool::Unknown => fail("Error: ", why),
    }
}

/// The reply to a line that is no request.
pub fn parse_failure(why: &str) -> (r: Reply)
    ensures
        r.deep_view() == (ReplyView::Error {
            code: PARSE_ERROR,
            message: "Parse error: "@ + why@,
        }),
{
    refuse(PARSE_ERROR, "Parse error: ", why)
}

} // verus!
