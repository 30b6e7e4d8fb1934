//! What requests are answered, and what they leave as it was.
use vstd::prelude::*;
use crate::laws::append::contents;
use crate::laws::results::{holds_query, law_found_sessions_hold_the_text, law_scan_in_order};
use crate::pattern::is_expression;
use crate::rpc::{
    failure, failure_lead, method_named, recent, request_outcome, summary, tool_named, LogData,
    Method, Params, ReplyView, Tool, ToolRequest,
};
use crate::schema::SessionView;
use crate::storage::StorageView;
use crate::storage::directory::{active_segment, data_name};
use crate::storage::lookup::{law_found_session_has_the_id, session_by_id};
use crate::storage::scan::scanned;
use crate::storage::search::{searched, Query};
use crate::storage::stats::counted;

verus! {

/// Each method goes by one name of its own.
pub proof fn law_method_names(name: Seq<char>)
    ensures
        method_named(name) == Method::Initialize <==> name == "initialize"@,
        method_named(name) == Method::Initialized <==> name == "notifications/initialized"@,
        method_named(name) == Method::ListTools <==> name == "tools/list"@,
        method_named(name) == Method::CallTool <==> name == "tools/call"@,
        method_named(name) == Method::Ping <==> name == "ping"@,
{
    reveal_strlit("initialize");
    reveal_strlit("notifications/initialized");
    reveal_strlit("tools/list");
    reveal_strlit("tools/call");
    reveal_strlit("ping");
    assert("initialize"@.len() == 10 && "notifications/initialized"@.len() == 25);
    assert("tools/list"@.len() == 10 && "tools/call"@.len() == 10 && "ping"@.len() == 4);
    assert("initialize"@[0] == 'i' && "tools/list"@[0] == 't');
    assert("tools/call"@[0] == 't');
    assert("tools/list"@[6] == 'l' && "tools/call"@[6] == 'c');
}

/// Each tool goes by one name of its own.
pub proof fn law_tool_names(name: Seq<char>)
    ensures
        tool_named(name) == Tool::AddLog <==> name == "add_log"@,
        tool_named(name) == Tool::Search <==> name == "search"@,
        tool_named(name) == Tool::ReadSession <==> name == "read_session"@,
        tool_named(name) == Tool::GetRecentSessions <==> name == "get_recent_sessions"@,
        tool_named(name) == Tool::Stats <==> name == "stats"@,
{
    reveal_strlit("add_log");
    reveal_strlit("search");
    reveal_strlit("read_session");
    reveal_strlit("get_recent_sessions");
    reveal_strlit("stats");
    assert("add_log"@.len() == 7 && "search"@.len() == 6 && "read_session"@.len() == 12);
    assert("get_recent_sessions"@.len() == 19 && "stats"@.len() == 5);
}

/// What a tool that could not reach the archive replies begins with words
/// that tell the tools apart and ends with the reason.
pub proof fn law_failures_tell_the_reason(tool: Tool, why: Seq<char>)
    ensures
        failure(failure_lead(tool), why) is Error,
        failure(failure_lead(tool), why)->message.subrange(
            failure(failure_lead(tool), why)->message.len() - why.len(),
            failure(failure_lead(tool), why)->message.len() as int,
        ) == why,
        tool == Tool::AddLog ==> failure_lead(tool) == "Ingestion failed: "@,
        tool == Tool::Search ==> failure_lead(tool) == "Search failed: "@,
        tool == Tool::ReadSession ==> failure_lead(tool) == "Error reading session: "@,
        tool == Tool::GetRecentSessions ==> failure_lead(tool)
            == "Error getting recent sessions: "@,
        tool == Tool::Stats ==> failure_lead(tool) == "Error getting stats: "@,
        tool == Tool::Unknown ==> failure_lead(tool) == "Error: "@,
        failure_lead(tool).is_prefix_of(failure(failure_lead(tool), why)->message),
{
    let message = failure(failure_lead(tool), why)->message;
    assert(message.subrange(message.len() - why.len(), message.len() as int) =~= why);
    assert(message.subrange(0, failure_lead(tool).len() as int) =~= failure_lead(tool));
}

/// Every request but one that adds readable content leaves the archive and
/// the waiting sessions as they are.
pub proof fn law_only_adding_changes_the_archive(
    before: StorageView,
    after: StorageView,
    method: Seq<char>,
    params: Params,
    dir: Seq<char>,
    reply: ReplyView,
)
    requires
        request_outcome(before, after, method, params, dir, reply),
    ensures
        after.pending == before.pending,
        after != before ==> method == "tools/call"@ && params is Call && params->Call_0.name@
            == "add_log"@ && params->Call_0.data is Content,
{
    law_method_names(method);
    match params {
        Params::Call(request) => {
            law_tool_names(request.name@);
        },
        _ => {},
    }
}

/// A request that is no call of a tool is answered by its method alone: what
/// the server is, the tools there are, an empty result, nothing, or that
/// there is no such method.
pub proof fn law_methods_are_answered(
    before: StorageView,
    after: StorageView,
    method: Seq<char>,
    params: Params,
    dir: Seq<char>,
    reply: ReplyView,
)
    requires
        request_outcome(before, after, method, params, dir, reply),
        method != "tools/call"@,
    ensures
        reply == ReplyView::ServerInfo <==> method == "initialize"@,
        reply == ReplyView::Empty <==> method == "notifications/initialized"@,
        reply == ReplyView::Tools <==> method == "tools/list"@,
        reply == ReplyView::Pong <==> method == "ping"@,
        reply is Error ==> reply->code == -32601 && reply->message == "Method not found: "@
            + method,
        reply is Error || reply is ServerInfo || reply is Empty || reply is Tools
            || reply is Pong,
{
    law_method_names(method);
}

/// A call without parameters that can be read is refused as such.
pub proof fn law_unreadable_calls_are_refused(
    before: StorageView,
    after: StorageView,
    params: Params,
    dir: Seq<char>,
    reply: ReplyView,
)
    requires
        request_outcome(before, after, "tools/call"@, params, dir, reply),
    ensures
        params is Missing ==> reply is Error && reply->code == -32602 && reply->message
            == "Missing params"@,
        params is Invalid ==> reply is Error && reply->code == -32602 && reply->message
            == "Invalid params: "@ + params->Invalid_0@,
{
    law_method_names("tools/call"@);
}

/// A call of a tool that there is none of is refused by its name.
pub proof fn law_unknown_tools_are_refused(
    before: StorageView,
    after: StorageView,
    request: ToolRequest,
    dir: Seq<char>,
    reply: ReplyView,
)
    requires
        request_outcome(before, after, "tools/call"@, Params::Call(request), dir, reply),
        request.name@ != "add_log"@,
        request.name@ != "search"@,
        request.name@ != "read_session"@,
        request.name@ != "get_recent_sessions"@,
        request.name@ != "stats"@,
    ensures
        reply is Error,
        reply->code == -32601,
        reply->message == "Unknown tool: "@ + request.name@,
{
    law_method_names("tools/call"@);
    law_tool_names(request.name@);
}

/// Content that is missing or cannot be used is refused, by different codes.
pub proof fn law_missing_content_is_refused(
    before: StorageView,
    after: StorageView,
    request: ToolRequest,
    dir: Seq<char>,
    reply: ReplyView,
)
    requires
        request_outcome(before, after, "tools/call"@, Params::Call(request), dir, reply),
        request.name@ == "add_log"@,
    ensures
        request.data is Missing ==> reply is Error && reply->code == -32602 && reply->message
            == "Missing required argument: data"@,
        request.data is Unusable ==> reply is Error && reply->code == 1 && reply->message
            == "Input processing failed: "@ + request.data->Unusable_0@,
        request.data is Content ==> reply is Text || reply is Error && reply->code == 1
            && "Ingestion failed: "@.is_prefix_of(reply->message),
{
    law_method_names("tools/call"@);
    law_tool_names(request.name@);
    match request.data {
        LogData::Content(_) => {
            if reply is Error {
                let lead = "Ingestion failed: "@;
                assert(reply->message.subrange(0, lead.len() as int) =~= lead);
            }
        },
        _ => {},
    }
}

/// The text that was given, or none.
pub open spec fn given(text: Option<String>, s: Seq<char>) -> bool {
    &&& text is Some ==> s == text->0@
    &&& text is None ==> s.len() == 0
}

/// A search is answered with one line for each session that was found, in
/// their order: its id, its title, the number of its messages and the time it
/// was created.
pub proof fn law_search_is_answered(
    before: StorageView,
    after: StorageView,
    request: ToolRequest,
    dir: Seq<char>,
    reply: ReplyView,
    text: Seq<char>,
)
    requires
        request_outcome(before, after, "tools/call"@, Params::Call(request), dir, reply),
        request.name@ == "search"@,
        given(request.query, text),
    ensures
        match searched(before, Query { text, after: None, before: None }) {
            Ok(found) => {
                &&& reply is Summaries
                &&& reply->Summaries_0.len() == found.len()
                &&& forall|i: int|
                    #![trigger found[i]]
                    0 <= i < found.len() ==> {
                        let line = reply->Summaries_0[i];
                        &&& line.id == found[i].id
                        &&& line.title == found[i].title
                        &&& line.message_count == found[i].messages.len()
                        &&& line.created_at == found[i].created_at
                    }
            },
            Err(e) => reply is Error && reply->code == 1 && reply->message == "Search failed: "@
                + e.text_in(dir),
        },
{
    law_method_names("tools/call"@);
    law_tool_names(request.name@);
    if request.query is None {
        assert(text =~= Seq::empty());
    }
    match searched(before, Query { text, after: None, before: None }) {
        Ok(found) => {
            let lines = found.map_values(|s: SessionView| summary(s));
            assert(reply->Summaries_0 == lines);
            assert forall|i: int|
                #![trigger found[i]]
                0 <= i < found.len() implies lines[i] == summary(found[i]) by {}
        },
        Err(_) => {},
    }
}

/// Each line of the answer to a search for text is that of a session with a
/// message that holds the whole text, in any letter case.
pub proof fn law_answered_sessions_hold_the_text(
    before: StorageView,
    after: StorageView,
    request: ToolRequest,
    dir: Seq<char>,
    reply: ReplyView,
    text: Seq<char>,
    i: int,
) -> (r: (SessionView, int))
    requires
        request_outcome(before, after, "tools/call"@, Params::Call(request), dir, reply),
        request.name@ == "search"@,
        given(request.query, text),
        !is_expression(text),
        reply is Summaries,
        0 <= i < reply->Summaries_0.len(),
    ensures
        reply->Summaries_0[i].id == r.0.id,
        reply->Summaries_0[i].message_count == r.0.messages.len(),
        0 <= r.1 < r.0.messages.len(),
        holds_query(r.0.messages[r.1].content, text),
{
    law_search_is_answered(before, after, request, dir, reply, text);
    let q = Query { text, after: None, before: None };
    let k = law_found_sessions_hold_the_text(before, q, i);
    (searched(before, q)->Ok_0[i], k)
}

/// A session that is asked for by its id is answered with that id, or with
/// the words that there is none.
pub proof fn law_reading_is_answered(
    before: StorageView,
    after: StorageView,
    request: ToolRequest,
    dir: Seq<char>,
    reply: ReplyView,
    id: Seq<char>,
)
    requires
        request_outcome(before, after, "tools/call"@, Params::Call(request), dir, reply),
        request.name@ == "read_session"@,
        given(request.id, id),
    ensures
        reply is Session || reply is Error && reply->code == 1,
        reply is Session ==> reply->Session_0.id == id,
        reply is Session ==> session_by_id(before, id) is Ok && session_by_id(before, id)->Ok_0
            == Some(reply->Session_0),
        session_by_id(before, id) is Ok && session_by_id(before, id)->Ok_0 is None
            ==> reply is Error && reply->message == "Session not found"@,
        session_by_id(before, id) is Err ==> reply is Error && reply->message
            == "Error reading session: "@ + session_by_id(before, id)->Err_0.text_in(dir),
{
    law_method_names("tools/call"@);
    law_tool_names(request.name@);
    if request.id is None {
        assert(id =~= Seq::empty());
    }
    law_found_session_has_the_id(before, id);
}

/// The most recent sessions are the last ones, the newest first: as many as
/// were asked for, or all there are.
pub proof fn law_recent_are_the_last(sessions: Seq<SessionView>, count: nat)
    ensures
        recent(sessions, count).len() == if sessions.len() < count {
            sessions.len()
        } else {
            count
        },
        forall|i: int|
            0 <= i < recent(sessions, count).len() ==> #[trigger] recent(sessions, count)[i]
                == sessions[sessions.len() - 1 - i],
{
}

/// Recent sessions are answered from all there are, the newest first, ten of
/// them where no number is given.
pub proof fn law_recent_is_answered(
    before: StorageView,
    after: StorageView,
    request: ToolRequest,
    dir: Seq<char>,
    reply: ReplyView,
)
    requires
        request_outcome(before, after, "tools/call"@, Params::Call(request), dir, reply),
        request.name@ == "get_recent_sessions"@,
        request.count is Some ==> request.count->0 <= usize::MAX,
    ensures
        match scanned(before) {
            Ok(all) => {
                let count: int = if request.count is Some {
                    request.count->0 as int
                } else {
                    10
                };
                &&& reply is Sessions
                &&& reply->Sessions_0.len() == if all.len() < count {
                    all.len() as int
                } else {
                    count
                }
                &&& forall|i: int|
                    0 <= i < reply->Sessions_0.len() ==> #[trigger] reply->Sessions_0[i]
                        == all[all.len() - 1 - i]
            },
            Err(e) => reply is Error && reply->code == 1 && reply->message
                == "Error getting recent sessions: "@ + e.text_in(dir),
        },
{
    law_method_names("tools/call"@);
    law_tool_names(request.name@);
}

/// The newest of all is answered first: a waiting session, if there is one
/// whose id is new, and else an archived one.
pub proof fn law_newest_comes_first(v: StorageView, count: nat) -> (place: int)
    requires
        scanned(v) is Ok,
        scanned(v)->Ok_0.len() > 0,
        count > 0,
    ensures
        0 <= place < (contents(v.files) + v.pending.readable()).len(),
        recent(scanned(v)->Ok_0, count)[0] == (contents(v.files) + v.pending.readable())[place],
        forall|k: int|
            place < k < (contents(v.files) + v.pending.readable()).len() ==> exists|j: int|
                0 <= j < k && #[trigger] (contents(v.files) + v.pending.readable())[j].id == (
                #[trigger] (contents(v.files) + v.pending.readable())[k]).id,
{
    let all = scanned(v)->Ok_0;
    let whole = contents(v.files) + v.pending.readable();
    law_recent_are_the_last(all, count);
    let places = law_scan_in_order(v);
    let place = places.last();
    assert(0 <= places[places.len() - 1] < whole.len());
    assert(all.last() == whole[place]);
    assert forall|k: int| place < k < whole.len() implies exists|j: int|
        0 <= j < k && #[trigger] whole[j].id == (#[trigger] whole[k]).id by {
        let n = choose|n: int| 0 <= n < all.len() && (#[trigger] all[n]).id == whole[k].id;
        assert(0 <= places[n] < whole.len() && all[n] == whole[places[n]]);
        if n < all.len() - 1 {
            assert(places[n] < places[places.len() - 1]);
        }
        assert(whole[places[n]].id == whole[k].id);
    }
    place
}

/// The totals are answered as they are counted, under the name of the active
/// data file.
pub proof fn law_stats_are_answered(
    before: StorageView,
    after: StorageView,
    request: ToolRequest,
    dir: Seq<char>,
    reply: ReplyView,
)
    requires
        request_outcome(before, after, "tools/call"@, Params::Call(request), dir, reply),
        request.name@ == "stats"@,
    ensures
        match counted(before) {
            Ok(c) => {
                &&& reply is Stats
                &&& reply->Stats_0 == data_name(active_segment(before.files))
                &&& reply->Stats_1 == c
            },
            Err(e) => reply is Error && reply->code == 1 && reply->message
                == "Error getting stats: "@ + e.text_in(dir),
        },
{
    law_method_names("tools/call"@);
    law_tool_names(request.name@);
}

} // verus!
