use cryo_vault::chatgpt::ContentPart;
use cryo_vault::import::Candidates;
use cryo_vault::rpc::{
    get_recent, handle_request, handle_tool_call, parse_failure, tool_failure, tool_names, tool_of, LogData, Params, Reply,
    Tool, ToolRequest,
};
use cryo_vault::schema::{
    ChatGptAuthor, ChatGptContent, ChatGptConversation, ChatGptMessage, ChatGptNode,
    ChatSessionInput, MessageInput, MessageRole,
};
use cryo_vault::storage::directory::Directory;
use cryo_vault::storage::pending::PendingLog;
use cryo_vault::storage::Storage;

fn open() -> Storage {
    Storage::new(Directory::new(), PendingLog::Absent)
}

fn message(role: MessageRole, content: &str) -> MessageInput {
    MessageInput {
        role,
        content: content.to_string(),
        tool_calls: None,
        tool_outputs: None,
        id: None,
        parent_id: None,
        metadata: Vec::new(),
    }
}

fn log(title: &str, messages: Vec<MessageInput>) -> ChatSessionInput {
    ChatSessionInput {
        id: None,
        title: Some(title.to_string()),
        source: None,
        model: None,
        created_at: None,
        metadata: Vec::new(),
        messages,
    }
}

fn request(name: &str) -> ToolRequest {
    ToolRequest {
        name: name.to_string(),
        data: LogData::Missing,
        query: None,
        id: None,
        count: None,
    }
}

fn call(storage: &mut Storage, request: ToolRequest) -> Reply {
    handle_request(storage, "tools/call", Params::Call(request), "")
}

fn add(storage: &mut Storage, content: Candidates) -> Reply {
    let mut r = request("add_log");
    r.data = LogData::Content(content);
    call(storage, r)
}

fn single(input: ChatSessionInput) -> Candidates {
    Candidates { single: Some(input), export: None, many: None }
}

fn error_of(reply: Reply) -> (i32, String) {
    match reply {
        Reply::Error { code, message } => (code, message),
        _ => panic!("no error"),
    }
}

#[test]
fn test_initialize() {
    let mut storage = open();
    assert!(matches!(
        handle_request(&mut storage, "initialize", Params::Missing, ""),
        Reply::ServerInfo
    ));
}

#[test]
fn test_list_tools() {
    let mut storage = open();
    assert!(matches!(
        handle_request(&mut storage, "tools/list", Params::Missing, ""),
        Reply::Tools
    ));
    let names = tool_names();
    assert!(names.contains(&"add_log".to_string()));
    assert!(names.contains(&"search".to_string()));
    assert!(names.contains(&"read_session".to_string()));
    assert!(names.contains(&"get_recent_sessions".to_string()));
    assert!(names.contains(&"stats".to_string()));
}

#[test]
fn test_add_log_search_and_read() {
    let mut storage = open();

    // 1. Add Log
    let content = log(
        "Test Session",
        vec![message(MessageRole::User, "Hello"), message(MessageRole::Model, "World")],
    );
    match add(&mut storage, single(content)) {
        Reply::Text(text) => assert_eq!(text, "Session saved."),
        _ => panic!("not added"),
    }

    // 2. Search for it
    let mut search = request("search");
    search.query = Some("Hello".to_string());
    let id = match call(&mut storage, search) {
        Reply::Summaries(found) => {
            assert_eq!(found.len(), 1);
            assert_eq!(found[0].title, Some("Test Session".to_string()));
            assert_eq!(found[0].message_count, 2);
            found[0].id.clone()
        }
        _ => panic!("not found"),
    };

    // 3. Read full session
    let mut read = request("read_session");
    read.id = Some(id.clone());
    match call(&mut storage, read) {
        Reply::Session(session) => {
            assert_eq!(session.id, id);
            assert_eq!(session.messages.len(), 2);
        }
        _ => panic!("not read"),
    }
}

#[test]
fn test_get_recent_sessions() {
    let mut storage = open();

    // Add 3 sessions
    for i in 1..=3 {
        let content = log(&format!("Session {}", i), vec![message(MessageRole::User, "hi")]);
        add(&mut storage, single(content));
    }

    // Get recent 2
    let mut recent = request("get_recent_sessions");
    recent.count = Some(2);
    match call(&mut storage, recent) {
        Reply::Sessions(found) => {
            assert_eq!(found.len(), 2);
            // Should be Session 3 and Session 2 (newest first)
            assert_eq!(found[0].title, Some("Session 3".to_string()));
            assert_eq!(found[1].title, Some("Session 2".to_string()));
        }
        _ => panic!("no sessions"),
    }
}

#[test]
fn test_stats() {
    let mut storage = open();

    // Add 1 session
    let content = log("Session 1", vec![message(MessageRole::User, "hi")]);
    add(&mut storage, single(content));

    match call(&mut storage, request("stats")) {
        Reply::Stats(stats) => {
            assert!(stats.session_count >= 1);
            assert!(stats.message_count >= 1);
        }
        _ => panic!("no statistics"),
    }
}

#[test]
fn test_ping() {
    let mut storage = open();
    assert!(matches!(
        handle_request(&mut storage, "ping", Params::Missing, ""),
        Reply::Pong
    ));
}

#[test]
fn test_notification_initialized() {
    let mut storage = open();
    assert!(matches!(
        handle_request(&mut storage, "notifications/initialized", Params::Missing, ""),
        Reply::Empty
    ));
}

#[test]
fn test_unknown_method() {
    let mut storage = open();
    let (code, text) = error_of(handle_request(&mut storage, "not_a_method", Params::Missing, ""));
    assert_eq!(code, -32601);
    assert_eq!(text, "Method not found: not_a_method");
}

#[test]
fn test_invalid_json() {
    let (code, text) = error_of(parse_failure("key must be a string"));
    assert_eq!(code, -32700);
    assert_eq!(text, "Parse error: key must be a string");
}

#[test]
fn test_tool_call_errors() {
    let mut storage = open();

    // Missing params
    let (code, _) = error_of(handle_request(&mut storage, "tools/call", Params::Missing, ""));
    assert_eq!(code, -32602);

    // Invalid params structure
    let invalid = Params::Invalid("not_an_object".to_string());
    let (code, text) = error_of(handle_request(&mut storage, "tools/call", invalid, ""));
    assert_eq!(code, -32602);
    assert_eq!(text, "Invalid params: not_an_object");

    // Unknown tool
    let (code, text) = error_of(call(&mut storage, request("unknown_tool")));
    assert_eq!(code, -32601);
    assert_eq!(text, "Unknown tool: unknown_tool");
}

#[test]
fn test_add_log_arrays() {
    let mut storage = open();

    // 1. Array of ChatSessionInput
    let sessions = vec![
        log("Array Session 1", vec![message(MessageRole::User, "msg1")]),
        log("Array Session 2", vec![message(MessageRole::User, "msg2")]),
    ];
    let content = Candidates { single: None, export: None, many: Some(sessions) };
    match add(&mut storage, content) {
        Reply::Text(text) => assert!(text.contains("Imported 2 sessions")),
        _ => panic!("not imported"),
    }

    // 2. Chat GPT Export (Array of ChatGptConversation)
    let export = vec![ChatGptConversation {
        id: "gpt-conv-1".to_string(),
        title: Some("GPT Session".to_string()),
        create_time: Some(1234567890),
        current_node: Some("uuid-1".to_string()),
        mapping: vec![(
            "uuid-1".to_string(),
            ChatGptNode {
                id: "uuid-1".to_string(),
                parent: None,
                message: Some(ChatGptMessage {
                    id: "msg-1".to_string(),
                    author: ChatGptAuthor { role: "user".to_string() },
                    content: ChatGptContent {
                        content_type: "text".to_string(),
                        parts: Some(vec![ContentPart::Text("gpt msg".to_string())]),
                    },
                    create_time: Some(1234567890),
                }),
            },
        )],
    }];
    let content = Candidates { single: None, export: Some(export), many: None };
    match add(&mut storage, content) {
        Reply::Text(text) => assert!(text.contains("Imported 1/1 conversations")),
        _ => panic!("not imported"),
    }
    assert_eq!(storage.scan_all().unwrap().len(), 3);
}

#[test]
fn test_add_log_errors() {
    let mut storage = open();

    // Missing 'data'
    let (code, text) = error_of(call(&mut storage, request("add_log")));
    assert_eq!(code, -32602);
    assert!(text.contains("Missing required argument"));

    // Invalid file path
    let mut unusable = request("add_log");
    unusable.data = LogData::Unusable("No such file or directory".to_string());
    let (code, text) = error_of(call(&mut storage, unusable));
    assert_eq!(code, 1);
    assert!(text.contains("Input processing failed"));
}

#[test]
fn content_in_no_format_is_refused() {
    let mut storage = open();
    let nothing = Candidates { single: None, export: None, many: None };
    let (code, text) = error_of(add(&mut storage, nothing));
    assert_eq!(code, 1);
    assert_eq!(
        text,
        "Ingestion failed: Failed to parse input as Session, ChatGPT Export, or Session Array."
    );
    assert_eq!(storage.dir.len(), 0);
}

#[test]
fn an_empty_export_counts_as_an_empty_list() {
    let mut storage = open();
    let content = Candidates { single: None, export: Some(Vec::new()), many: Some(Vec::new()) };
    match add(&mut storage, content) {
        Reply::Text(text) => assert_eq!(text, "Imported 0 sessions."),
        _ => panic!("not imported"),
    }
}

#[test]
fn failures_of_the_archive_are_reported() {
    let mut storage = open();
    storage.dir.write("data_001.cryo".to_string(), b"BADMAGIC".to_vec());
    let (code, text) = error_of(call(&mut storage, request("get_recent_sessions")));
    assert_eq!(code, 1);
    assert_eq!(
        text,
        "Error getting recent sessions: Invalid file format: Wrong Magic Bytes in data_001.cryo"
    );
    let (_, text) = error_of(call(&mut storage, request("search")));
    assert_eq!(
        text,
        "Search failed: Index file not found for segment data_001.cryo. Please run: cryo reindex"
    );
    let (_, text) = error_of(call(&mut storage, request("stats")));
    assert_eq!(text, "Error getting stats: Invalid file format in data_001.cryo");
    let (_, text) = error_of(call(&mut storage, request("read_session")));
    assert!(text.starts_with("Error reading session: Index file not found"));
    // the file is named in its directory
    let reply = handle_tool_call(&mut storage, request("stats"), "/db");
    assert_eq!(
        error_of(reply).1,
        "Error getting stats: Invalid file format in /db/data_001.cryo"
    );
}

#[test]
fn failures_to_reach_the_archive_are_reported() {
    for (name, wanted) in [
        ("add_log", "Ingestion failed: why"),
        ("search", "Search failed: why"),
        ("read_session", "Error reading session: why"),
        ("get_recent_sessions", "Error getting recent sessions: why"),
        ("stats", "Error getting stats: why"),
    ] {
        let (code, text) = error_of(tool_failure(name, "why"));
        assert_eq!(code, 1);
        assert_eq!(text, wanted);
    }
}

#[test]
fn a_session_that_is_not_there() {
    let mut storage = open();
    let (code, text) = error_of(call(&mut storage, request("read_session")));
    assert_eq!(code, 1);
    assert_eq!(text, "Session not found");
}

#[test]
fn ten_recent_sessions_by_default() {
    let mut storage = open();
    for i in 0..12 {
        add(&mut storage, single(log(&format!("{}", i), Vec::new())));
    }
    match call(&mut storage, request("get_recent_sessions")) {
        Reply::Sessions(found) => assert_eq!(found.len(), 10),
        _ => panic!("no sessions"),
    }
    assert_eq!(get_recent(&storage, 100).unwrap().len(), 12);
    assert_eq!(get_recent(&storage, 0).unwrap().len(), 0);
}

#[test]
fn listed_tools_can_be_called() {
    for name in tool_names() {
        assert_ne!(tool_of(&name), Tool::Unknown);
    }
    assert_eq!(tool_of("Search"), Tool::Unknown);
}
