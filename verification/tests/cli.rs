use cryo_vault::chatgpt::ChatGptConversation;
use cryo_vault::cli::{
    can_preview, display_heading, display_range, is_blank, is_yes, parse_date_or_timestamp,
    preview, session_headline, session_listing, show_session, stats_head, stats_range,
    target_bytes, time_of, CliError, Notice,
};
use cryo_vault::import::{plan_import, Candidates, ImportPlan};
use cryo_vault::metadata::MetaValue;
use cryo_vault::schema::{
    ChatSessionInput, ChatSessionV1, MessageInput, MessageRole, StreamEvent,
};
use cryo_vault::storage::directory::Directory;
use cryo_vault::storage::pending::{PendingLog, WalRecord};
use cryo_vault::storage::Storage;

const TEST_TIMESTAMP: u64 = 1_700_000_000; // 2023-11-14

fn open() -> Storage {
    Storage::new(Directory::new(), PendingLog::Absent)
}

fn session_input(id: &str, messages: Vec<MessageInput>) -> ChatSessionInput {
    ChatSessionInput {
        id: Some(id.to_string()),
        title: None,
        source: None,
        model: None,
        created_at: None,
        metadata: Vec::new(),
        messages,
    }
}

/// The member `"metadata": {}`.
fn no_metadata() -> Vec<(String, MetaValue)> {
    vec![("metadata".to_string(), MetaValue::Json("{}".to_string()))]
}

fn user(content: &str) -> MessageInput {
    MessageInput {
        role: MessageRole::User,
        content: content.to_string(),
        tool_calls: None,
        tool_outputs: None,
        id: None,
        parent_id: None,
        metadata: Vec::new(),
    }
}

fn single(input: ChatSessionInput) -> Candidates {
    Candidates { single: Some(input), export: None, many: None }
}

/// Adds a session as the `add` command does.
fn add(storage: &mut Storage, input: ChatSessionInput) {
    match plan_import(single(input)) {
        ImportPlan::Single(session) => {
            let payloads = vec![vec![0u8; 10]; session.messages.len() + 2];
            storage.append_pending(session, payloads).unwrap();
        }
        _ => panic!("one session is one session"),
    }
}

#[test]
fn test_cli_stats_empty() {
    let storage = open();
    let text = stats_head(&storage.get_stats().unwrap());
    assert!(text.contains("Database Statistics"));
    assert!(text.contains("Total Sessions:   0"));
}

#[test]
fn test_cli_add_and_search() {
    let mut storage = open();
    let mut input = session_input("s1", vec![user("Hello CLI")]);
    input.title = Some("CLI Test".to_string());
    input.source = Some("test".to_string());
    input.model = Some("gpt-4".to_string());
    input.created_at = Some(TEST_TIMESTAMP);
    input.metadata = no_metadata();
    add(&mut storage, input);

    // Verify stats
    let text = stats_head(&storage.get_stats().unwrap());
    assert!(text.contains("Total Sessions:   1"));

    // Search
    let found = storage.search("Hello", None, None).unwrap();
    assert_eq!(found.len(), 1);
    assert_eq!(session_headline(&found[0]), "[s1] CLI Test");
}

#[test]
fn test_cli_add_stream() {
    let mut storage = open();
    let events = vec![
        StreamEvent::SessionStart { session_id: "ws1".to_string(), metadata: no_metadata() },
        StreamEvent::AppendMessage {
            session_id: "ws1".to_string(),
            message: {
                let mut m = user("Streamed Msg");
                m.id = Some("m1".to_string());
                m
            },
        },
        StreamEvent::Finalize { session_id: "ws1".to_string() },
    ];
    let records = events
        .into_iter()
        .map(|event| WalRecord { event, payload: vec![0; 5] })
        .collect();
    storage.append_records(records);
    let archived = storage.flush_pending().unwrap();
    assert!(Notice::Archived(archived).text().contains("Archived 1 sessions"));

    // Verify search
    let found = storage.search("Streamed", None, None).unwrap();
    assert_eq!(session_headline(&found[0]), "[ws1] Untitled"); // No title in stream
}

#[test]
fn test_cli_show() {
    let mut storage = open();
    let mut input = session_input("show_me", Vec::new());
    input.title = Some("Show Title".to_string());
    input.metadata = no_metadata();
    add(&mut storage, input);

    let session = storage.get_session_by_id("show_me").unwrap().unwrap();
    assert!(show_session(&session).contains("Title: Show Title"));
}

#[test]
fn test_cli_first_last() {
    let mut storage = open();

    // Add 3 sessions
    for i in 1..=3 {
        add(&mut storage, session_input(&format!("s{}", i), Vec::new()));
    }
    let len = storage.scan_all().unwrap().len();

    // Test First 2
    let (start, end) = display_range(len, 2, true);
    assert_eq!((start, end), (0, 2));
    assert!(display_heading(end - start, len, true).contains("first 2"));

    // Test Last 2
    let (start, end) = display_range(len, 2, false);
    assert_eq!((start, end), (1, 3));
    assert!(display_heading(end - start, len, false).contains("last 2"));
}

#[test]
fn test_cli_reindex() {
    let mut storage = open();
    add(&mut storage, session_input("s1", Vec::new()));
    let count = storage.rebuild().unwrap();
    assert!(Notice::Reindexed(count).text().contains("Reindexed 1 sessions"));
}

#[test]
fn test_cli_add_invalid_json() {
    let nothing = Candidates { single: None, export: None, many: None };
    assert!(matches!(plan_import(nothing), ImportPlan::Unreadable));
    let text = Notice::Unparsed("expected ident".to_string()).text();
    assert!(text.contains("Failed to parse input"));
    assert!(text.ends_with("\nLast error: expected ident"));
}

#[test]
fn test_cli_search_invalid_date() {
    let e = parse_date_or_timestamp("invalid-date").unwrap_err();
    assert!(e.message().contains("Invalid date format"));
}

#[test]
fn test_cli_search_date_range() {
    let mut storage = open();

    // Add session with specific date (1700000000 = 2023-11-14)
    let mut input = session_input("s1", vec![user("test")]);
    input.created_at = Some(TEST_TIMESTAMP);
    add(&mut storage, input);

    // Search After (Match)
    let after = parse_date_or_timestamp("2023-11-01").unwrap();
    let found = storage.search("test", Some(after), None).unwrap();
    assert!(session_headline(&found[0]).contains("[s1]"));

    // Search Before (No Match)
    let before = parse_date_or_timestamp("2023-01-01").unwrap();
    let found = storage.search("test", None, Some(before)).unwrap();
    assert!(found.is_empty());
    assert!(Notice::NoMatches.text().contains("No matches found"));
}

#[test]
fn test_cli_show_not_found() {
    let storage = open();
    assert!(storage.get_session_by_id("unknown_id").unwrap().is_none());
    let text = Notice::NotFound("unknown_id".to_string()).text();
    assert!(text.contains("Session not found"));
    assert_eq!(text, "Session not found: unknown_id");
}

#[test]
fn test_cli_add_chatgpt_export() {
    let mut storage = open();
    let export = vec![ChatGptConversation {
        id: "conv1".to_string(),
        title: Some("GPT Chat".to_string()),
        create_time: Some(1600000000),
        mapping: Vec::new(),
        current_node: None,
    }];
    let input = Candidates { single: None, export: Some(export), many: None };
    match plan_import(input) {
        ImportPlan::Export(count, sessions) => {
            assert_eq!(count, 1);
            let done = storage.append_bulk(sessions).unwrap();
            let text = Notice::ImportedConversations(done, "/db".to_string()).text();
            assert!(text.contains("Imported 1 ChatGPT conversations to"));
        }
        _ => panic!("an export is an export"),
    }

    // Verify it exists
    let session = storage.get_session_by_id("conv1").unwrap().unwrap();
    assert!(show_session(&session).contains("GPT Chat"));
}

#[test]
fn test_cli_add_array() {
    let mut storage = open();
    let many = vec![session_input("a1", Vec::new()), session_input("a2", Vec::new())];
    let input = Candidates { single: None, export: None, many: Some(many) };
    match plan_import(input) {
        ImportPlan::Many(sessions) => {
            let count = storage.append_bulk(sessions).unwrap();
            let text = Notice::ImportedSessions(count, "/db".to_string()).text();
            assert!(text.contains("Imported 2 sessions"));
        }
        _ => panic!("a list is a list"),
    }
    assert!(storage.get_session_by_id("a2").unwrap().is_some());
}

#[test]
fn test_cli_reindex_cancel() {
    assert!(!is_yes("n\n"));
    assert!(Notice::Cancelled.text().contains("Cancelled"));
}

#[test]
fn answers() {
    assert!(is_yes("y\n"));
    assert!(is_yes("  Y \r\n"));
    assert!(!is_yes(""));
    assert!(!is_yes("yes\n"));
    assert!(!is_yes("\n"));
    assert!(!is_yes("y y"));
}

#[test]
fn blank_lines() {
    assert!(is_blank(""));
    assert!(is_blank(" \t\u{3000}\n"));
    assert!(!is_blank(" . "));
}

#[test]
fn dates_and_timestamps() {
    assert_eq!(parse_date_or_timestamp("1700000000"), Ok(1_700_000_000));
    assert_eq!(parse_date_or_timestamp("+5"), Ok(5));
    assert_eq!(parse_date_or_timestamp("1970-01-02"), Ok(86_400));
    assert_eq!(parse_date_or_timestamp("2023-11-14"), Ok(1_699_920_000));
    assert_eq!(parse_date_or_timestamp("1969-12-31"), Ok(u64::MAX - 86_399));
    assert_eq!(parse_date_or_timestamp("2023-02-30"), Err(CliError::InvalidDate));
    assert_eq!(parse_date_or_timestamp("-1"), Err(CliError::InvalidDate));
    assert_eq!(time_of("12", Some(5)), Ok(12));
    assert_eq!(time_of("x", Some(5)), Ok(5));
    assert_eq!(time_of("x", None), Err(CliError::InvalidDate));
}

#[test]
fn block_size_argument() {
    assert_eq!(target_bytes(256), Ok(262_144));
    assert_eq!(target_bytes(0), Err(CliError::ZeroChunk));
    assert_eq!(target_bytes(usize::MAX), Err(CliError::ChunkTooLarge));
    assert_eq!(CliError::ZeroChunk.message(), "chunk_kb must be greater than 0");
    assert_eq!(CliError::ChunkTooLarge.message(), "chunk_kb is too large");
}

#[test]
fn previews() {
    assert_eq!(preview("short"), "short");
    let exact = "x".repeat(60);
    assert_eq!(preview(&exact), exact);
    let long = "y".repeat(61);
    assert_eq!(preview(&long), format!("{}...", "y".repeat(60)));
    let wide = format!("{}é", "z".repeat(59));
    assert!(!can_preview(&wide));
    let fitting = format!("{}éé", "z".repeat(58));
    assert!(can_preview(&fitting));
    assert_eq!(preview(&fitting), format!("{}é...", "z".repeat(58)));
}

fn shown(created_at: Option<u64>) -> ChatSessionV1 {
    let mut input = session_input("id", vec![user("one"), user("two")]);
    input.source = Some("src".to_string());
    input.created_at = created_at;
    input.messages[1].role = MessageRole::Thought;
    ChatSessionV1::from(input)
}

#[test]
fn listings() {
    assert_eq!(
        session_listing(&shown(None)),
        "[id] Untitled\n  Messages: 2\n  Preview: one\n\n"
    );
    let mut empty = shown(None);
    empty.messages.clear();
    assert_eq!(session_listing(&empty), "[id] Untitled\n  Messages: 0\n\n");
    assert_eq!(display_heading(2, 30, true), "Showing first 2 of 30 sessions:\n");
}

#[test]
fn details_of_a_session() {
    assert_eq!(
        show_session(&shown(Some(TEST_TIMESTAMP))),
        "Session: id\nTitle: Untitled\nSource: src\n\
         Created: 1700000000 (2023-11-14 22:13:20 UTC)\n\nMessages (2):\n\n\
         --- Message 1 (User) ---\none\n\n--- Message 2 (Thought) ---\ntwo\n\n"
    );
    assert!(show_session(&shown(Some(u64::MAX / 2))).contains("Created: 9223372036854775807\n"));
    assert!(!show_session(&shown(None)).contains("Created"));
}

#[test]
fn time_range_of_the_statistics() {
    let mut storage = open();
    assert_eq!(stats_range(&storage.get_stats().unwrap()), None);
    storage.append_session(shown(Some(TEST_TIMESTAMP))).unwrap();
    assert_eq!(
        stats_range(&storage.get_stats().unwrap()),
        Some(
            "Time Range:       2023-11-14 22:13:20 UTC to 2023-11-14 22:13:20 UTC\n".to_string()
        )
    );
}

#[test]
fn notices() {
    assert_eq!(Notice::Saved("/p".to_string()).text(), "Session saved to /p");
    assert_eq!(Notice::Flushed(3).text(), "Flushed 3 sessions to database.");
    assert_eq!(
        Notice::Optimised(10, 2, 256).text(),
        "Optimised 10 sessions into 2 blocks (~256 KB target)."
    );
}

#[test]
fn the_first_format_that_fits_counts() {
    let all = Candidates {
        single: Some(session_input("one", Vec::new())),
        export: Some(Vec::new()),
        many: Some(Vec::new()),
    };
    assert!(matches!(plan_import(all), ImportPlan::Single(_)));
    let two = Candidates { single: None, export: Some(Vec::new()), many: Some(Vec::new()) };
    assert!(matches!(plan_import(two), ImportPlan::Export(0, _)));
}
