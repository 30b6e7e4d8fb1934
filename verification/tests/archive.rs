//! The archive as a whole: what was written is read back, whatever was done
//! to the files in between.
use cryo_vault::metadata::MetaValue;
use cryo_vault::schema::{
    ChatSessionV1, MessageInput, MessageRole, MessageV1, SessionBlockV2, StoredSession,
    StreamEvent, ToolCall, ToolOutput,
};
use cryo_vault::storage::directory::Directory;
use cryo_vault::storage::pending::{events_of_session, PendingLog, WalRecord};
use cryo_vault::storage::progress::Progress;
use cryo_vault::storage::{DbStats, SessionWriter, Storage, StorageError};

fn open() -> Storage {
    Storage::new(Directory::new(), PendingLog::Absent)
}

fn message(content: &str) -> MessageV1 {
    MessageV1 {
        id: None,
        role: MessageRole::User,
        content: content.to_string(),
        tool_calls: None,
        tool_outputs: None,
        parent_id: None,
        metadata_json: String::new(),
    }
}

fn session(id: &str, created_at: Option<u64>, contents: &[&str]) -> ChatSessionV1 {
    ChatSessionV1 {
        id: id.to_string(),
        title: None,
        source: None,
        model: None,
        created_at,
        metadata_json: String::new(),
        messages: contents.iter().map(|c| message(c)).collect(),
    }
}

fn copy(dir: &Directory) -> Directory {
    let mut out = Directory::new();
    for i in 0..dir.len() {
        let file = dir.file(i);
        out.write(file.name.clone(), file.data.clone());
    }
    out
}

fn ids(sessions: &[ChatSessionV1]) -> Vec<String> {
    sessions.iter().map(|s| s.id.clone()).collect()
}

fn start(id: &str) -> StreamEvent {
    StreamEvent::SessionStart { session_id: id.to_string(), metadata: Vec::new() }
}

fn say(id: &str, content: &str) -> StreamEvent {
    StreamEvent::AppendMessage {
        session_id: id.to_string(),
        message: MessageInput {
            role: MessageRole::User,
            content: content.to_string(),
            tool_calls: None,
            tool_outputs: None,
            id: None,
            parent_id: None,
            metadata: Vec::new(),
        },
    }
}

fn end(id: &str) -> StreamEvent {
    StreamEvent::Finalize { session_id: id.to_string() }
}

fn records(events: Vec<StreamEvent>) -> Vec<WalRecord> {
    events
        .into_iter()
        .map(|event| WalRecord { event, payload: vec![9; 4] })
        .collect()
}

#[test]
fn every_field_survives() {
    let mut storage = open();
    let mut s = session("full", Some(42), &["text"]);
    s.title = Some("title".to_string());
    s.source = Some("source".to_string());
    s.model = Some("model".to_string());
    s.metadata_json = "{\"a\":1}".to_string();
    s.messages[0].tool_calls = Some(vec![ToolCall {
        name: "f".to_string(),
        arguments: "{}".to_string(),
        id: Some("c1".to_string()),
    }]);
    s.messages[0].tool_outputs = Some(vec![ToolOutput {
        tool_call_id: None,
        content: "out".to_string(),
    }]);
    s.messages[0].parent_id = Some("p".to_string());
    storage.append_session(s.clone()).unwrap();
    let back = storage.get_session_by_id("full").unwrap().unwrap();
    assert_eq!(format!("{:?}", back), format!("{:?}", s));
}

#[test]
fn stored_bytes_are_bincode_in_zstd() {
    let mut storage = open();
    storage.append_session(session("s", Some(7), &["x"])).unwrap();
    let data = storage.dir.read("data_001.cryo").unwrap();
    assert_eq!(&data[..8], b"CRYODAT1");
    let size = u32::from_le_bytes([data[8], data[9], data[10], data[11]]) as usize;
    assert_eq!(data.len(), 12 + size);
    let raw = zstd::decode_all(&data[12..]).unwrap();
    // variant, id, title, source, model, created_at, metadata, one message
    let mut wanted: Vec<u8> = vec![0, 0, 0, 0];
    wanted.extend_from_slice(&1u64.to_le_bytes());
    wanted.push(b's');
    wanted.extend_from_slice(&[0, 0, 0, 1]);
    wanted.extend_from_slice(&7u64.to_le_bytes());
    wanted.extend_from_slice(&0u64.to_le_bytes());
    wanted.extend_from_slice(&1u64.to_le_bytes());
    wanted.extend_from_slice(&[0, 0, 0, 0]);
    wanted.extend_from_slice(&1u64.to_le_bytes());
    wanted.push(b'x');
    wanted.extend_from_slice(&[0, 0, 0, 0]);
    wanted.extend_from_slice(&0u64.to_le_bytes());
    assert_eq!(raw, wanted);
}

#[test]
fn append_only_adds_bytes_at_the_end() {
    let mut storage = open();
    storage.append_session(session("a", None, &["one"])).unwrap();
    let before = copy(&storage.dir);
    storage.append_session(session("b", None, &["two"])).unwrap();
    for i in 0..before.len() {
        let old = before.file(i);
        let new = storage.dir.read(&old.name).unwrap();
        assert!(new.len() > old.data.len());
        assert_eq!(&new[..old.data.len()], &old.data[..]);
    }
    assert_eq!(ids(&storage.scan_all().unwrap()), vec!["a", "b"]);
}

#[test]
fn the_oldest_session_of_an_id_counts() {
    let mut storage = open();
    storage.append_session(session("same", None, &["first"])).unwrap();
    storage.append_session(session("same", None, &["second"])).unwrap();
    assert_eq!(storage.scan_all().unwrap().len(), 1);
    let found = storage.get_session_by_id("same").unwrap().unwrap();
    assert_eq!(found.messages[0].content, "first");
    assert_eq!(storage.search("second", None, None).unwrap().len(), 1);
}

#[test]
fn a_bulk_import_makes_blocks_of_a_hundred() {
    let mut storage = open();
    let sessions: Vec<ChatSessionV1> = (0..250)
        .map(|i| session(&format!("id{}", i), Some(1000 + i), &["bulk words"]))
        .collect();
    assert_eq!(storage.append_bulk(sessions).unwrap(), 250);
    assert_eq!(storage.count_archive_blocks().unwrap(), 3);
    let all = storage.scan_all().unwrap();
    assert_eq!(all.len(), 250);
    assert_eq!(all[249].id, "id249");
    let stats = storage.get_stats().unwrap();
    assert_eq!(stats.session_count, 250);
    assert_eq!(stats.message_count, 250);
    assert_eq!((stats.min_time, stats.max_time), (1000, 1249));
    assert!(storage.get_session_by_id("id137").unwrap().is_some());
    assert_eq!(storage.search("bulk", Some(1240), None).unwrap().len(), 10);
    assert_eq!(storage.append_bulk(Vec::new()).unwrap(), 0);
}

#[test]
fn segments_rotate_and_stay_readable() {
    let mut dir = Directory::new();
    let mut writer = SessionWriter::new(&dir, 1, 50);
    for i in 0..4 {
        let s = session(&format!("r{}", i), Some(i), &["rotating words"]);
        writer.append(&mut dir, StoredSession::V1(s)).unwrap();
    }
    // the first file was never opened, so it has no magic bytes
    let first = dir.read("data_001.cryo").unwrap().clone();
    let mut whole = b"CRYODAT1".to_vec();
    whole.extend_from_slice(&first);
    dir.write("data_001.cryo".to_string(), whole);
    assert!(dir.list_segments().len() > 1);
    let mut storage = Storage::new(dir, PendingLog::Absent);
    assert_eq!(storage.scan_all().unwrap().len(), 4);
    assert_eq!(storage.reindex().unwrap(), 4);
    for i in 0..4 {
        assert!(storage.get_session_by_id(&format!("r{}", i)).unwrap().is_some());
    }
    assert_eq!(storage.search("rotating", None, None).unwrap().len(), 4);
}

#[test]
fn a_second_kind_of_block() {
    let mut dir = Directory::new();
    let mut storage = open();
    storage.append_session(session("v1", None, &["alpha"])).unwrap();
    core::mem::swap(&mut storage.dir, &mut dir);
    let mut writer = SessionWriter::new(&dir, 1, 1 << 30);
    let block = SessionBlockV2 {
        sessions: vec![session("v2a", Some(5), &["beta"]), session("v2b", None, &["gamma"])],
    };
    writer.append(&mut dir, StoredSession::V2(block)).unwrap();
    let storage = Storage::new(dir, PendingLog::Absent);
    assert_eq!(ids(&storage.scan_all().unwrap()), vec!["v1", "v2a", "v2b"]);
    // a session without a time keeps the block in every range
    assert_eq!(ids(&storage.search("gamma", Some(1000), None).unwrap()), vec!["v2b"]);
    assert!(storage.search("beta", Some(1000), None).unwrap().is_empty());
    assert_eq!(storage.get_stats().unwrap().session_count, 3);
}

#[test]
fn reindexing_restores_what_the_index_was() {
    let mut storage = open();
    let sessions = vec![session("a", Some(1), &["apple"]), session("b", Some(2), &["pear"])];
    storage.append_bulk(sessions).unwrap();
    storage.append_session(session("c", Some(3), &["plum"])).unwrap();
    let data = storage.dir.read("data_001.cryo").unwrap().clone();
    let index = storage.dir.read("index_001.cryo").unwrap().clone();
    storage.dir.write("index_001.cryo".to_string(), vec![1, 2, 3, 4, 5]);
    assert_eq!(
        storage.get_session_by_id("a").unwrap_err(),
        StorageError::UnexpectedEof
    );
    let mut blocks = 0;
    assert_eq!(storage.reindex_with_progress(|| blocks += 1).unwrap(), 3);
    assert_eq!(blocks, 2);
    assert_eq!(storage.dir.read("data_001.cryo").unwrap(), &data);
    assert_eq!(storage.dir.read("index_001.cryo").unwrap(), &index);
}

#[test]
fn searching_without_the_last_index_entries() {
    let mut storage = open();
    storage.append_session(session("a", Some(1), &["common one"])).unwrap();
    let index = storage.dir.read("index_001.cryo").unwrap().clone();
    storage.append_session(session("b", Some(2), &["common two"])).unwrap();
    storage.dir.write("index_001.cryo".to_string(), index);
    assert_eq!(ids(&storage.search("common", None, None).unwrap()), vec!["a", "b"]);
    assert_eq!(ids(&storage.search("two", None, None).unwrap()), vec!["b"]);
    // what has no entry cannot be looked up, but is scanned
    assert!(storage.get_session_by_id("b").unwrap().is_none());
    assert_eq!(storage.scan_all().unwrap().len(), 2);
}

#[test]
fn optimising_keeps_sessions_and_order() {
    let mut storage = open();
    for i in 0..30 {
        let text = format!("entry number {} with its own words {}", i, i * 7919);
        storage.append_session(session(&format!("o{}", i), Some(i), &[&text])).unwrap();
    }
    let before = ids(&storage.scan_all().unwrap());
    let mut seen = 0;
    let (blocks, sessions) = storage
        .optimise_with_progress(300, |n| seen += n)
        .unwrap();
    assert_eq!(sessions, 30);
    assert_eq!(seen, 30);
    assert!(blocks > 1 && blocks < 30);
    assert_eq!(storage.count_archive_blocks().unwrap(), blocks as u64);
    assert_eq!(ids(&storage.scan_all().unwrap()), before);
    for id in &before {
        assert_eq!(&storage.get_session_by_id(id).unwrap().unwrap().id, id);
    }
    assert_eq!(storage.search("number", None, None).unwrap().len(), 30);
    let (blocks, sessions) = storage.optimise(1 << 20).unwrap();
    assert_eq!((blocks, sessions), (1, 30));
    assert_eq!(open().optimise(1000).unwrap(), (0, 0));
}

#[test]
fn flushing_twice_is_flushing_once() {
    let mut storage = open();
    storage.append_records(records(vec![
        start("done"),
        say("done", "kept"),
        start("open"),
        say("open", "waiting"),
        end("done"),
        say("done", "late"),
    ]));
    assert_eq!(storage.get_pending_sessions().unwrap().len(), 1);
    assert_eq!(storage.flush_pending().unwrap(), 1);
    let files = copy(&storage.dir);
    assert_eq!(storage.flush_pending().unwrap(), 0);
    for i in 0..files.len() {
        let file = files.file(i);
        assert_eq!(storage.dir.read(&file.name).unwrap(), &file.data);
    }
    match &storage.pending {
        PendingLog::Records(kept) => {
            assert_eq!(kept.len(), 2);
            assert!(kept.iter().all(|r| r.event.session_id() == "open"));
        }
        _ => panic!("the log is gone"),
    }
    let found = storage.get_session_by_id("done").unwrap().unwrap();
    assert_eq!(found.messages.len(), 2);
    storage.append_records(records(vec![end("open")]));
    assert_eq!(storage.flush_pending().unwrap(), 1);
    assert_eq!(ids(&storage.scan_all().unwrap()), vec!["done", "open"]);
}

#[test]
fn several_finalised_sessions_share_a_block() {
    let mut storage = open();
    storage.append_records(records(vec![
        start("x"),
        start("y"),
        end("y"),
        end("x"),
        end("x"),
    ]));
    assert_eq!(storage.flush_pending().unwrap(), 2);
    assert_eq!(storage.count_archive_blocks().unwrap(), 1);
    assert_eq!(ids(&storage.scan_all().unwrap()), vec!["y", "x"]);
}

#[test]
fn the_pending_log_gives_a_session_back() {
    let mut storage = open();
    let mut s = session("p", Some(77), &["hello pending", "second"]);
    s.title = Some("T".to_string());
    s.source = Some("S".to_string());
    s.model = Some("M".to_string());
    s.metadata_json = "{\"z\":1,\"title\":\"old\",\"a\":\"b\"}".to_string();
    let events = events_of_session(s.clone());
    assert_eq!(events.len(), 4);
    match &events[0] {
        StreamEvent::SessionStart { session_id, metadata } => {
            assert_eq!(session_id, "p");
            let names: Vec<&str> = metadata.iter().map(|m| m.0.as_str()).collect();
            assert_eq!(names, vec!["a", "z", "title", "source", "model", "created_at"]);
            assert!(matches!(&metadata[5].1, MetaValue::Number(n) if n == "77"));
        }
        _ => panic!("no start"),
    }
    storage.append_pending(s, vec![vec![0; 3]; 4]).unwrap();
    let back = storage.get_session_by_id("p").unwrap().unwrap();
    assert_eq!(back.title, Some("T".to_string()));
    assert_eq!(back.source, Some("S".to_string()));
    assert_eq!(back.model, Some("M".to_string()));
    assert_eq!(back.created_at, Some(77));
    assert_eq!(back.metadata_json, "{\"a\":\"b\",\"z\":1}");
    assert_eq!(back.messages[1].content, "second");
    assert_eq!(storage.search("PENDING", Some(70), Some(80)).unwrap().len(), 1);
    assert!(storage.search("pending", Some(78), None).unwrap().is_empty());
    assert_eq!(storage.get_stats().unwrap().total_size_bytes, 28);

    // archiving changes nothing of it
    assert_eq!(storage.flush_pending().unwrap(), 1);
    let kept = storage.get_session_by_id("p").unwrap().unwrap();
    assert_eq!(format!("{:?}", kept), format!("{:?}", back));
    assert_eq!(storage.search("pending", Some(70), Some(80)).unwrap().len(), 1);
    assert!(storage.search("pending", Some(78), None).unwrap().is_empty());
}

#[test]
fn a_large_pending_log_is_flushed_by_itself() {
    let mut storage = open();
    let s = session("big", None, &["words"]);
    storage.append_pending(s, vec![vec![0; 100_000]; 3]).unwrap();
    match &storage.pending {
        PendingLog::Records(kept) => assert!(kept.is_empty()),
        _ => panic!("the log is gone"),
    }
    assert_eq!(storage.count_archive_blocks().unwrap(), 1);
}

#[test]
fn an_unreadable_log_hides_nothing_else() {
    let mut storage = open();
    storage.append_session(session("a", None, &["text"])).unwrap();
    storage.pending = PendingLog::Unreadable(100);
    assert_eq!(storage.scan_all().unwrap().len(), 1);
    assert_eq!(storage.search("text", None, None).unwrap().len(), 1);
    assert!(storage.get_session_by_id("a").unwrap().is_some());
    assert_eq!(
        storage.get_pending_sessions().unwrap_err(),
        StorageError::PendingUnreadable
    );
    assert_eq!(storage.flush_pending().unwrap_err(), StorageError::PendingUnreadable);
    storage.append_records(records(vec![start("x")]));
    assert!(matches!(storage.pending, PendingLog::Unreadable(108)));
}

#[test]
fn pending_hits_come_first_and_hide_archived_ones() {
    let mut storage = open();
    storage.append_session(session("a", None, &["shared text"])).unwrap();
    storage.append_session(session("b", None, &["shared text"])).unwrap();
    let newer = session("b", None, &["shared text, pending"]);
    storage.append_pending(newer, vec![vec![0]; 3]).unwrap();
    let found = storage.search("shared", None, None).unwrap();
    assert_eq!(ids(&found), vec!["b", "a"]);
    assert_eq!(found[0].messages[0].content, "shared text, pending");
    // a scan shows the archived one
    let all = storage.scan_all().unwrap();
    assert_eq!(ids(&all), vec!["a", "b"]);
    assert_eq!(all[1].messages[0].content, "shared text");
}

#[test]
fn a_search_for_part_of_a_word_may_be_pruned_but_a_word_is_found() {
    let mut storage = open();
    storage
        .append_session(session("w", Some(10), &["Say, \"Hello-World!\" (twice)"]))
        .unwrap();
    for query in ["Say,", "say", "\"Hello-World!\"", "hello-world", "TWICE", "(twice)"] {
        assert_eq!(storage.search(query, None, None).unwrap().len(), 1, "{}", query);
    }
    let whole = "Say, \"Hello-World!\" (twice)";
    assert_eq!(storage.search(whole, Some(10), Some(10)).unwrap().len(), 1);
    // no word is asked for: every block is read
    assert_eq!(storage.search("!\"", None, None).unwrap().len(), 1);
    assert_eq!(storage.search("", None, None).unwrap().len(), 1);
}

#[test]
fn undated_sessions_pass_every_range() {
    let mut storage = open();
    storage.append_session(session("n", None, &["word"])).unwrap();
    let both = vec![session("m", None, &["word"]), session("t", Some(5), &["word"])];
    storage.append_bulk(both).unwrap();
    assert_eq!(ids(&storage.search("word", Some(100), Some(200)).unwrap()), vec!["n", "m"]);
    assert_eq!(storage.search("word", Some(5), Some(5)).unwrap().len(), 3);
}

#[test]
fn an_id_with_a_comma_is_scanned_but_not_looked_up() {
    let mut storage = open();
    storage.append_session(session("a,b", None, &["text"])).unwrap();
    assert_eq!(storage.scan_all().unwrap().len(), 1);
    assert!(storage.get_session_by_id("a,b").unwrap().is_none());
    assert!(storage.get_session_by_id("a").unwrap().is_none());
}

#[test]
fn appending_one_by_one() {
    let mut storage = open();
    let sessions = vec![session("a", None, &["1"]), session("b", None, &["2"])];
    assert_eq!(storage.append_each(sessions).unwrap(), 2);
    assert_eq!(storage.count_archive_blocks().unwrap(), 2);
}

#[test]
fn rebuilding_an_empty_archive() {
    let mut storage = open();
    assert_eq!(storage.rebuild().unwrap(), 0);
    storage.append_records(records(vec![start("x"), end("x")]));
    assert_eq!(storage.rebuild().unwrap(), 1);
    assert!(storage.get_session_by_id("x").unwrap().is_some());
}

#[test]
fn a_flush_archives_what_is_new_in_one_block() {
    let mut storage = open();
    storage.append_session(session("old", None, &["archived"])).unwrap();
    storage.append_records(records(vec![
        start("old"),
        end("old"),
        start("x"),
        start("y"),
        end("x"),
        end("y"),
    ]));
    assert_eq!(storage.count_archive_blocks().unwrap(), 1);
    assert_eq!(storage.flush_pending().unwrap(), 2);
    assert_eq!(storage.count_archive_blocks().unwrap(), 2);
    assert_eq!(ids(&storage.scan_all().unwrap()), vec!["old", "x", "y"]);
    storage.append_records(records(vec![start("x"), end("x")]));
    assert_eq!(storage.flush_pending().unwrap(), 0);
    assert_eq!(storage.count_archive_blocks().unwrap(), 2);
    // the comma parts the id, so that it is always new
    for _ in 0..2 {
        storage.append_records(records(vec![start("a,b"), end("a,b")]));
        assert_eq!(storage.flush_pending().unwrap(), 1);
    }
    assert_eq!(storage.count_archive_blocks().unwrap(), 4);
}

#[test]
fn blocks_are_counted() {
    let mut storage = open();
    assert_eq!(storage.count_archive_blocks().unwrap(), 0);
    storage.append_session(session("a", None, &["text"])).unwrap();
    assert_eq!(storage.count_archive_blocks().unwrap(), 1);
    for (n, more) in [(100, 1), (101, 2), (200, 2), (0, 0)] {
        let before = storage.count_archive_blocks().unwrap();
        let sessions = (0..n).map(|i| session(&format!("{}", i), None, &["x"])).collect();
        storage.append_bulk(sessions).unwrap();
        assert_eq!(storage.count_archive_blocks().unwrap(), before + more);
    }
    let blocks = storage.count_archive_blocks().unwrap();
    let mut seen = 0;
    storage.reindex_with_progress(|| seen += 1).unwrap();
    assert_eq!(seen, blocks);
    assert_eq!(storage.count_archive_blocks().unwrap(), blocks);
}

#[test]
fn statistics_need_no_index() {
    let mut storage = open();
    let sessions = (1..=120).map(|i| session(&format!("s{}", i), Some(i), &["x", "y"])).collect();
    storage.append_bulk(sessions).unwrap();
    storage.append_session(session("last", Some(500), &["one more"])).unwrap();
    storage.append_records(records(vec![start("p"), say("p", "waiting"), end("p")]));
    let mut bare = Directory::new();
    for i in 0..storage.dir.len() {
        let file = storage.dir.file(i);
        if file.name.starts_with("data_") {
            bare.write(file.name.clone(), file.data.clone());
        }
    }
    let mut without = Storage::new(bare, PendingLog::Absent);
    without.append_records(records(vec![start("p"), say("p", "waiting"), end("p")]));
    let a = storage.get_stats().unwrap();
    let b = without.get_stats().unwrap();
    assert_eq!((a.session_count, a.message_count), (122, 242));
    assert_eq!((b.session_count, b.message_count), (122, 242));
    assert_eq!(a.total_size_bytes, b.total_size_bytes);
    assert_eq!(a.data_compressed_bytes, b.data_compressed_bytes);
    assert_eq!(a.data_uncompressed_bytes, b.data_uncompressed_bytes);
    assert_eq!((a.min_time, a.max_time), (1, 500));
    assert_eq!((b.min_time, b.max_time), (1, 500));
}

#[test]
fn statistics_grow_by_what_is_added() {
    let mut storage = open();
    // ids that cannot be told apart are miscounted, but what follows is not
    storage.append_session(session("a,b", None, &["x"])).unwrap();
    assert_eq!(storage.get_stats().unwrap().session_count, 2);
    let sessions = (0..150).map(|i| session(&format!("s{}", i), None, &["x", "y"])).collect();
    storage.append_bulk(sessions).unwrap();
    let stats = storage.get_stats().unwrap();
    assert_eq!((stats.session_count, stats.message_count), (152, 301));
    storage.append_session(session("more", None, &["z"])).unwrap();
    let stats = storage.get_stats().unwrap();
    assert_eq!((stats.session_count, stats.message_count), (153, 302));
}

#[test]
fn statistics_take_sessions_in_any_order() {
    let sessions = [
        session("a", Some(7), &["x"]),
        session("b", None, &["x", "y"]),
        session("c", Some(3), &[]),
    ];
    for order in [[0, 1, 2], [2, 1, 0], [1, 2, 0]] {
        let mut stats = DbStats::empty(String::new());
        for i in order {
            stats.accumulate_session(&sessions[i]);
        }
        assert_eq!((stats.session_count, stats.message_count), (3, 3));
        assert_eq!((stats.min_time, stats.max_time), (3, 7));
    }
    // a time of zero stands for none, and is forgotten by the next one
    let mut stats = DbStats::empty(String::new());
    stats.accumulate_session(&session("z", Some(0), &[]));
    stats.accumulate_session(&session("a", Some(7), &[]));
    assert_eq!((stats.min_time, stats.max_time), (7, 7));
}

#[test]
fn reindexing_again_changes_nothing() {
    let mut storage = open();
    let sessions = vec![session("a", Some(1), &["apple"]), session("b,c", None, &["pear"])];
    storage.append_bulk(sessions).unwrap();
    storage.append_session(session("d", Some(3), &["plum"])).unwrap();
    assert_eq!(storage.reindex().unwrap(), 3);
    let files = copy(&storage.dir);
    for _ in 0..2 {
        assert_eq!(storage.reindex().unwrap(), 3);
        for i in 0..files.len() {
            let file = files.file(i);
            assert_eq!(storage.dir.read(&file.name).unwrap(), &file.data);
        }
    }
    for id in ["a", "d"] {
        assert_eq!(storage.get_session_by_id(id).unwrap().unwrap().id, id);
    }
    assert!(storage.get_session_by_id("b,c").unwrap().is_none());
}

#[test]
fn optimising_keeps_ids_with_a_comma_out_of_reach() {
    let mut storage = open();
    storage.append_session(session("a,b", None, &["text"])).unwrap();
    storage.append_session(session("a", None, &["text"])).unwrap();
    assert_eq!(storage.optimise(1 << 20).unwrap(), (1, 2));
    assert!(storage.get_session_by_id("a,b").unwrap().is_none());
    assert!(storage.get_session_by_id("a").unwrap().is_some());
}

#[test]
fn compacting_takes_pending_sessions_along() {
    let mut storage = open();
    storage.append_session(session("a", None, &["text"])).unwrap();
    storage.append_records(records(vec![start("x"), say("x", "words"), end("x"), start("y")]));
    let mut seen = 0;
    let done = storage.compact_with_progress(1 << 20, |n| seen += n).unwrap();
    assert_eq!(done, (1, 2));
    assert_eq!(seen, 2);
    assert_eq!(ids(&storage.scan_all().unwrap()), vec!["a", "x"]);
    match &storage.pending {
        PendingLog::Records(kept) => assert_eq!(kept.len(), 1),
        _ => panic!("the log is gone"),
    }
    storage.pending = PendingLog::Unreadable(9);
    assert_eq!(
        storage.compact_with_progress(1 << 20, |_| {}).unwrap_err(),
        StorageError::PendingUnreadable
    );
}

#[test]
fn sessions_from_the_end_of_time_are_found() {
    let mut storage = open();
    let s = session("late", Some(u64::MAX), &["hello there"]);
    storage.append_bulk(vec![s]).unwrap();
    assert_eq!(storage.search("hello", None, None).unwrap().len(), 1);
    assert_eq!(storage.search("hello", Some(5), None).unwrap().len(), 1);
    assert!(storage.search("hello", None, Some(5)).unwrap().is_empty());
}

#[test]
fn queries_may_be_regular_expressions() {
    let mut storage = open();
    storage.append_session(session("a", None, &["Say hello now"])).unwrap();
    storage.append_session(session("b", None, &["open (a(b) and 1+1=2"])).unwrap();
    storage.append_records(records(vec![start("p"), say("p", "hullo"), end("p")]));
    let found = |query: &str| ids(&storage.search(query, None, None).unwrap());
    assert_eq!(found("h.llo"), vec!["p", "a"]);
    assert_eq!(found("H[AE]LLO\\s+now$"), vec!["a"]);
    assert_eq!(found("^(say|open)"), vec!["a", "b"]);
    assert_eq!(found("hello"), vec!["a"]);
    assert!(found("h.+x").is_empty());
    // what is no expression is text, and its words are asked of the filters
    assert!(found("pen (a(").is_empty());
    // what is no expression, or stands there as it is, is found as text
    assert_eq!(found("(a(b"), vec!["b"]);
    assert_eq!(found("1+1=2"), vec!["b"]);
    // a word in part is asked of the filters, an expression is not
    assert!(found("hel.o n").contains(&"a".to_string()));
}

#[test]
fn every_word_of_a_message_is_found() {
    let mut storage = open();
    let text = "In C++, (twice) a.b*c or [x Y-z] -- costs $5? ell( \\d";
    storage.append_session(session("w", Some(10), &["other", text])).unwrap();
    storage.append_session(session("o", Some(10), &["nothing of it"])).unwrap();
    for word in text.split_whitespace() {
        let found = storage.search(word, Some(10), Some(10)).unwrap();
        assert!(ids(&found).contains(&"w".to_string()), "{}", word);
    }
    for query in ["in", "IN", "TWICE", "y-Z"] {
        assert_eq!(ids(&storage.search(query, None, None).unwrap()), vec!["w"], "{}", query);
    }
}

#[test]
fn blocks_are_counted_whatever_the_index_holds() {
    let mut storage = open();
    storage.append_session(session("a", None, &["text"])).unwrap();
    storage.dir.write("index_001.cryo".to_string(), vec![1, 2, 3]);
    storage.append_session(session("b", None, &["text"])).unwrap();
    assert_eq!(storage.count_archive_blocks().unwrap(), 2);
    let sessions = (0..101).map(|i| session(&format!("{}", i), None, &["x"])).collect();
    storage.append_bulk(sessions).unwrap();
    assert_eq!(storage.count_archive_blocks().unwrap(), 4);
    // a block that is no record counts as well
    let mut data = storage.dir.read("data_001.cryo").unwrap().clone();
    data.extend_from_slice(b"\x03\x00\x00\x00abc");
    storage.dir.write("data_001.cryo".to_string(), data);
    storage.append_session(session("c", None, &["text"])).unwrap();
    assert_eq!(storage.count_archive_blocks().unwrap(), 6);
}

#[test]
fn progress_is_reported_block_by_block_and_session_by_session() {
    let mut storage = open();
    let mut blocks = 0;
    let mut progress = Progress::new(|| blocks += 1);
    assert_eq!(
        storage.reindex_reporting(&mut progress).unwrap_err(),
        StorageError::DataFileNotFound
    );
    let sessions = (0..101).map(|i| session(&format!("{}", i), None, &["x"])).collect();
    storage.append_bulk(sessions).unwrap();
    assert_eq!(storage.reindex_reporting(&mut progress).unwrap(), 101);
    assert_eq!(storage.reindex_reporting(&mut progress).unwrap(), 101);
    drop(progress);
    assert_eq!(blocks, 4);
    let mut steps = Vec::new();
    let mut progress = Progress::new(|n| steps.push(n));
    assert_eq!(storage.optimise_reporting(1 << 20, &mut progress).unwrap(), (1, 101));
    drop(progress);
    assert_eq!(steps, vec![1; 101]);
}

#[test]
fn pending_metadata_is_the_same_object() {
    let mut storage = open();
    let mut s = session("p", None, &["text"]);
    s.metadata_json = "{\"b\": [1, 51.248178375505404], \"a\": -93.31137037688033}".to_string();
    s.messages[0].metadata_json = "{ \"z\" : {\"y\": 0.1}, \"k\": \"v\", \"n\": 1e16 }".to_string();
    storage.append_pending(s, vec![vec![0; 3]; 3]).unwrap();
    for _ in 0..2 {
        let back = storage.get_session_by_id("p").unwrap().unwrap();
        assert_eq!(back.metadata_json, "{\"a\":-93.31137037688033,\"b\":[1,51.248178375505404]}");
        assert_eq!(
            back.messages[0].metadata_json,
            "{\"k\":\"v\",\"n\":1e+16,\"z\":{\"y\":0.1}}"
        );
        storage.flush_pending().unwrap();
    }
}
