//! Errors, file formats and the small parts that they are made of.
use cryo_vault::division::udivmod128;
use cryo_vault::frames::{push_frame, read_at, walk, Tail};
use cryo_vault::index::{BlockIndex, BlockIndexParams};
use cryo_vault::lock::{next_step, LockStep, LOCK_TIMEOUT_MS};
use cryo_vault::metadata::{get_number, get_text, parse_members, remove, render_members, MetaValue};
use cryo_vault::schema::{ChatSessionV1, MessageRole, MessageV1, StoredSession, StreamEvent};
use cryo_vault::storage::blocks::{compute_block_time_range, count_sessions_in_index_id, lists_id};
use cryo_vault::storage::directory::{data_file_name, index_file_name, parse_segment, Directory};
use cryo_vault::storage::pending::PendingLog;
use cryo_vault::storage::wal::{assemble_log, split_log};
use cryo_vault::storage::{SessionWriter, Storage, StorageError, WalWriter};
use cryo_vault::text::{
    chars_of, contains, format_number, format_padded, is_whitespace, join_ids, parse_number, split,
    string_of, tokens_of, Separator,
};

fn session(id: &str, created_at: Option<u64>) -> ChatSessionV1 {
    ChatSessionV1 {
        id: id.to_string(),
        title: None,
        source: None,
        model: None,
        created_at,
        metadata_json: String::new(),
        messages: vec![MessageV1 {
            id: None,
            role: MessageRole::User,
            content: "some words".to_string(),
            tool_calls: None,
            tool_outputs: None,
            parent_id: None,
            metadata_json: String::new(),
        }],
    }
}

/// The seed of every filter.
const FILTER_SEED: u128 = 0x517CC1B727220A95;

fn open() -> Storage {
    Storage::new(Directory::new(), PendingLog::Absent)
}

fn with_data(bytes: Vec<u8>) -> Storage {
    let mut dir = Directory::new();
    dir.write("data_001.cryo".to_string(), bytes);
    dir.write("index_001.cryo".to_string(), Vec::new());
    Storage::new(dir, PendingLog::Absent)
}

fn framed(payload: &[u8]) -> Vec<u8> {
    let mut out = Vec::new();
    push_frame(&mut out, payload);
    out
}

#[test]
fn a_segment_without_an_index() {
    let mut storage = open();
    storage.dir.write("data_007.cryo".to_string(), b"CRYODAT1".to_vec());
    let e = storage.get_session_by_id("x").unwrap_err();
    assert_eq!(e, StorageError::IndexFileNotFound { segment: 7 });
    assert_eq!(
        e.message(),
        "Index file not found for segment data_007.cryo. Please run: cryo reindex"
    );
}

#[test]
fn wrong_magic_bytes() {
    let mut storage = with_data(b"BADMAGIC".to_vec());
    assert_eq!(
        storage.scan_all().unwrap_err(),
        StorageError::WrongMagicBytes { segment: 1 }
    );
    let wanted = StorageError::InvalidFormat { segment: 1 };
    assert_eq!(storage.search("x", None, None).unwrap_err(), wanted);
    assert_eq!(storage.count_archive_blocks().unwrap_err(), wanted);
    assert_eq!(storage.reindex().unwrap_err(), wanted);
    assert_eq!(wanted.message(), "Invalid file format in data_001.cryo");
    let e = storage.optimise(100).unwrap_err();
    assert_eq!(e, StorageError::UnknownFormat);
    assert_eq!(e.message(), "Invalid file format");
}

#[test]
fn errors_name_the_file_in_its_directory() {
    let e = StorageError::InvalidFormat { segment: 1 };
    assert_eq!(e.message_in("/db"), "Invalid file format in /db/data_001.cryo");
    assert_eq!(e.message_in("/db/"), "Invalid file format in /db/data_001.cryo");
    assert_eq!(e.message_in(""), e.message());
    assert_eq!(StorageError::DataFileNotFound.message_in("/db"), "Data file not found");
}

#[test]
fn files_that_end_early() {
    for bytes in [
        b"CRYO".to_vec(),
        b"CRYODAT1\x05\x00".to_vec(),
        b"CRYODAT1\x05\x00\x00\x00abc".to_vec(),
    ] {
        let storage = with_data(bytes);
        assert_eq!(storage.scan_all().unwrap_err(), StorageError::UnexpectedEof);
        assert_eq!(
            storage.search("x", None, None).unwrap_err(),
            StorageError::UnexpectedEof
        );
    }
    // the number of blocks does not need the payload of the last one
    let cut = with_data(b"CRYODAT1\x05\x00\x00\x00abc".to_vec());
    assert_eq!(cut.count_archive_blocks().unwrap(), 1);
}

#[test]
fn a_cut_off_block_that_need_not_be_read() {
    let mut storage = open();
    storage.append_session(session("a", Some(10))).unwrap();
    let data = storage.dir.read("data_001.cryo").unwrap().clone();
    storage
        .dir
        .write("data_001.cryo".to_string(), data[..data.len() - 1].to_vec());
    assert!(storage.search("words", Some(100), None).unwrap().is_empty());
    assert_eq!(
        storage.search("words", None, None).unwrap_err(),
        StorageError::UnexpectedEof
    );
}

#[test]
fn blocks_that_are_no_records() {
    let mut bytes = b"CRYODAT1".to_vec();
    bytes.extend_from_slice(&framed(b"garbage"));
    let storage = with_data(bytes);
    assert_eq!(storage.scan_all().unwrap_err(), StorageError::Decompress);

    for raw in [vec![9u8, 0, 0, 0], vec![0u8], vec![1, 0, 0, 0, 1]] {
        let mut bytes = b"CRYODAT1".to_vec();
        bytes.extend_from_slice(&framed(&zstd::encode_all(&raw[..], 19).unwrap()));
        let storage = with_data(bytes);
        assert_eq!(storage.scan_all().unwrap_err(), StorageError::Decode);
    }
}

#[test]
fn a_message_with_an_unknown_role() {
    let mut storage = open();
    storage.append_session(session("a", None)).unwrap();
    let data = storage.dir.read("data_001.cryo").unwrap().clone();
    let mut raw = zstd::decode_all(&data[12..]).unwrap();
    // variant 4, id 8 + 1, four options, metadata 8, message count 8: the role
    let at = 4 + 9 + 4 + 8 + 8;
    assert_eq!(raw[at], 0);
    raw[at] = 5;
    let mut bytes = b"CRYODAT1".to_vec();
    bytes.extend_from_slice(&framed(&zstd::encode_all(&raw[..], 19).unwrap()));
    storage.dir.write("data_001.cryo".to_string(), bytes);
    assert_eq!(storage.scan_all().unwrap_err(), StorageError::Decode);
}

#[test]
fn an_index_entry_with_an_empty_filter() {
    let mut storage = open();
    storage.append_session(session("a", Some(10))).unwrap();
    let index = storage.dir.read("index_001.cryo").unwrap().clone();
    let raw = zstd::decode_all(&index[4..]).unwrap();
    type Front = (String, u64, u32, u32, u32, u64, u64, Vec<u64>);
    let front: Front = bincode::deserialize(&raw).unwrap();
    let rest = &raw[bincode::serialized_size(&front).unwrap() as usize..];
    assert_eq!((front.0.as_str(), front.1, front.4), ("a", 8, 1));
    assert_eq!((front.5, front.6), (10, 10));
    assert!(!front.7.is_empty());
    let none: Vec<u64> = Vec::new();
    let empty = (front.0, front.1, front.2, front.3, front.4, front.5, front.6, none);
    let mut bytes = bincode::serialize(&empty).unwrap();
    bytes.extend_from_slice(rest);
    let entry = framed(&zstd::encode_all(&bytes[..], 19).unwrap());
    storage.dir.write("index_001.cryo".to_string(), entry);
    assert_eq!(
        storage.search("words", None, None).unwrap_err(),
        StorageError::CorruptIndex
    );
    // where no filter is asked, none is needed
    assert_eq!(storage.search("", None, None).unwrap().len(), 1);
    assert!(storage.search("words", Some(11), None).unwrap().is_empty());
    assert!(storage.get_session_by_id("a").unwrap().is_some());
}

#[test]
fn an_index_entry_with_a_used_hasher() {
    let mut storage = open();
    storage.append_session(session("a", Some(10))).unwrap();
    let index = storage.dir.read("index_001.cryo").unwrap().clone();
    let mut raw = zstd::decode_all(&index[4..]).unwrap();
    // the hasher ends with the number of bytes read, four words of state, the
    // waiting bytes and their number
    let waiting = raw.len() - 8;
    assert_eq!(raw[waiting..], [0; 8]);
    // before them come the two halves of the seed, most significant byte first
    let keys = raw.len() - 72;
    assert_eq!(raw[keys..keys + 16], FILTER_SEED.to_be_bytes());
    raw[waiting] = 3;
    let entry = framed(&zstd::encode_all(&raw[..], 19).unwrap());
    storage.dir.write("index_001.cryo".to_string(), entry);
    assert!(storage.search("words", None, None).is_ok());
    raw[waiting] = 9;
    let entry = framed(&zstd::encode_all(&raw[..], 19).unwrap());
    storage.dir.write("index_001.cryo".to_string(), entry);
    let e = storage.search("words", None, None).unwrap_err();
    assert_eq!(e, StorageError::CorruptIndex);
    assert!(e.message().contains("cryo reindex"));
    assert_eq!(storage.reindex().unwrap(), 1);
    assert_eq!(storage.search("words", None, None).unwrap().len(), 1);
}

#[test]
fn segment_numbers_run_out() {
    let mut dir = Directory::new();
    dir.write(data_file_name(u32::MAX), b"CRYODAT1".to_vec());
    let mut writer = SessionWriter::new(&dir, u32::MAX, 8);
    assert_eq!(
        writer
            .append(&mut dir, StoredSession::V1(session("a", None)))
            .unwrap_err(),
        StorageError::SegmentLimit
    );
}

#[test]
fn totals_that_do_not_fit() {
    let mut storage = open();
    storage.append_session(session("a", None)).unwrap();
    storage.pending = PendingLog::Unreadable(u64::MAX);
    assert_eq!(storage.get_stats().unwrap_err(), StorageError::CounterOverflow);
}

#[test]
fn other_error_texts() {
    assert_eq!(StorageError::DataFileNotFound.message(), "Data file not found");
    assert_eq!(StorageError::Compress.message(), "Failed to compress");
    assert_eq!(
        StorageError::BlockTooLarge.message(),
        "Block is too large for its length prefix"
    );
}

#[test]
fn segment_names() {
    assert_eq!(data_file_name(1), "data_001.cryo");
    assert_eq!(index_file_name(42), "index_042.cryo");
    assert_eq!(data_file_name(12345), "data_12345.cryo");
    assert_eq!(parse_segment("data_001.cryo"), Some(1));
    assert_eq!(parse_segment("data_+7.cryo"), Some(7));
    assert_eq!(parse_segment("data_4294967295.cryo"), Some(u32::MAX));
    for name in [
        "data_4294967296.cryo",
        "data_.cryo",
        "data_-1.cryo",
        "data_1.cryo.tmp",
        "index_001.cryo",
        "data_1x.cryo",
        "data",
    ] {
        assert_eq!(parse_segment(name), None, "{}", name);
    }
}

#[test]
fn segments_come_in_order() {
    let mut dir = Directory::new();
    assert_eq!(dir.get_active_segment_num(), 1);
    for name in ["data_010.cryo", "notes.txt", "data_002.cryo", "data_2.cryo", "index_099.cryo"] {
        dir.write(name.to_string(), Vec::new());
    }
    assert_eq!(dir.list_segments(), vec![2, 2, 10]);
    assert_eq!(dir.get_active_segment_num(), 10);
    let storage = Storage::new(dir, PendingLog::Absent);
    assert_eq!(storage.get_active_file(), "data_010.cryo");
    assert_eq!(storage.get_index_file(), "index_010.cryo");
    assert_eq!(storage.get_pending_file(), "pending.bin");
}

#[test]
fn a_full_segment_is_left() {
    let mut storage = open();
    storage.dir.write("data_003.cryo".to_string(), vec![0; 20]);
    assert_eq!(
        storage.get_active_files(21).unwrap(),
        ("data_003.cryo".to_string(), "index_003.cryo".to_string(), 3)
    );
    assert_eq!(
        storage.get_active_files(20).unwrap(),
        ("data_004.cryo".to_string(), "index_004.cryo".to_string(), 4)
    );
}

#[test]
fn files_are_written_and_appended() {
    let mut dir = Directory::new();
    assert!(dir.read("a").is_none());
    dir.append("a".to_string(), &[1, 2]);
    dir.append("a".to_string(), &[3]);
    dir.write("b".to_string(), vec![9]);
    assert_eq!(dir.read("a").unwrap(), &vec![1, 2, 3]);
    dir.write("a".to_string(), vec![4]);
    assert_eq!(dir.read("a").unwrap(), &vec![4]);
    assert_eq!(dir.len(), 2);
    assert_eq!(dir.file(1).name, "b");
}

#[test]
fn frames_are_little_endian() {
    assert_eq!(framed(&[7, 8]), vec![2, 0, 0, 0, 7, 8]);
    let long = framed(&vec![1; 300]);
    assert_eq!(&long[..4], &[44, 1, 0, 0]);
    let mut two = framed(b"ab");
    two.extend_from_slice(&framed(b"c"));
    let frames = walk(&two, 0);
    assert_eq!(frames.spans.len(), 2);
    assert_eq!((frames.spans[1].start, frames.spans[1].end), (10, 11));
    assert_eq!(frames.tail, Tail::Clean);
    assert_eq!(walk(&two[..8], 0).tail, Tail::ShortHeader);
    assert_eq!(walk(&two[..10], 0).tail, Tail::ShortPayload);
    assert_eq!(read_at(&two, 6), Some(&b"c"[..]));
    assert_eq!(read_at(&two, 8), None);
    assert_eq!(read_at(&two, u64::MAX), None);
}

#[test]
fn the_log_round_trip() {
    let mut wal = WalWriter::new();
    wal.append(b"one").unwrap();
    wal.append(b"").unwrap();
    wal.append(b"three").unwrap();
    let bytes = wal.into_bytes();
    assert_eq!(
        split_log(&bytes).unwrap(),
        vec![b"one".to_vec(), Vec::new(), b"three".to_vec()]
    );
    let cut = bytes[..bytes.len() - 1].to_vec();
    assert_eq!(split_log(&cut).unwrap_err(), StorageError::UnexpectedEof);
}

#[test]
fn a_log_from_its_bytes() {
    let end = || StreamEvent::Finalize { session_id: "x".to_string() };
    let payloads = vec![b"ab".to_vec(), b"c".to_vec()];
    let log = assemble_log(11, payloads.clone(), vec![Some(end()), Some(end())]);
    assert_eq!(log.size(), Some(11));
    let bytes = log.to_bytes().unwrap();
    assert_eq!(bytes, b"\x02\x00\x00\x00ab\x01\x00\x00\x00c");
    assert_eq!(split_log(&bytes).unwrap(), payloads);
    let spoiled = assemble_log(11, payloads, vec![Some(end()), None]);
    assert!(matches!(spoiled, PendingLog::Unreadable(11)));
    assert!(spoiled.to_bytes().is_none());
}

#[test]
fn block_time_ranges() {
    let t = |times: &[Option<u64>]| -> (u64, u64) {
        let sessions: Vec<ChatSessionV1> = times.iter().map(|t| session("s", *t)).collect();
        compute_block_time_range(&sessions)
    };
    assert_eq!(t(&[Some(5), Some(3), Some(9)]), (3, 9));
    assert_eq!(t(&[Some(5), None]), (0, u64::MAX));
    assert_eq!(t(&[]), (0, 0));
    assert_eq!(t(&[Some(u64::MAX)]), (u64::MAX, u64::MAX));
    assert_eq!(t(&[Some(0)]), (0, 0));
    assert_eq!(t(&[Some(u64::MAX), Some(4)]), (4, u64::MAX));
}

#[test]
fn ids_in_an_index_entry() {
    assert_eq!(count_sessions_in_index_id(""), 0);
    assert_eq!(count_sessions_in_index_id("a"), 1);
    assert_eq!(count_sessions_in_index_id("a,b,"), 3);
    assert!(lists_id("a,bc,d", "bc"));
    assert!(!lists_id("a,bc,d", "b"));
    let ids = vec!["x".to_string(), "y".to_string(), "z".to_string()];
    assert_eq!(join_ids(&ids), "x,y,z");
    assert_eq!(join_ids(&Vec::new()), "");
}

fn params(content: &str) -> BlockIndexParams<'_> {
    BlockIndexParams {
        content,
        min_time: 1,
        max_time: 2,
        data_offset: 8,
        compressed_size: 3,
        uncompressed_size: 4,
        message_count: 1,
    }
}

#[test]
fn index_parameters() {
    assert_eq!(params("x").validate(), Ok(()));
    let mut p = params("x");
    p.min_time = 3;
    assert_eq!(
        p.validate(),
        Err("Invalid time range: min_time (3) > max_time (2)".to_string())
    );
    let mut p = params("x");
    p.compressed_size = 5;
    assert_eq!(
        p.validate(),
        Err("Invalid compression: compressed_size (5) > uncompressed_size (4)".to_string())
    );
    let mut p = params("x");
    p.message_count = 0;
    assert_eq!(
        p.validate(),
        Err("Block must contain at least one message (message_count == 0)".to_string())
    );
}

#[test]
fn filters_know_their_words() {
    let index = BlockIndex::new("Id-1".to_string(), params("Hello, WORLD! 世界 (x)"));
    assert!(index.is_searchable("hello"));
    for query in ["hello", "World hello", "x", "世界", "", "..."] {
        assert!(index.matches(query), "{}", query);
    }
    let strangers = (0..200)
        .filter(|i| index.matches(&format!("stranger{}", i)))
        .count();
    assert!(strangers < 100);
}

#[test]
fn words_of_a_text() {
    assert_eq!(
        tokens_of("  Don't stop, ÉCOLE\u{3000}-- \"x\"\n"),
        vec!["don't", "stop", "école", "x"]
    );
    assert!(is_whitespace('\u{2029}'));
    assert!(!is_whitespace('\u{200b}'));
    assert!(contains("abcabd", "abd"));
    assert!(contains("abc", ""));
    assert!(!contains("ab", "abc"));
    assert_eq!(split(&chars_of(",a,"), Separator::Comma).len(), 3);
}

#[test]
fn numbers() {
    let number = |s: &str| parse_number(&chars_of(s), u64::MAX);
    assert_eq!(number("18446744073709551615"), Some(u64::MAX));
    assert_eq!(number("18446744073709551616"), None);
    assert_eq!(number("+007"), Some(7));
    assert_eq!(number("+"), None);
    assert_eq!(number(""), None);
    assert_eq!(number("++1"), None);
    assert_eq!(number("1 "), None);
    assert_eq!(string_of(&format_number(0)), "0");
    assert_eq!(string_of(&format_number(u64::MAX)), "18446744073709551615");
    assert_eq!(string_of(&format_padded(7, 3)), "007");
    assert_eq!(string_of(&format_padded(1234, 3)), "1234");
}

#[test]
fn metadata_members() {
    let members = parse_members("{\"n\":5,\"t\":\"x\",\"f\":1.5,\"l\":[true]}");
    let names: Vec<&str> = members.iter().map(|m| m.0.as_str()).collect();
    assert_eq!(names, vec!["f", "l", "n", "t"]);
    assert_eq!(get_text(&members, "t"), Some("x".to_string()));
    assert_eq!(get_text(&members, "n"), None);
    assert_eq!(get_number(&members, "n"), Some(5));
    assert_eq!(get_number(&members, "f"), None);
    assert!(matches!(&members[1].1, MetaValue::Json(j) if j == "[true]"));
    let fewer = remove(&members, "f");
    assert_eq!(render_members(&fewer), "{\"l\":[true],\"n\":5,\"t\":\"x\"}");
    assert!(parse_members("not json").is_empty());
    assert!(parse_members("[1]").is_empty());
}

#[test]
fn waiting_for_the_lock() {
    assert_eq!(next_step(true, 9000, 5000), LockStep::Acquired);
    assert_eq!(next_step(false, 0, 100), LockStep::Retry(50));
    assert_eq!(next_step(false, 100, 100), LockStep::Retry(50));
    assert_eq!(next_step(false, 101, 100), LockStep::TimedOut);
    assert_eq!(LOCK_TIMEOUT_MS, 5000);
}

#[test]
fn long_division() {
    assert_eq!(udivmod128(7, 0), (0, 0));
    assert_eq!(udivmod128(3, 5), (0, 3));
    assert_eq!(udivmod128(100, 7), (14, 2));
    assert_eq!(udivmod128(u128::MAX, 1), (u128::MAX, 0));
    assert_eq!(udivmod128(u128::MAX, u128::MAX - 1), (1, 1));
    assert_eq!(
        udivmod128(u128::MAX, 1_000_000_007),
        (u128::MAX / 1_000_000_007, u128::MAX % 1_000_000_007)
    );
}
