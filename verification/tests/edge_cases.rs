use cryo_vault::schema::{ChatSessionV1, MessageRole, MessageV1};
use cryo_vault::storage::directory::Directory;
use cryo_vault::storage::pending::PendingLog;
use cryo_vault::storage::Storage;

fn create_test_storage() -> Storage {
    Storage::new(Directory::new(), PendingLog::Absent)
}

/// Checks all role variants.
#[test]
fn test_all_message_roles_roundtrip() {
    let mut storage = create_test_storage();

    let roles = [
        MessageRole::User,
        MessageRole::Model,
        MessageRole::System,
        MessageRole::Thought,
        MessageRole::Tool,
    ];

    for (i, role) in roles.iter().enumerate() {
        let session = ChatSessionV1 {
            id: format!("test-role-{}", i),
            title: Some(format!("Test {:?}", role)),
            source: None,
            model: None,
            created_at: Some(1000),
            metadata_json: String::new(),
            messages: vec![MessageV1 {
                id: Some(format!("msg-{}", i)),
                role: role.clone(),
                content: format!("Testing {:?} role", role),
                tool_calls: None,
                tool_outputs: None,
                parent_id: None,
                metadata_json: String::new(),
            }],
        };

        storage.append_session(session.clone()).unwrap();
        let retrieved = storage.get_session_by_id(&session.id).unwrap().unwrap();

        assert_eq!(
            retrieved.messages[0].role, *role,
            "Role mismatch for {:?}",
            role
        );
    }
}

/// Checks unicode/emoji content.
#[test]
fn test_unicode_content_roundtrip() {
    let mut storage = create_test_storage();

    let session = ChatSessionV1 {
        id: "test-unicode".to_string(),
        title: Some("Unicode Test 世界".to_string()),
        source: None,
        model: None,
        created_at: Some(1000),
        metadata_json: String::new(),
        messages: vec![MessageV1 {
            id: Some("msg1".to_string()),
            role: MessageRole::User,
            content: "Hello 世界 🌍 \n\t Special chars: <>&\"'".to_string(),
            tool_calls: None,
            tool_outputs: None,
            parent_id: None,
            metadata_json: String::new(),
        }],
    };

    storage.append_session(session.clone()).unwrap();
    let retrieved = storage.get_session_by_id(&session.id).unwrap().unwrap();

    assert_eq!(retrieved.messages[0].content, session.messages[0].content);
    assert_eq!(retrieved.title, session.title);
}

/// Checks nested metadata JSON strings.
#[test]
fn test_metadata_json_roundtrip() {
    let mut storage = create_test_storage();

    let metadata = r#"{"key1":"value1","key2":"value2"}"#;

    let session = ChatSessionV1 {
        id: "test-metadata".to_string(),
        title: None,
        source: None,
        model: None,
        created_at: Some(1000),
        metadata_json: metadata.to_string(),
        messages: vec![MessageV1 {
            id: None,
            role: MessageRole::User,
            content: "Test".to_string(),
            tool_calls: None,
            tool_outputs: None,
            parent_id: None,
            metadata_json: r#"{"msg_meta":"data"}"#.to_string(),
        }],
    };

    storage.append_session(session.clone()).unwrap();
    let retrieved = storage.get_session_by_id(&session.id).unwrap().unwrap();

    assert_eq!(retrieved.metadata_json, session.metadata_json);
    assert_eq!(
        retrieved.messages[0].metadata_json,
        session.messages[0].metadata_json
    );
}

/// Checks edge cases for timestamps (0, max, none).
#[test]
fn test_boundary_timestamps() {
    let mut storage = create_test_storage();

    let test_cases = vec![
        ("zero", Some(0u64)),
        ("max", Some(u64::MAX)),
        ("none", None),
    ];

    for (name, timestamp) in test_cases {
        let session = ChatSessionV1 {
            id: format!("test-ts-{}", name),
            title: None,
            source: None,
            model: None,
            created_at: timestamp,
            metadata_json: String::new(),
            messages: vec![MessageV1 {
                id: None,
                role: MessageRole::User,
                content: "Test".to_string(),
                tool_calls: None,
                tool_outputs: None,
                parent_id: None,
                metadata_json: String::new(),
            }],
        };

        storage.append_session(session.clone()).unwrap();
        let retrieved = storage.get_session_by_id(&session.id).unwrap().unwrap();

        assert_eq!(
            retrieved.created_at, timestamp,
            "Timestamp mismatch for test case: {}",
            name
        );
    }
}
