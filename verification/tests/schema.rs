use cryo_vault::chatgpt::{ContentPart, ImportError};
use cryo_vault::metadata::MetaValue;
use cryo_vault::schema::{
    ChatGptAuthor, ChatGptContent, ChatGptConversation, ChatGptMessage, ChatGptNode,
    ChatSessionInput, ChatSessionV1, MessageInput, MessageRole,
};

fn node(
    name: &str,
    parent: Option<&str>,
    message: &str,
    role: &str,
    parts: Vec<ContentPart>,
    time: u64,
) -> (String, ChatGptNode) {
    (
        name.to_string(),
        ChatGptNode {
            id: name.to_string(),
            parent: parent.map(String::from),
            message: Some(ChatGptMessage {
                id: message.to_string(),
                author: ChatGptAuthor {
                    role: role.to_string(),
                },
                content: ChatGptContent {
                    content_type: "text".to_string(),
                    parts: Some(parts),
                },
                create_time: Some(time),
            }),
        },
    )
}

fn text(s: &str) -> Vec<ContentPart> {
    vec![ContentPart::Text(s.to_string())]
}

#[test]
fn test_chatgpt_export_parsing() {
    let conversation = ChatGptConversation {
        id: "conv1".to_string(),
        title: Some("Test Chat".to_string()),
        create_time: Some(1678886400),
        current_node: Some("node3".to_string()),
        mapping: vec![
            node("node1", None, "msg1", "system", text("System prompt"), 1678886400),
            node("node2", Some("node1"), "msg2", "user", text("Hello"), 1678886401),
            node("node3", Some("node2"), "msg3", "assistant", text("Hi there"), 1678886402),
        ],
    };
    assert_eq!(conversation.id, "conv1");

    let session = ChatSessionV1::try_from(conversation).expect("Failed to convert");
    assert_eq!(session.messages.len(), 3);
    assert_eq!(session.messages[0].content, "System prompt");
    assert_eq!(session.messages[1].content, "Hello");
    assert_eq!(session.messages[2].content, "Hi there");
    assert_eq!(session.created_at, Some(1678886400));
}

#[test]
fn test_chatgpt_mixed_content() {
    // Test with non-string parts (should be skipped or handled)
    let conversation = ChatGptConversation {
        id: "conv2".to_string(),
        title: None,
        create_time: None,
        current_node: Some("node1".to_string()),
        mapping: vec![node(
            "node1",
            None,
            "msg1",
            "user",
            vec![ContentPart::Text("Text".to_string()), ContentPart::Other],
            123,
        )],
    };
    let session = ChatSessionV1::try_from(conversation).unwrap();
    assert_eq!(session.messages.len(), 1);
    assert_eq!(session.messages[0].content, "Text"); // Object part skipped
}

#[test]
fn chatgpt_roles_parents_and_source() {
    let conversation = ChatGptConversation {
        id: "c".to_string(),
        title: None,
        create_time: None,
        current_node: Some("e".to_string()),
        mapping: vec![
            node("a", None, "m1", "user", text("1"), 1),
            node("b", Some("a"), "m2", "assistant", text("2"), 2),
            node("c", Some("b"), "m3", "system", text("3"), 3),
            node("d", Some("c"), "m4", "tool", text("4"), 4),
            node("e", Some("d"), "m5", "someone", text("5"), 5),
        ],
    };
    let session = ChatSessionV1::try_from(conversation).unwrap();
    let roles: Vec<MessageRole> = session.messages.iter().map(|m| m.role).collect();
    assert_eq!(
        roles,
        vec![
            MessageRole::User,
            MessageRole::Model,
            MessageRole::System,
            MessageRole::Tool,
            MessageRole::User,
        ]
    );
    assert_eq!(session.messages[1].id, Some("m2".to_string()));
    assert_eq!(session.messages[1].parent_id, Some("a".to_string()));
    assert_eq!(session.source, Some("chatgpt-export".to_string()));
    assert_eq!(session.created_at, None);
}

#[test]
fn chatgpt_messages_without_text_are_skipped() {
    let mut middle = node("b", Some("a"), "m2", "assistant", Vec::new(), 2);
    middle.1.message = None;
    let conversation = ChatGptConversation {
        id: "c".to_string(),
        title: None,
        create_time: None,
        current_node: Some("c".to_string()),
        mapping: vec![
            node("a", Some("missing"), "m1", "user", text("first"), 1),
            middle,
            node("c", Some("b"), "m3", "user", vec![ContentPart::Other], 3),
        ],
    };
    let session = ChatSessionV1::try_from(conversation).unwrap();
    assert_eq!(session.messages.len(), 1);
    assert_eq!(session.messages[0].content, "first");
}

#[test]
fn chatgpt_conversation_that_never_ends() {
    let conversation = ChatGptConversation {
        id: "c".to_string(),
        title: None,
        create_time: None,
        current_node: Some("a".to_string()),
        mapping: vec![
            node("a", Some("b"), "m1", "user", text("1"), 1),
            node("b", Some("a"), "m2", "user", text("2"), 2),
        ],
    };
    match ChatSessionV1::try_from(conversation) {
        Err(e) => {
            assert_eq!(e, ImportError::EndlessConversation);
            assert_eq!(e.message(), "Conversation has no first message");
        }
        Ok(_) => panic!("an endless conversation was imported"),
    }
}

fn input(id: Option<&str>) -> ChatSessionInput {
    ChatSessionInput {
        id: id.map(String::from),
        title: Some("T".to_string()),
        source: None,
        model: Some("m".to_string()),
        created_at: Some(7),
        metadata: vec![
            ("b".to_string(), MetaValue::Number("12".to_string())),
            ("a".to_string(), MetaValue::Text("x \"y\"".to_string())),
            ("c".to_string(), MetaValue::Json("[1,{\"k\":null}]".to_string())),
        ],
        messages: vec![MessageInput {
            role: MessageRole::Model,
            content: "hi".to_string(),
            tool_calls: None,
            tool_outputs: None,
            id: None,
            parent_id: None,
            metadata: Vec::new(),
        }],
    }
}

#[test]
fn input_keeps_its_id_and_writes_metadata_as_json() {
    let session = ChatSessionV1::from(input(Some("given")));
    assert_eq!(session.id, "given");
    assert_eq!(session.title, Some("T".to_string()));
    assert_eq!(session.model, Some("m".to_string()));
    assert_eq!(session.created_at, Some(7));
    assert_eq!(
        session.metadata_json,
        "{\"a\":\"x \\\"y\\\"\",\"b\":12,\"c\":[1,{\"k\":null}]}"
    );
    assert_eq!(session.messages[0].role, MessageRole::Model);
    assert_eq!(session.messages[0].metadata_json, "{}");
}

#[test]
fn input_without_an_id_gets_a_random_uuid() {
    let a = ChatSessionV1::from(input(None));
    let b = ChatSessionV1::from(input(None));
    assert_ne!(a.id, b.id);
    let chars: Vec<char> = a.id.chars().collect();
    assert_eq!(chars.len(), 36);
    for i in [8, 13, 18, 23] {
        assert_eq!(chars[i], '-');
    }
    assert_eq!(chars[14], '4');
    assert!(matches!(chars[19], '8' | '9' | 'a' | 'b'));
}

#[test]
fn full_text_puts_a_space_behind_every_message() {
    let mut session = ChatSessionV1::from(input(Some("s")));
    let mut second = session.messages[0].clone();
    second.content = "there".to_string();
    session.messages.push(second);
    assert_eq!(session.extract_full_text(), "hi there ");
}
