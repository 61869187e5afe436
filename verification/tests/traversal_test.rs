use chatgpt_to_claude::pipeline::json_parser::{Author, Content, Message, MessageNode, NodeMapping, Part};
use chatgpt_to_claude::pipeline::traversal::linearize_messages;

fn message_node(id: &str, parent: Option<&str>, role: &str, text: &str) -> MessageNode {
    MessageNode {
        id: id.to_string(),
        parent: parent.map(|s| s.to_string()),
        children: vec![],
        message: Some(Message {
            id: id.to_string(),
            author: Author { role: role.to_string(), name: None },
            create_time: None,
            content: Some(Content {
                content_type: "text".to_string(),
                parts: vec![Part::Text(text.to_string())],
            }),
        }),
    }
}

/// Helper: build a minimal MessageNode with user message
fn user_node(id: &str, parent: Option<&str>, text: &str) -> MessageNode {
    message_node(id, parent, "user", text)
}

/// Helper: build an assistant MessageNode
fn assistant_node(id: &str, parent: Option<&str>, text: &str) -> MessageNode {
    message_node(id, parent, "assistant", text)
}

/// Helper: build a structural node (no message — root or branch point)
fn struct_node(id: &str, parent: Option<&str>) -> MessageNode {
    MessageNode {
        id: id.to_string(),
        parent: parent.map(|s| s.to_string()),
        children: vec![],
        message: None,
    }
}

fn first_text(m: &Message) -> Option<&str> {
    match m.content.as_ref().and_then(|c| c.parts.first()) {
        Some(Part::Text(s)) => Some(s.as_str()),
        _ => None,
    }
}

#[test]
fn test_linear_chain() {
    let mut mapping = NodeMapping::new();
    mapping.insert("root".to_string(), struct_node("root", None));
    mapping.insert("a".to_string(), user_node("a", Some("root"), "Hello"));
    mapping.insert("b".to_string(), assistant_node("b", Some("a"), "Hi there"));
    mapping.insert("c".to_string(), user_node("c", Some("b"), "Thanks"));

    let messages = linearize_messages(&mapping, "c");
    assert_eq!(messages.len(), 3, "Expected 3 messages in linear chain");
    // Verify chronological order (root -> leaf)
    assert_eq!(
        messages[0].author.role, "user",
        "First message should be user"
    );
    assert_eq!(
        messages[2].author.role, "user",
        "Last message should be user"
    );
}

#[test]
fn test_branched_conversation_follows_current_node() {
    // B1 and B2 are both children of A; current_node points to C (via B2)
    // B1 must NOT appear in output
    let mut mapping = NodeMapping::new();
    mapping.insert("root".to_string(), struct_node("root", None));
    mapping.insert("a".to_string(), user_node("a", Some("root"), "Hello"));
    mapping.insert("b1".to_string(), assistant_node("b1", Some("a"), "Response v1"));
    mapping.insert("b2".to_string(), assistant_node("b2", Some("a"), "Response v2"));
    mapping.insert("c".to_string(), user_node("c", Some("b2"), "Thanks"));

    let messages = linearize_messages(&mapping, "c");

    // Must include b2, must NOT include b1
    let has_v1 = messages.iter().any(|m| first_text(m) == Some("Response v1"));
    let has_v2 = messages.iter().any(|m| first_text(m) == Some("Response v2"));

    assert!(!has_v1, "Branched-off response v1 must NOT appear in output");
    assert!(has_v2, "Active branch response v2 MUST appear in output");
    assert_eq!(messages.len(), 3, "Should have user + v2 assistant + user");
}

#[test]
fn test_missing_parent_node_does_not_panic() {
    // current_node's parent chain leads to a node ID not in mapping
    let mut mapping = NodeMapping::new();
    mapping.insert("c".to_string(), user_node("c", Some("missing_parent"), "Hello"));

    // Must not panic — returns partial chain
    let messages = linearize_messages(&mapping, "c");
    assert!(messages.len() <= 1, "Should return at most the node itself");
}

#[test]
fn test_empty_mapping_returns_empty() {
    let mapping = NodeMapping::new();
    let messages = linearize_messages(&mapping, "any_node");
    assert!(messages.is_empty(), "Empty mapping should return empty vec");
}

#[test]
fn test_system_messages_excluded() {
    let mut mapping = NodeMapping::new();
    mapping.insert("root".to_string(), struct_node("root", None));
    // System message — should be filtered
    mapping.insert(
        "sys".to_string(),
        message_node("sys", Some("root"), "system", "System init"),
    );
    mapping.insert("a".to_string(), user_node("a", Some("sys"), "Hello"));

    let messages = linearize_messages(&mapping, "a");
    assert_eq!(messages.len(), 1, "System message must be excluded");
    assert_eq!(messages[0].author.role, "user");
}

#[test]
fn test_cycle_of_parents_ends() {
    // a names b as its parent and b names a: the walk visits as many nodes
    // as the mapping holds, and ends
    let mut mapping = NodeMapping::new();
    mapping.insert("a".to_string(), user_node("a", Some("b"), "from a"));
    mapping.insert("b".to_string(), assistant_node("b", Some("a"), "from b"));

    let messages = linearize_messages(&mapping, "a");
    let texts: Vec<Option<&str>> = messages.iter().map(first_text).collect();
    assert_eq!(texts, vec![Some("from b"), Some("from a")]);
}

#[test]
fn test_missing_parent_keeps_what_was_found() {
    let mut mapping = NodeMapping::new();
    mapping.insert("b".to_string(), user_node("b", Some("gone"), "first"));
    mapping.insert("c".to_string(), assistant_node("c", Some("b"), "second"));
    mapping.insert("other".to_string(), user_node("other", None, "elsewhere"));

    let messages = linearize_messages(&mapping, "c");
    let texts: Vec<Option<&str>> = messages.iter().map(first_text).collect();
    assert_eq!(texts, vec![Some("first"), Some("second")]);
    assert_eq!(messages[0].id, "b");
    assert!(linearize_messages(&mapping, "gone").is_empty());
}

#[test]
fn test_linear_chain_is_in_order_from_the_root() {
    let mut mapping = NodeMapping::new();
    mapping.insert("root".to_string(), struct_node("root", None));
    mapping.insert("a".to_string(), user_node("a", Some("root"), "Hello"));
    mapping.insert("b".to_string(), assistant_node("b", Some("a"), "Hi there"));
    mapping.insert("c".to_string(), user_node("c", Some("b"), "Thanks"));

    let messages = linearize_messages(&mapping, "c");
    let texts: Vec<Option<&str>> = messages.iter().map(first_text).collect();
    assert_eq!(texts, vec![Some("Hello"), Some("Hi there"), Some("Thanks")]);
    let up_to_b = linearize_messages(&mapping, "b");
    assert_eq!(up_to_b.len(), 2);
}

#[test]
fn test_mapping_holds_one_node_for_each_identifier() {
    let mut mapping = NodeMapping::new();
    assert!(mapping.is_empty());
    assert_eq!(mapping.len(), 0);
    assert!(mapping.get("a").is_none());
    mapping.insert("a".to_string(), user_node("a", None, "first"));
    mapping.insert("b".to_string(), user_node("b", Some("a"), "second"));
    mapping.insert("a".to_string(), user_node("a", None, "third"));
    assert!(!mapping.is_empty());
    mapping.finite();
    assert_eq!(mapping.len(), 2);
    let a = mapping.get("a").unwrap();
    assert_eq!(first_text(a.message.as_ref().unwrap()), Some("third"));
    assert_eq!(mapping.get("b").unwrap().parent, Some("a".to_string()));
}
