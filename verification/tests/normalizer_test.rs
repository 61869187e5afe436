use chatgpt_to_claude::pipeline::json_parser::{
    Author, Content, ConversationExport, Message, MessageNode, NodeMapping, Part,
};
use chatgpt_to_claude::pipeline::normalizer::{extract_text, normalize};
use chatgpt_to_claude::pipeline::traversal::{path_has_content_type, should_include_message};

fn message(role: &str, content_type: &str, parts: Vec<Part>) -> Message {
    Message {
        id: "m".to_string(),
        author: Author { role: role.to_string(), name: None },
        create_time: None,
        content: Some(Content { content_type: content_type.to_string(), parts }),
    }
}

fn node(id: &str, parent: Option<&str>, message: Option<Message>) -> MessageNode {
    MessageNode {
        id: id.to_string(),
        parent: parent.map(|p| p.to_string()),
        children: vec![],
        message,
    }
}

fn text(s: &str) -> Part {
    Part::Text(s.to_string())
}

fn export(title: Option<&str>, current: Option<&str>, nodes: Vec<MessageNode>) -> ConversationExport {
    let mut mapping = NodeMapping::new();
    for n in nodes {
        mapping.insert(n.id.clone(), n);
    }
    ConversationExport {
        id: "conv-1".to_string(),
        title: title.map(|t| t.to_string()),
        create_time: Some(1_700_000_000),
        update_time: None,
        mapping,
        current_node: current.map(|c| c.to_string()),
    }
}

#[test]
fn normalize_follows_the_current_branch() {
    let record = normalize(export(
        Some("Trip"),
        Some("c"),
        vec![
            node("root", None, None),
            node("a", Some("root"), Some(message("user", "text", vec![text("Hello"), text("there")]))),
            node("b1", Some("a"), Some(message("assistant", "text", vec![text("Answer one")]))),
            node("b2", Some("a"), Some(message("assistant", "code", vec![text("Answer two")]))),
            node("c", Some("b2"), Some(message("user", "multimodal_text", vec![Part::Structured, text("Thanks")]))),
        ],
    ));
    assert_eq!(record.id, "conv-1");
    assert_eq!(record.title, "Trip");
    assert_eq!(record.created_at, Some(1_700_000_000));
    assert_eq!(record.message_count, 3);
    assert_eq!(record.full_text, "Hello there\nAnswer two\nThanks\n");
    assert!(record.has_images);
    assert!(record.has_code);
    assert_eq!(record.token_estimate, 7);
    assert_eq!(record.gizmo_id, None);
}

#[test]
fn normalize_falls_back_to_safe_defaults() {
    let without_title = normalize(export(None, None, vec![node("a", None, Some(message("user", "text", vec![text("Hi")])))]));
    assert_eq!(without_title.title, "Untitled");
    assert_eq!(without_title.message_count, 0);
    assert_eq!(without_title.full_text, "");
    assert_eq!(without_title.token_estimate, 0);
    assert!(!without_title.has_images);
    assert!(!without_title.has_code);

    let empty_title = normalize(export(Some(""), Some("missing"), vec![]));
    assert_eq!(empty_title.title, "Untitled");
    assert_eq!(empty_title.message_count, 0);
}

#[test]
fn token_estimate_is_a_quarter_of_the_bytes() {
    let record = normalize(export(
        Some("t"),
        Some("a"),
        vec![node("a", None, Some(message("user", "text", vec![text("ééé"), text("abcd")])))],
    ));
    // "ééé abcd\n" is 12 bytes long.
    assert_eq!(record.full_text, "ééé abcd\n");
    assert_eq!(record.token_estimate, 3);
}

#[test]
fn messages_without_text_count_but_add_no_line() {
    let record = normalize(export(
        Some("t"),
        Some("b"),
        vec![
            node("a", None, Some(message("user", "multimodal_text", vec![Part::Structured]))),
            node("b", Some("a"), Some(message("assistant", "text", vec![text("ok")]))),
        ],
    ));
    assert_eq!(record.message_count, 2);
    assert_eq!(record.full_text, "ok\n");
    assert!(record.has_images);
}

#[test]
fn extract_text_joins_the_strings_only() {
    let content = Content {
        content_type: "text".to_string(),
        parts: vec![text("a"), Part::Null, Part::Structured, text(""), text("b")],
    };
    assert_eq!(extract_text(&content), "a  b");
    let none = Content { content_type: "text".to_string(), parts: vec![Part::Null] };
    assert_eq!(extract_text(&none), "");
}

#[test]
fn inclusion_rule() {
    assert!(should_include_message(&message("user", "text", vec![text("x")])));
    assert!(should_include_message(&message("assistant", "text", vec![text(""), Part::Structured])));
    assert!(!should_include_message(&message("system", "text", vec![text("x")])));
    assert!(!should_include_message(&message("tool", "text", vec![text("x")])));
    assert!(!should_include_message(&message("User", "text", vec![text("x")])));
    assert!(!should_include_message(&message("user", "text", vec![])));
    assert!(!should_include_message(&message("user", "text", vec![text(""), Part::Null])));
    let mut no_content = message("user", "text", vec![text("x")]);
    no_content.content = None;
    assert!(!should_include_message(&no_content));
}

#[test]
fn flags_look_at_every_message_on_the_path() {
    // the code of the assistant has no parts, and the picture comes from a
    // tool: neither is in the thread, both are on the path
    let record = normalize(export(
        Some("t"),
        Some("d"),
        vec![
            node("a", None, Some(message("user", "text", vec![text("draw and compute")]))),
            node("b", Some("a"), Some(message("assistant", "code", vec![]))),
            node("c", Some("b"), Some(message("tool", "multimodal_text", vec![Part::Structured]))),
            node("d", Some("c"), Some(message("assistant", "text", vec![text("done")]))),
        ],
    ));
    assert_eq!(record.message_count, 2);
    assert_eq!(record.full_text, "draw and compute\ndone\n");
    assert!(record.has_code);
    assert!(record.has_images);
}

#[test]
fn flags_do_not_look_off_the_path() {
    let nodes = || {
        vec![
            node("a", None, Some(message("user", "text", vec![text("hi")]))),
            node("b1", Some("a"), Some(message("assistant", "code", vec![text("x = 1")]))),
            node("b2", Some("a"), Some(message("assistant", "text", vec![text("hello")]))),
            node("img", Some("b1"), Some(message("user", "multimodal_text", vec![Part::Structured]))),
        ]
    };
    let record = normalize(export(Some("t"), Some("b2"), nodes()));
    assert!(!record.has_code);
    assert!(!record.has_images);
    let other = normalize(export(Some("t"), Some("img"), nodes()));
    assert!(other.has_code);
    assert!(other.has_images);
    let none = normalize(export(Some("t"), None, nodes()));
    assert!(!none.has_code);
    assert!(!none.has_images);
}

#[test]
fn content_type_on_the_path() {
    let e = export(
        Some("t"),
        Some("b"),
        vec![
            node("a", Some("b"), Some(message("system", "code", vec![]))),
            node("b", Some("a"), Some(message("user", "text", vec![text("x")]))),
            node("c", None, None),
        ],
    );
    // the parents run in a circle: the walk ends all the same
    assert!(path_has_content_type(&e.mapping, "b", "code"));
    assert!(path_has_content_type(&e.mapping, "b", "text"));
    assert!(!path_has_content_type(&e.mapping, "b", "multimodal_text"));
    assert!(!path_has_content_type(&e.mapping, "c", "code"));
    assert!(!path_has_content_type(&e.mapping, "missing", "code"));
}
