use chatgpt_to_claude::ai::batch::{
    answer_text, assignment_from_fields, batch_status, build_request, collect_assignments,
    labels_from_answer, labels_from_items, parse_assignment, record_assignment, result_lines,
    BatchMessage, BatchResult, BatchResultContent, BatchResultItem, ClusterAssignment, ContentBlock,
    DiscoverError,
};

fn item(id: &str, result_type: &str, text: Option<&str>) -> BatchResultItem {
    BatchResultItem {
        custom_id: id.to_string(),
        result: BatchResultContent {
            result_type: result_type.to_string(),
            message: Some(BatchMessage {
                content: vec![ContentBlock {
                    block_type: "text".to_string(),
                    text: text.map(|t| t.to_string()),
                }],
            }),
        },
    }
}

fn answer(label: &str, summary: &str) -> String {
    format!("{{\"cluster_label\": \"{}\", \"summary\": \"{}\", \"instructions\": null}}", label, summary)
}

fn fields(a: &ClusterAssignment) -> (String, String, Option<String>) {
    (a.cluster_label.clone(), a.summary.clone(), a.instructions.clone())
}

#[test]
fn batch_is_done_when_it_has_ended() {
    let ended = BatchResult {
        id: "b1".to_string(),
        processing_status: "ended".to_string(),
        results_url: Some("https://example.test/results".to_string()),
    };
    assert_eq!(batch_status(ended), (true, Some("https://example.test/results".to_string())));
    let running = BatchResult {
        id: "b1".to_string(),
        processing_status: "in_progress".to_string(),
        results_url: None,
    };
    assert_eq!(batch_status(running), (false, None));
}

#[test]
fn result_lines_are_trimmed_and_blank_lines_dropped() {
    assert_eq!(result_lines("a\n  b  \r\n\n\t \u{a0}\nc"), vec!["a", "b", "c"]);
    assert_eq!(result_lines(""), Vec::<String>::new());
    assert_eq!(result_lines("\n\n"), Vec::<String>::new());
    assert_eq!(result_lines("one line"), vec!["one line"]);
    assert_eq!(result_lines("x y\n"), vec!["x y"]);
}

#[test]
fn result_lines_agree_with_std() {
    let text = " {\"a\": 1} \r\n\r\n{\"b\": \"x\\ny\"}\n\u{2003}last\u{3000}";
    let expected: Vec<String> = text
        .lines()
        .map(|l| l.trim())
        .filter(|l| !l.is_empty())
        .map(|l| l.to_string())
        .collect();
    assert_eq!(result_lines(text), expected);
}

#[test]
fn answer_is_the_text_of_the_first_block() {
    assert_eq!(answer_text(&item("a", "succeeded", Some("hi"))), Some("hi".to_string()));
    assert_eq!(answer_text(&item("a", "succeeded", None)), Some(String::new()));
    assert_eq!(answer_text(&item("a", "errored", Some("hi"))), None);
    let mut no_message = item("a", "succeeded", Some("hi"));
    no_message.result.message = None;
    assert_eq!(answer_text(&no_message), Some(String::new()));
    let mut no_blocks = item("a", "succeeded", Some("hi"));
    no_blocks.result.message = Some(BatchMessage { content: vec![] });
    assert_eq!(answer_text(&no_blocks), Some(String::new()));
}

#[test]
fn assignment_is_read_from_the_answer() {
    let a = parse_assignment(
        "{\"cluster_label\": \"Work\", \"summary\": \"About work.\", \"instructions\": \"Be brief\"}",
    )
    .unwrap();
    assert_eq!(
        fields(&a),
        ("Work".to_string(), "About work.".to_string(), Some("Be brief".to_string()))
    );
}

#[test]
fn assignment_defaults() {
    let a = parse_assignment("{\"instructions\": null}").unwrap();
    assert_eq!(fields(&a), ("Uncategorized".to_string(), String::new(), None));
    let b = parse_assignment("{\"cluster_label\": 5, \"summary\": [\"x\"]}").unwrap();
    assert_eq!(fields(&b), ("Uncategorized".to_string(), String::new(), None));
    let c = parse_assignment("[1, 2]").unwrap();
    assert_eq!(fields(&c), ("Uncategorized".to_string(), String::new(), None));
}

#[test]
fn answer_that_is_not_json_gives_no_assignment() {
    assert!(parse_assignment("").is_none());
    assert!(parse_assignment("Sure! Here is the JSON: {}").is_none());
    assert!(parse_assignment("{\"cluster_label\": \"Work\"").is_none());
}

#[test]
fn assignment_from_fields_fills_gaps() {
    let a = assignment_from_fields(None, None, None);
    assert_eq!(fields(&a), ("Uncategorized".to_string(), String::new(), None));
    let b = assignment_from_fields(
        Some("L".to_string()),
        Some("S".to_string()),
        Some("I".to_string()),
    );
    assert_eq!(fields(&b), ("L".to_string(), "S".to_string(), Some("I".to_string())));
    let c = assignment_from_fields(Some(String::new()), None, None);
    assert_eq!(c.cluster_label, "");
}

#[test]
fn labels_are_the_strings_of_the_list() {
    let labels = labels_from_answer(Some("{\"labels\": [\"Work\", 3, \"Travel\", null]}")).unwrap();
    assert_eq!(labels, vec!["Work", "Travel"]);
}

#[test]
fn no_labels_is_an_error() {
    assert!(matches!(labels_from_answer(None), Err(DiscoverError::NoLabels)));
    assert!(matches!(labels_from_answer(Some("{}")), Err(DiscoverError::NoLabels)));
    assert!(matches!(labels_from_answer(Some("{\"labels\": []}")), Err(DiscoverError::NoLabels)));
    assert!(matches!(labels_from_answer(Some("{\"labels\": \"Work\"}")), Err(DiscoverError::NoLabels)));
    assert!(matches!(labels_from_answer(Some("{\"labels\": null}")), Err(DiscoverError::NoLabels)));
    assert!(matches!(labels_from_answer(Some("[\"Work\"]")), Err(DiscoverError::NoLabels)));
    assert!(matches!(labels_from_answer(Some("{\"labels\": [1, 2]}")), Err(DiscoverError::NoLabels)));
    assert_eq!(DiscoverError::NoLabels.message(), "Pass 1 returned no cluster labels");
}

#[test]
fn answer_that_is_not_json_is_malformed() {
    match labels_from_answer(Some("labels: Work, Travel")) {
        Err(DiscoverError::Malformed { reason }) => {
            assert!(!reason.is_empty());
            assert_eq!(DiscoverError::Malformed { reason: reason.clone() }.message(), reason);
        }
        other => panic!("unexpected {:?}", other),
    }
}

#[test]
fn labels_from_items_keeps_order() {
    let labels = labels_from_items(vec![None, Some("b".to_string()), Some("a".to_string()), None]).unwrap();
    assert_eq!(labels, vec!["b", "a"]);
    assert!(matches!(labels_from_items(vec![None, None]), Err(DiscoverError::NoLabels)));
    assert!(matches!(labels_from_items(vec![]), Err(DiscoverError::NoLabels)));
}

#[test]
fn assignments_are_keyed_by_identifier() {
    let items = vec![
        Some(item("conv-3", "succeeded", Some(&answer("Travel", "third")))),
        None,
        Some(item("conv-1", "succeeded", Some(&answer("Work", "first")))),
        Some(item("conv-2", "errored", Some(&answer("Work", "second")))),
        Some(item("conv-4", "succeeded", Some("not json"))),
        Some(item("conv-3", "succeeded", Some(&answer("Food", "third again")))),
        Some(item("conv-5", "succeeded", Some("{}"))),
    ];
    let found = collect_assignments(&items);
    let got: Vec<(String, String, String)> = found
        .iter()
        .map(|(id, a)| (id.clone(), a.cluster_label.clone(), a.summary.clone()))
        .collect();
    assert_eq!(
        got,
        vec![
            ("conv-3".to_string(), "Food".to_string(), "third again".to_string()),
            ("conv-1".to_string(), "Work".to_string(), "first".to_string()),
            ("conv-5".to_string(), "Uncategorized".to_string(), String::new()),
        ]
    );
}

#[test]
fn recording_replaces_an_earlier_assignment() {
    let mut entries = Vec::new();
    record_assignment(&mut entries, "a".to_string(), assignment_from_fields(Some("1".to_string()), None, None));
    record_assignment(&mut entries, "b".to_string(), assignment_from_fields(Some("2".to_string()), None, None));
    record_assignment(&mut entries, "a".to_string(), assignment_from_fields(Some("3".to_string()), None, None));
    let got: Vec<(String, String)> =
        entries.iter().map(|(id, a)| (id.clone(), a.cluster_label.clone())).collect();
    assert_eq!(got, vec![("a".to_string(), "3".to_string()), ("b".to_string(), "2".to_string())]);
}

#[test]
fn request_carries_the_identifier_and_the_transcript() {
    let r = build_request("conv-9", "model-x", "SYSTEM", "hello");
    assert_eq!(r.custom_id, "conv-9");
    assert_eq!(r.params.model, "model-x");
    assert_eq!(r.params.max_tokens, 512);
    assert_eq!(r.params.system, "SYSTEM");
    assert_eq!(r.params.messages.len(), 1);
    assert_eq!(r.params.messages[0].role, "user");
    assert_eq!(r.params.messages[0].content, "Conversation transcript:\n\nhello");
}

#[test]
fn many_lines_are_collected_by_identifier() {
    let mut items = Vec::new();
    for round in 0..2 {
        for i in 0..20_000 {
            let label = format!("L{}-{}", round, i % 7);
            items.push(Some(item(&format!("conv-{}", i), "succeeded", Some(&answer(&label, "s")))));
        }
    }
    let found = collect_assignments(&items);
    assert_eq!(found.len(), 20_000);
    assert_eq!(found[0].0, "conv-0");
    assert_eq!(found[0].1.cluster_label, "L1-0");
    assert_eq!(found[19_999].0, "conv-19999");
    assert_eq!(found[19_999].1.cluster_label, "L1-0");
}
