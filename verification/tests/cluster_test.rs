use chatgpt_to_claude::ai::batch::{assignment_from_fields, ClusterAssignment};
use chatgpt_to_claude::commands::cluster::{
    build_estimate_text, build_requests, build_sample, estimate_cost_units, refused, Action,
    CallError,
    ClusterEvent, Report, Stage, Turn, Workflow, WorkflowError, MAX_POLLS, POLL_INTERVAL_SECS,
};
use chatgpt_to_claude::store::db::ConversationRow;

fn row(id: &str, title: Option<&str>, text: &str) -> ConversationRow {
    ConversationRow {
        id: id.to_string(),
        title: title.map(|t| t.to_string()),
        full_text: text.to_string(),
        token_estimate: (text.len() / 4) as i64,
    }
}

fn rows() -> Vec<ConversationRow> {
    vec![row("c1", Some("First"), "alpha beta"), row("c2", None, "gamma")]
}

fn assignment(label: &str) -> ClusterAssignment {
    assignment_from_fields(Some(label.to_string()), Some("s".to_string()), None)
}

fn failed(message: &str) -> CallError {
    CallError::Failed { message: message.to_string() }
}

/// A run that stands in `Polling`, with no poll made yet.
fn polling(max_polls: u32) -> Workflow {
    let mut w = Workflow::new("model-x".to_string(), max_polls);
    w.step(Report::Loaded { conversations: rows() });
    w.step(Report::TokensCounted { tokens: Ok(10) });
    w.step(Report::Discovered { labels: Ok(vec!["Work".to_string()]) });
    w.step(Report::Submitted { batch_id: Ok("batch-1".to_string()) });
    assert_eq!(w.stage(), Stage::Polling);
    assert_eq!(w.polls(), 0);
    w
}

fn error_message(turn: &Turn) -> Option<String> {
    match turn.events.last() {
        Some(ClusterEvent::Error { message }) => Some(message.clone()),
        _ => None,
    }
}

#[test]
fn run_from_start_to_end() {
    let mut w = Workflow::new("model-x".to_string(), MAX_POLLS);
    assert_eq!(w.stage(), Stage::Idle);

    let t = w.step(Report::Loaded { conversations: rows() });
    assert_eq!(w.stage(), Stage::EstimatingCost);
    assert!(matches!(t.events.as_slice(), [ClusterEvent::EstimatingTokens]));
    match &t.action {
        Action::CountTokens { text } => assert_eq!(text, "alpha beta\n\n---\n\ngamma"),
        other => panic!("unexpected {:?}", other),
    }

    let t = w.step(Report::TokensCounted { tokens: Ok(1234) });
    assert_eq!(w.stage(), Stage::DiscoveringVocabulary);
    assert!(matches!(t.events.as_slice(), [ClusterEvent::Pass1Started]));
    match &t.action {
        Action::Discover { sample } => assert_eq!(
            sample,
            "Title: First\nSnippet: alpha beta\n---\nTitle: Untitled\nSnippet: gamma"
        ),
        other => panic!("unexpected {:?}", other),
    }

    let labels = vec!["Work".to_string(), "Play".to_string()];
    let t = w.step(Report::Discovered { labels: Ok(labels.clone()) });
    assert_eq!(w.stage(), Stage::SubmittingBatch);
    match t.events.as_slice() {
        [ClusterEvent::Pass1Complete { cluster_labels }] => assert_eq!(cluster_labels, &labels),
        other => panic!("unexpected {:?}", other),
    }
    match &t.action {
        Action::Submit { requests } => {
            assert_eq!(requests.len(), 2);
            assert_eq!(requests[0].custom_id, "c1");
            assert_eq!(requests[1].custom_id, "c2");
            assert_eq!(requests[0].params.model, "model-x");
            assert!(requests[0].params.system.contains("options:\n1. Work\n2. Play\n"));
            assert_eq!(requests[1].params.messages[0].content, "Conversation transcript:\n\ngamma");
        }
        other => panic!("unexpected {:?}", other),
    }

    let t = w.step(Report::Submitted { batch_id: Ok("batch-7".to_string()) });
    assert_eq!(w.stage(), Stage::Polling);
    match t.events.as_slice() {
        [ClusterEvent::BatchSubmitted { batch_id }] => assert_eq!(batch_id, "batch-7"),
        other => panic!("unexpected {:?}", other),
    }
    assert!(matches!(t.action, Action::Wait { seconds } if seconds == POLL_INTERVAL_SECS));

    let t = w.step(Report::Waited { elapsed_secs: 5 });
    assert_eq!(w.polls(), 1);
    assert!(matches!(t.events.as_slice(), [ClusterEvent::Polling { elapsed_secs: 5 }]));
    match &t.action {
        Action::Poll { batch_id } => assert_eq!(batch_id, "batch-7"),
        other => panic!("unexpected {:?}", other),
    }

    let t = w.step(Report::Polled { status: Ok((false, None)) });
    assert_eq!(w.stage(), Stage::Polling);
    assert!(t.events.is_empty());
    assert!(matches!(t.action, Action::Wait { seconds: 5 }));

    w.step(Report::Waited { elapsed_secs: 10 });
    let t = w.step(Report::Polled { status: Ok((true, Some("https://r.test/1".to_string()))) });
    assert_eq!(w.stage(), Stage::FetchingResults);
    assert!(t.events.is_empty());
    match &t.action {
        Action::Fetch { results_url } => assert_eq!(results_url, "https://r.test/1"),
        other => panic!("unexpected {:?}", other),
    }

    let found = vec![("c2".to_string(), assignment("Play")), ("c1".to_string(), assignment("Work"))];
    let t = w.step(Report::Fetched { assignments: Ok(found) });
    assert_eq!(w.stage(), Stage::Reconciling);
    match &t.action {
        Action::Store { assignments } => {
            assert_eq!(assignments.len(), 2);
            assert_eq!(assignments[0].0, "c2");
            assert_eq!(assignments[0].1.cluster_label, "Play");
        }
        other => panic!("unexpected {:?}", other),
    }

    let t = w.step(Report::Stored);
    assert_eq!(w.stage(), Stage::Complete);
    assert!(matches!(t.events.as_slice(), [ClusterEvent::Complete { assigned_count: 2 }]));
    assert!(matches!(t.action, Action::Finish { outcome: Ok(2) }));
    assert!(!t.forget_credential);

    // nothing leads out of `Complete`
    let t = w.step(Report::Waited { elapsed_secs: 99 });
    assert_eq!(w.stage(), Stage::Complete);
    assert!(t.events.is_empty());
    assert!(matches!(t.action, Action::Finish { outcome: Ok(2) }));
}

#[test]
fn nothing_stored_ends_the_run() {
    let mut w = Workflow::new("m".to_string(), 3);
    let t = w.step(Report::Loaded { conversations: vec![] });
    assert_eq!(w.stage(), Stage::Error);
    assert_eq!(error_message(&t), Some("No conversations found in database".to_string()));
    assert_eq!(t.events.len(), 1);
    match t.action {
        Action::Finish { outcome: Err(e) } => {
            assert!(matches!(e, WorkflowError::NoConversations));
            assert_eq!(e.message(), "No conversations found in database");
        }
        other => panic!("unexpected {:?}", other),
    }
}

#[test]
fn no_labels_submits_no_batch() {
    let mut w = Workflow::new("m".to_string(), 3);
    w.step(Report::Loaded { conversations: rows() });
    w.step(Report::TokensCounted { tokens: Ok(1) });
    let t = w.step(Report::Discovered { labels: Ok(vec![]) });
    assert_eq!(w.stage(), Stage::Error);
    assert_eq!(error_message(&t), Some("Pass 1 returned no cluster labels".to_string()));
    assert!(matches!(t.action, Action::Finish { outcome: Err(WorkflowError::NoLabels) }));
    // whatever is reported afterwards, no batch is submitted
    let later = vec![
        Report::Discovered { labels: Ok(vec!["Work".to_string()]) },
        Report::Submitted { batch_id: Ok("b".to_string()) },
        Report::Waited { elapsed_secs: 5 },
        Report::Stored,
    ];
    for report in later {
        let t = w.step(report);
        assert_eq!(w.stage(), Stage::Error);
        assert!(matches!(t.action, Action::Finish { outcome: Err(WorkflowError::OutOfTurn) }));
        assert!(t.events.is_empty());
    }
}

#[test]
fn failed_discovery_is_reported_word_for_word() {
    let mut w = Workflow::new("m".to_string(), 3);
    w.step(Report::Loaded { conversations: rows() });
    w.step(Report::TokensCounted { tokens: Ok(1) });
    let t = w.step(Report::Discovered { labels: Err(failed("Pass 1 failed: overloaded")) });
    assert_eq!(w.stage(), Stage::Error);
    assert_eq!(error_message(&t), Some("Pass 1 failed: overloaded".to_string()));
    match t.action {
        Action::Finish { outcome: Err(WorkflowError::Transport { message }) } => {
            assert_eq!(message, "Pass 1 failed: overloaded")
        }
        other => panic!("unexpected {:?}", other),
    }
    assert!(!t.forget_credential);
}

#[test]
fn refused_credential_is_to_be_forgotten() {
    let mut w = Workflow::new("m".to_string(), 3);
    w.step(Report::Loaded { conversations: rows() });
    let t = w.step(Report::TokensCounted { tokens: Err(CallError::Unauthorized) });
    assert_eq!(w.stage(), Stage::Error);
    assert!(t.forget_credential);
    assert!(matches!(t.action, Action::Finish { outcome: Err(WorkflowError::InvalidCredential) }));
    assert!(error_message(&t).unwrap().starts_with("INVALID_API_KEY: Invalid API key"));
}

#[test]
fn polling_gives_up_at_the_ceiling() {
    let mut w = polling(3);
    for round in 1..=2u64 {
        let t = w.step(Report::Waited { elapsed_secs: 5 * round });
        assert!(matches!(t.action, Action::Poll { .. }));
        let t = w.step(Report::Polled { status: Ok((false, None)) });
        assert_eq!(w.stage(), Stage::Polling);
        assert!(matches!(t.action, Action::Wait { .. }));
    }
    w.step(Report::Waited { elapsed_secs: 15 });
    assert_eq!(w.polls(), 3);
    let t = w.step(Report::Polled { status: Ok((false, None)) });
    assert_eq!(w.stage(), Stage::Error);
    assert_eq!(error_message(&t), Some("Batch timed out after 1 hour".to_string()));
    assert!(matches!(t.action, Action::Finish { outcome: Err(WorkflowError::Timeout) }));
    // no poll is asked for afterwards
    let t = w.step(Report::Waited { elapsed_secs: 20 });
    assert_eq!(w.stage(), Stage::Error);
    assert!(matches!(t.action, Action::Finish { .. }));
}

#[test]
fn default_ceiling_is_an_hour_of_polls() {
    let mut w = polling(MAX_POLLS);
    let mut polls = 0u32;
    loop {
        w.step(Report::Waited { elapsed_secs: 5 * polls as u64 });
        polls += 1;
        w.step(Report::Polled { status: Ok((false, None)) });
        if w.stage() != Stage::Polling {
            break;
        }
        assert!(polls < 10_000, "the run must end");
    }
    assert_eq!(polls, 720);
    assert_eq!(w.stage(), Stage::Error);
}

#[test]
fn ceiling_of_zero_allows_one_poll() {
    let mut w = polling(0);
    w.step(Report::Waited { elapsed_secs: 5 });
    let t = w.step(Report::Polled { status: Ok((false, None)) });
    assert!(matches!(t.action, Action::Finish { outcome: Err(WorkflowError::Timeout) }));
}

#[test]
fn ended_batch_on_the_last_poll_is_not_a_timeout() {
    let mut w = polling(1);
    w.step(Report::Waited { elapsed_secs: 5 });
    let t = w.step(Report::Polled { status: Ok((true, Some("u".to_string()))) });
    assert_eq!(w.stage(), Stage::FetchingResults);
    assert!(matches!(t.action, Action::Fetch { .. }));
}

#[test]
fn ended_batch_without_results_is_an_error() {
    let mut w = polling(5);
    w.step(Report::Waited { elapsed_secs: 5 });
    let t = w.step(Report::Polled { status: Ok((true, None)) });
    assert_eq!(w.stage(), Stage::Error);
    assert_eq!(error_message(&t), Some("Batch ended with no results_url".to_string()));
    assert_eq!(t.events.len(), 1);
    match t.action {
        Action::Finish { outcome: Err(e) } => {
            assert!(matches!(e, WorkflowError::MissingResults));
            assert_eq!(e.message(), "Batch ended with no results_url");
        }
        other => panic!("unexpected {:?}", other),
    }
}

#[test]
fn failed_poll_and_failed_fetch_end_the_run() {
    let mut w = polling(5);
    w.step(Report::Waited { elapsed_secs: 5 });
    let t = w.step(Report::Polled { status: Err(failed("Batch poll failed: 500")) });
    assert_eq!(w.stage(), Stage::Error);
    assert_eq!(error_message(&t), Some("Batch poll failed: 500".to_string()));

    let mut w = polling(5);
    w.step(Report::Waited { elapsed_secs: 5 });
    w.step(Report::Polled { status: Ok((true, Some("u".to_string()))) });
    let t = w.step(Report::Fetched { assignments: Err(failed("connection reset")) });
    assert_eq!(w.stage(), Stage::Error);
    assert_eq!(error_message(&t), Some("connection reset".to_string()));
}

#[test]
fn report_out_of_turn_ends_the_run() {
    let mut w = Workflow::new("m".to_string(), 3);
    let t = w.step(Report::Stored);
    assert_eq!(w.stage(), Stage::Error);
    assert_eq!(error_message(&t), Some("Enrichment was told something out of turn".to_string()));
    match t.action {
        Action::Finish { outcome: Err(e) } => {
            assert!(matches!(e, WorkflowError::OutOfTurn));
            assert_eq!(e.message(), "Enrichment was told something out of turn");
        }
        other => panic!("unexpected {:?}", other),
    }
    // a run that has ended tells nothing more
    let t = w.step(Report::Stored);
    assert_eq!(w.stage(), Stage::Error);
    assert!(t.events.is_empty());
    assert!(matches!(t.action, Action::Finish { outcome: Err(WorkflowError::OutOfTurn) }));
}

#[test]
fn sample_takes_the_first_conversations_and_their_first_characters() {
    let many: Vec<ConversationRow> =
        (0..250).map(|i| row(&format!("c{}", i), Some(&format!("T{}", i)), &"é".repeat(300))).collect();
    let sample = build_sample(&many);
    let entries: Vec<&str> = sample.split("\n---\n").collect();
    assert_eq!(entries.len(), 200);
    assert_eq!(entries[0], format!("Title: T0\nSnippet: {}", "é".repeat(200)));
    assert_eq!(entries[199], format!("Title: T199\nSnippet: {}", "é".repeat(200)));
    assert_eq!(build_sample(&Vec::new()), "");
}

#[test]
fn estimate_text_cuts_each_conversation() {
    let rows = vec![row("a", None, &"x".repeat(8_005)), row("b", None, "short")];
    assert_eq!(build_estimate_text(&rows), format!("{}\n\n---\n\nshort", "x".repeat(8_000)));
}

#[test]
fn requests_are_keyed_by_conversation() {
    let requests = build_requests(&rows(), &vec!["A".to_string()], "m1");
    let ids: Vec<&str> = requests.iter().map(|r| r.custom_id.as_str()).collect();
    assert_eq!(ids, vec!["c1", "c2"]);
    assert!(requests.iter().all(|r| r.params.system == requests[0].params.system));
    assert_eq!(requests[0].params.messages[0].content, "Conversation transcript:\n\nalpha beta");
}

#[test]
fn cost_in_ten_millionths_of_a_dollar() {
    // 1,000,000 tokens at $0.40 per million, and 10 answers of 300 tokens at
    // $2.00 per million: $0.40 + $0.006.
    assert_eq!(estimate_cost_units(1_000_000, 10), 4_060_000);
    assert_eq!(estimate_cost_units(0, 0), 0);
    assert_eq!(estimate_cost_units(1, 1), 6_004);
    assert_eq!(
        estimate_cost_units(u64::MAX, u64::MAX),
        u64::MAX as u128 * 4 + u64::MAX as u128 * 6_000
    );
    let dollars = estimate_cost_units(2_500_000, 400) as f64 / 10_000_000.0;
    let expected = (2_500_000f64 * 0.40) / 1_000_000.0 + (400f64 * 300.0 * 2.00) / 1_000_000.0;
    assert!((dollars - expected).abs() < 1e-9);
}

#[test]
fn refusal_of_the_credential_is_told_apart() {
    assert!(matches!(refused(401, "Batch poll failed: no".to_string()), CallError::Unauthorized));
    match refused(500, "Batch poll failed: down".to_string()) {
        CallError::Failed { message } => assert_eq!(message, "Batch poll failed: down"),
        other => panic!("unexpected {:?}", other),
    }
    assert!(matches!(refused(403, String::new()), CallError::Failed { .. }));
}

#[test]
fn run_that_cannot_begin_is_told() {
    let mut w = Workflow::new(String::new(), 3);
    let t = w.step(Report::Unavailable { message: "No matching entry found in secure storage".to_string() });
    assert_eq!(w.stage(), Stage::Error);
    assert_eq!(error_message(&t), Some("No matching entry found in secure storage".to_string()));
    match t.action {
        Action::Finish { outcome: Err(WorkflowError::Unavailable { message }) } => {
            assert_eq!(message, "No matching entry found in secure storage")
        }
        other => panic!("unexpected {:?}", other),
    }
    assert!(!t.forget_credential);
}

#[test]
fn storage_that_fails_ends_the_run() {
    let mut w = polling(5);
    w.step(Report::Waited { elapsed_secs: 5 });
    w.step(Report::Polled { status: Ok((true, Some("u".to_string()))) });
    w.step(Report::Fetched { assignments: Ok(vec![("c1".to_string(), assignment("Work"))]) });
    assert_eq!(w.stage(), Stage::Reconciling);
    let t = w.step(Report::Unavailable { message: "poisoned lock".to_string() });
    assert_eq!(w.stage(), Stage::Error);
    assert_eq!(error_message(&t), Some("poisoned lock".to_string()));
    assert!(matches!(t.action, Action::Finish { outcome: Err(WorkflowError::Unavailable { .. }) }));
}
