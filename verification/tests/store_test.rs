use chatgpt_to_claude::ai::batch::assignment_from_fields;
use chatgpt_to_claude::pipeline::normalizer::ConversationRecord;
use chatgpt_to_claude::store::db::ConversationTable;

fn record(id: &str, title: &str, created_at: Option<i64>, text: &str) -> ConversationRecord {
    ConversationRecord {
        id: id.to_string(),
        title: title.to_string(),
        created_at,
        message_count: 2,
        has_images: false,
        has_code: false,
        token_estimate: (text.len() / 4) as u32,
        full_text: text.to_string(),
        gizmo_id: None,
    }
}

fn snapshot(table: &ConversationTable) -> Vec<String> {
    (0..table.len()).map(|i| format!("{:?}", table.row(i))).collect()
}

#[test]
fn storing_again_replaces_the_row() {
    let mut table = ConversationTable::new();
    table.insert_conversation(record("a", "First", Some(10), "one"));
    table.insert_conversation(record("b", "Second", Some(20), "two"));
    assert_eq!(table.len(), 2);
    assert!(table.update_cluster_result("a", "Work", "summary", Some("be brief")));

    table.insert_conversation(record("a", "First, renamed", Some(11), "one more"));
    assert_eq!(table.len(), 2, "no duplicate row");
    let row = table.row(0);
    assert_eq!(row.record.id, "a");
    assert_eq!(row.record.title, "First, renamed");
    assert_eq!(row.record.created_at, Some(11));
    assert_eq!(row.record.full_text, "one more");
    assert_eq!(row.cluster_label, None);
    assert_eq!(row.summary, None);
    assert_eq!(row.instructions, None);
    assert_eq!(table.row(1).record.title, "Second");
}

#[test]
fn storing_the_same_record_twice_changes_nothing() {
    let mut table = ConversationTable::new();
    table.insert_conversation(record("a", "A", None, "x"));
    table.insert_conversation(record("b", "B", None, "y"));
    let once = snapshot(&table);
    table.insert_conversation(record("b", "B", None, "y"));
    assert_eq!(snapshot(&table), once);
}

#[test]
fn enrichment_goes_to_the_row_of_the_identifier() {
    let mut table = ConversationTable::new();
    table.insert_conversation(record("a", "A", None, "x"));
    table.insert_conversation(record("b", "B", None, "y"));
    assert!(table.update_cluster_result("b", "Travel", "went places", None));
    assert_eq!(table.row(0).cluster_label, None);
    assert_eq!(table.row(1).cluster_label, Some("Travel".to_string()));
    assert_eq!(table.row(1).summary, Some("went places".to_string()));
    assert_eq!(table.row(1).instructions, None);
    assert_eq!(table.row(1).record.title, "B");

    let before = snapshot(&table);
    assert!(!table.update_cluster_result("missing", "X", "Y", Some("Z")));
    assert_eq!(snapshot(&table), before);
}

#[test]
fn reconciliation_twice_is_reconciliation_once() {
    let mut table = ConversationTable::new();
    table.insert_conversation(record("a", "A", None, "x"));
    table.insert_conversation(record("b", "B", None, "y"));
    table.insert_conversation(record("c", "C", None, "z"));
    let results = vec![
        ("c".to_string(), assignment_from_fields(Some("L3".to_string()), Some("s3".to_string()), None)),
        ("gone".to_string(), assignment_from_fields(Some("L0".to_string()), None, None)),
        ("a".to_string(), assignment_from_fields(Some("L1".to_string()), Some("s1".to_string()), Some("i1".to_string()))),
        ("c".to_string(), assignment_from_fields(Some("L3b".to_string()), Some("s3b".to_string()), None)),
    ];
    assert_eq!(table.apply_assignments(&results), 3);
    let once = snapshot(&table);
    assert_eq!(table.row(0).cluster_label, Some("L1".to_string()));
    assert_eq!(table.row(0).instructions, Some("i1".to_string()));
    assert_eq!(table.row(1).cluster_label, None);
    assert_eq!(table.row(2).cluster_label, Some("L3b".to_string()));
    assert_eq!(table.row(2).summary, Some("s3b".to_string()));

    assert_eq!(table.apply_assignments(&results), 3);
    assert_eq!(snapshot(&table), once);
}

#[test]
fn reconciliation_does_not_depend_on_the_order_of_the_results() {
    let results = vec![
        ("a".to_string(), assignment_from_fields(Some("L1".to_string()), None, None)),
        ("b".to_string(), assignment_from_fields(Some("L2".to_string()), None, None)),
    ];
    let reversed = vec![
        ("b".to_string(), assignment_from_fields(Some("L2".to_string()), None, None)),
        ("a".to_string(), assignment_from_fields(Some("L1".to_string()), None, None)),
    ];
    let mut one = ConversationTable::new();
    let mut two = ConversationTable::new();
    for table in [&mut one, &mut two] {
        table.insert_conversation(record("a", "A", None, "x"));
        table.insert_conversation(record("b", "B", None, "y"));
    }
    one.apply_assignments(&results);
    two.apply_assignments(&reversed);
    assert_eq!(snapshot(&one), snapshot(&two));
}

#[test]
fn rows_are_read_in_the_order_of_their_time() {
    let mut table = ConversationTable::new();
    table.insert_conversation(record("late", "L", Some(300), "l"));
    table.insert_conversation(record("none-1", "N1", None, "n"));
    table.insert_conversation(record("early", "E", Some(-5), "e"));
    table.insert_conversation(record("tie-1", "T1", Some(100), "t"));
    table.insert_conversation(record("none-2", "N2", None, "n"));
    table.insert_conversation(record("tie-2", "T2", Some(100), "tt"));
    let all = table.get_all_conversations();
    let ids: Vec<&str> = all.iter().map(|r| r.id.as_str()).collect();
    assert_eq!(ids, vec!["none-1", "none-2", "early", "tie-1", "tie-2", "late"]);
    assert_eq!(all[5].title, Some("L".to_string()));
    assert_eq!(all[5].full_text, "l");
    assert_eq!(all[4].token_estimate, 0);

    let export = table.get_conversations_for_export();
    let times: Vec<Option<i64>> = export.iter().map(|r| r.created_at).collect();
    assert_eq!(times, vec![None, None, Some(-5), Some(100), Some(100), Some(300)]);
    assert_eq!(export[2].id, "early");
    assert_eq!(export[2].gizmo_id, None);
}

#[test]
fn empty_table() {
    let table = ConversationTable::new();
    assert_eq!(table.len(), 0);
    assert!(table.get_all_conversations().is_empty());
    assert!(table.get_conversations_for_export().is_empty());
}

#[test]
fn many_rows() {
    let mut table = ConversationTable::new();
    for round in 0..2 {
        for i in 0..20_000i64 {
            table.insert_conversation(record(&format!("c{}", i), &format!("T{}", round), Some(i), "x"));
        }
    }
    assert_eq!(table.len(), 20_000);
    assert_eq!(table.row(19_999).record.title, "T1");
    assert!(table.update_cluster_result("c12345", "L", "S", None));
    assert_eq!(table.row(12_345).cluster_label, Some("L".to_string()));
    let all = table.get_all_conversations();
    assert_eq!(all.len(), 20_000);
    assert_eq!(all[0].id, "c0");
    assert_eq!(all[19_999].id, "c19999");
}
