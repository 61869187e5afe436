use chatgpt_to_claude::commands::ingest::{rough_year_of, IngestEvent, IngestProgress};
use chatgpt_to_claude::pipeline::json_parser::{ConversationExport, NodeMapping};

fn export(id: &str, create_time: Option<i64>) -> ConversationExport {
    ConversationExport {
        id: id.to_string(),
        title: Some("t".to_string()),
        create_time,
        update_time: None,
        mapping: NodeMapping::new(),
        current_node: None,
    }
}

#[test]
fn rough_year_counts_years_of_365_days() {
    assert_eq!(rough_year_of(0), 1970);
    assert_eq!(rough_year_of(31_535_999), 1970);
    assert_eq!(rough_year_of(31_536_000), 1971);
    assert_eq!(rough_year_of(1_700_000_000), 2023);
    assert_eq!(rough_year_of(1_704_067_199), 2024);
    assert_eq!(rough_year_of(-1), 1970);
    assert_eq!(rough_year_of(-31_536_000), 1969);
    assert_eq!(rough_year_of(i64::MAX), i32::MAX);
    assert_eq!(rough_year_of(i64::MIN), i32::MIN);
}

#[test]
fn events_before_and_after() {
    let opening = IngestProgress::opening_events();
    assert!(matches!(opening.as_slice(), [IngestEvent::Started, IngestEvent::ExtractingZip]));
    assert!(matches!(
        IngestProgress::parsing_event(),
        IngestEvent::ParsingConversations { processed: 0 }
    ));
    let progress = IngestProgress::new();
    assert_eq!(progress.count, 0);
    let closing = progress.closing_events();
    assert!(matches!(
        closing.as_slice(),
        [
            IngestEvent::BuildingIndex,
            IngestEvent::Complete { total: 0, earliest_year: 2020, latest_year: 2024 }
        ]
    ));
}

#[test]
fn progress_is_told_every_fifty_conversations() {
    let mut progress = IngestProgress::new();
    let mut told = Vec::new();
    for i in 0..120u32 {
        let (record, event) = progress.ingest(export(&format!("c{}", i), None));
        assert_eq!(record.id, format!("c{}", i));
        if let Some(IngestEvent::ParsingConversations { processed }) = event {
            told.push(processed);
        }
    }
    assert_eq!(told, vec![50, 100]);
    assert_eq!(progress.count, 120);
}

#[test]
fn years_span_the_times_of_the_conversations() {
    let mut progress = IngestProgress::new();
    progress.ingest(export("a", Some(1_700_000_000)));
    progress.ingest(export("b", None));
    progress.ingest(export("c", Some(1_500_000_000)));
    progress.ingest(export("d", Some(1_600_000_000)));
    assert_eq!(progress.earliest_year, 2017);
    assert_eq!(progress.latest_year, 2023);
    let closing = progress.closing_events();
    assert!(matches!(
        closing.as_slice(),
        [
            IngestEvent::BuildingIndex,
            IngestEvent::Complete { total: 4, earliest_year: 2017, latest_year: 2023 }
        ]
    ));
}

#[test]
fn count_stops_at_the_largest_number() {
    let mut progress = IngestProgress { count: u32::MAX, earliest_year: 2000, latest_year: 2001 };
    let (_, event) = progress.ingest(export("a", None));
    assert_eq!(progress.count, u32::MAX);
    assert!(event.is_none());
}
