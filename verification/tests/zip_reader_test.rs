use chatgpt_to_claude::pipeline::zip_reader::{
    find_interior, is_blank, is_export_entry, is_single_entry, merge_shards,
    open_conversations_entry, read_conversations, reads_before, sort_names, ArchiveError,
};
use std::io::{Cursor, Write};
use zip::write::SimpleFileOptions;
use zip::ZipWriter;

fn archive(entries: &[(&str, &str)]) -> Vec<u8> {
    let mut writer = ZipWriter::new(Cursor::new(Vec::new()));
    for (name, data) in entries {
        writer.start_file(*name, SimpleFileOptions::default()).unwrap();
        writer.write_all(data.as_bytes()).unwrap();
    }
    writer.finish().unwrap().into_inner()
}

fn text(bytes: Vec<u8>) -> String {
    String::from_utf8(bytes).unwrap()
}

fn shards(parts: &[&str]) -> Vec<Vec<u8>> {
    parts.iter().map(|p| p.as_bytes().to_vec()).collect()
}

#[test]
fn single_shard_is_returned_byte_for_byte() {
    let data = "  [ {\"id\": \"a\"} ,\n {\"id\": \"b\"} ]  \n";
    let merged = open_conversations_entry(archive(&[("conversations.json", data)])).unwrap();
    assert_eq!(text(merged), data);
}

#[test]
fn single_shard_without_brackets_is_left_alone() {
    assert_eq!(text(merge_shards(shards(&["not an array"]))), "not an array");
}

#[test]
fn several_shards_are_merged_in_name_order() {
    let bytes = archive(&[
        ("conversations-001.json", "[{\"id\":\"c\"}]"),
        ("conversations-000.json", "[{\"id\":\"a\"},{\"id\":\"b\"}]"),
        ("conversations-002.json", " [ {\"id\":\"d\"} ] "),
    ]);
    let merged = open_conversations_entry(bytes).unwrap();
    assert_eq!(
        text(merged),
        "[{\"id\":\"a\"},{\"id\":\"b\"},{\"id\":\"c\"}, {\"id\":\"d\"} ]"
    );
}

#[test]
fn merged_shards_decode_to_the_sum_of_their_elements() {
    let merged = merge_shards(shards(&["[1, 2]", "[]", "[3]", " [ ] ", "[4, 5, 6]"]));
    assert_eq!(text(merged.clone()), "[1, 2,3,4, 5, 6]");
    let values: Vec<serde_json::Value> = serde_json::from_slice(&merged).unwrap();
    assert_eq!(values.len(), 6);
}

#[test]
fn empty_and_broken_shards_add_nothing() {
    assert_eq!(text(merge_shards(shards(&["[]", "[ \n\t ]"]))), "[]");
    assert_eq!(text(merge_shards(shards(&["[1]", "no brackets", "2]", "[3", "[4]"]))), "[1,4]");
    assert_eq!(text(merge_shards(shards(&[]))), "[]");
}

#[test]
fn interior_runs_from_first_open_to_last_close() {
    assert_eq!(text(merge_shards(shards(&["x[1]y]z", "[[2]]"]))), "[1]y,[2]]");
}

#[test]
fn platform_metadata_is_passed_over() {
    let bytes = archive(&[
        ("__MACOSX/._conversations.json", "[\"junk\"]"),
        ("export/__MACOSX/conversations.json", "[\"junk\"]"),
        ("export/._conversations-000.json", "[\"junk\"]"),
        ("export/conversations.json", "[\"kept\"]"),
        ("export/user.json", "{}"),
    ]);
    assert_eq!(text(open_conversations_entry(bytes).unwrap()), "[\"kept\"]");
}

#[test]
fn entry_names_that_hold_conversations() {
    assert!(is_export_entry("conversations.json"));
    assert!(is_export_entry("some/dir/conversations.json"));
    assert!(is_export_entry("conversations-000.json"));
    assert!(is_export_entry("a/conversations-123.json"));
    assert!(is_export_entry("conversations-.json"));
    assert!(!is_export_entry("conversations.json.bak"));
    assert!(!is_export_entry("shared_conversations.json"));
    assert!(!is_export_entry("conversations-000.txt"));
    assert!(!is_export_entry("conversations.json/"));
    assert!(!is_export_entry("__MACOSX/conversations.json"));
    assert!(!is_export_entry("a/__MACOSX/conversations.json"));
    assert!(!is_export_entry("a/._conversations.json"));
    assert!(is_export_entry("a__MACOSX/conversations.json"));
    assert!(!is_export_entry(""));
}

#[test]
fn shards_sort_as_strings_do() {
    let names: Vec<String> = [
        "conversations-010.json",
        "b/conversations-000.json",
        "conversations-002.json",
        "",
        "Conversations.json",
        "conversations-002.json",
        "é.json",
        "z.json",
    ]
    .iter()
    .map(|s| s.to_string())
    .collect();
    let mut expected = names.clone();
    expected.sort();
    assert_eq!(sort_names(&names), expected);
}

#[test]
fn single_file_sorts_before_every_shard() {
    let names: Vec<String> = [
        "conversations-010.json",
        "z/conversations.json",
        "b/conversations-000.json",
        "conversations.json",
        "conversations-002.json",
        "a/conversations.json",
    ]
    .iter()
    .map(|s| s.to_string())
    .collect();
    assert_eq!(
        sort_names(&names),
        vec![
            "a/conversations.json",
            "conversations.json",
            "z/conversations.json",
            "b/conversations-000.json",
            "conversations-002.json",
            "conversations-010.json",
        ]
    );
    assert!(is_single_entry("conversations.json"));
    assert!(is_single_entry("export/conversations.json"));
    assert!(!is_single_entry("conversations-000.json"));
    assert!(!is_single_entry("conversations.json/x"));
    assert!(reads_before("conversations.json", "conversations-000.json"));
    assert!(!reads_before("conversations-000.json", "conversations.json"));
    assert!(reads_before("conversations-000.json", "conversations-001.json"));
    assert!(!reads_before("conversations.json", "conversations.json"));
}

#[test]
fn single_file_is_merged_before_the_numbered_shards() {
    let bytes = archive(&[
        ("conversations-001.json", "[\"second shard\"]"),
        ("conversations.json", "[\"single\"]"),
        ("conversations-000.json", "[\"first shard\"]"),
    ]);
    assert_eq!(
        text(open_conversations_entry(bytes).unwrap()),
        "[\"single\",\"first shard\",\"second shard\"]"
    );
}

#[test]
fn merge_does_not_depend_on_the_order_of_the_entries() {
    let entries = [
        ("conversations.json", "[0]"),
        ("conversations-000.json", "[1]"),
        ("conversations-001.json", "[ ]"),
        ("conversations-002.json", "[2, 3]"),
    ];
    let forwards = archive(&entries);
    let mut reversed = entries;
    reversed.reverse();
    let backwards = archive(&reversed);
    assert_eq!(text(open_conversations_entry(forwards).unwrap()), "[0,1,2, 3]");
    assert_eq!(text(open_conversations_entry(backwards).unwrap()), "[0,1,2, 3]");
}

#[test]
fn archive_without_conversations_is_not_found() {
    let bytes = archive(&[("user.json", "{}"), ("chat.html", "<html></html>")]);
    let error = open_conversations_entry(bytes).unwrap_err();
    assert!(matches!(error, ArchiveError::NotFound));
    assert_eq!(error.message(), "conversations.json not found in ZIP");
}

#[test]
fn bytes_that_are_no_archive_are_invalid() {
    let error = open_conversations_entry(b"this is not a zip file".to_vec()).unwrap_err();
    assert!(matches!(error, ArchiveError::Invalid { .. }));
    assert!(error.message().starts_with("Invalid ZIP: "));
    assert!(error.message().len() > "Invalid ZIP: ".len());
}

#[test]
fn entry_that_cannot_be_read_is_unreadable() {
    let mut writer = ZipWriter::new(Cursor::new(Vec::new()));
    let stored = SimpleFileOptions::default().compression_method(zip::CompressionMethod::Stored);
    writer.start_file("conversations-000.json", stored).unwrap();
    writer.write_all(b"[\"first shard\"]").unwrap();
    writer.start_file("conversations-001.json", stored).unwrap();
    writer.write_all(b"[\"SECOND-SHARD-MARK\"]").unwrap();
    let mut bytes = writer.finish().unwrap().into_inner();
    // damage the data of the second entry, so that its checksum fails
    let mark = b"SECOND-SHARD-MARK";
    let at = bytes.windows(mark.len()).position(|w| w == mark).unwrap();
    bytes[at] = b'X';
    match open_conversations_entry(bytes) {
        Err(ArchiveError::Unreadable { name, reason }) => {
            assert_eq!(name, "conversations-001.json");
            assert!(!reason.is_empty());
        }
        other => panic!("unexpected {:?}", other),
    }
}

#[test]
fn unreadable_error_names_the_entry() {
    let error = ArchiveError::Unreadable {
        name: "conversations-001.json".to_string(),
        reason: "crc mismatch".to_string(),
    };
    assert_eq!(error.message(), "Cannot read conversations-001.json: crc mismatch");
}

#[test]
fn interior_of_a_shard() {
    assert_eq!(find_interior(&b"[1, 2]".to_vec()), Some((1, 5)));
    assert_eq!(find_interior(&b"  [ ] ".to_vec()), Some((3, 4)));
    assert_eq!(find_interior(&b"[]".to_vec()), Some((1, 1)));
    assert_eq!(find_interior(&b"x[[1]]y]z".to_vec()), Some((2, 7)));
    assert_eq!(find_interior(&b"no brackets".to_vec()), None);
    assert_eq!(find_interior(&b"]  [".to_vec()), None);
    assert_eq!(find_interior(&b"[".to_vec()), None);
    assert_eq!(find_interior(&b"".to_vec()), None);
}

#[test]
fn blank_bytes_are_those_of_ascii_white_space() {
    for b in 0..=255u8 {
        assert_eq!(is_blank(b), b.is_ascii_whitespace(), "for byte {}", b);
    }
}

#[test]
fn open_archive_can_be_read_more_than_once() {
    let bytes = archive(&[
        ("conversations-000.json", "[1]"),
        ("conversations-001.json", "[2]"),
    ]);
    let mut opened = zip::ZipArchive::new(Cursor::new(bytes)).unwrap();
    let first = read_conversations(&mut opened).unwrap();
    let second = read_conversations(&mut opened).unwrap();
    assert_eq!(text(first), "[1,2]");
    assert_eq!(text(second), "[1,2]");
}
