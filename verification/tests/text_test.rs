use chatgpt_to_claude::text::{
    base_name_of, begins_with, bytes_eq, chars_eq, chars_of, finishes_with, has_at, holds,
    is_space_char, join_strings, str_eq, str_less, string_of, trim_range,
};

fn chars(s: &str) -> Vec<char> {
    s.chars().collect()
}

const SAMPLES: [&str; 12] = [
    "",
    "a",
    "ab",
    "abc",
    "b",
    "B",
    "conversations-000.json",
    "conversations.json",
    "é",
    "e\u{301}",
    "日本",
    "\u{10ffff}",
];

#[test]
fn white_space_is_what_the_standard_library_says() {
    for code in 0..=0x10ffffu32 {
        if let Some(c) = char::from_u32(code) {
            assert_eq!(is_space_char(c), c.is_whitespace(), "for U+{:04X}", code);
        }
    }
}

#[test]
fn equality_of_strings() {
    for a in SAMPLES {
        for b in SAMPLES {
            assert_eq!(str_eq(a, b), a == b);
            assert_eq!(bytes_eq(a.as_bytes(), b.as_bytes()), a == b);
            assert_eq!(chars_eq(&chars(a), &chars(b)), a == b);
        }
    }
}

#[test]
fn order_of_strings_is_that_of_the_standard_library() {
    for a in SAMPLES {
        for b in SAMPLES {
            assert_eq!(str_less(a, b), a < b, "for {:?} and {:?}", a, b);
        }
    }
}

#[test]
fn characters_of_a_string() {
    for s in SAMPLES {
        assert_eq!(chars_of(s), chars(s));
    }
}

#[test]
fn joining() {
    let parts = vec!["a".to_string(), "".to_string(), "bc".to_string()];
    assert_eq!(join_strings(&parts, ", "), "a, , bc");
    assert_eq!(join_strings(&parts, ""), "abc");
    assert_eq!(join_strings(&vec!["one".to_string()], "-"), "one");
    assert_eq!(join_strings(&vec![], "-"), "");
}

#[test]
fn finding_one_string_in_another() {
    let s = chars("export/__MACOSX/file");
    assert!(begins_with(&s, &chars("export/")));
    assert!(begins_with(&s, &chars("")));
    assert!(!begins_with(&s, &chars("xport")));
    assert!(!begins_with(&chars("ab"), &chars("abc")));
    assert!(finishes_with(&s, &chars("/file")));
    assert!(finishes_with(&s, &chars("")));
    assert!(!finishes_with(&s, &chars("fil")));
    assert!(!finishes_with(&chars("le"), &chars("file")));
    assert!(holds(&s, &chars("/__MACOSX/")));
    assert!(holds(&s, &chars("export")));
    assert!(holds(&s, &chars("file")));
    assert!(holds(&s, &chars("")));
    assert!(!holds(&s, &chars("__macosx")));
    assert!(!holds(&chars("ab"), &chars("abc")));
    assert!(holds(&chars(""), &chars("")));
    assert!(has_at(&s, 7, &chars("__MACOSX")));
    assert!(!has_at(&s, 6, &chars("__MACOSX")));
}

#[test]
fn what_follows_the_last_slash() {
    assert_eq!(base_name_of(&chars("a/b/c.json")), chars("c.json"));
    assert_eq!(base_name_of(&chars("c.json")), chars("c.json"));
    assert_eq!(base_name_of(&chars("a/b/")), chars(""));
    assert_eq!(base_name_of(&chars("/")), chars(""));
    assert_eq!(base_name_of(&chars("")), chars(""));
}

#[test]
fn stretches_of_characters() {
    let s = chars("  héllo \t");
    assert_eq!(string_of(&s, 2, 7), "héllo");
    assert_eq!(string_of(&s, 3, 3), "");
    assert_eq!(trim_range(&s, 0, s.len()), (2, 7));
    assert_eq!(trim_range(&s, 3, 9), (3, 7));
    // where nothing is left, both ends stand at the end of the stretch
    assert_eq!(trim_range(&s, 7, 9), (9, 9));
    assert_eq!(trim_range(&s, 0, 2), (2, 2));
    assert_eq!(trim_range(&s, 4, 4), (4, 4));
}
