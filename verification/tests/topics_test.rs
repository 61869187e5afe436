use chatgpt_to_claude::commands::topics::{
    extract_top_topics, is_stopword, letters_of, split_words, token, tokens_of_title,
};

fn titles(list: &[&str]) -> Vec<String> {
    list.iter().map(|s| s.to_string()).collect()
}

#[test]
fn words_are_parted_by_white_space() {
    assert_eq!(split_words("  Rust,  project\tsetup\n"), vec!["Rust,", "project", "setup"]);
    assert_eq!(split_words(""), Vec::<String>::new());
    assert_eq!(split_words(" \u{3000} "), Vec::<String>::new());
    for title in ["a  b", " lead", "trail ", "x\u{a0}y\u{2003}z", "one"] {
        let expected: Vec<String> = title.split_whitespace().map(|w| w.to_string()).collect();
        assert_eq!(split_words(title), expected);
    }
}

#[test]
fn only_letters_count() {
    assert_eq!(letters_of("Rust,"), "Rust");
    assert_eq!(letters_of("C++"), "C");
    assert_eq!(letters_of("2024"), "");
    assert_eq!(letters_of("naïve-ish"), "naïveish");
}

#[test]
fn short_and_common_words_do_not_count() {
    assert!(token("API").is_none());
    assert!(token("using").is_none());
    assert!(token("The").is_none());
    assert!(token("12345").is_none());
    let t = token("Rust!").unwrap();
    assert_eq!((t.lower.as_str(), t.original.as_str()), ("rust", "Rust"));
    // three letters that take more than three bytes
    let t = token("Öre").unwrap();
    assert_eq!((t.lower.as_str(), t.original.as_str()), ("öre", "Öre"));
    assert!(is_stopword("about"));
    assert!(is_stopword("change"));
    assert!(!is_stopword("rust"));
    assert!(!is_stopword("About"));
}

#[test]
fn a_word_counts_once_for_each_title() {
    let tokens = tokens_of_title("Rust rust RUST and Python");
    let got: Vec<(&str, &str)> =
        tokens.iter().map(|t| (t.lower.as_str(), t.original.as_str())).collect();
    assert_eq!(got, vec![("rust", "Rust"), ("python", "Python")]);
}

#[test]
fn topics_are_the_words_of_three_titles_or_more() {
    let list = titles(&[
        "Rust project setup",
        "rust PROJECT ideas",
        "Project Rust notes",
        "Cooking pasta",
        "cooking rice",
        "Cooking soup tonight",
        "Python Python Python",
        "using using using",
        "pasta rice",
    ]);
    assert_eq!(extract_top_topics(&list, 15), vec!["Cooking", "project", "Rust"]);
    assert_eq!(extract_top_topics(&list, 2), vec!["Cooking", "project"]);
    assert_eq!(extract_top_topics(&list, 0), Vec::<String>::new());
}

#[test]
fn words_of_more_titles_come_first() {
    let list = titles(&[
        "zebra apple",
        "zebra apple",
        "zebra apple",
        "zebra mango",
        "mango",
        "mango!",
    ]);
    assert_eq!(extract_top_topics(&list, 15), vec!["zebra", "apple", "mango"]);
}

#[test]
fn no_titles_no_topics() {
    assert_eq!(extract_top_topics(&[], 15), Vec::<String>::new());
    assert_eq!(extract_top_topics(&titles(&["one title only"]), 15), Vec::<String>::new());
}

#[test]
fn many_titles() {
    // the figures behind `word` and `other` are no letters, so each of the
    // three words turns up in every title, and the dictionary decides
    let list: Vec<String> =
        (0..20_000).map(|i| format!("Common word{} other{} Common", i, i % 100)).collect();
    assert_eq!(extract_top_topics(&list, 3), vec!["Common", "other", "word"]);
    assert_eq!(extract_top_topics(&list, 2), vec!["Common", "other"]);

    let distinct: Vec<String> = (0..20_000)
        .map(|i| {
            let word: String = format!("{:05}", i)
                .chars()
                .map(|d| (b'a' + (d as u8 - b'0')) as char)
                .collect();
            format!("topic {}", word)
        })
        .collect();
    assert_eq!(extract_top_topics(&distinct, 5), vec!["topic"]);
}
