use chatgpt_to_claude::ai::prompts::{
    build_pass1_message, build_pass2_system, build_pass2_user_message, decimal_text, truncate_chars,
    MAX_CHARS, PASS1_SYSTEM_PROMPT,
};

#[test]
fn pass1_message_wraps_the_sample() {
    assert_eq!(
        build_pass1_message("Title: A\nSnippet: hello"),
        "Here are conversation titles and opening lines from a ChatGPT export:\n\nTitle: A\nSnippet: hello\n\nGenerate 5-20 cluster labels for organizing these conversations."
    );
    assert_eq!(
        build_pass1_message(""),
        "Here are conversation titles and opening lines from a ChatGPT export:\n\n\n\nGenerate 5-20 cluster labels for organizing these conversations."
    );
}

#[test]
fn pass1_system_prompt_asks_for_labels_as_json() {
    assert!(PASS1_SYSTEM_PROMPT.starts_with("You are a conversation analyst. Given a list"));
    assert!(PASS1_SYSTEM_PROMPT.contains("identify 5-20 distinct topical cluster labels"));
    assert!(PASS1_SYSTEM_PROMPT.ends_with("{\"labels\": [\"Label 1\", \"Label 2\", ...]}. No other text."));
}

#[test]
fn pass2_system_lists_the_vocabulary_by_number() {
    let labels = vec!["Work".to_string(), "Travel plans".to_string()];
    let system = build_pass2_system(&labels);
    assert_eq!(
        system,
        "You are analyzing a ChatGPT conversation transcript. Return ONLY a JSON object with exactly these three fields:\n- \"cluster_label\": string — choose from ONLY these options:\n1. Work\n2. Travel plans\n- \"summary\": string — 3-5 sentences covering the main topic, key decisions, and conclusions. Plain English, no jargon.\n- \"instructions\": string or null — any custom instructions the user gave the AI (e.g. 'always respond in bullet points', 'use metric units', preferred tone/format). Extract from system prompts or explicit user instructions. null if none found.\nNo other text, no markdown, just valid JSON."
    );
}

#[test]
fn pass2_system_numbers_past_nine() {
    let labels: Vec<String> = (0..12).map(|i| format!("L{}", i)).collect();
    let system = build_pass2_system(&labels);
    assert!(system.contains("options:\n1. L0\n2. L1\n"));
    assert!(system.contains("\n9. L8\n10. L9\n11. L10\n12. L11\n- \"summary\""));
}

#[test]
fn pass2_system_without_labels() {
    let system = build_pass2_system(&[]);
    assert!(system.contains("choose from ONLY these options:\n\n- \"summary\""));
}

#[test]
fn pass2_user_message_keeps_short_text() {
    assert_eq!(build_pass2_user_message("hello"), "Conversation transcript:\n\nhello");
    assert_eq!(build_pass2_user_message(""), "Conversation transcript:\n\n");
    let exact = "x".repeat(MAX_CHARS);
    assert_eq!(build_pass2_user_message(&exact), format!("Conversation transcript:\n\n{}", exact));
}

#[test]
fn pass2_user_message_cuts_long_text() {
    let long = "a".repeat(9_000);
    let message = build_pass2_user_message(&long);
    assert_eq!(message, format!("Conversation transcript:\n\n{}", "a".repeat(8_000)));
}

#[test]
fn pass2_user_message_counts_characters_not_bytes() {
    let long = "é".repeat(9_000);
    let message = build_pass2_user_message(&long);
    assert_eq!(message, format!("Conversation transcript:\n\n{}", "é".repeat(8_000)));
}

#[test]
fn decimal_text_matches_display() {
    for n in [0u64, 7, 9, 10, 11, 99, 100, 101, 2024, 1_234_567_890, u64::MAX] {
        assert_eq!(decimal_text(n), n.to_string());
    }
}

#[test]
fn truncate_chars_takes_a_prefix() {
    assert_eq!(truncate_chars("héllo", 2), "hé");
    assert_eq!(truncate_chars("héllo", 5), "héllo");
    assert_eq!(truncate_chars("héllo", 9), "héllo");
    assert_eq!(truncate_chars("héllo", 0), "");
}
