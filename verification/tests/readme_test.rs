use chatgpt_to_claude::commands::readme::{
    extra_folders, name_line, render_readme, topics_list, year_range,
};

#[test]
fn years_in_words() {
    assert_eq!(year_range(&vec![Some(0), None, Some(1_700_000_000)]), "1970–2023");
    assert_eq!(year_range(&vec![Some(1_700_000_000), Some(1_690_000_000)]), "2023");
    assert_eq!(year_range(&vec![None, None]), "Unknown");
    assert_eq!(year_range(&vec![]), "Unknown");
    assert_eq!(year_range(&vec![Some(-5)]), "1970");
}

#[test]
fn list_of_topics() {
    assert_eq!(topics_list(&vec![]), "_(none detected)_");
    assert_eq!(topics_list(&vec!["Rust".to_string()]), "- Rust");
    assert_eq!(topics_list(&vec!["Rust".to_string(), "Cooking".to_string()]), "- Rust\n- Cooking");
}

#[test]
fn line_of_the_name() {
    assert_eq!(name_line(Some("Ann")), "- **Name:** Ann");
    assert_eq!(name_line(None), "- **Name:**");
}

#[test]
fn lines_of_the_other_folders() {
    assert_eq!(extra_folders(false, false), "  data/              ← shared conversations index\n");
    assert_eq!(
        extra_folders(true, true),
        "  group-chats/       ← group conversations as markdown\n  media/             ← images (uploads & DALL-E generations)\n  data/              ← shared conversations index\n"
    );
    assert_eq!(
        extra_folders(true, false),
        "  media/             ← images (uploads & DALL-E generations)\n  data/              ← shared conversations index\n"
    );
}

#[test]
fn guide_holds_what_it_is_given() {
    let text = render_readme("Robo", 321, "2021–2024", "  data/\n", "- **Name:** Ann", "- Rust\n- Cooking");
    assert!(text.starts_with("# ChatGPT History\n\n> **For Robo — read this entire file before your first response.**\n"));
    assert!(text.contains("My complete ChatGPT conversation history: **321 conversations, 2021–2024.**"));
    assert!(text.contains("  2023/ 2024/ 2025/   ← conversations by year, one .md file each\n  data/\n```\n"));
    assert!(text.contains("> Fill this in before starting — it helps Robo make better decisions about what matters\n\n- **Name:** Ann\n- **Role:**"));
    assert!(text.contains("### Topics I work on frequently\n\n- Rust\n- Cooking\n\n### Context for Robo\n"));
    assert!(text.contains("What questions do I ask Robo most often?\n"));
    assert!(text.ends_with("_Generated from 321 conversations (2021–2024) · edit freely, this file won't be overwritten_\n"));
    assert_eq!(text.matches("Robo").count(), 4);
}
