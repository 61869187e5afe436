//! The texts sent to the model in the two passes of enrichment.

use crate::text::{join, strings_view};
use vstd::prelude::*;
use vstd::string::*;

verus! {

/// The system prompt of the first pass, which asks for the labels.
pub const PASS1_SYSTEM_PROMPT: &'static str =
    "You are a conversation analyst. Given a list of conversation titles and brief excerpts from a ChatGPT export, identify 5-20 distinct topical cluster labels that would meaningfully organize this conversation history. Each label should be 2-4 words, clear, and non-overlapping. Return ONLY a JSON object with one field: {\"labels\": [\"Label 1\", \"Label 2\", ...]}. No other text.";

/// The system prompt that stands for the second pass when the tokens of a
/// run are counted.
pub const CLUSTERING_SYSTEM_PROMPT: &'static str =
    "You are a conversation analyst. Analyze the following ChatGPT conversation transcript and return a JSON object with fields: cluster_label (string), summary (string, 3-5 sentences), instructions (string or null).";

/// What stands before the sample in the message of the first pass.
pub const PASS1_HEAD: &'static str =
    "Here are conversation titles and opening lines from a ChatGPT export:\n\n";

/// What stands behind the sample in the message of the first pass.
pub const PASS1_TAIL: &'static str =
    "\n\nGenerate 5-20 cluster labels for organizing these conversations.";

/// What stands before the list of labels in the system prompt of the second
/// pass.
pub const PASS2_HEAD: &'static str =
    "You are analyzing a ChatGPT conversation transcript. Return ONLY a JSON object with exactly these three fields:\n- \"cluster_label\": string — choose from ONLY these options:\n";

/// What stands behind the list of labels in the system prompt of the second
/// pass.
pub const PASS2_TAIL: &'static str =
    "\n- \"summary\": string — 3-5 sentences covering the main topic, key decisions, and conclusions. Plain English, no jargon.\n- \"instructions\": string or null — any custom instructions the user gave the AI (e.g. 'always respond in bullet points', 'use metric units', preferred tone/format). Extract from system prompts or explicit user instructions. null if none found.\nNo other text, no markdown, just valid JSON.";

/// What stands before the transcript in the message of the second pass.
pub const PASS2_USER_HEAD: &'static str = "Conversation transcript:\n\n";

/// The most characters of a transcript that one request carries.
pub const MAX_CHARS: usize = 8_000;

/// One decimal digit, as text.
pub open spec fn digit(d: nat) -> Seq<char> {
    if d == 0 {
        "0"@
    } else if d == 1 {
        "1"@
    } else if d == 2 {
        "2"@
    } else if d == 3 {
        "3"@
    } else if d == 4 {
        "4"@
    } else if d == 5 {
        "5"@
    } else if d == 6 {
        "6"@
    } else if d == 7 {
        "7"@
    } else if d == 8 {
        "8"@
    } else {
        "9"@
    }
}

/// A number in decimal digits, without leading zeros.
pub open spec fn decimal(n: nat) -> Seq<char>
    decreases n,
{
    if n < 10 {
        digit(n)
    } else {
        decimal(n / 10) + digit(n % 10)
    }
}

/// The first `limit` characters of `s`: all of `s` where it has no more.
pub open spec fn truncated(s: Seq<char>, limit: nat) -> Seq<char> {
    if s.len() > limit {
        s.subrange(0, limit as int)
    } else {
        s
    }
}

/// The line of the label at `index`: its number, counted from one, a full
/// stop, a space, and the label.
pub open spec fn label_line(index: nat, label: Seq<char>) -> Seq<char> {
    decimal(index + 1) + ". "@ + label
}

/// The numbered lines of the labels, in order.
pub open spec fn label_lines(labels: Seq<Seq<char>>) -> Seq<Seq<char>> {
    Seq::new(labels.len(), |i: int| label_line(i as nat, labels[i]))
}

/// The message of the first pass around a sample.
pub open spec fn pass1_message(sample: Seq<char>) -> Seq<char> {
    PASS1_HEAD@ + sample + PASS1_TAIL@
}

/// The system prompt of the second pass for a vocabulary.
pub open spec fn pass2_system(labels: Seq<Seq<char>>) -> Seq<char> {
    PASS2_HEAD@ + join(label_lines(labels), "\n"@) + PASS2_TAIL@
}

/// The message of the second pass for a transcript.
pub open spec fn pass2_user_message(full_text: Seq<char>) -> Seq<char> {
    PASS2_USER_HEAD@ + truncated(full_text, MAX_CHARS as nat)
}

fn digit_text(d: u64) -> (r: &'static str)
    requires
        d < 10,
    ensures
        r@ == digit(d as nat),
{
    if d == 0 {
        "0"
    } else if d == 1 {
        "1"
    } else if d == 2 {
        "2"
    } else if d == 3 {
        "3"
    } else if d == 4 {
        "4"
    } else if d == 5 {
        "5"
    } else if d == 6 {
        "6"
    } else if d == 7 {
        "7"
    } else if d == 8 {
        "8"
    } else {
        "9"
    }
}

/// A number in decimal digits.
pub fn decimal_text(n: u64) -> (r: String)
    ensures
        r@ == decimal(n as nat),
    decreases n,
{
    if n < 10 {
        digit_text(n).to_owned()
    } else {
        let mut out = decimal_text(n / 10);
        out.append(digit_text(n % 10));
        out
    }
}

/// The first `limit` characters of `s`.
pub fn truncate_chars(s: &str, limit: usize) -> (r: &str)
    ensures
        r@ == truncated(s@, limit as nat),
{
    let n = s.unicode_len();
    if n > limit {
        s.substring_char(0, limit)
    } else {
        s
    }
}

/// Builds the message of the first pass: the sample of titles and opening
/// lines, between a heading and the request for labels.
pub fn build_pass1_message(titles_and_snippets: &str) -> (r: String)
    ensures
        r@ == pass1_message(titles_and_snippets@),
{
    let mut out = PASS1_HEAD.to_owned();
    out.append(titles_and_snippets);
    out.append(PASS1_TAIL);
    out
}

/// Builds the system prompt of the second pass, with the vocabulary in it
/// word for word: one numbered line for each label.
pub fn build_pass2_system(cluster_labels: &[String]) -> (r: String)
    ensures
        r@ == pass2_system(strings_view(cluster_labels@)),
{
    let ghost labels = strings_view(cluster_labels@);
    let ghost lines = label_lines(labels);
    let mut out = PASS2_HEAD.to_owned();
    let mut i: usize = 0;
    while i < cluster_labels.len()
        invariant
            i <= cluster_labels@.len(),
            labels == strings_view(cluster_labels@),
            lines == label_lines(labels),
            out@ == PASS2_HEAD@ + join(lines.subrange(0, i as int), "\n"@),
        decreases cluster_labels@.len() - i,
    {
        let ghost next = lines.subrange(0, i + 1);
        assert(next.drop_last() =~= lines.subrange(0, i as int));
        assert(next.last() == label_line(i as nat, cluster_labels@[i as int]@));
        if i > 0 {
            out.append("\n");
        }
        let number = decimal_text(i as u64 + 1);
        out.append(number.as_str());
        out.append(". ");
        out.append(cluster_labels[i].as_str());
        assert(out@ =~= PASS2_HEAD@ + join(next, "\n"@));
        i += 1;
    }
    assert(lines.subrange(0, lines.len() as int) =~= lines);
    out.append(PASS2_TAIL);
    out
}

/// Builds the message of the second pass: the transcript, cut off after
/// [`MAX_CHARS`] characters so that no single request grows without bound.
pub fn build_pass2_user_message(full_text: &str) -> (r: String)
    ensures
        r@ == pass2_user_message(full_text@),
{
    let mut out = PASS2_USER_HEAD.to_owned();
    out.append(truncate_chars(full_text, MAX_CHARS));
    out
}

} // verus!
