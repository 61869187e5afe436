//! The guide that is written into the folder of an export: a text that
//! tells the reader, and the assistant that is to work with the folder, what
//! the folder holds.

use crate::ai::prompts::{decimal, decimal_text};
use crate::commands::export::{whole_days, year_after, year_of};
use crate::text::{join, strings_view};
use vstd::prelude::*;
use vstd::string::*;

verus! {

/// A stretch of the text of the guide.
pub const README_PART_1: &'static str =
    "# ChatGPT History\n\n> **For ";

/// A stretch of the text of the guide.
pub const README_PART_2: &'static str =
    " — read this entire file before your first response.**\n\n---\n\n## What's here\n\nMy complete ChatGPT conversation history: **";

/// A stretch of the text of the guide.
pub const README_PART_3: &'static str =
    " conversations, ";

/// A stretch of the text of the guide.
pub const README_PART_4: &'static str =
    ".**\n\n```\nChatGPT History/\n  2023/ 2024/ 2025/   ← conversations by year, one .md file each\n";

/// A stretch of the text of the guide.
pub const README_PART_5: &'static str =
    "```\n\nEach `.md` file is one conversation:\n\n```\n# Conversation Title\n_YYYY-MM-DD_\n---\n[full conversation text]\n```\n\n---\n\n## Your mission: help me build a working knowledge base\n\nThis is not just a history dump — I want to turn this into an active, organized workspace\nso I can find past work, pick up where I left off, and hit the ground running.\n\nWalk me through this in order. Don't skip ahead without my confirmation.\n\n---\n\n### Phase 1 — Scan and understand\n\nDo this immediately when I connect you:\n\n1. List all year folders and count the `.md` files in each\n2. Skim 20–30 file titles spread across different years\n3. Look specifically for: recurring project names, unfinished threads, topics I kept returning to\n4. Report back with:\n   - Total conversations and years covered\n   - 5–8 major themes or projects you identified from the titles\n   - 2–3 conversations that look like they might be unfinished or worth picking up\n\n---\n\n### Phase 2 — Propose a project structure\n\nBased on what you found, propose a folder structure to replace the year folders.\nPresent it clearly so I can react to it. Example format:\n\n```\nProjects/\n  [Project Name]/     ← named after a recurring project or product\n  [Project Name]/\nTopics/\n  [Theme]/            ← recurring subject area (not a specific project)\n  [Theme]/\nArchive/              ← older one-off conversations not tied to current work\n```\n\nAsk me: \"Does this structure look right? Anything to rename, merge, or add?\"\nWait for my approval before doing anything.\n\n---\n\n### Phase 3 — Organize the files\n\nOnce I approve the structure:\n\n1. Create the folders using your filesystem tools\n2. Move conversations into the right folders — use titles and dates to decide\n3. Tell me what you moved and flag anything you weren't sure about\n4. **Do not delete anything.** If a file doesn't fit, put it in Archive/\n\n---\n\n### Phase 4 — Surface what to pick up\n\nAfter organizing, give me:\n\n- The 3–5 conversations that look most like active, unfinished work\n- A one-line summary of each and where to find it\n- Your recommendation for what to tackle first\n\n---\n\n## About Me\n\n> Fill this in before starting — it helps ";

/// A stretch of the text of the guide.
pub const README_PART_6: &'static str =
    " make better decisions about what matters\n\n";

/// A stretch of the text of the guide.
pub const README_PART_7: &'static str =
    "\n- **Role:**\n- **Current focus:**\n- **Tools / stack I use:**\n\n### Topics I work on frequently\n\n";

/// A stretch of the text of the guide.
pub const README_PART_8: &'static str =
    "\n\n### Context for ";

/// A stretch of the text of the guide.
pub const README_PART_9: &'static str =
    "\n\n<!-- Ongoing projects, priorities, what \"active work\" means for me -->\n\n---\n\n## Starter prompts once you're set up\n\n```\nWhat was I in the middle of when I stopped using ChatGPT?\nFind everything related to [project or topic]\nWhat should I pick up first?\nSummarize what I was building in [year]\nWhat questions do I ask ";

/// A stretch of the text of the guide.
pub const README_PART_10: &'static str =
    " most often?\nWhat have I been trying to figure out for a long time?\n```\n\n---\n\n_Generated from ";

/// A stretch of the text of the guide.
pub const README_PART_11: &'static str =
    " conversations (";

/// A stretch of the text of the guide.
pub const README_PART_12: &'static str =
    ") · edit freely, this file won't be overwritten_\n";

/// The text of the guide: the fixed stretches, with the name of the
/// assistant, the number of conversations, the years they span, the folders
/// beside those of the years, the line of the name and the list of topics
/// in their places.
pub open spec fn readme_text(
    assistant: Seq<char>,
    count: usize,
    year_range: Seq<char>,
    extra_folders: Seq<char>,
    name_line: Seq<char>,
    topics_list: Seq<char>,
) -> Seq<char> {
    README_PART_1@ + assistant + README_PART_2@ + decimal(count as nat) + README_PART_3@ + year_range + README_PART_4@ + extra_folders + README_PART_5@ + assistant + README_PART_6@ + name_line + README_PART_7@ + topics_list + README_PART_8@ + assistant + README_PART_9@ + assistant + README_PART_10@ + decimal(count as nat) + README_PART_11@ + year_range + README_PART_12@
}

/// Builds the text of the guide.
pub fn render_readme(
    assistant: &str,
    count: usize,
    year_range: &str,
    extra_folders: &str,
    name_line: &str,
    topics_list: &str,
) -> (r: String)
    ensures
        r@ == readme_text(
            assistant@,
            count,
            year_range@,
            extra_folders@,
            name_line@,
            topics_list@,
        ),
{
    let mut out = README_PART_1.to_owned();
    out.append(assistant);
    out.append(README_PART_2);
    out.append(decimal_text(count as u64).as_str());
    out.append(README_PART_3);
    out.append(year_range);
    out.append(README_PART_4);
    out.append(extra_folders);
    out.append(README_PART_5);
    out.append(assistant);
    out.append(README_PART_6);
    out.append(name_line);
    out.append(README_PART_7);
    out.append(topics_list);
    out.append(README_PART_8);
    out.append(assistant);
    out.append(README_PART_9);
    out.append(assistant);
    out.append(README_PART_10);
    out.append(decimal_text(count as u64).as_str());
    out.append(README_PART_11);
    out.append(year_range);
    out.append(README_PART_12);
    out
}

/// What stands for the years where no conversation has a time.
pub const UNKNOWN_RANGE: &'static str = "Unknown";

/// What stands for the topics where none was found.
pub const NO_TOPICS: &'static str = "_(none detected)_";

/// The line of the folder of the group chats.
pub const GROUP_CHATS_LINE: &'static str =
    "  group-chats/       ← group conversations as markdown\n";

/// The line of the folder of the media.
pub const MEDIA_LINE: &'static str =
    "  media/             ← images (uploads & DALL-E generations)\n";

/// The line of the folder of the data.
pub const DATA_LINE: &'static str = "  data/              ← shared conversations index\n";

/// The year of a time, where it is one that an `i32` holds.
pub open spec fn small_year(ts: i64) -> Option<i32> {
    let year = year_after(whole_days(ts), 1970);
    if year <= i32::MAX {
        Some(year as i32)
    } else {
        None
    }
}

/// The earliest year among the times; the largest `i32` where there is
/// none.
pub open spec fn earliest_year(times: Seq<Option<i64>>) -> i32
    decreases times.len(),
{
    if times.len() == 0 {
        i32::MAX
    } else {
        let before = earliest_year(times.drop_last());
        match times.last() {
            Some(ts) => match small_year(ts) {
                Some(year) => if year < before {
                    year
                } else {
                    before
                },
                None => before,
            },
            None => before,
        }
    }
}

/// The latest year among the times; the smallest `i32` where there is none.
pub open spec fn latest_year(times: Seq<Option<i64>>) -> i32
    decreases times.len(),
{
    if times.len() == 0 {
        i32::MIN
    } else {
        let before = latest_year(times.drop_last());
        match times.last() {
            Some(ts) => match small_year(ts) {
                Some(year) => if year > before {
                    year
                } else {
                    before
                },
                None => before,
            },
            None => before,
        }
    }
}

/// The years that the times span, in words: one year, or the first and the
/// last with a dash between them.
pub open spec fn year_range_of(times: Seq<Option<i64>>) -> Seq<char> {
    let earliest = earliest_year(times);
    let latest = latest_year(times);
    if earliest == i32::MAX {
        UNKNOWN_RANGE@
    } else if earliest == latest {
        decimal(earliest as nat)
    } else {
        decimal(earliest as nat) + "–"@ + decimal(latest as nat)
    }
}

/// Says which years the times span.
pub fn year_range(times: &Vec<Option<i64>>) -> (r: String)
    ensures
        r@ == year_range_of(times@),
{
    let mut earliest: i32 = i32::MAX;
    let mut latest: i32 = i32::MIN;
    let mut i: usize = 0;
    assert(times@.subrange(0, 0) =~= Seq::<Option<i64>>::empty());
    while i < times.len()
        invariant
            i <= times@.len(),
            earliest == earliest_year(times@.subrange(0, i as int)),
            latest == latest_year(times@.subrange(0, i as int)),
            earliest >= 1970,
            latest >= 1970 || latest == i32::MIN,
            earliest == i32::MAX || latest >= 1970,
        decreases times@.len() - i,
    {
        let ghost next = times@.subrange(0, i + 1);
        assert(next.drop_last() =~= times@.subrange(0, i as int));
        assert(next.last() == times@[i as int]);
        match times[i] {
            Some(ts) => {
                let year = year_of(ts);
                if year <= 2147483647 {
                    let year = year as i32;
                    if year < earliest {
                        earliest = year;
                    }
                    if year > latest {
                        latest = year;
                    }
                }
            },
            None => {},
        }
        i += 1;
    }
    assert(times@.subrange(0, times@.len() as int) =~= times@);
    if earliest == i32::MAX {
        UNKNOWN_RANGE.to_owned()
    } else if earliest == latest {
        decimal_text(earliest as u64)
    } else {
        let mut out = decimal_text(earliest as u64);
        out.append("–");
        out.append(decimal_text(latest as u64).as_str());
        out
    }
}

/// The list of topics: a line for each, or a note that there are none.
pub open spec fn topics_list_of(topics: Seq<Seq<char>>) -> Seq<char> {
    if topics.len() == 0 {
        NO_TOPICS@
    } else {
        join(Seq::new(topics.len(), |i: int| "- "@ + topics[i]), "\n"@)
    }
}

/// Builds the list of topics.
pub fn topics_list(topics: &Vec<String>) -> (r: String)
    ensures
        r@ == topics_list_of(strings_view(topics@)),
{
    if topics.len() == 0 {
        return NO_TOPICS.to_owned();
    }
    let ghost wanted = Seq::new(topics@.len(), |i: int| "- "@ + topics@[i]@);
    let mut out = String::new();
    let mut i: usize = 0;
    assert(wanted.subrange(0, 0) =~= Seq::<Seq<char>>::empty());
    while i < topics.len()
        invariant
            i <= topics@.len(),
            wanted == Seq::new(topics@.len(), |i: int| "- "@ + topics@[i]@),
            out@ == join(wanted.subrange(0, i as int), "\n"@),
        decreases topics@.len() - i,
    {
        let ghost next = wanted.subrange(0, i + 1);
        assert(next.drop_last() =~= wanted.subrange(0, i as int));
        assert(next.last() == "- "@ + topics@[i as int]@);
        if i > 0 {
            out.append("\n");
        }
        out.append("- ");
        out.append(topics[i].as_str());
        assert(out@ =~= join(next, "\n"@));
        i += 1;
    }
    assert(wanted.subrange(0, topics@.len() as int) =~= wanted);
    assert(wanted =~= Seq::new(
        strings_view(topics@).len(),
        |i: int| "- "@ + strings_view(topics@)[i],
    ));
    out
}

/// The line of the name of the user.
pub open spec fn name_line_of(name: Option<Seq<char>>) -> Seq<char> {
    match name {
        Some(n) => "- **Name:** "@ + n,
        None => "- **Name:**"@,
    }
}

/// Builds the line of the name of the user.
pub fn name_line(name: Option<&str>) -> (r: String)
    ensures
        r@ == name_line_of(
            match name {
                Some(n) => Some(n@),
                None => None,
            },
        ),
{
    match name {
        Some(n) => {
            let mut out = "- **Name:** ".to_owned();
            out.append(n);
            out
        },
        None => "- **Name:**".to_owned(),
    }
}

/// The lines of the folders beside those of the years.
pub open spec fn extra_folders_of(has_media: bool, has_group_chats: bool) -> Seq<char> {
    (if has_group_chats {
        GROUP_CHATS_LINE@
    } else {
        Seq::empty()
    }) + (if has_media {
        MEDIA_LINE@
    } else {
        Seq::empty()
    }) + DATA_LINE@
}

/// Builds the lines of the folders beside those of the years.
pub fn extra_folders(has_media: bool, has_group_chats: bool) -> (r: String)
    ensures
        r@ == extra_folders_of(has_media, has_group_chats),
{
    let mut out = String::new();
    if has_group_chats {
        out.append(GROUP_CHATS_LINE);
    }
    if has_media {
        out.append(MEDIA_LINE);
    }
    out.append(DATA_LINE);
    assert(out@ =~= extra_folders_of(has_media, has_group_chats));
    out
}

} // verus!
