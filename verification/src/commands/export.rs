//! Export of the stored conversations to files: what each file is called
//! and what it holds. Writing the files is done elsewhere.

use crate::ai::batch::{json_string_member, member_or_none, string_member};
use crate::ai::prompts::{decimal, decimal_text, digit, truncate_chars, truncated};
use crate::pipeline::json_parser::opt_str_view;
use crate::pipeline::normalizer::UNTITLED;
use crate::store::db::ExportRow;
use crate::text::{
    alphanumeric, base_name, base_name_of, chars_eq, chars_of, finishes_with, holds, join,
    lowercased, occurs_in, string_of, trim_range, trimmed,
};
use vstd::hash_map::StringHashMap;
use vstd::prelude::*;
use vstd::string::*;

verus! {

/// What an export has done.
#[derive(Debug)]
pub struct ExportResult {
    pub files_written: usize,
    pub folder_path: String,
    pub mcp_configured: bool,
    pub media_extracted: usize,
}

/// The seconds of a day.
pub const SECONDS_PER_DAY: i64 = 86_400;

/// The most whole days that a time in seconds comes to, whichever its sign.
pub const MAX_DAYS: i64 = 106_751_991_167_301;

/// A year that no time in seconds reaches.
pub const MAX_YEAR: i64 = 292_471_210_647;

/// The days of four hundred years in a row, whichever the first.
pub const DAYS_PER_CYCLE: i64 = 146_097;

/// Whether `year` is a leap year.
pub open spec fn leap(year: int) -> bool {
    (year % 4 == 0 && year % 100 != 0) || year % 400 == 0
}

/// The days of `year`.
pub open spec fn days_in_year(year: int) -> int {
    if leap(year) {
        366
    } else {
        365
    }
}

/// The days of the month `month` of `year`, the months counted from one.
pub open spec fn days_in_month(year: int, month: int) -> int {
    if month == 2 {
        if leap(year) {
            29
        } else {
            28
        }
    } else if month == 4 || month == 6 || month == 9 || month == 11 {
        30
    } else {
        31
    }
}

/// The year in which the day falls that comes `days` days after the first
/// day of `year`. A day before that one counts as one of `year`.
pub open spec fn year_after(days: int, year: int) -> int
    decreases days,
{
    if days < days_in_year(year) {
        year
    } else {
        year_after(days - days_in_year(year), year + 1)
    }
}

/// What is left of `days` once the whole years from `year` on are taken
/// off: the place of the day within its year.
pub open spec fn day_of_year(days: int, year: int) -> int
    decreases days,
{
    if days < days_in_year(year) {
        days
    } else {
        day_of_year(days - days_in_year(year), year + 1)
    }
}

/// The month in which the day falls that comes `days` days after the first
/// day of `month`, the last month taking all that is left.
pub open spec fn month_after(days: int, year: int, month: int) -> int
    decreases 13 - month,
{
    if month > 12 || days < days_in_month(year, month) {
        month
    } else {
        month_after(days - days_in_month(year, month), year, month + 1)
    }
}

/// What is left of `days` once the whole months from `month` on are taken
/// off: the place of the day within its month.
pub open spec fn day_of_month(days: int, year: int, month: int) -> int
    decreases 13 - month,
{
    if month > 12 || days < days_in_month(year, month) {
        days
    } else {
        day_of_month(days - days_in_month(year, month), year, month + 1)
    }
}

/// The whole days of `ts` seconds, rounded towards zero.
pub open spec fn whole_days(ts: i64) -> int {
    if ts >= 0 {
        ts as int / SECONDS_PER_DAY as int
    } else {
        -((-ts) / SECONDS_PER_DAY as int)
    }
}

/// A number in at least two digits, with its sign where it is negative.
pub open spec fn two_digits(n: int) -> Seq<char> {
    if n < 0 {
        "-"@ + decimal((-n) as nat)
    } else if n < 10 {
        "0"@ + digit(n as nat)
    } else {
        decimal(n as nat)
    }
}

/// The year of a time in seconds since the epoch, in digits.
pub open spec fn year_text(ts: i64) -> Seq<char> {
    decimal(year_after(whole_days(ts), 1970) as nat)
}

/// The date of a time in seconds since the epoch: year, month and day, with
/// hyphens between them.
pub open spec fn date_text(ts: i64) -> Seq<char> {
    let year = year_after(whole_days(ts), 1970);
    let rest = day_of_year(whole_days(ts), 1970);
    year_text(ts) + "-"@ + two_digits(month_after(rest, year, 1)) + "-"@ + two_digits(
        day_of_month(rest, year, 1) + 1,
    )
}

/// A year before the common era is a leap year exactly when the year as far
/// behind it is one.
proof fn lemma_leap_mirrored(year: int)
    ensures
        leap(-year) == leap(year),
{
    assert(((-year) % 4 == 0) == (year % 4 == 0));
    assert(((-year) % 100 == 0) == (year % 100 == 0));
    assert(((-year) % 400 == 0) == (year % 400 == 0));
}

/// Whether `year` is a leap year.
pub fn is_leap(year: i32) -> (r: bool)
    ensures
        r == leap(year as int),
{
    if year >= 0 {
        leap_year(year as i64)
    } else {
        proof {
            lemma_leap_mirrored(year as int);
        }
        leap_year(-(year as i64))
    }
}

fn leap_year(year: i64) -> (r: bool)
    requires
        year >= 0,
    ensures
        r == leap(year as int),
{
    (year % 4 == 0 && year % 100 != 0) || year % 400 == 0
}

fn days_of(ts: i64) -> (r: i64)
    ensures
        r == whole_days(ts),
        -MAX_DAYS <= r <= MAX_DAYS,
{
    let wide: i128 = ts as i128;
    let days: i128 = if wide >= 0 {
        wide / 86_400
    } else {
        -((-wide) / 86_400)
    };
    days as i64
}

/// The days of the `count` years from `year` on.
pub open spec fn days_of_years(year: int, count: nat) -> int
    decreases count,
{
    if count == 0 {
        0
    } else {
        days_in_year(year) + days_of_years(year + 1, (count - 1) as nat)
    }
}

/// How many leap years there are from the year nought up to `year`, that
/// year left out.
pub open spec fn leap_years_before(year: int) -> int {
    (year + 3) / 4 - (year + 99) / 100 + (year + 399) / 400
}

/// From one year to the next the count of leap years grows by one exactly
/// behind a leap year.
proof fn lemma_leap_step(year: int)
    requires
        year >= 0,
    ensures
        leap_years_before(year + 1) - leap_years_before(year) == if leap(year) {
            1int
        } else {
            0int
        },
{
    assert((year + 4) / 4 - (year + 3) / 4 == if year % 4 == 0 { 1int } else { 0int });
    assert((year + 100) / 100 - (year + 99) / 100 == if year % 100 == 0 { 1int } else { 0int });
    assert((year + 400) / 400 - (year + 399) / 400 == if year % 400 == 0 { 1int } else { 0int });
    assert(year % 100 == 0 ==> year % 4 == 0);
    assert(year % 400 == 0 ==> year % 100 == 0);
}

/// The days of a run of years: 365 for each, and one more for each leap
/// year among them.
proof fn lemma_days_of_years(year: int, count: nat)
    requires
        year >= 0,
    ensures
        days_of_years(year, count) == 365 * count + leap_years_before(year + count)
            - leap_years_before(year),
    decreases count,
{
    if count > 0 {
        lemma_leap_step(year);
        lemma_days_of_years(year + 1, (count - 1) as nat);
    }
}

/// Any four hundred years in a row have the same number of days.
proof fn lemma_four_hundred_years(year: int)
    requires
        year >= 0,
    ensures
        days_of_years(year, 400) == DAYS_PER_CYCLE,
{
    lemma_days_of_years(year, 400);
    assert((year + 403) / 4 == (year + 3) / 4 + 100);
    assert((year + 499) / 100 == (year + 99) / 100 + 4);
    assert((year + 799) / 400 == (year + 399) / 400 + 1);
}

/// Taking whole years off the days moves the year on by as many.
proof fn lemma_skip_years(days: int, year: int, count: nat)
    requires
        days >= days_of_years(year, count),
    ensures
        year_after(days, year) == year_after(days - days_of_years(year, count), year + count),
        day_of_year(days, year) == day_of_year(days - days_of_years(year, count), year + count),
    decreases count,
{
    if count > 0 {
        assert(days_of_years(year + 1, (count - 1) as nat) >= 0) by {
            lemma_days_nonnegative(year + 1, (count - 1) as nat);
        }
        lemma_skip_years(days - days_in_year(year), year + 1, (count - 1) as nat);
    }
}

proof fn lemma_days_nonnegative(year: int, count: nat)
    ensures
        days_of_years(year, count) >= 0,
    decreases count,
{
    if count > 0 {
        lemma_days_nonnegative(year + 1, (count - 1) as nat);
    }
}

/// Taking whole runs of four hundred years off the days moves the year on
/// by four hundred for each.
proof fn lemma_skip_cycles(days: int, year: int, cycles: nat)
    requires
        year >= 0,
        days >= DAYS_PER_CYCLE * cycles,
    ensures
        year_after(days, year) == year_after(days - DAYS_PER_CYCLE * cycles, year + 400 * cycles),
        day_of_year(days, year) == day_of_year(days - DAYS_PER_CYCLE * cycles, year + 400 * cycles),
    decreases cycles,
{
    if cycles > 0 {
        lemma_four_hundred_years(year);
        lemma_skip_years(days, year, 400);
        lemma_skip_cycles(days - DAYS_PER_CYCLE, year + 400, (cycles - 1) as nat);
    }
}

/// The year of `days` days since the epoch, and the place of the day within
/// that year. Whole runs of four hundred years are taken off at once, so
/// that what is left to count is less than four hundred years.
fn split_year(days: i64) -> (r: (i64, i64))
    requires
        -MAX_DAYS <= days <= MAX_DAYS,
    ensures
        r.0 == year_after(days as int, 1970),
        r.1 == day_of_year(days as int, 1970),
        1970 <= r.0 <= MAX_YEAR,
        r.1 <= 365,
        r.1 <= days,
        days >= 0 ==> r.1 >= 0,
        days < 0 ==> r.1 == days,
{
    if days < 0 {
        return (1970, days);
    }
    let cycles: i64 = days / DAYS_PER_CYCLE;
    let mut left: i64 = days % DAYS_PER_CYCLE;
    let mut year: i64 = 1970 + 400 * cycles;
    proof {
        lemma_skip_cycles(days as int, 1970, cycles as nat);
    }
    loop
        invariant
            1970 <= year,
            0 <= left <= days,
            365 * (year - 1970) + left <= days,
            days <= MAX_DAYS,
            year_after(days as int, 1970) == year_after(left as int, year as int),
            day_of_year(days as int, 1970) == day_of_year(left as int, year as int),
        ensures
            1970 <= year <= MAX_YEAR,
            0 <= left < days_in_year(year as int),
            left <= days,
            year_after(days as int, 1970) == year,
            day_of_year(days as int, 1970) == left,
        decreases left,
    {
        let length: i64 = if leap_year(year) {
            366
        } else {
            365
        };
        if left < length {
            break ;
        }
        left -= length;
        year += 1;
    }
    (year, left)
}

fn month_length(year: i64, month: i64) -> (r: i64)
    requires
        year >= 0,
    ensures
        r == days_in_month(year as int, month as int),
{
    if month == 2 {
        if leap_year(year) {
            29
        } else {
            28
        }
    } else if month == 4 || month == 6 || month == 9 || month == 11 {
        30
    } else {
        31
    }
}

fn two_digit_text(n: i64) -> (r: String)
    requires
        n > i64::MIN,
    ensures
        r@ == two_digits(n as int),
{
    if n < 0 {
        let mut out = "-".to_owned();
        out.append(decimal_text((-n) as u64).as_str());
        out
    } else if n < 10 {
        let mut out = "0".to_owned();
        out.append(decimal_text(n as u64).as_str());
        out
    } else {
        decimal_text(n as u64)
    }
}

/// The year of a time in seconds since the epoch. A time before the epoch
/// counts as one of 1970.
pub fn year_of(ts: i64) -> (r: i64)
    ensures
        r == year_after(whole_days(ts), 1970),
        r >= 1970,
{
    split_year(days_of(ts)).0
}

/// The year of a time in seconds since the epoch, in digits. A time before
/// the epoch counts as one of 1970.
pub fn unix_to_year(ts: i64) -> (r: String)
    ensures
        r@ == year_text(ts),
{
    let (year, _) = split_year(days_of(ts));
    decimal_text(year as u64)
}

/// The date of a time in seconds since the epoch, as year, month and day
/// with hyphens between them.
pub fn unix_to_date_str(ts: i64) -> (r: String)
    ensures
        r@ == date_text(ts),
{
    let (year, rest) = split_year(days_of(ts));
    let mut left: i64 = rest;
    let mut month: i64 = 1;
    while month <= 12 && left >= month_length(year, month)
        invariant
            1 <= month <= 13,
            year >= 1970,
            left <= rest,
            rest <= 365,
            rest >= -MAX_DAYS,
            rest >= 0 ==> left >= 0,
            rest < 0 ==> left == rest,
            month_after(rest as int, year as int, 1) == month_after(left as int, year as int, month as int),
            day_of_month(rest as int, year as int, 1) == day_of_month(
                left as int,
                year as int,
                month as int,
            ),
        decreases 13 - month,
    {
        left -= month_length(year, month);
        month += 1;
    }
    let mut out = decimal_text(year as u64);
    out.append("-");
    out.append(two_digit_text(month).as_str());
    out.append("-");
    out.append(two_digit_text(left + 1).as_str());
    out
}

/// The most characters that a slug has.
pub const SLUG_CHARS: usize = 60;

/// What a character becomes in a slug: a letter or a number the first
/// character of its lower case, everything else a hyphen.
pub open spec fn slug_char(c: char) -> char {
    if alphanumeric(c) && lowercased(seq![c]).len() > 0 {
        lowercased(seq![c])[0]
    } else {
        '-'
    }
}

/// What a character becomes in a slug.
pub fn slug_char_of(c: char) -> (r: char)
    ensures
        r == slug_char(c),
{
    if !c.is_alphanumeric() {
        return '-';
    }
    let mut one = String::new();
    one.push(c);
    assert(one@ =~= seq![c]);
    let lower = chars_of(one.as_str().to_lowercase().as_str());
    if lower.len() > 0 {
        lower[0]
    } else {
        '-'
    }
}

/// Each character of `s` as it stands in a slug.
pub open spec fn slug_chars(s: Seq<char>) -> Seq<char> {
    Seq::new(s.len(), |i: int| slug_char(s[i]))
}

/// The words of `m`: its longest stretches without a hyphen.
pub open spec fn hyphen_words(m: Seq<char>) -> Seq<Seq<char>>
    decreases m.len(),
{
    if m.len() == 0 {
        Seq::empty()
    } else if m.last() == '-' {
        hyphen_words(m.drop_last())
    } else if m.len() > 1 && m[m.len() - 2] != '-' {
        let words = hyphen_words(m.drop_last());
        words.drop_last().push(words.last().push(m.last()))
    } else {
        hyphen_words(m.drop_last()).push(seq![m.last()])
    }
}

/// The slug of a title: its letters and numbers in lower case, one hyphen
/// wherever anything else stands between them, none at the beginning or the
/// end; cut off after [`SLUG_CHARS`] characters.
pub open spec fn slug(s: Seq<char>) -> Seq<char> {
    truncated(join(hyphen_words(slug_chars(s)), "-"@), SLUG_CHARS as nat)
}

proof fn lemma_hyphen_words(m: Seq<char>)
    ensures
        forall|i: int| 0 <= i < hyphen_words(m).len() ==> (#[trigger] hyphen_words(m)[i]).len() > 0,
        m.len() > 0 && m.last() != '-' ==> hyphen_words(m).len() > 0,
        hyphen_words(m).len() > 0 ==> join(hyphen_words(m), "-"@).len() > 0,
    decreases m.len(),
{
    if m.len() > 0 {
        lemma_hyphen_words(m.drop_last());
        let words = hyphen_words(m);
        if words.len() > 0 {
            assert(words.last().len() > 0);
        }
    }
}

/// Makes the slug of a title, of which a file name is made.
pub fn slugify(s: &str) -> (r: String)
    ensures
        r@ == slug(s@),
{
    let chars = chars_of(s);
    let ghost mapped = slug_chars(chars@);
    let mut out = String::new();
    let mut after_hyphen = true;
    let mut i: usize = 0;
    assert(mapped.subrange(0, 0) =~= Seq::<char>::empty());
    while i < chars.len()
        invariant
            i <= chars@.len(),
            mapped == slug_chars(chars@),
            out@ == join(hyphen_words(mapped.subrange(0, i as int)), "-"@),
            after_hyphen == (i == 0 || mapped[i - 1] == '-'),
        decreases chars@.len() - i,
    {
        let ghost seen = mapped.subrange(0, i as int);
        let ghost next = mapped.subrange(0, i + 1);
        assert(next.drop_last() =~= seen);
        assert(next.last() == mapped[i as int]);
        let m = slug_char_of(chars[i]);
        assert(m == mapped[i as int]);
        proof {
            lemma_hyphen_words(seen);
            reveal_strlit("-");
        }
        if m == '-' {
            after_hyphen = true;
        } else {
            let ghost words = hyphen_words(seen);
            if after_hyphen {
                if out.as_str().unicode_len() > 0 {
                    out.push('-');
                }
                out.push(m);
                assert(hyphen_words(next) == words.push(seq![m]));
                assert(hyphen_words(next).drop_last() =~= words);
                assert(out@ =~= join(hyphen_words(next), "-"@));
            } else {
                out.push(m);
                assert(next[next.len() - 2] == mapped[i - 1]);
                assert(hyphen_words(next) == words.drop_last().push(words.last().push(m)));
                assert(hyphen_words(next).drop_last() =~= words.drop_last());
                assert(out@ =~= join(hyphen_words(next), "-"@));
            }
            after_hyphen = false;
        }
        i += 1;
    }
    assert(mapped.subrange(0, chars@.len() as int) =~= mapped);
    truncate_chars(out.as_str(), SLUG_CHARS).to_owned()
}

/// The folder of a conversation whose time of creation is not known.
pub const UNKNOWN_YEAR: &'static str = "Unknown";

/// The folder of the group chats.
pub const GROUP_CHATS_FOLDER: &'static str = "group-chats";

/// The title of a group chat that has no name.
pub const UNTITLED_GROUP_CHAT: &'static str = "Untitled Group Chat";

/// How many characters of the time of a group chat make its date.
pub const DATE_CHARS: usize = 10;

/// One file of the export: the folder it goes to, its name, and what it
/// holds.
#[derive(Debug)]
pub struct ExportFile {
    pub folder: String,
    pub file_name: String,
    pub content: String,
}

pub struct ExportFileView {
    pub folder: Seq<char>,
    pub file_name: Seq<char>,
    pub content: Seq<char>,
}

impl View for ExportFile {
    type V = ExportFileView;

    open spec fn view(&self) -> ExportFileView {
        ExportFileView { folder: self.folder@, file_name: self.file_name@, content: self.content@ }
    }
}

/// A file that has no name yet: the folder it goes to, the slug of its
/// title, and what it holds.
#[derive(Debug)]
pub struct Draft {
    pub folder: String,
    pub slug: String,
    pub content: String,
}

pub struct DraftView {
    pub folder: Seq<char>,
    pub slug: Seq<char>,
    pub content: Seq<char>,
}

impl View for Draft {
    type V = DraftView;

    open spec fn view(&self) -> DraftView {
        DraftView { folder: self.folder@, slug: self.slug@, content: self.content@ }
    }
}

/// The views of a run of drafts, in order.
pub open spec fn drafts_view(drafts: Seq<Draft>) -> Seq<DraftView> {
    Seq::new(drafts.len(), |i: int| drafts[i]@)
}

/// What tells the files of one folder apart: the folder and the slug.
pub open spec fn draft_key(draft: DraftView) -> Seq<char> {
    draft.folder + "/"@ + draft.slug
}

/// How many of `drafts` have the key `key`.
pub open spec fn count_key(drafts: Seq<DraftView>, key: Seq<char>) -> nat
    decreases drafts.len(),
{
    if drafts.len() == 0 {
        0
    } else {
        count_key(drafts.drop_last(), key) + if draft_key(drafts.last()) == key {
            1nat
        } else {
            0nat
        }
    }
}

/// The name of the file with the slug `slug` before which `earlier` files
/// of its folder had the same slug: the first takes the slug as its name,
/// each later one has its number behind it.
pub open spec fn file_name_of(slug: Seq<char>, earlier: nat) -> Seq<char> {
    if earlier == 0 {
        slug + ".md"@
    } else {
        slug + "-"@ + decimal(earlier) + ".md"@
    }
}

/// The file that the draft at `index` among `drafts` becomes.
pub open spec fn named_file(drafts: Seq<DraftView>, index: int) -> ExportFileView {
    let draft = drafts[index];
    ExportFileView {
        folder: draft.folder,
        file_name: file_name_of(draft.slug, count_key(drafts.subrange(0, index), draft_key(draft))),
        content: draft.content,
    }
}

proof fn lemma_count_key_bound(drafts: Seq<DraftView>, key: Seq<char>)
    ensures
        count_key(drafts, key) <= drafts.len(),
    decreases drafts.len(),
{
    if drafts.len() > 0 {
        lemma_count_key_bound(drafts.drop_last(), key);
    }
}

/// Gives each draft its file name. Drafts of one folder with the same slug
/// get different names: the first the slug itself, each later one with its
/// number behind it.
pub fn name_files(drafts: Vec<Draft>) -> (r: Vec<ExportFile>)
    ensures
        r@.len() == drafts@.len(),
        forall|i: int|
            0 <= i < drafts@.len() ==> (#[trigger] r@[i])@ == named_file(drafts_view(drafts@), i),
{
    let ghost all = drafts_view(drafts@);
    let mut files: Vec<ExportFile> = Vec::new();
    let mut seen: StringHashMap<usize> = StringHashMap::new();
    let mut i: usize = 0;
    while i < drafts.len()
        invariant
            i <= drafts@.len(),
            all == drafts_view(drafts@),
            files@.len() == i,
            forall|j: int| 0 <= j < i ==> (#[trigger] files@[j])@ == named_file(all, j),
            forall|key: Seq<char>|
                seen@.contains_key(key) ==> #[trigger] seen@[key] == count_key(
                    all.subrange(0, i as int),
                    key,
                ),
            forall|key: Seq<char>|
                !seen@.contains_key(key) ==> #[trigger] count_key(all.subrange(0, i as int), key)
                    == 0,
        decreases drafts@.len() - i,
    {
        let ghost before = all.subrange(0, i as int);
        let ghost next = all.subrange(0, i + 1);
        assert(next.drop_last() =~= before);
        assert(next.last() == drafts@[i as int]@);
        let draft = &drafts[i];
        let mut key = draft.folder.clone();
        key.append("/");
        key.append(draft.slug.as_str());
        assert(key@ == draft_key(draft@));
        let earlier: usize = match seen.get(key.as_str()) {
            Some(n) => *n,
            None => 0,
        };
        proof {
            lemma_count_key_bound(before, key@);
        }
        let mut file_name = draft.slug.clone();
        if earlier > 0 {
            file_name.append("-");
            file_name.append(decimal_text(earlier as u64).as_str());
        }
        file_name.append(".md");
        assert(file_name@ =~= file_name_of(draft.slug@, earlier as nat));
        let ghost old_seen = seen@;
        seen.insert(key, earlier + 1);
        files.push(
            ExportFile { folder: draft.folder.clone(), file_name, content: draft.content.clone() },
        );
        assert forall|k: Seq<char>| seen@.contains_key(k) implies #[trigger] seen@[k] == count_key(
            next,
            k,
        ) by {
            if k != draft_key(draft@) {
                assert(old_seen.contains_key(k));
            }
        }
        assert forall|k: Seq<char>| !seen@.contains_key(k) implies #[trigger] count_key(next, k)
            == 0 by {
            assert(!old_seen.contains_key(k));
            assert(count_key(before, k) == 0);
        }
        i += 1;
    }
    files
}

/// The title under which a conversation is exported.
pub open spec fn shown_title(row: ExportRow) -> Seq<char> {
    match row.title {
        Some(t) => t@,
        None => UNTITLED@,
    }
}

/// What the file of a conversation holds: its title as a heading, its date
/// where it has one, a rule, and its text without the white space around
/// it.
pub open spec fn file_content(row: ExportRow) -> Seq<char> {
    "# "@ + shown_title(row) + "\n\n"@ + match row.created_at {
        Some(ts) => "_"@ + date_text(ts) + "_\n\n"@,
        None => Seq::empty(),
    } + "---\n\n"@ + trimmed(row.full_text@) + "\n"@
}

/// The draft of the file of a conversation: in the folder of the year in
/// which it was created.
pub open spec fn conversation_draft_of(row: ExportRow) -> DraftView {
    DraftView {
        folder: match row.created_at {
            Some(ts) => year_text(ts),
            None => UNKNOWN_YEAR@,
        },
        slug: slug(shown_title(row)),
        content: file_content(row),
    }
}

/// `s` without the white space around it.
pub fn trim_text(s: &str) -> (r: String)
    ensures
        r@ == trimmed(s@),
{
    let chars = chars_of(s);
    let (from, to) = trim_range(&chars, 0, chars.len());
    assert(chars@.subrange(0, chars@.len() as int) =~= chars@);
    string_of(&chars, from, to)
}

/// Builds what the file of a conversation holds.
pub fn render_conversation(row: &ExportRow) -> (r: String)
    ensures
        r@ == file_content(*row),
{
    let mut out = "# ".to_owned();
    match &row.title {
        Some(t) => out.append(t.as_str()),
        None => out.append(UNTITLED),
    }
    out.append("\n\n");
    match row.created_at {
        Some(ts) => {
            out.append("_");
            out.append(unix_to_date_str(ts).as_str());
            out.append("_\n\n");
        },
        None => {},
    }
    out.append("---\n\n");
    out.append(trim_text(row.full_text.as_str()).as_str());
    out.append("\n");
    assert(out@ =~= file_content(*row));
    out
}

/// Drafts the file of a conversation.
pub fn conversation_draft(row: &ExportRow) -> (r: Draft)
    ensures
        r@ == conversation_draft_of(*row),
{
    Draft {
        folder: match row.created_at {
            Some(ts) => unix_to_year(ts),
            None => UNKNOWN_YEAR.to_owned(),
        },
        slug: match &row.title {
            Some(t) => slugify(t.as_str()),
            None => slugify(UNTITLED),
        },
        content: render_conversation(row),
    }
}

/// The drafts of the files of the conversations, in order.
pub open spec fn conversation_drafts_of(rows: Seq<ExportRow>) -> Seq<DraftView> {
    Seq::new(rows.len(), |i: int| conversation_draft_of(rows[i]))
}

/// Plans the files of the conversations: one for each, in the folder of its
/// year, under a name made of its title.
pub fn plan_conversation_files(rows: &Vec<ExportRow>) -> (r: Vec<ExportFile>)
    ensures
        r@.len() == rows@.len(),
        forall|i: int|
            0 <= i < rows@.len() ==> (#[trigger] r@[i])@ == named_file(
                conversation_drafts_of(rows@),
                i,
            ),
{
    let mut drafts: Vec<Draft> = Vec::new();
    let mut i: usize = 0;
    while i < rows.len()
        invariant
            i <= rows@.len(),
            drafts@.len() == i,
            forall|j: int| 0 <= j < i ==> (#[trigger] drafts@[j])@ == conversation_draft_of(rows@[j]),
        decreases rows@.len() - i,
    {
        drafts.push(conversation_draft(&rows[i]));
        i += 1;
    }
    assert(drafts_view(drafts@) =~= conversation_drafts_of(rows@));
    name_files(drafts)
}

/// One message of a group chat.
#[derive(Debug)]
pub struct GroupChatMessage {
    pub role: String,
    pub text: String,
}

/// A chat with several people, as the archive holds it.
#[derive(Debug)]
pub struct GroupChat {
    pub name: String,
    pub created_at: Option<String>,
    pub messages: Vec<GroupChatMessage>,
}

/// How the author of a message is shown.
pub open spec fn role_label(role: Seq<char>) -> Seq<char> {
    if role == "user"@ {
        "**You**"@
    } else if role == "assistant"@ {
        "**ChatGPT**"@
    } else {
        role
    }
}

/// What the messages of a group chat come to: for each that has text, who
/// wrote it and what, and an empty line.
pub open spec fn chat_body(messages: Seq<GroupChatMessage>) -> Seq<char>
    decreases messages.len(),
{
    if messages.len() == 0 {
        Seq::empty()
    } else {
        let last = messages.last();
        if last.text@.len() == 0 {
            chat_body(messages.drop_last())
        } else {
            chat_body(messages.drop_last()) + role_label(last.role@) + ": "@ + trimmed(last.text@)
                + "\n\n"@
        }
    }
}

/// The title under which a group chat is exported.
pub open spec fn chat_title(chat: GroupChat) -> Seq<char> {
    if chat.name@.len() == 0 {
        UNTITLED_GROUP_CHAT@
    } else {
        chat.name@
    }
}

/// What the file of a group chat holds.
pub open spec fn chat_content(chat: GroupChat) -> Seq<char> {
    "# "@ + chat_title(chat) + "\n\n"@ + match chat.created_at {
        Some(time) => "_"@ + truncated(time@, DATE_CHARS as nat) + "_\n\n"@,
        None => Seq::empty(),
    } + "---\n\n"@ + trimmed(chat_body(chat.messages@)) + "\n"@
}

/// The draft of the file of a group chat.
pub open spec fn group_chat_draft_of(chat: GroupChat) -> DraftView {
    DraftView {
        folder: GROUP_CHATS_FOLDER@,
        slug: slug(chat_title(chat)),
        content: chat_content(chat),
    }
}

/// The drafts of the files of the group chats, in order.
pub open spec fn group_chat_drafts_of(chats: Seq<GroupChat>) -> Seq<DraftView> {
    Seq::new(chats.len(), |i: int| group_chat_draft_of(chats[i]))
}

/// Builds what the file of a group chat holds.
pub fn render_group_chat(chat: &GroupChat) -> (r: String)
    ensures
        r@ == chat_content(*chat),
{
    let mut body = String::new();
    let mut i: usize = 0;
    assert(chat.messages@.subrange(0, 0) =~= Seq::<GroupChatMessage>::empty());
    while i < chat.messages.len()
        invariant
            i <= chat.messages@.len(),
            body@ == chat_body(chat.messages@.subrange(0, i as int)),
        decreases chat.messages@.len() - i,
    {
        let ghost next = chat.messages@.subrange(0, i + 1);
        assert(next.drop_last() =~= chat.messages@.subrange(0, i as int));
        assert(next.last() == chat.messages@[i as int]);
        let message = &chat.messages[i];
        if !message.text.as_str().is_empty() {
            if crate::text::str_eq(message.role.as_str(), "user") {
                body.append("**You**");
            } else if crate::text::str_eq(message.role.as_str(), "assistant") {
                body.append("**ChatGPT**");
            } else {
                body.append(message.role.as_str());
            }
            body.append(": ");
            body.append(trim_text(message.text.as_str()).as_str());
            body.append("\n\n");
            assert(body@ =~= chat_body(next));
        }
        i += 1;
    }
    assert(chat.messages@.subrange(0, chat.messages@.len() as int) =~= chat.messages@);
    let mut out = "# ".to_owned();
    if chat.name.as_str().is_empty() {
        out.append(UNTITLED_GROUP_CHAT);
    } else {
        out.append(chat.name.as_str());
    }
    out.append("\n\n");
    match &chat.created_at {
        Some(time) => {
            out.append("_");
            out.append(truncate_chars(time.as_str(), DATE_CHARS));
            out.append("_\n\n");
        },
        None => {},
    }
    out.append("---\n\n");
    out.append(trim_text(body.as_str()).as_str());
    out.append("\n");
    assert(out@ =~= chat_content(*chat));
    out
}

/// Plans the files of the group chats: one for each, all in one folder.
pub fn plan_group_chat_files(chats: &Vec<GroupChat>) -> (r: Vec<ExportFile>)
    ensures
        r@.len() == chats@.len(),
        forall|i: int|
            0 <= i < chats@.len() ==> (#[trigger] r@[i])@ == named_file(
                group_chat_drafts_of(chats@),
                i,
            ),
{
    let mut drafts: Vec<Draft> = Vec::new();
    let mut i: usize = 0;
    while i < chats.len()
        invariant
            i <= chats@.len(),
            drafts@.len() == i,
            forall|j: int| 0 <= j < i ==> (#[trigger] drafts@[j])@ == group_chat_draft_of(chats@[j]),
        decreases chats@.len() - i,
    {
        let chat = &chats[i];
        let slug = if chat.name.as_str().is_empty() {
            slugify(UNTITLED_GROUP_CHAT)
        } else {
            slugify(chat.name.as_str())
        };
        drafts.push(
            Draft { folder: GROUP_CHATS_FOLDER.to_owned(), slug, content: render_group_chat(chat) },
        );
        i += 1;
    }
    assert(drafts_view(drafts@) =~= group_chat_drafts_of(chats@));
    name_files(drafts)
}

/// The folder of the media.
pub const MEDIA_FOLDER: &'static str = "media";

/// The folder of the data.
pub const DATA_FOLDER: &'static str = "data";

/// The entry that holds the conversations that were shared.
pub const SHARED_CONVERSATIONS: &'static str = "shared_conversations.json";

/// The entry that holds the group chats.
pub const GROUP_CHATS: &'static str = "group_chats.json";

/// The entry that holds the account of the user.
pub const USER: &'static str = "user.json";

/// The extension of a file name: what follows its last full stop, unless
/// it has none or only one at its beginning.
pub open spec fn extension_of(base: Seq<char>) -> Option<Seq<char>> {
    match base.index_of_last('.') {
        Some(at) => if at == 0 {
            None
        } else {
            Some(base.subrange(at + 1, base.len() as int))
        },
        None => None,
    }
}

/// The extension is one of a picture, whatever its case.
pub open spec fn is_media_extension(ext: Seq<char>) -> bool {
    let lower = lowercased(ext);
    ||| lower == "jpg"@
    ||| lower == "jpeg"@
    ||| lower == "png"@
    ||| lower == "gif"@
    ||| lower == "webp"@
    ||| lower == "svg"@
}

/// The name under which an entry of the archive is exported as a picture:
/// its file name, where it has one with the extension of a picture and does
/// not belong to the data that the platform added.
pub open spec fn media_name_of(name: Seq<char>) -> Option<Seq<char>> {
    if occurs_in("__MACOSX"@, name) {
        None
    } else {
        match extension_of(base_name(name)) {
            Some(ext) => if is_media_extension(ext) {
                Some(base_name(name))
            } else {
                None
            },
            None => None,
        }
    }
}

/// Says under which name an entry of the archive is exported as a picture,
/// if it is one.
pub fn media_name(name: &str) -> (r: Option<String>)
    ensures
        match r {
            Some(file) => media_name_of(name@) == Some(file@),
            None => media_name_of(name@) is None,
        },
{
    let chars = chars_of(name);
    if holds(&chars, &chars_of("__MACOSX")) {
        return None;
    }
    let base = base_name_of(&chars);
    let mut at: usize = base.len();
    while at > 0 && base[at - 1] != '.'
        invariant
            at <= base@.len(),
            forall|j: int| at <= j < base@.len() ==> base@[j] != '.',
        decreases at,
    {
        at -= 1;
    }
    proof {
        base@.index_of_last_ensures('.');
    }
    if at <= 1 {
        if at == 1 {
            assert(base@[0] == '.');
            assert(base@.index_of_last('.') == Some(0int));
        }
        return None;
    }
    assert(base@[at - 1] == '.');
    assert(base@.index_of_last('.') == Some(at - 1));
    let ext = string_of(&base, at, base.len());
    let lower = chars_of(ext.as_str().to_lowercase().as_str());
    if chars_eq(&lower, &chars_of("jpg")) || chars_eq(&lower, &chars_of("jpeg")) || chars_eq(
        &lower,
        &chars_of("png"),
    ) || chars_eq(&lower, &chars_of("gif")) || chars_eq(&lower, &chars_of("webp")) || chars_eq(
        &lower,
        &chars_of("svg"),
    ) {
        Some(string_of(&base, 0, base.len()))
    } else {
        None
    }
}

/// Whether the name of an entry ends with `suffix`.
pub fn entry_ends_with(name: &str, suffix: &str) -> (r: bool)
    ensures
        r == suffix@.is_suffix_of(name@),
{
    finishes_with(&chars_of(name), &chars_of(suffix))
}

/// Whether the conversations that were shared are worth a file: a list
/// without any entry takes no more than four bytes.
pub fn worth_copying(bytes: usize) -> (r: bool)
    ensures
        r == (bytes > 4),
{
    bytes > 4
}

/// Reads the name of the user out of the account that the archive holds: the
/// string under `name` in the JSON object that the account should be.
pub fn user_name(account: &str) -> (r: Option<String>)
    ensures
        opt_str_view(r) == member_or_none(json_string_member(account@, "name"@)),
{
    match string_member(account, "name") {
        Ok(name) => name,
        Err(_) => None,
    }
}

} // verus!
