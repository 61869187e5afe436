//! The batch interface of the enrichment service: the requests that are
//! submitted, the status of a batch, and the results that come back line by
//! line.

use crate::pipeline::json_parser::{clone_opt_string, opt_str_view};
use crate::text::{chars_of, str_eq, string_of, strings_view, trim_range, trimmed};
use vstd::hash_map::StringHashMap;
use vstd::prelude::*;
use vstd::string::*;

verus! {

pub const ANTHROPIC_VERSION: &'static str = "2023-06-01";

pub const BATCH_API_URL: &'static str = "https://api.anthropic.com/v1/messages/batches";

pub const MESSAGES_API_URL: &'static str = "https://api.anthropic.com/v1/messages";

pub const COUNT_TOKENS_API_URL: &'static str =
    "https://api.anthropic.com/v1/messages/count_tokens";

/// The name under which the service offers batches.
pub const BATCH_BETA: &'static str = "message-batches-2024-09-24";

/// The most tokens that an answer may take.
pub const MAX_TOKENS: u32 = 512;

/// The label of a conversation whose answer names none.
pub const UNCATEGORIZED: &'static str = "Uncategorized";

/// The processing status of a batch that has ended.
pub const STATUS_ENDED: &'static str = "ended";

/// The type of a result whose request succeeded.
pub const RESULT_SUCCEEDED: &'static str = "succeeded";

/// The member of the answer of the first pass that holds the labels.
pub const LABELS_KEY: &'static str = "labels";

/// What stands for the answer of the first pass where the response holds no
/// text.
pub const EMPTY_ANSWER: &'static str = "{}";

/// One request of a batch, under the identifier of its conversation.
#[derive(Debug)]
pub struct BatchRequestItem {
    pub custom_id: String,
    pub params: BatchParams,
}

#[derive(Debug)]
pub struct BatchParams {
    pub model: String,
    pub max_tokens: u32,
    pub system: String,
    pub messages: Vec<Message>,
}

#[derive(Debug)]
pub struct Message {
    pub role: String,
    pub content: String,
}

/// The status of a batch, as the service reports it.
#[derive(Debug)]
pub struct BatchResult {
    pub id: String,
    pub processing_status: String,
    pub results_url: Option<String>,
}

/// One line of the results of a batch.
#[derive(Debug)]
pub struct BatchResultItem {
    pub custom_id: String,
    pub result: BatchResultContent,
}

#[derive(Debug)]
pub struct BatchResultContent {
    pub result_type: String,
    pub message: Option<BatchMessage>,
}

#[derive(Debug)]
pub struct BatchMessage {
    pub content: Vec<ContentBlock>,
}

#[derive(Debug)]
pub struct ContentBlock {
    pub block_type: String,
    pub text: Option<String>,
}

/// What enrichment found for one conversation.
#[derive(Debug)]
pub struct ClusterAssignment {
    pub cluster_label: String,
    pub summary: String,
    pub instructions: Option<String>,
}

pub struct ClusterAssignmentView {
    pub cluster_label: Seq<char>,
    pub summary: Seq<char>,
    pub instructions: Option<Seq<char>>,
}

impl View for ClusterAssignment {
    type V = ClusterAssignmentView;

    open spec fn view(&self) -> ClusterAssignmentView {
        ClusterAssignmentView {
            cluster_label: self.cluster_label@,
            summary: self.summary@,
            instructions: opt_str_view(self.instructions),
        }
    }
}

impl Clone for ClusterAssignment {
    fn clone(&self) -> (r: Self)
        ensures
            r@ == self@,
    {
        ClusterAssignment {
            cluster_label: self.cluster_label.clone(),
            summary: self.summary.clone(),
            instructions: clone_opt_string(&self.instructions),
        }
    }
}

/// Why the first pass gave no vocabulary.
#[derive(Debug)]
pub enum DiscoverError {
    /// The answer is not JSON; `reason` says why.
    Malformed { reason: String },
    /// The answer names no label.
    NoLabels,
}

impl DiscoverError {
    /// The error in words.
    pub open spec fn spec_message(self) -> Seq<char> {
        match self {
            DiscoverError::Malformed { reason } => reason@,
            DiscoverError::NoLabels => "Pass 1 returned no cluster labels"@,
        }
    }

    /// The error in words.
    pub fn message(&self) -> (r: String)
        ensures
            r@ == self.spec_message(),
    {
        match self {
            DiscoverError::Malformed { reason } => reason.clone(),
            DiscoverError::NoLabels => "Pass 1 returned no cluster labels".to_owned(),
        }
    }
}

/// Whether a batch has ended, and where its results are.
pub fn batch_status(result: BatchResult) -> (r: (bool, Option<String>))
    ensures
        r.0 == (result.processing_status@ == STATUS_ENDED@),
        r.1 == result.results_url,
{
    let done = str_eq(result.processing_status.as_str(), STATUS_ENDED);
    (done, result.results_url)
}

/// The lines of `s`: what stands between its line feeds.
pub open spec fn segments(s: Seq<char>) -> Seq<Seq<char>>
    decreases s.len(),
{
    if s.len() == 0 {
        seq![Seq::empty()]
    } else if s.last() == '\n' {
        segments(s.drop_last()).push(Seq::empty())
    } else {
        let before = segments(s.drop_last());
        before.drop_last().push(before.last().push(s.last()))
    }
}

/// The lines of `lines` without the white space around them, those left out
/// that have nothing else.
pub open spec fn trimmed_lines(lines: Seq<Seq<char>>) -> Seq<Seq<char>>
    decreases lines.len(),
{
    if lines.len() == 0 {
        Seq::empty()
    } else {
        let line = trimmed(lines.last());
        if line.len() == 0 {
            trimmed_lines(lines.drop_last())
        } else {
            trimmed_lines(lines.drop_last()).push(line)
        }
    }
}

/// The lines of a result stream that hold something, each without the white
/// space around it.
pub open spec fn result_lines_of(text: Seq<char>) -> Seq<Seq<char>> {
    trimmed_lines(segments(text))
}

/// Frames a result stream: one string for each line that holds something,
/// without the white space around it.
pub fn result_lines(text: &str) -> (r: Vec<String>)
    ensures
        strings_view(r@) == result_lines_of(text@),
{
    let chars = chars_of(text);
    let mut out: Vec<String> = Vec::new();
    let mut start: usize = 0;
    let mut i: usize = 0;
    while i < chars.len()
        invariant
            start <= i <= chars@.len(),
            segments(chars@.subrange(0, i as int)).len() > 0,
            segments(chars@.subrange(0, i as int)).last() == chars@.subrange(start as int, i as int),
            strings_view(out@) == trimmed_lines(segments(chars@.subrange(0, i as int)).drop_last()),
        decreases chars@.len() - i,
    {
        let ghost seen = chars@.subrange(0, i as int);
        let ghost next = chars@.subrange(0, i + 1);
        assert(next.drop_last() =~= seen);
        assert(next.last() == chars@[i as int]);
        if chars[i] == '\n' {
            let ghost done = strings_view(out@);
            let (a, b) = trim_range(&chars, start, i);
            if a < b {
                out.push(string_of(&chars, a, b));
                assert(strings_view(out@) =~= done.push(chars@.subrange(a as int, b as int)));
            }
            assert(segments(next).drop_last() =~= segments(seen));
            assert(segments(seen).drop_last().push(segments(seen).last()) =~= segments(seen));
            start = i + 1;
            assert(chars@.subrange(start as int, i + 1) =~= Seq::<char>::empty());
        } else {
            assert(chars@.subrange(start as int, i + 1) =~= chars@.subrange(
                start as int,
                i as int,
            ).push(chars@[i as int]));
            assert(segments(next).drop_last() =~= segments(seen).drop_last());
        }
        i += 1;
    }
    assert(chars@.subrange(0, chars@.len() as int) =~= chars@);
    let ghost all = segments(chars@);
    let ghost done = strings_view(out@);
    let (a, b) = trim_range(&chars, start, i);
    if a < b {
        out.push(string_of(&chars, a, b));
        assert(strings_view(out@) =~= done.push(chars@.subrange(a as int, b as int)));
    }
    assert(all.drop_last().push(all.last()) =~= all);
    out
}

/// The text of the answer in a result: that of the first block of its
/// message, empty where there is none. Only a result whose request
/// succeeded has an answer.
pub open spec fn answer_of(item: BatchResultItem) -> Option<Seq<char>> {
    if item.result.result_type@ != RESULT_SUCCEEDED@ {
        None
    } else {
        match item.result.message {
            Some(message) => if message.content@.len() > 0 {
                match message.content@[0].text {
                    Some(text) => Some(text@),
                    None => Some(Seq::empty()),
                }
            } else {
                Some(Seq::empty())
            },
            None => Some(Seq::empty()),
        }
    }
}

/// The text of the answer in a result, if its request succeeded.
pub fn answer_text(item: &BatchResultItem) -> (r: Option<String>)
    ensures
        opt_str_view(r) == answer_of(*item),
{
    if !str_eq(item.result.result_type.as_str(), RESULT_SUCCEEDED) {
        return None;
    }
    match &item.result.message {
        Some(message) => {
            if message.content.len() > 0 {
                match &message.content[0].text {
                    Some(text) => Some(text.clone()),
                    None => Some(String::new()),
                }
            } else {
                Some(String::new())
            }
        },
        None => Some(String::new()),
    }
}

/// What `serde_json` finds under `key` in the JSON text `text`: `None` where
/// the text is not JSON; else the string that the value holds under `key`,
/// if it is an object that holds a string there.
pub uninterp spec fn json_string_member(text: Seq<char>, key: Seq<char>) -> Option<
    Option<Seq<char>>,
>;

/// The list that `serde_json` finds under `key` in the JSON text `text`:
/// `None` where the text is not JSON; else the array that the value holds
/// under `key`, if it holds one there: its items, each with its string if
/// it is one.
pub uninterp spec fn json_string_list(text: Seq<char>, key: Seq<char>) -> Option<
    Option<Seq<Option<Seq<char>>>>,
>;

/// The view of an optional list of optional strings.
pub open spec fn opt_list_view(list: Option<Vec<Option<String>>>) -> Option<
    Seq<Option<Seq<char>>>,
> {
    match list {
        Some(items) => Some(opt_strings_view(items@)),
        None => None,
    }
}

/// The views of a run of optional strings, in order.
pub open spec fn opt_strings_view(items: Seq<Option<String>>) -> Seq<Option<Seq<char>>> {
    Seq::new(items.len(), |i: int| opt_str_view(items[i]))
}

/// `serde_json::from_str` to a `Value`, then the value's index by `key` and
/// `as_str`: the string under `key`, or the parser's error in words where
/// the text is not JSON.
#[verifier::external_body]
pub(crate) fn string_member(text: &str, key: &str) -> (r: Result<Option<String>, String>)
    ensures
        match r {
            Ok(member) => json_string_member(text@, key@) == Some(opt_str_view(member)),
            Err(_) => json_string_member(text@, key@) is None,
        },
{
    match serde_json::from_str::<serde_json::Value>(text) {
        Ok(value) => match value[key].as_str() {
            Some(s) => Ok(Some(s.to_owned())),
            None => Ok(None),
        },
        Err(error) => Err(error.to_string()),
    }
}

/// `serde_json::from_str` to a `Value`, then the value's index by `key` and
/// `as_array`, with `as_str` on each item: the array under `key`, if there
/// is one, or the parser's error in words where the text is not JSON.
#[verifier::external_body]
fn string_list(text: &str, key: &str) -> (r: Result<Option<Vec<Option<String>>>, String>)
    ensures
        match r {
            Ok(list) => json_string_list(text@, key@) == Some(opt_list_view(list)),
            Err(_) => json_string_list(text@, key@) is None,
        },
{
    match serde_json::from_str::<serde_json::Value>(text) {
        Ok(value) => match value[key].as_array() {
            Some(items) => Ok(Some(items.iter().map(|v| v.as_str().map(str::to_owned)).collect())),
            None => Ok(None),
        },
        Err(error) => Err(error.to_string()),
    }
}

/// The assignment that an answer with these members makes: a label that is
/// missing becomes [`UNCATEGORIZED`], a summary that is missing is empty.
pub open spec fn assignment_of(
    label: Option<Seq<char>>,
    summary: Option<Seq<char>>,
    instructions: Option<Seq<char>>,
) -> ClusterAssignmentView {
    ClusterAssignmentView {
        cluster_label: match label {
            Some(l) => l,
            None => UNCATEGORIZED@,
        },
        summary: match summary {
            Some(s) => s,
            None => Seq::empty(),
        },
        instructions,
    }
}

/// Makes the assignment out of the members of an answer.
pub fn assignment_from_fields(
    label: Option<String>,
    summary: Option<String>,
    instructions: Option<String>,
) -> (r: ClusterAssignment)
    ensures
        r@ == assignment_of(opt_str_view(label), opt_str_view(summary), opt_str_view(instructions)),
{
    ClusterAssignment {
        cluster_label: match label {
            Some(l) => l,
            None => UNCATEGORIZED.to_owned(),
        },
        summary: match summary {
            Some(s) => s,
            None => String::new(),
        },
        instructions,
    }
}

/// `member`, or nothing where the text is not JSON.
pub open spec fn member_or_none(member: Option<Option<Seq<char>>>) -> Option<Seq<char>> {
    match member {
        Some(m) => m,
        None => None,
    }
}

/// The assignment that the answer `text` holds: none where it is not JSON.
pub open spec fn parsed_assignment(text: Seq<char>) -> Option<ClusterAssignmentView> {
    match json_string_member(text, "cluster_label"@) {
        Some(label) => Some(
            assignment_of(
                label,
                member_or_none(json_string_member(text, "summary"@)),
                member_or_none(json_string_member(text, "instructions"@)),
            ),
        ),
        None => None,
    }
}

/// The view of an optional assignment.
pub open spec fn opt_assignment_view(a: Option<ClusterAssignment>) -> Option<
    ClusterAssignmentView,
> {
    match a {
        Some(a) => Some(a@),
        None => None,
    }
}

fn member_or_nothing(text: &str, key: &str) -> (r: Option<String>)
    ensures
        opt_str_view(r) == member_or_none(json_string_member(text@, key@)),
{
    match string_member(text, key) {
        Ok(member) => member,
        Err(_) => None,
    }
}

/// Reads the assignment out of the answer of the model, which is free text
/// that should be a JSON object with the members `cluster_label`, `summary`
/// and `instructions`.
pub fn parse_assignment(text: &str) -> (r: Option<ClusterAssignment>)
    ensures
        opt_assignment_view(r) == parsed_assignment(text@),
{
    match string_member(text, "cluster_label") {
        Ok(label) => {
            let summary = member_or_nothing(text, "summary");
            let instructions = member_or_nothing(text, "instructions");
            Some(assignment_from_fields(label, summary, instructions))
        },
        Err(_) => None,
    }
}

/// The strings among `items`, in order.
pub open spec fn strings_among(items: Seq<Option<Seq<char>>>) -> Seq<Seq<char>>
    decreases items.len(),
{
    if items.len() == 0 {
        Seq::empty()
    } else {
        match items.last() {
            Some(s) => strings_among(items.drop_last()).push(s),
            None => strings_among(items.drop_last()),
        }
    }
}

/// Picks the labels out of the items of an answer: the items that are
/// strings, in order. An answer without any is an error, since the second
/// pass needs a vocabulary.
pub fn labels_from_items(items: Vec<Option<String>>) -> (r: Result<Vec<String>, DiscoverError>)
    ensures
        match r {
            Ok(labels) => strings_view(labels@) == strings_among(opt_strings_view(items@))
                && labels@.len() > 0,
            Err(error) => error == DiscoverError::NoLabels && strings_among(
                opt_strings_view(items@),
            ).len() == 0,
        },
{
    let ghost all = opt_strings_view(items@);
    let mut labels: Vec<String> = Vec::new();
    let mut i: usize = 0;
    while i < items.len()
        invariant
            i <= items@.len(),
            all == opt_strings_view(items@),
            strings_view(labels@) == strings_among(all.subrange(0, i as int)),
        decreases items@.len() - i,
    {
        let ghost next = all.subrange(0, i + 1);
        assert(next.drop_last() =~= all.subrange(0, i as int));
        assert(next.last() == opt_str_view(items@[i as int]));
        let ghost before = strings_view(labels@);
        match &items[i] {
            Some(s) => {
                labels.push(s.clone());
                assert(strings_view(labels@) =~= before.push(s@));
            },
            None => {},
        }
        i += 1;
    }
    assert(all.subrange(0, items@.len() as int) =~= all);
    if labels.len() == 0 {
        Err(DiscoverError::NoLabels)
    } else {
        Ok(labels)
    }
}

/// The items among which the labels are looked for: those of the array
/// under `labels`, none where the answer holds no array there; `None` where
/// the answer is not JSON.
pub open spec fn label_items(answer: Seq<char>) -> Option<Seq<Option<Seq<char>>>> {
    match json_string_list(answer, LABELS_KEY@) {
        Some(Some(items)) => Some(items),
        Some(None) => Some(Seq::empty()),
        None => None,
    }
}

/// The labels that the answer of the first pass holds, by the list that
/// `serde_json` finds in it.
pub open spec fn labels_in(answer: Seq<char>) -> Option<Seq<Seq<char>>> {
    match label_items(answer) {
        Some(items) => if strings_among(items).len() > 0 {
            Some(strings_among(items))
        } else {
            None
        },
        None => None,
    }
}

/// The answer of the first pass: a response without text counts as the
/// empty object.
pub open spec fn answer_or_empty(answer: Option<&str>) -> Seq<char> {
    match answer {
        Some(text) => text@,
        None => EMPTY_ANSWER@,
    }
}

/// Reads the vocabulary out of the answer of the first pass: the strings of
/// the array `labels` in the JSON object that the answer should be. A
/// response without text counts as the empty object, and an answer without
/// an array under `labels` as one with an empty array. No labels, for
/// whatever reason, is an error.
pub fn labels_from_answer(answer: Option<&str>) -> (r: Result<Vec<String>, DiscoverError>)
    ensures
        match r {
            Ok(labels) => labels@.len() > 0 && labels_in(answer_or_empty(answer)) == Some(
                strings_view(labels@),
            ),
            Err(DiscoverError::NoLabels) => label_items(answer_or_empty(answer)) is Some
                && labels_in(answer_or_empty(answer)) is None,
            Err(DiscoverError::Malformed { reason }) => label_items(answer_or_empty(answer))
                is None,
        },
{
    let text = match answer {
        Some(text) => text,
        None => EMPTY_ANSWER,
    };
    match string_list(text, LABELS_KEY) {
        Ok(Some(items)) => labels_from_items(items),
        Ok(None) => {
            assert(strings_among(Seq::<Option<Seq<char>>>::empty()).len() == 0);
            Err(DiscoverError::NoLabels)
        },
        Err(reason) => Err(DiscoverError::Malformed { reason }),
    }
}

pub struct MessageView {
    pub role: Seq<char>,
    pub content: Seq<char>,
}

impl View for Message {
    type V = MessageView;

    open spec fn view(&self) -> MessageView {
        MessageView { role: self.role@, content: self.content@ }
    }
}

pub struct BatchRequestView {
    pub custom_id: Seq<char>,
    pub model: Seq<char>,
    pub max_tokens: u32,
    pub system: Seq<char>,
    pub messages: Seq<MessageView>,
}

impl View for BatchRequestItem {
    type V = BatchRequestView;

    open spec fn view(&self) -> BatchRequestView {
        BatchRequestView {
            custom_id: self.custom_id@,
            model: self.params.model@,
            max_tokens: self.params.max_tokens,
            system: self.params.system@,
            messages: Seq::new(self.params.messages@.len(), |i: int| self.params.messages@[i]@),
        }
    }
}

/// The views of a run of requests, in order.
pub open spec fn requests_view(requests: Seq<BatchRequestItem>) -> Seq<BatchRequestView> {
    Seq::new(requests.len(), |i: int| requests[i]@)
}

/// The request for one conversation: under the conversation's own
/// identifier, with the system prompt that holds the vocabulary, and the
/// transcript as the one message of the user.
pub open spec fn request_of(
    id: Seq<char>,
    model: Seq<char>,
    system: Seq<char>,
    full_text: Seq<char>,
) -> BatchRequestView {
    BatchRequestView {
        custom_id: id,
        model,
        max_tokens: MAX_TOKENS,
        system,
        messages: seq![
            MessageView { role: "user"@, content: crate::ai::prompts::pass2_user_message(full_text) },
        ],
    }
}

/// Builds the request for one conversation, to be answered by `model`.
pub fn build_request(id: &str, model: &str, system: &str, full_text: &str) -> (r: BatchRequestItem)
    ensures
        r@ == request_of(id@, model@, system@, full_text@),
{
    let mut messages: Vec<Message> = Vec::new();
    messages.push(
        Message {
            role: "user".to_owned(),
            content: crate::ai::prompts::build_pass2_user_message(full_text),
        },
    );
    let r = BatchRequestItem {
        custom_id: id.to_owned(),
        params: BatchParams {
            model: model.to_owned(),
            max_tokens: MAX_TOKENS,
            system: system.to_owned(),
            messages,
        },
    };
    assert(r@.messages =~= request_of(id@, model@, system@, full_text@).messages);
    r
}

/// The assignments of a batch, each under the identifier of its
/// conversation.
pub open spec fn assignments_view(entries: Seq<(String, ClusterAssignment)>) -> Seq<
    (Seq<char>, ClusterAssignmentView),
> {
    Seq::new(entries.len(), |i: int| (entries[i].0@, entries[i].1@))
}

/// No identifier has two assignments.
pub open spec fn distinct_keys(entries: Seq<(Seq<char>, ClusterAssignmentView)>) -> bool {
    forall|i: int, j: int|
        0 <= i < j < entries.len() ==> (#[trigger] entries[i]).0 != (#[trigger] entries[j]).0
}

/// Where the assignment of `id` stands, if there is one.
pub open spec fn key_position(entries: Seq<(Seq<char>, ClusterAssignmentView)>, id: Seq<char>) -> Option<
    int,
>
    decreases entries.len(),
{
    if entries.len() == 0 {
        None
    } else if entries.last().0 == id {
        Some(entries.len() - 1)
    } else {
        key_position(entries.drop_last(), id)
    }
}

/// The assignments after that of `id` was recorded: in the place of an
/// earlier one for `id`, or behind the others.
pub open spec fn recorded(
    entries: Seq<(Seq<char>, ClusterAssignmentView)>,
    id: Seq<char>,
    assignment: ClusterAssignmentView,
) -> Seq<(Seq<char>, ClusterAssignmentView)> {
    match key_position(entries, id) {
        Some(at) => entries.update(at, (id, assignment)),
        None => entries.push((id, assignment)),
    }
}

/// What one line of the results adds: the assignment in its answer, under
/// its identifier. A line that could not be decoded adds nothing, nor does
/// one whose request did not succeed or whose answer is not JSON.
pub open spec fn line_assignment(item: Option<BatchResultItem>) -> Option<
    (Seq<char>, ClusterAssignmentView),
> {
    match item {
        Some(item) => match answer_of(item) {
            Some(answer) => match parsed_assignment(answer) {
                Some(assignment) => Some((item.custom_id@, assignment)),
                None => None,
            },
            None => None,
        },
        None => None,
    }
}

/// The assignments that the lines of a batch make, by identifier: a later
/// line for an identifier takes the place of an earlier one.
pub open spec fn collected(items: Seq<Option<BatchResultItem>>) -> Seq<
    (Seq<char>, ClusterAssignmentView),
>
    decreases items.len(),
{
    if items.len() == 0 {
        Seq::empty()
    } else {
        let before = collected(items.drop_last());
        match line_assignment(items.last()) {
            Some((id, assignment)) => recorded(before, id, assignment),
            None => before,
        }
    }
}

/// Records the assignment of `id`: in the place of an earlier one for the
/// same identifier, or behind the others.
pub fn record_assignment(
    entries: &mut Vec<(String, ClusterAssignment)>,
    id: String,
    assignment: ClusterAssignment,
)
    ensures
        assignments_view(final(entries)@) == recorded(
            assignments_view(old(entries)@),
            id@,
            assignment@,
        ),
{
    let ghost before = assignments_view(entries@);
    let mut i: usize = entries.len();
    assert(before.subrange(0, i as int) =~= before);
    while i > 0
        invariant
            i <= entries@.len(),
            before == assignments_view(entries@),
            before == assignments_view(old(entries)@),
            key_position(before, id@) == key_position(before.subrange(0, i as int), id@),
        decreases i,
    {
        let ghost seen = before.subrange(0, i as int);
        assert(seen.last() == (entries@[i - 1].0@, entries@[i - 1].1@));
        assert(seen.drop_last() =~= before.subrange(0, i - 1));
        if str_eq(entries[i - 1].0.as_str(), id.as_str()) {
            entries.set(i - 1, (id, assignment));
            assert(assignments_view(entries@) =~= before.update(i - 1, (id@, assignment@)));
            return ;
        }
        i -= 1;
    }
    entries.push((id, assignment));
    assert(assignments_view(entries@) =~= before.push((id@, assignment@)));
}

/// The index knows where the assignment of each identifier stands.
pub open spec fn indexed(
    entries: Seq<(Seq<char>, ClusterAssignmentView)>,
    index: Map<Seq<char>, usize>,
) -> bool {
    &&& forall|id: Seq<char>|
        index.contains_key(id) ==> (#[trigger] index[id]) < entries.len() && entries[index[id] as int].0
            == id
    &&& forall|j: int|
        0 <= j < entries.len() ==> index.contains_key((#[trigger] entries[j]).0) && index[entries[j].0]
            == j
}

/// What the index says of an identifier is what a search from the end
/// finds.
proof fn lemma_indexed(
    entries: Seq<(Seq<char>, ClusterAssignmentView)>,
    index: Map<Seq<char>, usize>,
    id: Seq<char>,
)
    requires
        indexed(entries, index),
    ensures
        key_position(entries, id) == if index.contains_key(id) {
            Some(index[id] as int)
        } else {
            None
        },
{
    lemma_key_position(entries, id);
    match key_position(entries, id) {
        Some(at) => {
            assert(index.contains_key(entries[at].0));
        },
        None => {
            if index.contains_key(id) {
                assert(entries[index[id] as int].0 == id);
            }
        },
    }
}

/// Collects the assignments out of the lines of a batch, by the identifier
/// that each line carries and never by its place: the service may return
/// the lines in any order and leave out those that failed.
///
/// `None` stands for a line that could not be decoded.
pub fn collect_assignments(items: &Vec<Option<BatchResultItem>>) -> (r: Vec<
    (String, ClusterAssignment),
>)
    ensures
        assignments_view(r@) == collected(items@),
{
    let mut out: Vec<(String, ClusterAssignment)> = Vec::new();
    let mut index: StringHashMap<usize> = StringHashMap::new();
    let mut i: usize = 0;
    assert(assignments_view(out@) =~= collected(items@.subrange(0, 0)));
    while i < items.len()
        invariant
            i <= items@.len(),
            assignments_view(out@) == collected(items@.subrange(0, i as int)),
            indexed(assignments_view(out@), index@),
        decreases items@.len() - i,
    {
        let ghost next = items@.subrange(0, i + 1);
        assert(next.drop_last() =~= items@.subrange(0, i as int));
        assert(next.last() == items@[i as int]);
        match &items[i] {
            Some(item) => {
                match answer_text(item) {
                    Some(answer) => {
                        match parse_assignment(answer.as_str()) {
                            Some(assignment) => {
                                let ghost before = assignments_view(out@);
                                let ghost known = index@;
                                let id = item.custom_id.clone();
                                proof {
                                    lemma_indexed(before, known, id@);
                                }
                                match index.get(id.as_str()) {
                                    Some(at) => {
                                        let at = *at;
                                        out.set(at, (id, assignment));
                                        assert(assignments_view(out@) =~= before.update(
                                            at as int,
                                            (id@, assignment@),
                                        ));
                                    },
                                    None => {
                                        index.insert(id.clone(), out.len());
                                        out.push((id, assignment));
                                        assert(assignments_view(out@) =~= before.push(
                                            (id@, assignment@),
                                        ));
                                    },
                                }
                                assert(indexed(assignments_view(out@), index@)) by {
                                    let after = assignments_view(out@);
                                    assert forall|j: int| 0 <= j < after.len() implies index@.contains_key(
                                        (#[trigger] after[j]).0,
                                    ) && index@[after[j].0] == j by {
                                        if j < before.len() {
                                            assert(known.contains_key(before[j].0));
                                        }
                                    }
                                }
                            },
                            None => {},
                        }
                    },
                    None => {},
                }
            },
            None => {},
        }
        i += 1;
    }
    assert(items@.subrange(0, items@.len() as int) =~= items@);
    out
}

/// What `key_position` finds is the assignment of `id`; what it does not
/// find has none.
pub proof fn lemma_key_position(entries: Seq<(Seq<char>, ClusterAssignmentView)>, id: Seq<char>)
    ensures
        match key_position(entries, id) {
            Some(at) => 0 <= at < entries.len() && entries[at].0 == id,
            None => forall|j: int| 0 <= j < entries.len() ==> (#[trigger] entries[j]).0 != id,
        },
    decreases entries.len(),
{
    if entries.len() > 0 && entries.last().0 != id {
        let init = entries.drop_last();
        lemma_key_position(init, id);
        if key_position(init, id) is None {
            assert forall|j: int| 0 <= j < entries.len() implies (#[trigger] entries[j]).0
                != id by {
                if j < init.len() {
                    assert(init[j] == entries[j]);
                }
            }
        }
    }
}

/// However the lines of a batch come, no conversation gets two assignments.
pub proof fn lemma_collected_distinct(items: Seq<Option<BatchResultItem>>)
    ensures
        distinct_keys(collected(items)),
        collected(items).len() <= items.len(),
    decreases items.len(),
{
    if items.len() > 0 {
        let before = collected(items.drop_last());
        lemma_collected_distinct(items.drop_last());
        match line_assignment(items.last()) {
            Some((id, assignment)) => {
                lemma_key_position(before, id);
                let after = recorded(before, id, assignment);
                assert forall|i: int, j: int| 0 <= i < j < after.len() implies (
                #[trigger] after[i]).0 != (#[trigger] after[j]).0 by {
                    if i < before.len() && j < before.len() {
                        assert(before[i].0 != before[j].0);
                    }
                }
            },
            None => {},
        }
    }
}

} // verus!
