//! Enrichment in two passes: a vocabulary of labels is discovered from a
//! sample, then every conversation is classified against it in one batch,
//! which is polled until it ends and whose results are stored by the
//! identifier of each conversation.
//!
//! The calls to the service, the waiting and the storage happen outside.
//! What is decided here is the order of things: [`Workflow::step`] takes
//! what happened and says what to tell the user and what to do next.

use crate::ai::batch::{
    assignments_view, build_request, request_of, requests_view, BatchRequestItem,
    BatchRequestView, ClusterAssignment, ClusterAssignmentView,
};
use crate::ai::prompts::{
    build_pass2_system, pass2_system, truncate_chars, truncated, MAX_CHARS,
};
use crate::pipeline::normalizer::UNTITLED;
use crate::store::db::ConversationRow;
use crate::text::{join, join_strings, strings_view};
use vstd::prelude::*;
use vstd::string::*;

verus! {

/// How many conversations the sample of the first pass takes.
pub const SAMPLE_SIZE: usize = 200;

/// How many characters of each conversation the sample takes.
pub const SNIPPET_CHARS: usize = 200;

/// How long to wait before each poll, in seconds.
pub const POLL_INTERVAL_SECS: u64 = 5;

/// After how many polls a batch that has not ended is given up.
pub const MAX_POLLS: u32 = 720;

/// What the user is told while enrichment runs.
#[derive(Debug)]
pub enum ClusterEvent {
    EstimatingTokens,
    Pass1Started,
    Pass1Complete { cluster_labels: Vec<String> },
    BatchSubmitted { batch_id: String },
    Polling { elapsed_secs: u64 },
    Complete { assigned_count: usize },
    Error { message: String },
}

pub enum ClusterEventView {
    EstimatingTokens,
    Pass1Started,
    Pass1Complete { cluster_labels: Seq<Seq<char>> },
    BatchSubmitted { batch_id: Seq<char> },
    Polling { elapsed_secs: u64 },
    Complete { assigned_count: usize },
    Error { message: Seq<char> },
}

impl View for ClusterEvent {
    type V = ClusterEventView;

    open spec fn view(&self) -> ClusterEventView {
        match self {
            ClusterEvent::EstimatingTokens => ClusterEventView::EstimatingTokens,
            ClusterEvent::Pass1Started => ClusterEventView::Pass1Started,
            ClusterEvent::Pass1Complete { cluster_labels } => ClusterEventView::Pass1Complete {
                cluster_labels: strings_view(cluster_labels@),
            },
            ClusterEvent::BatchSubmitted { batch_id } => ClusterEventView::BatchSubmitted {
                batch_id: batch_id@,
            },
            ClusterEvent::Polling { elapsed_secs } => ClusterEventView::Polling {
                elapsed_secs: *elapsed_secs,
            },
            ClusterEvent::Complete { assigned_count } => ClusterEventView::Complete {
                assigned_count: *assigned_count,
            },
            ClusterEvent::Error { message } => ClusterEventView::Error { message: message@ },
        }
    }
}

/// The views of a run of events, in order.
pub open spec fn events_view(events: Seq<ClusterEvent>) -> Seq<ClusterEventView> {
    Seq::new(events.len(), |i: int| events[i]@)
}

/// How a call to the service failed.
#[derive(Debug)]
pub enum CallError {
    /// The service refused the credential.
    Unauthorized,
    /// Anything else; `message` is what the transport or the service said.
    Failed { message: String },
}

/// The status with which the service refuses a credential.
pub const UNAUTHORIZED: u16 = 401;

/// What a response with a status of failure comes to: the refusal of the
/// credential, or a failure with what the service said.
pub fn refused(status: u16, message: String) -> (r: CallError)
    ensures
        r == if status == UNAUTHORIZED {
            CallError::Unauthorized
        } else {
            CallError::Failed { message }
        },
{
    if status == UNAUTHORIZED {
        CallError::Unauthorized
    } else {
        CallError::Failed { message }
    }
}

/// Why a run of enrichment ended without result.
#[derive(Debug)]
pub enum WorkflowError {
    /// What the run needs could not be had: the credential is missing, or
    /// storage could not be reached; `message` says which.
    Unavailable { message: String },
    /// Nothing is stored that could be enriched.
    NoConversations,
    /// The service refused the credential.
    InvalidCredential,
    /// A call failed; `message` is what the transport or the service said.
    Transport { message: String },
    /// The first pass gave no label.
    NoLabels,
    /// The batch ended and no place was named where its results are.
    MissingResults,
    /// The batch had not ended after the last poll that was allowed.
    Timeout,
    /// Something was reported that the stage of the run does not expect.
    OutOfTurn,
}

pub enum WorkflowErrorView {
    Unavailable { message: Seq<char> },
    NoConversations,
    InvalidCredential,
    Transport { message: Seq<char> },
    NoLabels,
    MissingResults,
    Timeout,
    OutOfTurn,
}

impl View for WorkflowError {
    type V = WorkflowErrorView;

    open spec fn view(&self) -> WorkflowErrorView {
        match self {
            WorkflowError::Unavailable { message } => WorkflowErrorView::Unavailable {
                message: message@,
            },
            WorkflowError::NoConversations => WorkflowErrorView::NoConversations,
            WorkflowError::InvalidCredential => WorkflowErrorView::InvalidCredential,
            WorkflowError::Transport { message } => WorkflowErrorView::Transport {
                message: message@,
            },
            WorkflowError::NoLabels => WorkflowErrorView::NoLabels,
            WorkflowError::MissingResults => WorkflowErrorView::MissingResults,
            WorkflowError::Timeout => WorkflowErrorView::Timeout,
            WorkflowError::OutOfTurn => WorkflowErrorView::OutOfTurn,
        }
    }
}

impl WorkflowErrorView {
    /// The error in words.
    pub open spec fn message(self) -> Seq<char> {
        match self {
            WorkflowErrorView::Unavailable { message } => message,
            WorkflowErrorView::NoConversations => "No conversations found in database"@,
            WorkflowErrorView::InvalidCredential =>
                "INVALID_API_KEY: Invalid API key — check console.anthropic.com"@,
            WorkflowErrorView::Transport { message } => message,
            WorkflowErrorView::NoLabels => "Pass 1 returned no cluster labels"@,
            WorkflowErrorView::MissingResults => "Batch ended with no results_url"@,
            WorkflowErrorView::Timeout => "Batch timed out after 1 hour"@,
            WorkflowErrorView::OutOfTurn => "Enrichment was told something out of turn"@,
        }
    }
}

impl WorkflowError {
    /// The error in words.
    pub fn message(&self) -> (r: String)
        ensures
            r@ == self@.message(),
    {
        match self {
            WorkflowError::Unavailable { message } => message.clone(),
            WorkflowError::NoConversations => "No conversations found in database".to_owned(),
            WorkflowError::InvalidCredential =>
                "INVALID_API_KEY: Invalid API key — check console.anthropic.com".to_owned(),
            WorkflowError::Transport { message } => message.clone(),
            WorkflowError::NoLabels => "Pass 1 returned no cluster labels".to_owned(),
            WorkflowError::MissingResults => "Batch ended with no results_url".to_owned(),
            WorkflowError::Timeout => "Batch timed out after 1 hour".to_owned(),
            WorkflowError::OutOfTurn => "Enrichment was told something out of turn".to_owned(),
        }
    }
}

/// The error of the run that a failed call makes.
pub open spec fn call_failure(error: CallError) -> WorkflowErrorView {
    match error {
        CallError::Unauthorized => WorkflowErrorView::InvalidCredential,
        CallError::Failed { message } => WorkflowErrorView::Transport { message: message@ },
    }
}

/// Where a run of enrichment stands.
#[derive(Debug, Clone, Copy, PartialEq, Eq, Structural)]
pub enum Stage {
    Idle,
    EstimatingCost,
    DiscoveringVocabulary,
    SubmittingBatch,
    Polling,
    FetchingResults,
    Reconciling,
    Complete,
    Error,
}

/// What happened outside since the last step.
#[derive(Debug)]
pub enum Report {
    /// What the run needs could not be had: the credential is missing, or
    /// storage could not be reached.
    Unavailable { message: String },
    /// The conversations were read from storage.
    Loaded { conversations: Vec<ConversationRow> },
    /// The service counted the tokens of the text, or the call failed.
    TokensCounted { tokens: Result<u64, CallError> },
    /// The first pass gave these labels, or the call failed.
    Discovered { labels: Result<Vec<String>, CallError> },
    /// The batch was submitted and has this identifier, or the call failed.
    Submitted { batch_id: Result<String, CallError> },
    /// The interval before the next poll has passed.
    Waited { elapsed_secs: u64 },
    /// The service said whether the batch has ended and where its results
    /// are, or the call failed.
    Polled { status: Result<(bool, Option<String>), CallError> },
    /// The results were fetched and these assignments found in them, or the
    /// call failed.
    Fetched { assignments: Result<Vec<(String, ClusterAssignment)>, CallError> },
    /// The assignments were written to storage.
    Stored,
}

/// What is to be done next.
#[derive(Debug)]
pub enum Action {
    /// Have the service count the tokens of `text`.
    CountTokens { text: String },
    /// Ask the service for labels that fit `sample`.
    Discover { sample: String },
    /// Submit `requests` as one batch.
    Submit { requests: Vec<BatchRequestItem> },
    /// Wait for `seconds`.
    Wait { seconds: u64 },
    /// Ask the service for the status of the batch.
    Poll { batch_id: String },
    /// Fetch the results from `results_url`.
    Fetch { results_url: String },
    /// Write `assignments` to storage, each to the row of its identifier.
    Store { assignments: Vec<(String, ClusterAssignment)> },
    /// The run is over, with the number of conversations that were assigned
    /// a label, or with the reason why there is none.
    Finish { outcome: Result<usize, WorkflowError> },
}

pub enum ActionView {
    CountTokens { text: Seq<char> },
    Discover { sample: Seq<char> },
    Submit { requests: Seq<BatchRequestView> },
    Wait { seconds: u64 },
    Poll { batch_id: Seq<char> },
    Fetch { results_url: Seq<char> },
    Store { assignments: Seq<(Seq<char>, ClusterAssignmentView)> },
    Finish { outcome: Result<usize, WorkflowErrorView> },
}

impl View for Action {
    type V = ActionView;

    open spec fn view(&self) -> ActionView {
        match self {
            Action::CountTokens { text } => ActionView::CountTokens { text: text@ },
            Action::Discover { sample } => ActionView::Discover { sample: sample@ },
            Action::Submit { requests } => ActionView::Submit {
                requests: requests_view(requests@),
            },
            Action::Wait { seconds } => ActionView::Wait { seconds: *seconds },
            Action::Poll { batch_id } => ActionView::Poll { batch_id: batch_id@ },
            Action::Fetch { results_url } => ActionView::Fetch { results_url: results_url@ },
            Action::Store { assignments } => ActionView::Store {
                assignments: assignments_view(assignments@),
            },
            Action::Finish { outcome } => ActionView::Finish {
                outcome: match outcome {
                    Ok(n) => Ok(*n),
                    Err(e) => Err(e@),
                },
            },
        }
    }
}

/// What one step asks for: what to tell the user, what to do next, and
/// whether to forget the credential because the service refused it.
#[derive(Debug)]
pub struct Turn {
    pub events: Vec<ClusterEvent>,
    pub action: Action,
    pub forget_credential: bool,
}

pub struct TurnView {
    pub events: Seq<ClusterEventView>,
    pub action: ActionView,
    pub forget_credential: bool,
}

impl View for Turn {
    type V = TurnView;

    open spec fn view(&self) -> TurnView {
        TurnView {
            events: events_view(self.events@),
            action: self.action@,
            forget_credential: self.forget_credential,
        }
    }
}

/// A run of enrichment.
pub struct Workflow {
    stage: Stage,
    conversations: Vec<ConversationRow>,
    model: String,
    polls: u32,
    max_polls: u32,
    batch_id: String,
    assigned: usize,
}

pub struct WorkflowView {
    pub stage: Stage,
    pub conversations: Seq<ConversationRow>,
    pub model: Seq<char>,
    pub polls: u32,
    pub max_polls: u32,
    pub batch_id: Seq<char>,
    pub assigned: usize,
}

impl View for Workflow {
    type V = WorkflowView;

    closed spec fn view(&self) -> WorkflowView {
        WorkflowView {
            stage: self.stage,
            conversations: self.conversations@,
            model: self.model@,
            polls: self.polls,
            max_polls: self.max_polls,
            batch_id: self.batch_id@,
            assigned: self.assigned,
        }
    }
}

/// The title of a conversation, or what stands for it.
pub open spec fn title_of(row: ConversationRow) -> Seq<char> {
    match row.title {
        Some(t) => t@,
        None => UNTITLED@,
    }
}

/// What one conversation adds to the sample: its title and the beginning of
/// its text.
pub open spec fn sample_entry(row: ConversationRow) -> Seq<char> {
    "Title: "@ + title_of(row) + "\nSnippet: "@ + truncated(row.full_text@, SNIPPET_CHARS as nat)
}

/// The first `limit` conversations: all of them where there are no more.
pub open spec fn first_rows(rows: Seq<ConversationRow>, limit: nat) -> Seq<ConversationRow> {
    if rows.len() > limit {
        rows.subrange(0, limit as int)
    } else {
        rows
    }
}

/// The sample of the first pass: an entry for each of the first
/// [`SAMPLE_SIZE`] conversations, with a rule between each two.
pub open spec fn sample_of(rows: Seq<ConversationRow>) -> Seq<char> {
    let taken = first_rows(rows, SAMPLE_SIZE as nat);
    join(Seq::new(taken.len(), |i: int| sample_entry(taken[i])), "\n---\n"@)
}

/// The text whose tokens are counted for the estimate: the text of every
/// conversation as far as a request carries it, with a rule between each
/// two.
pub open spec fn estimate_text_of(rows: Seq<ConversationRow>) -> Seq<char> {
    join(
        Seq::new(rows.len(), |i: int| truncated(rows[i].full_text@, MAX_CHARS as nat)),
        "\n\n---\n\n"@,
    )
}

/// The requests of the second pass: one for each conversation, in order,
/// each under the conversation's own identifier.
pub open spec fn requests_for(
    rows: Seq<ConversationRow>,
    labels: Seq<Seq<char>>,
    model: Seq<char>,
) -> Seq<BatchRequestView> {
    Seq::new(
        rows.len(),
        |i: int| request_of(rows[i].id@, model, pass2_system(labels), rows[i].full_text@),
    )
}

/// Builds the sample of the first pass.
pub fn build_sample(rows: &Vec<ConversationRow>) -> (r: String)
    ensures
        r@ == sample_of(rows@),
{
    let count = if rows.len() > SAMPLE_SIZE {
        SAMPLE_SIZE
    } else {
        rows.len()
    };
    let ghost taken = first_rows(rows@, SAMPLE_SIZE as nat);
    let ghost wanted = Seq::new(taken.len(), |i: int| sample_entry(taken[i]));
    let mut entries: Vec<String> = Vec::new();
    let mut i: usize = 0;
    while i < count
        invariant
            i <= count,
            count == taken.len(),
            count <= rows@.len(),
            taken == first_rows(rows@, SAMPLE_SIZE as nat),
            wanted == Seq::new(taken.len(), |i: int| sample_entry(taken[i])),
            strings_view(entries@) == wanted.subrange(0, i as int),
        decreases count - i,
    {
        let row = &rows[i];
        assert(taken[i as int] == rows@[i as int]);
        let mut entry = "Title: ".to_owned();
        match &row.title {
            Some(t) => entry.append(t.as_str()),
            None => entry.append(UNTITLED),
        }
        entry.append("\nSnippet: ");
        entry.append(truncate_chars(row.full_text.as_str(), SNIPPET_CHARS));
        assert(entry@ =~= sample_entry(*row));
        let ghost before = strings_view(entries@);
        entries.push(entry);
        assert(strings_view(entries@) =~= before.push(entry@));
        assert(wanted.subrange(0, i + 1) =~= wanted.subrange(0, i as int).push(wanted[i as int]));
        i += 1;
    }
    assert(wanted.subrange(0, count as int) =~= wanted);
    join_strings(&entries, "\n---\n")
}

/// Builds the text whose tokens are counted for the estimate.
pub fn build_estimate_text(rows: &Vec<ConversationRow>) -> (r: String)
    ensures
        r@ == estimate_text_of(rows@),
{
    let ghost wanted = Seq::new(rows@.len(), |i: int| truncated(rows@[i].full_text@, MAX_CHARS as nat));
    let mut texts: Vec<String> = Vec::new();
    let mut i: usize = 0;
    while i < rows.len()
        invariant
            i <= rows@.len(),
            wanted == Seq::new(rows@.len(), |i: int| truncated(rows@[i].full_text@, MAX_CHARS as nat)),
            strings_view(texts@) == wanted.subrange(0, i as int),
        decreases rows@.len() - i,
    {
        let ghost before = strings_view(texts@);
        let text = truncate_chars(rows[i].full_text.as_str(), MAX_CHARS).to_owned();
        texts.push(text);
        assert(strings_view(texts@) =~= before.push(text@));
        assert(wanted.subrange(0, i + 1) =~= wanted.subrange(0, i as int).push(wanted[i as int]));
        i += 1;
    }
    assert(wanted.subrange(0, rows@.len() as int) =~= wanted);
    join_strings(&texts, "\n\n---\n\n")
}

/// Builds the requests of the second pass, to be answered by `model`, with
/// the vocabulary word for word in the system prompt of each.
pub fn build_requests(rows: &Vec<ConversationRow>, labels: &Vec<String>, model: &str) -> (r: Vec<
    BatchRequestItem,
>)
    ensures
        requests_view(r@) == requests_for(rows@, strings_view(labels@), model@),
{
    let system = build_pass2_system(labels.as_slice());
    let ghost wanted = requests_for(rows@, strings_view(labels@), model@);
    let mut requests: Vec<BatchRequestItem> = Vec::new();
    let mut i: usize = 0;
    while i < rows.len()
        invariant
            i <= rows@.len(),
            system@ == pass2_system(strings_view(labels@)),
            wanted == requests_for(rows@, strings_view(labels@), model@),
            requests_view(requests@) == wanted.subrange(0, i as int),
        decreases rows@.len() - i,
    {
        let ghost before = requests_view(requests@);
        let request = build_request(
            rows[i].id.as_str(),
            model,
            system.as_str(),
            rows[i].full_text.as_str(),
        );
        requests.push(request);
        assert(requests_view(requests@) =~= before.push(request@));
        assert(wanted.subrange(0, i + 1) =~= wanted.subrange(0, i as int).push(wanted[i as int]));
        i += 1;
    }
    assert(wanted.subrange(0, rows@.len() as int) =~= wanted);
    requests
}

/// The run ends in an error. The user is told where `announce` holds, which
/// it does for every failure of a run that was still under way.
pub open spec fn halted(w: WorkflowView, error: WorkflowErrorView, announce: bool, forget: bool) -> (
    WorkflowView,
    TurnView,
) {
    (
        WorkflowView { stage: Stage::Error, ..w },
        TurnView {
            events: if announce {
                seq![ClusterEventView::Error { message: error.message() }]
            } else {
                Seq::empty()
            },
            action: ActionView::Finish { outcome: Err(error) },
            forget_credential: forget,
        },
    )
}

/// The run has ended because a call failed. The user is told, and the
/// credential is to be forgotten where the service refused it.
pub open spec fn failed(w: WorkflowView, error: CallError) -> (WorkflowView, TurnView) {
    halted(w, call_failure(error), true, error is Unauthorized)
}

/// The run goes on in `stage`.
pub open spec fn proceed(
    w: WorkflowView,
    stage: Stage,
    events: Seq<ClusterEventView>,
    action: ActionView,
) -> (WorkflowView, TurnView) {
    (WorkflowView { stage, ..w }, TurnView { events, action, forget_credential: false })
}

/// One more poll, as far as the counter goes.
pub open spec fn one_more(polls: u32) -> u32 {
    if polls < u32::MAX {
        (polls + 1) as u32
    } else {
        polls
    }
}

/// What a run in the state `w` becomes when `report` comes in, and what it
/// asks for.
///
/// A run that cannot go on, for want of the credential or of storage, ends
/// at once. Else the stages follow each other in one order: the
/// conversations are loaded,
/// their tokens counted, the vocabulary discovered, the batch submitted and
/// polled, its results fetched and stored. A call that fails ends the run in
/// `Error`, and so does a report that the stage does not expect; every such
/// end is told to the user in an `Error` event. Nothing leads out of
/// `Complete` or `Error`, and a run that has ended tells nothing more.
pub open spec fn next(w: WorkflowView, report: Report) -> (WorkflowView, TurnView) {
    match (w.stage, report) {
        (Stage::Complete, _) => proceed(
            w,
            Stage::Complete,
            Seq::empty(),
            ActionView::Finish { outcome: Ok(w.assigned) },
        ),
        (Stage::Error, _) => halted(w, WorkflowErrorView::OutOfTurn, false, false),
        (_, Report::Unavailable { message }) => halted(
            w,
            WorkflowErrorView::Unavailable { message: message@ },
            true,
            false,
        ),
        (Stage::Idle, Report::Loaded { conversations }) => if conversations@.len() == 0 {
            halted(w, WorkflowErrorView::NoConversations, true, false)
        } else {
            proceed(
                WorkflowView { conversations: conversations@, ..w },
                Stage::EstimatingCost,
                seq![ClusterEventView::EstimatingTokens],
                ActionView::CountTokens { text: estimate_text_of(conversations@) },
            )
        },
        (Stage::EstimatingCost, Report::TokensCounted { tokens: outcome }) => match outcome {
            Ok(_) => proceed(
                w,
                Stage::DiscoveringVocabulary,
                seq![ClusterEventView::Pass1Started],
                ActionView::Discover { sample: sample_of(w.conversations) },
            ),
            Err(error) => failed(w, error),
        },
        (Stage::DiscoveringVocabulary, Report::Discovered { labels: outcome }) => match outcome {
            Ok(labels) => if labels@.len() == 0 {
                halted(w, WorkflowErrorView::NoLabels, true, false)
            } else {
                proceed(
                    w,
                    Stage::SubmittingBatch,
                    seq![ClusterEventView::Pass1Complete { cluster_labels: strings_view(labels@) }],
                    ActionView::Submit {
                        requests: requests_for(w.conversations, strings_view(labels@), w.model),
                    },
                )
            },
            Err(error) => failed(w, error),
        },
        (Stage::SubmittingBatch, Report::Submitted { batch_id: outcome }) => match outcome {
            Ok(batch_id) => proceed(
                WorkflowView { polls: 0, batch_id: batch_id@, ..w },
                Stage::Polling,
                seq![ClusterEventView::BatchSubmitted { batch_id: batch_id@ }],
                ActionView::Wait { seconds: POLL_INTERVAL_SECS },
            ),
            Err(error) => failed(w, error),
        },
        (Stage::Polling, Report::Waited { elapsed_secs }) => proceed(
            WorkflowView { polls: one_more(w.polls), ..w },
            Stage::Polling,
            seq![ClusterEventView::Polling { elapsed_secs }],
            ActionView::Poll { batch_id: w.batch_id },
        ),
        (Stage::Polling, Report::Polled { status: outcome }) => match outcome {
            Ok((done, results_url)) => if done {
                match results_url {
                    Some(url) => proceed(
                        w,
                        Stage::FetchingResults,
                        Seq::empty(),
                        ActionView::Fetch { results_url: url@ },
                    ),
                    None => halted(w, WorkflowErrorView::MissingResults, true, false),
                }
            } else if w.polls >= w.max_polls {
                halted(w, WorkflowErrorView::Timeout, true, false)
            } else {
                proceed(
                    w,
                    Stage::Polling,
                    Seq::empty(),
                    ActionView::Wait { seconds: POLL_INTERVAL_SECS },
                )
            },
            Err(error) => failed(w, error),
        },
        (Stage::FetchingResults, Report::Fetched { assignments: outcome }) => match outcome {
            Ok(assignments) => proceed(
                WorkflowView { assigned: assignments@.len() as usize, ..w },
                Stage::Reconciling,
                Seq::empty(),
                ActionView::Store { assignments: assignments_view(assignments@) },
            ),
            Err(error) => failed(w, error),
        },
        (Stage::Reconciling, Report::Stored) => proceed(
            w,
            Stage::Complete,
            seq![ClusterEventView::Complete { assigned_count: w.assigned }],
            ActionView::Finish { outcome: Ok(w.assigned) },
        ),
        _ => halted(w, WorkflowErrorView::OutOfTurn, true, false),
    }
}

impl Workflow {
    /// A run that has not begun, whose requests are to be answered by
    /// `model`, and that gives a batch up after `max_polls` polls.
    pub fn new(model: String, max_polls: u32) -> (r: Self)
        ensures
            r@ == (WorkflowView {
                stage: Stage::Idle,
                conversations: Seq::empty(),
                model: model@,
                polls: 0,
                max_polls,
                batch_id: Seq::empty(),
                assigned: 0,
            }),
    {
        Workflow {
            stage: Stage::Idle,
            conversations: Vec::new(),
            model,
            polls: 0,
            max_polls,
            batch_id: String::new(),
            assigned: 0,
        }
    }

    /// Where the run stands.
    pub fn stage(&self) -> (r: Stage)
        ensures
            r == self@.stage,
    {
        self.stage
    }

    /// How often the batch was polled.
    pub fn polls(&self) -> (r: u32)
        ensures
            r == self@.polls,
    {
        self.polls
    }

    fn halt(&mut self, error: WorkflowError, announce: bool, forget: bool) -> (r: Turn)
        ensures
            (final(self)@, r@) == halted(old(self)@, error@, announce, forget),
    {
        self.stage = Stage::Error;
        let mut events: Vec<ClusterEvent> = Vec::new();
        if announce {
            events.push(ClusterEvent::Error { message: error.message() });
        }
        let r = Turn { events, action: Action::Finish { outcome: Err(error) }, forget_credential: forget };
        assert(r@.events =~= halted(old(self)@, error@, announce, forget).1.events);
        r
    }

    fn fail(&mut self, error: CallError) -> (r: Turn)
        ensures
            (final(self)@, r@) == failed(old(self)@, error),
    {
        match error {
            CallError::Unauthorized => self.halt(WorkflowError::InvalidCredential, true, true),
            CallError::Failed { message } => self.halt(
                WorkflowError::Transport { message },
                true,
                false,
            ),
        }
    }

    fn go(&mut self, stage: Stage, event: Option<ClusterEvent>, action: Action) -> (r: Turn)
        ensures
            (final(self)@, r@) == proceed(
                old(self)@,
                stage,
                match event {
                    Some(e) => seq![e@],
                    None => Seq::empty(),
                },
                action@,
            ),
    {
        self.stage = stage;
        let mut events: Vec<ClusterEvent> = Vec::new();
        match event {
            Some(e) => {
                events.push(e);
                assert(events_view(events@) =~= seq![e@]);
            },
            None => {
                assert(events_view(events@) =~= Seq::<ClusterEventView>::empty());
            },
        }
        Turn { events, action, forget_credential: false }
    }

    /// Takes what happened outside and says what to tell the user and what
    /// to do next.
    pub fn step(&mut self, report: Report) -> (r: Turn)
        ensures
            (final(self)@, r@) == next(old(self)@, report),
    {
        if self.stage == Stage::Complete {
            let assigned = self.assigned;
            return self.go(Stage::Complete, None, Action::Finish { outcome: Ok(assigned) });
        }
        if self.stage == Stage::Error {
            return self.halt(WorkflowError::OutOfTurn, false, false);
        }
        match report {
            Report::Unavailable { message } => {
                self.halt(WorkflowError::Unavailable { message }, true, false)
            },
            Report::Loaded { conversations } => {
                if self.stage != Stage::Idle {
                    return self.halt(WorkflowError::OutOfTurn, true, false);
                }
                if conversations.len() == 0 {
                    return self.halt(WorkflowError::NoConversations, true, false);
                }
                let text = build_estimate_text(&conversations);
                self.conversations = conversations;
                self.go(
                    Stage::EstimatingCost,
                    Some(ClusterEvent::EstimatingTokens),
                    Action::CountTokens { text },
                )
            },
            Report::TokensCounted { tokens: outcome } => {
                if self.stage != Stage::EstimatingCost {
                    return self.halt(WorkflowError::OutOfTurn, true, false);
                }
                match outcome {
                    Ok(_) => {
                        let sample = build_sample(&self.conversations);
                        self.go(
                            Stage::DiscoveringVocabulary,
                            Some(ClusterEvent::Pass1Started),
                            Action::Discover { sample },
                        )
                    },
                    Err(error) => self.fail(error),
                }
            },
            Report::Discovered { labels: outcome } => {
                if self.stage != Stage::DiscoveringVocabulary {
                    return self.halt(WorkflowError::OutOfTurn, true, false);
                }
                match outcome {
                    Ok(labels) => {
                        if labels.len() == 0 {
                            return self.halt(WorkflowError::NoLabels, true, false);
                        }
                        let requests = build_requests(
                            &self.conversations,
                            &labels,
                            self.model.as_str(),
                        );
                        self.go(
                            Stage::SubmittingBatch,
                            Some(ClusterEvent::Pass1Complete { cluster_labels: labels }),
                            Action::Submit { requests },
                        )
                    },
                    Err(error) => self.fail(error),
                }
            },
            Report::Submitted { batch_id: outcome } => {
                if self.stage != Stage::SubmittingBatch {
                    return self.halt(WorkflowError::OutOfTurn, true, false);
                }
                match outcome {
                    Ok(batch_id) => {
                        self.polls = 0;
                        self.batch_id = batch_id.clone();
                        self.go(
                            Stage::Polling,
                            Some(ClusterEvent::BatchSubmitted { batch_id }),
                            Action::Wait { seconds: POLL_INTERVAL_SECS },
                        )
                    },
                    Err(error) => self.fail(error),
                }
            },
            Report::Waited { elapsed_secs } => {
                if self.stage != Stage::Polling {
                    return self.halt(WorkflowError::OutOfTurn, true, false);
                }
                if self.polls < u32::MAX {
                    self.polls = self.polls + 1;
                }
                let batch_id = self.batch_id.clone();
                self.go(
                    Stage::Polling,
                    Some(ClusterEvent::Polling { elapsed_secs }),
                    Action::Poll { batch_id },
                )
            },
            Report::Polled { status: outcome } => {
                if self.stage != Stage::Polling {
                    return self.halt(WorkflowError::OutOfTurn, true, false);
                }
                match outcome {
                    Ok((done, results_url)) => {
                        if done {
                            match results_url {
                                Some(url) => self.go(
                                    Stage::FetchingResults,
                                    None,
                                    Action::Fetch { results_url: url },
                                ),
                                None => self.halt(WorkflowError::MissingResults, true, false),
                            }
                        } else if self.polls >= self.max_polls {
                            self.halt(WorkflowError::Timeout, true, false)
                        } else {
                            self.go(
                                Stage::Polling,
                                None,
                                Action::Wait { seconds: POLL_INTERVAL_SECS },
                            )
                        }
                    },
                    Err(error) => self.fail(error),
                }
            },
            Report::Fetched { assignments: outcome } => {
                if self.stage != Stage::FetchingResults {
                    return self.halt(WorkflowError::OutOfTurn, true, false);
                }
                match outcome {
                    Ok(assignments) => {
                        self.assigned = assignments.len();
                        self.go(Stage::Reconciling, None, Action::Store { assignments })
                    },
                    Err(error) => self.fail(error),
                }
            },
            Report::Stored => {
                if self.stage != Stage::Reconciling {
                    return self.halt(WorkflowError::OutOfTurn, true, false);
                }
                let assigned = self.assigned;
                self.go(
                    Stage::Complete,
                    Some(ClusterEvent::Complete { assigned_count: assigned }),
                    Action::Finish { outcome: Ok(assigned) },
                )
            },
        }
    }
}

/// What a run in the state `w` becomes over a series of reports, and the
/// turns that it takes on the way.
pub open spec fn run(w: WorkflowView, reports: Seq<Report>) -> (WorkflowView, Seq<TurnView>)
    decreases reports.len(),
{
    if reports.len() == 0 {
        (w, Seq::empty())
    } else {
        let before = run(w, reports.drop_last());
        let last = next(before.0, reports.last());
        (last.0, before.1.push(last.1))
    }
}

/// A run that has ended stays where it is, and asks for nothing but to
/// finish.
pub proof fn lemma_ended_run_stays(w: WorkflowView, report: Report)
    requires
        w.stage == Stage::Complete || w.stage == Stage::Error,
    ensures
        next(w, report).0.stage == w.stage,
        next(w, report).1.action is Finish,
        next(w, report).1.events.len() == 0,
{
}

/// Whatever ends a run that was under way in an error, the user is told of
/// it in one `Error` event, which holds the error in words.
pub proof fn lemma_failure_is_told(w: WorkflowView, report: Report)
    requires
        w.stage != Stage::Complete,
        w.stage != Stage::Error,
        next(w, report).0.stage == Stage::Error,
    ensures
        match next(w, report).1.action {
            ActionView::Finish { outcome: Err(error) } => next(w, report).1.events == seq![
                ClusterEventView::Error { message: error.message() },
            ],
            _ => false,
        },
{
}

/// From every stage but `Complete`, a run can end in an error.
pub proof fn lemma_error_reachable(w: WorkflowView)
    requires
        w.stage != Stage::Complete,
    ensures
        exists|report: Report| (#[trigger] next(w, report)).0.stage == Stage::Error,
{
    if w.stage == Stage::Reconciling {
        assert(next(w, Report::Waited { elapsed_secs: 0 }).0.stage == Stage::Error);
    } else {
        assert(next(w, Report::Stored).0.stage == Stage::Error);
    }
}

/// Once a run has ended in an error, no series of reports brings it back or
/// makes it ask for anything but to finish.
pub proof fn lemma_error_is_final(w: WorkflowView, reports: Seq<Report>)
    requires
        w.stage == Stage::Error,
    ensures
        run(w, reports).0.stage == Stage::Error,
        run(w, reports).1.len() == reports.len(),
        forall|i: int| 0 <= i < reports.len() ==> (#[trigger] run(w, reports).1[i]).action is Finish,
    decreases reports.len(),
{
    if reports.len() > 0 {
        lemma_error_is_final(w, reports.drop_last());
        lemma_ended_run_stays(run(w, reports.drop_last()).0, reports.last());
    }
}

/// The turns of a run over `first` and then `rest` are those over `first`,
/// followed by those that the state reached there takes over `rest`.
pub proof fn lemma_run_split(w: WorkflowView, first: Seq<Report>, rest: Seq<Report>)
    ensures
        run(w, first + rest).0 == run(run(w, first).0, rest).0,
        run(w, first + rest).1 == run(w, first).1 + run(run(w, first).0, rest).1,
    decreases rest.len(),
{
    if rest.len() == 0 {
        assert(first + rest =~= first);
        assert(run(w, first).1 + Seq::<TurnView>::empty() =~= run(w, first).1);
    } else {
        assert((first + rest).drop_last() =~= first + rest.drop_last());
        assert((first + rest).last() == rest.last());
        lemma_run_split(w, first, rest.drop_last());
        let mid = run(w, first).0;
        assert(run(w, first).1 + run(mid, rest).1 =~= (run(w, first).1 + run(
            mid,
            rest.drop_last(),
        ).1).push(next(run(mid, rest.drop_last()).0, rest.last()).1));
    }
}

/// Where the first pass gives no label, the run ends at once in an error,
/// and at no later time is a batch submitted.
pub proof fn lemma_no_labels_no_batch(w: WorkflowView, labels: Vec<String>, later: Seq<Report>)
    requires
        w.stage == Stage::DiscoveringVocabulary,
        labels@.len() == 0,
    ensures
        ({
            let reports = seq![Report::Discovered { labels: Ok(labels) }] + later;
            &&& run(w, reports).0.stage == Stage::Error
            &&& run(w, reports).1[0].action == (ActionView::Finish {
                outcome: Err(WorkflowErrorView::NoLabels),
            })
            &&& forall|i: int|
                0 <= i < reports.len() ==> !((#[trigger] run(w, reports).1[i]).action is Submit)
        }),
{
    let first = seq![Report::Discovered { labels: Ok(labels) }];
    let reports = first + later;
    reveal_with_fuel(run, 2);
    assert(first.last() == first[0]);
    assert(run(w, first).0 == next(w, first[0]).0);
    assert(run(w, first).1 =~= seq![next(w, first[0]).1]);
    lemma_run_split(w, first, later);
    lemma_error_is_final(run(w, first).0, later);
    assert forall|i: int| 0 <= i < reports.len() implies !((#[trigger] run(w, reports).1[i]).action is Submit) by {
        if i > 0 {
            assert(run(w, reports).1[i] == run(run(w, first).0, later).1[i - 1]);
        }
    }
}

/// A series of reports in which the batch is polled again and again and has
/// never ended: by turns the interval has passed and the service said that
/// the batch goes on.
pub open spec fn never_ended(reports: Seq<Report>) -> bool {
    &&& reports.len() % 2 == 0
    &&& forall|i: int|
        0 <= i < reports.len() && i % 2 == 0 ==> (#[trigger] reports[i]) is Waited
    &&& forall|i: int|
        0 <= i < reports.len() && i % 2 == 1 ==> match #[trigger] reports[i] {
            Report::Polled { status: Ok((done, _)) } => !done,
            _ => false,
        }
}

/// How many polls a run in the state `w` has left before it gives up: one at
/// the least.
pub open spec fn polls_left(w: WorkflowView) -> int {
    if w.max_polls - w.polls >= 1 {
        w.max_polls - w.polls
    } else {
        1
    }
}

/// The turn in which a run gives a batch up.
pub open spec fn timeout_turn() -> TurnView {
    TurnView {
        events: seq![ClusterEventView::Error { message: "Batch timed out after 1 hour"@ }],
        action: ActionView::Finish { outcome: Err(WorkflowErrorView::Timeout) },
        forget_credential: false,
    }
}

proof fn lemma_polling_rounds(w: WorkflowView, reports: Seq<Report>, rounds: int)
    requires
        w.stage == Stage::Polling,
        never_ended(reports),
        0 <= rounds,
        2 * rounds <= reports.len(),
    ensures
        ({
            let seen = run(w, reports.subrange(0, 2 * rounds));
            &&& seen.1.len() == 2 * rounds
            &&& rounds < polls_left(w) ==> seen.0 == (WorkflowView {
                polls: (w.polls + rounds) as u32,
                ..w
            })
            &&& rounds >= polls_left(w) ==> seen.0.stage == Stage::Error && seen.1[2 * polls_left(w)
                - 1] == timeout_turn()
            &&& forall|i: int|
                2 * polls_left(w) <= i < 2 * rounds ==> !((#[trigger] seen.1[i]).action is Poll)
            &&& forall|i: int|
                0 <= i < 2 * rounds && i < 2 * polls_left(w) ==> ((#[trigger] seen.1[i]).action
                    is Poll) == (i % 2 == 0)
        }),
    decreases rounds,
{
    if rounds == 0 {
        assert(reports.subrange(0, 0) =~= Seq::<Report>::empty());
    } else {
        lemma_polling_rounds(w, reports, rounds - 1);
        let before = reports.subrange(0, 2 * rounds - 2);
        let middle = reports.subrange(0, 2 * rounds - 1);
        let now = reports.subrange(0, 2 * rounds);
        assert(middle.drop_last() =~= before);
        assert(now.drop_last() =~= middle);
        assert(middle.last() == reports[2 * rounds - 2]);
        assert(now.last() == reports[2 * rounds - 1]);
        let s0 = run(w, before);
        let s1 = next(s0.0, middle.last());
        let s2 = next(s1.0, now.last());
        assert(run(w, middle) == (s1.0, s0.1.push(s1.1)));
        assert(run(w, now) == (s2.0, s0.1.push(s1.1).push(s2.1)));
        assert(reports[2 * rounds - 2] is Waited);
        if rounds - 1 >= polls_left(w) {
            lemma_ended_run_stays(s0.0, middle.last());
            lemma_ended_run_stays(s1.0, now.last());
        }
        let seen = run(w, now);
        assert forall|i: int| 0 <= i < 2 * rounds && i < 2 * polls_left(w) implies ((
        #[trigger] seen.1[i]).action is Poll) == (i % 2 == 0) by {
            if i < 2 * rounds - 2 {
                assert(seen.1[i] == s0.1[i]);
            }
        }
    }
}

/// A batch that never ends is given up: after the last poll that is allowed,
/// the run ends in an error that says so, and it asks for no poll after
/// that, however long the reports go on. Up to there it asks for a poll in
/// every other turn, which makes as many polls as the run had left: as many
/// as the ceiling says for a run that begins to poll, and one where the
/// ceiling is nought.
pub proof fn lemma_poll_ceiling(w: WorkflowView, reports: Seq<Report>)
    requires
        w.stage == Stage::Polling,
        never_ended(reports),
        reports.len() >= 2 * polls_left(w),
    ensures
        run(w, reports).0.stage == Stage::Error,
        run(w, reports).1[2 * polls_left(w) - 1] == timeout_turn(),
        forall|i: int|
            2 * polls_left(w) <= i < reports.len() ==> !((#[trigger] run(w, reports).1[i]).action is Poll),
        forall|i: int|
            0 <= i < 2 * polls_left(w) ==> ((#[trigger] run(w, reports).1[i]).action is Poll) == (i
                % 2 == 0),
{
    lemma_polling_rounds(w, reports, reports.len() as int / 2);
    assert(reports.subrange(0, reports.len() as int) =~= reports);
}

/// How many tokens the answer to one conversation is taken to have.
pub const OUTPUT_TOKENS_PER_CONVERSATION: u64 = 300;

/// What a token of input costs, in ten-millionths of a dollar.
pub const INPUT_TOKEN_COST: u64 = 4;

/// What a token of output costs, in ten-millionths of a dollar.
pub const OUTPUT_TOKEN_COST: u64 = 20;

/// What a run is estimated to cost, in ten-millionths of a dollar: the
/// tokens of its input at forty cents a million, and three hundred tokens of
/// output for each conversation at two dollars a million.
pub open spec fn estimated_cost(input_tokens: u64, conversations: u64) -> int {
    input_tokens * INPUT_TOKEN_COST + conversations * OUTPUT_TOKENS_PER_CONVERSATION
        * OUTPUT_TOKEN_COST
}

/// Estimates what a run costs, in ten-millionths of a dollar.
pub fn estimate_cost_units(input_tokens: u64, conversations: u64) -> (r: u128)
    ensures
        r == estimated_cost(input_tokens, conversations),
{
    let input: u128 = input_tokens as u128 * 4;
    let output: u128 = conversations as u128 * 6000;
    input + output
}

} // verus!
