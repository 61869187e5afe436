//! Ingestion of an archive: what the user is told on the way, and what is
//! counted.

use crate::pipeline::json_parser::ConversationExport;
use crate::pipeline::normalizer::{normalize, normalized, ConversationRecord};
use vstd::prelude::*;

verus! {

/// The seconds of a year of 365 days.
pub const SECONDS_PER_YEAR: i64 = 31_536_000;

/// After how many conversations the user is told how far ingestion is.
pub const PROGRESS_EVERY: u32 = 50;

/// The first year that is reported where no conversation has a time.
pub const DEFAULT_EARLIEST_YEAR: i32 = 2020;

/// The last year that is reported where no conversation has a time.
pub const DEFAULT_LATEST_YEAR: i32 = 2024;

/// What the user is told while an archive is ingested.
#[derive(Debug)]
pub enum IngestEvent {
    Started,
    ExtractingZip,
    ParsingConversations { processed: u32 },
    BuildingIndex,
    Complete { total: u32, earliest_year: i32, latest_year: i32 },
    Error { message: String },
}

pub enum IngestEventView {
    Started,
    ExtractingZip,
    ParsingConversations { processed: u32 },
    BuildingIndex,
    Complete { total: u32, earliest_year: i32, latest_year: i32 },
    Error { message: Seq<char> },
}

impl View for IngestEvent {
    type V = IngestEventView;

    open spec fn view(&self) -> IngestEventView {
        match self {
            IngestEvent::Started => IngestEventView::Started,
            IngestEvent::ExtractingZip => IngestEventView::ExtractingZip,
            IngestEvent::ParsingConversations { processed } => IngestEventView::ParsingConversations {
                processed: *processed,
            },
            IngestEvent::BuildingIndex => IngestEventView::BuildingIndex,
            IngestEvent::Complete { total, earliest_year, latest_year } => IngestEventView::Complete {
                total: *total,
                earliest_year: *earliest_year,
                latest_year: *latest_year,
            },
            IngestEvent::Error { message } => IngestEventView::Error { message: message@ },
        }
    }
}

/// `a` divided by `b`, rounded towards zero.
pub open spec fn quotient_towards_zero(a: int, b: int) -> int
    recommends
        b > 0,
{
    if a >= 0 {
        a / b
    } else {
        -((-a) / b)
    }
}

/// Roughly the year of a time in seconds since the epoch: every year is
/// taken to have 365 days. The year stays within the range of `i32`.
pub open spec fn rough_year(seconds: i64) -> i32 {
    let year = quotient_towards_zero(seconds as int, SECONDS_PER_YEAR as int) + 1970;
    if year > i32::MAX {
        i32::MAX
    } else if year < i32::MIN {
        i32::MIN
    } else {
        year as i32
    }
}

/// Roughly the year of a time in seconds since the epoch.
pub fn rough_year_of(seconds: i64) -> (r: i32)
    ensures
        r == rough_year(seconds),
{
    let wide: i128 = seconds as i128;
    let whole: i128 = if wide >= 0 {
        wide / 31_536_000
    } else {
        -((-wide) / 31_536_000)
    };
    let year: i128 = whole + 1970;
    if year > 2147483647 {
        i32::MAX
    } else if year < -2147483648 {
        i32::MIN
    } else {
        year as i32
    }
}

/// What is counted while an archive is ingested: how many conversations
/// were stored, and the years between which they were created.
///
/// Before the first conversation with a time, `earliest_year` is the
/// largest `i32` and `latest_year` the smallest.
#[derive(Debug, Clone, Copy, PartialEq, Eq, Structural)]
pub struct IngestProgress {
    pub count: u32,
    pub earliest_year: i32,
    pub latest_year: i32,
}

/// The count before anything was ingested.
pub open spec fn nothing_ingested() -> IngestProgress {
    IngestProgress { count: 0, earliest_year: i32::MAX, latest_year: i32::MIN }
}

/// The count after one more conversation, created at `create_time`, was
/// stored. The number of conversations stops at the largest `u32`.
pub open spec fn one_more_ingested(p: IngestProgress, create_time: Option<i64>) -> IngestProgress {
    IngestProgress {
        count: if p.count < u32::MAX {
            (p.count + 1) as u32
        } else {
            p.count
        },
        earliest_year: match create_time {
            Some(t) => if rough_year(t) < p.earliest_year {
                rough_year(t)
            } else {
                p.earliest_year
            },
            None => p.earliest_year,
        },
        latest_year: match create_time {
            Some(t) => if rough_year(t) > p.latest_year {
                rough_year(t)
            } else {
                p.latest_year
            },
            None => p.latest_year,
        },
    }
}

/// What the user is told after a conversation was stored: how far
/// ingestion is, once every [`PROGRESS_EVERY`] conversations.
pub open spec fn progress_event(p: IngestProgress) -> Option<IngestEventView> {
    if p.count % PROGRESS_EVERY == 0 {
        Some(IngestEventView::ParsingConversations { processed: p.count })
    } else {
        None
    }
}

/// What the user is told at the end: the number of conversations, and the
/// years between which they were created, or the years that stand for them
/// where no conversation had a time.
pub open spec fn complete_event(p: IngestProgress) -> IngestEventView {
    IngestEventView::Complete {
        total: p.count,
        earliest_year: if p.earliest_year == i32::MAX {
            DEFAULT_EARLIEST_YEAR
        } else {
            p.earliest_year
        },
        latest_year: if p.latest_year == i32::MIN {
            DEFAULT_LATEST_YEAR
        } else {
            p.latest_year
        },
    }
}

/// The view of an optional event.
pub open spec fn opt_event_view(e: Option<IngestEvent>) -> Option<IngestEventView> {
    match e {
        Some(e) => Some(e@),
        None => None,
    }
}

/// The views of a run of events, in order.
pub open spec fn ingest_events_view(events: Seq<IngestEvent>) -> Seq<IngestEventView> {
    Seq::new(events.len(), |i: int| events[i]@)
}

impl IngestProgress {
    /// The count before anything was ingested.
    pub fn new() -> (r: Self)
        ensures
            r == nothing_ingested(),
    {
        IngestProgress { count: 0, earliest_year: i32::MAX, latest_year: i32::MIN }
    }

    /// What the user is told before the archive is opened.
    pub fn opening_events() -> (r: Vec<IngestEvent>)
        ensures
            ingest_events_view(r@) == seq![IngestEventView::Started, IngestEventView::ExtractingZip],
    {
        let mut events: Vec<IngestEvent> = Vec::new();
        events.push(IngestEvent::Started);
        events.push(IngestEvent::ExtractingZip);
        assert(ingest_events_view(events@) =~= seq![
            IngestEventView::Started,
            IngestEventView::ExtractingZip,
        ]);
        events
    }

    /// What the user is told once the archive is open and its conversations
    /// are about to be read.
    pub fn parsing_event() -> (r: IngestEvent)
        ensures
            r@ == (IngestEventView::ParsingConversations { processed: 0 }),
    {
        IngestEvent::ParsingConversations { processed: 0 }
    }

    /// Takes one conversation in: normalizes it to the record that is to be
    /// stored, counts it, and says what the user is told once it is stored.
    pub fn ingest(&mut self, export: ConversationExport) -> (r: (ConversationRecord, Option<IngestEvent>))
        ensures
            *final(self) == one_more_ingested(*old(self), export.create_time),
            r.0@ == normalized(export),
            opt_event_view(r.1) == progress_event(*final(self)),
    {
        match export.create_time {
            Some(t) => {
                let year = rough_year_of(t);
                if year < self.earliest_year {
                    self.earliest_year = year;
                }
                if year > self.latest_year {
                    self.latest_year = year;
                }
            },
            None => {},
        }
        let record = normalize(export);
        if self.count < u32::MAX {
            self.count = self.count + 1;
        }
        let event = if self.count % PROGRESS_EVERY == 0 {
            Some(IngestEvent::ParsingConversations { processed: self.count })
        } else {
            None
        };
        (record, event)
    }

    /// What the user is told at the end.
    pub fn closing_events(&self) -> (r: Vec<IngestEvent>)
        ensures
            ingest_events_view(r@) == seq![IngestEventView::BuildingIndex, complete_event(*self)],
    {
        let earliest_year = if self.earliest_year == i32::MAX {
            DEFAULT_EARLIEST_YEAR
        } else {
            self.earliest_year
        };
        let latest_year = if self.latest_year == i32::MIN {
            DEFAULT_LATEST_YEAR
        } else {
            self.latest_year
        };
        let mut events: Vec<IngestEvent> = Vec::new();
        events.push(IngestEvent::BuildingIndex);
        events.push(IngestEvent::Complete { total: self.count, earliest_year, latest_year });
        assert(ingest_events_view(events@) =~= seq![
            IngestEventView::BuildingIndex,
            complete_event(*self),
        ]);
        events
    }
}

} // verus!
