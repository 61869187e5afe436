//! The table of conversations: one row for each identifier, replaced as a
//! whole when the conversation is ingested again, and changed in three
//! fields when enrichment assigns it a label.
//!
//! The table is held in memory. It states the rules that storage keeps to,
//! whatever holds the rows in the end: a database that stores, enriches and
//! reads as this table does may stand in its place.

use crate::ai::batch::{
    assignments_view, distinct_keys, ClusterAssignment, ClusterAssignmentView,
};
use crate::pipeline::json_parser::{clone_opt_string, opt_str_view};
use crate::pipeline::normalizer::{ConversationRecord, ConversationRecordView};
use crate::sorting::{in_order, lemma_insert_at, lemma_sorted, orders, sorted};
use vstd::hash_map::StringHashMap;
use vstd::prelude::*;
use vstd::string::*;

verus! {

/// What enrichment reads of a conversation.
#[derive(Debug)]
pub struct ConversationRow {
    pub id: String,
    pub title: Option<String>,
    pub full_text: String,
    pub token_estimate: i64,
}

/// What the export to files reads of a conversation.
#[derive(Debug)]
pub struct ExportRow {
    pub id: String,
    pub title: Option<String>,
    pub created_at: Option<i64>,
    pub full_text: String,
    pub gizmo_id: Option<String>,
}

/// One row of the table: the record of a conversation, and what enrichment
/// has found for it so far.
#[derive(Debug)]
pub struct StoredConversation {
    pub record: ConversationRecord,
    pub cluster_label: Option<String>,
    pub summary: Option<String>,
    pub instructions: Option<String>,
}

pub struct StoredConversationView {
    pub record: ConversationRecordView,
    pub cluster_label: Option<Seq<char>>,
    pub summary: Option<Seq<char>>,
    pub instructions: Option<Seq<char>>,
}

impl View for StoredConversation {
    type V = StoredConversationView;

    open spec fn view(&self) -> StoredConversationView {
        StoredConversationView {
            record: self.record@,
            cluster_label: opt_str_view(self.cluster_label),
            summary: opt_str_view(self.summary),
            instructions: opt_str_view(self.instructions),
        }
    }
}

/// The views of a run of rows, in order.
pub open spec fn rows_view(rows: Seq<StoredConversation>) -> Seq<StoredConversationView> {
    Seq::new(rows.len(), |i: int| rows[i]@)
}

/// No two rows share an identifier.
pub open spec fn distinct_ids(rows: Seq<StoredConversationView>) -> bool {
    forall|i: int, j: int|
        0 <= i < j < rows.len() ==> (#[trigger] rows[i]).record.id != (#[trigger] rows[j]).record.id
}

/// Where the row of `id` stands, if there is one.
pub open spec fn position_of(rows: Seq<StoredConversationView>, id: Seq<char>) -> Option<int>
    decreases rows.len(),
{
    if rows.len() == 0 {
        None
    } else if rows.last().record.id == id {
        Some(rows.len() - 1)
    } else {
        position_of(rows.drop_last(), id)
    }
}

/// A fresh row for a record: nothing found for it yet.
pub open spec fn fresh_row(record: ConversationRecordView) -> StoredConversationView {
    StoredConversationView { record, cluster_label: None, summary: None, instructions: None }
}

/// The rows after `record` was stored: in the place of the row with its
/// identifier, or behind the others where there was none.
pub open spec fn upserted(
    rows: Seq<StoredConversationView>,
    record: ConversationRecordView,
) -> Seq<StoredConversationView> {
    match position_of(rows, record.id) {
        Some(at) => rows.update(at, fresh_row(record)),
        None => rows.push(fresh_row(record)),
    }
}

/// A row with what enrichment found put into its three fields.
pub open spec fn enriched_row(
    row: StoredConversationView,
    cluster_label: Seq<char>,
    summary: Seq<char>,
    instructions: Option<Seq<char>>,
) -> StoredConversationView {
    StoredConversationView {
        record: row.record,
        cluster_label: Some(cluster_label),
        summary: Some(summary),
        instructions,
    }
}

/// The rows after the row of `id` was enriched: unchanged where there is no
/// such row.
pub open spec fn enriched(
    rows: Seq<StoredConversationView>,
    id: Seq<char>,
    cluster_label: Seq<char>,
    summary: Seq<char>,
    instructions: Option<Seq<char>>,
) -> Seq<StoredConversationView> {
    match position_of(rows, id) {
        Some(at) => rows.update(at, enriched_row(rows[at], cluster_label, summary, instructions)),
        None => rows,
    }
}

/// What `position_of` finds is the row of `id`; what it does not find is in
/// no row.
pub proof fn lemma_position_of(rows: Seq<StoredConversationView>, id: Seq<char>)
    ensures
        match position_of(rows, id) {
            Some(at) => 0 <= at < rows.len() && rows[at].record.id == id && forall|j: int|
                at < j < rows.len() ==> (#[trigger] rows[j]).record.id != id,
            None => forall|j: int| 0 <= j < rows.len() ==> (#[trigger] rows[j]).record.id != id,
        },
    decreases rows.len(),
{
    if rows.len() > 0 && rows.last().record.id != id {
        let init = rows.drop_last();
        lemma_position_of(init, id);
        match position_of(init, id) {
            Some(at) => {
                assert forall|j: int| at < j < rows.len() implies (#[trigger] rows[j]).record.id
                    != id by {
                    if j < init.len() {
                        assert(init[j] == rows[j]);
                    }
                }
            },
            None => {
                assert forall|j: int| 0 <= j < rows.len() implies (#[trigger] rows[j]).record.id
                    != id by {
                    if j < init.len() {
                        assert(init[j] == rows[j]);
                    }
                }
            },
        }
    }
}

/// The table of conversations, held in memory: the rows in the order in
/// which their identifiers came in, and an index that says where the row
/// of each identifier stands.
pub struct ConversationTable {
    rows: Vec<StoredConversation>,
    index: StringHashMap<usize>,
}

/// The index knows where the row of each identifier stands.
pub open spec fn rows_indexed(rows: Seq<StoredConversationView>, index: Map<Seq<char>, usize>) -> bool {
    &&& forall|id: Seq<char>|
        index.contains_key(id) ==> (#[trigger] index[id]) < rows.len() && rows[index[id] as int].record.id
            == id
    &&& forall|j: int|
        0 <= j < rows.len() ==> index.contains_key((#[trigger] rows[j]).record.id)
            && index[rows[j].record.id] == j
}

/// What the index says of an identifier is what a search from the end
/// finds.
proof fn lemma_rows_indexed(
    rows: Seq<StoredConversationView>,
    index: Map<Seq<char>, usize>,
    id: Seq<char>,
)
    requires
        rows_indexed(rows, index),
    ensures
        position_of(rows, id) == if index.contains_key(id) {
            Some(index[id] as int)
        } else {
            None
        },
{
    lemma_position_of(rows, id);
    match position_of(rows, id) {
        Some(at) => {
            assert(index.contains_key(rows[at].record.id));
        },
        None => {
            if index.contains_key(id) {
                assert(rows[index[id] as int].record.id == id);
            }
        },
    }
}

impl View for ConversationTable {
    type V = Seq<StoredConversationView>;

    closed spec fn view(&self) -> Seq<StoredConversationView> {
        rows_view(self.rows@)
    }
}

impl ConversationTable {
    /// The index is up to date.
    pub closed spec fn indexed(&self) -> bool {
        rows_indexed(self@, self.index@)
    }

    /// The table is in order: no two rows share an identifier, and the index
    /// is up to date.
    pub open spec fn wf(&self) -> bool {
        distinct_ids(self@) && self.indexed()
    }

    /// An empty table.
    pub fn new() -> (r: Self)
        ensures
            r@ == Seq::<StoredConversationView>::empty(),
            r.wf(),
    {
        let r = ConversationTable { rows: Vec::new(), index: StringHashMap::new() };
        assert(r@ =~= Seq::<StoredConversationView>::empty());
        r
    }

    /// The number of rows.
    pub fn len(&self) -> (n: usize)
        ensures
            n == self@.len(),
    {
        self.rows.len()
    }

    /// The row at `index`, in the order in which the identifiers came in.
    pub fn row(&self, index: usize) -> (r: &StoredConversation)
        requires
            index < self@.len(),
        ensures
            r@ == self@[index as int],
    {
        &self.rows[index]
    }

    fn find(&self, id: &str) -> (r: Option<usize>)
        requires
            self.indexed(),
        ensures
            match r {
                Some(at) => position_of(self@, id@) == Some(at as int) && at < self@.len(),
                None => position_of(self@, id@) is None,
            },
    {
        proof {
            lemma_rows_indexed(self@, self.index@, id@);
        }
        match self.index.get(id) {
            Some(at) => Some(*at),
            None => None,
        }
    }

    /// Stores `record`. A row with its identifier is replaced as a whole,
    /// what enrichment had found for it included; without one, the record
    /// gets a new row. No identifier ever has two rows.
    pub fn insert_conversation(&mut self, record: ConversationRecord)
        requires
            old(self).wf(),
        ensures
            final(self).wf(),
            final(self)@ == upserted(old(self)@, record@),
    {
        let found = self.find(record.id.as_str());
        let ghost before = self@;
        proof {
            lemma_position_of(before, record@.id);
        }
        let row = StoredConversation {
            record,
            cluster_label: None,
            summary: None,
            instructions: None,
        };
        let ghost known = self.index@;
        match found {
            Some(at) => {
                self.rows.set(at, row);
                assert(self@ =~= before.update(at as int, fresh_row(record@)));
            },
            None => {
                self.index.insert(row.record.id.clone(), self.rows.len());
                self.rows.push(row);
                assert(self@ =~= before.push(fresh_row(record@)));
            },
        }
        assert(rows_indexed(self@, self.index@)) by {
            assert forall|j: int| 0 <= j < self@.len() implies self.index@.contains_key(
                (#[trigger] self@[j]).record.id,
            ) && self.index@[self@[j].record.id] == j by {
                if j < before.len() {
                    assert(known.contains_key(before[j].record.id));
                    if self@[j] != before[j] {
                        assert(self@[j].record.id == before[j].record.id);
                    }
                }
            }
        }
        assert(distinct_ids(self@)) by {
            assert forall|i: int, j: int| 0 <= i < j < self@.len() implies (
            #[trigger] self@[i]).record.id != (#[trigger] self@[j]).record.id by {
                if i < before.len() && j < before.len() {
                    assert(before[i].record.id != before[j].record.id);
                }
            }
        }
    }

    /// Puts what enrichment found into the row of `conversation_id`. Where
    /// the table has no such row, nothing changes. Returns whether there was
    /// one.
    pub fn update_cluster_result(
        &mut self,
        conversation_id: &str,
        cluster_label: &str,
        summary: &str,
        instructions: Option<&str>,
    ) -> (found: bool)
        requires
            old(self).wf(),
        ensures
            final(self).wf(),
            final(self)@ == enriched(
                old(self)@,
                conversation_id@,
                cluster_label@,
                summary@,
                match instructions {
                    Some(s) => Some(s@),
                    None => None,
                },
            ),
            found == position_of(old(self)@, conversation_id@) is Some,
    {
        let ghost before = self@;
        proof {
            lemma_position_of(before, conversation_id@);
        }
        match self.find(conversation_id) {
            Some(at) => {
                let row = &mut self.rows[at];
                row.cluster_label = Some(cluster_label.to_owned());
                row.summary = Some(summary.to_owned());
                row.instructions = match instructions {
                    Some(s) => Some(s.to_owned()),
                    None => None,
                };
                assert(self@ =~= before.update(
                    at as int,
                    enriched_row(
                        before[at as int],
                        cluster_label@,
                        summary@,
                        match instructions {
                            Some(s) => Some(s@),
                            None => None,
                        },
                    ),
                ));
                assert(distinct_ids(self@)) by {
                    assert forall|i: int, j: int| 0 <= i < j < self@.len() implies (
                    #[trigger] self@[i]).record.id != (#[trigger] self@[j]).record.id by {
                        assert(before[i].record.id != before[j].record.id);
                    }
                }
                assert(rows_indexed(self@, self.index@)) by {
                    assert forall|j: int| 0 <= j < self@.len() implies self.index@.contains_key(
                        (#[trigger] self@[j]).record.id,
                    ) && self.index@[self@[j].record.id] == j by {
                        assert(self@[j].record.id == before[j].record.id);
                    }
                }
                true
            },
            None => false,
        }
    }
}

/// A row with an assignment put into its three fields.
pub open spec fn assigned_row(row: StoredConversationView, a: ClusterAssignmentView) -> StoredConversationView {
    enriched_row(row, a.cluster_label, a.summary, a.instructions)
}

/// The rows after each of `entries` was written to the row of its
/// identifier, one after the other.
pub open spec fn reconciled(
    rows: Seq<StoredConversationView>,
    entries: Seq<(Seq<char>, ClusterAssignmentView)>,
) -> Seq<StoredConversationView>
    decreases entries.len(),
{
    if entries.len() == 0 {
        rows
    } else {
        let (id, a) = entries.last();
        enriched(reconciled(rows, entries.drop_last()), id, a.cluster_label, a.summary, a.instructions)
    }
}

/// The last of `entries` that is for `id`.
pub open spec fn last_for(entries: Seq<(Seq<char>, ClusterAssignmentView)>, id: Seq<char>) -> Option<
    ClusterAssignmentView,
>
    decreases entries.len(),
{
    if entries.len() == 0 {
        None
    } else if entries.last().0 == id {
        Some(entries.last().1)
    } else {
        last_for(entries.drop_last(), id)
    }
}

/// What becomes of one row when `entries` are written: it takes the last
/// assignment for its identifier, and stays as it is without one.
pub open spec fn row_after(
    row: StoredConversationView,
    entries: Seq<(Seq<char>, ClusterAssignmentView)>,
) -> StoredConversationView {
    match last_for(entries, row.record.id) {
        Some(a) => assigned_row(row, a),
        None => row,
    }
}

impl ConversationTable {
    /// Writes each assignment to the row of its identifier, and says how
    /// many of them found a row. An assignment for an identifier that the
    /// table lacks changes nothing.
    pub fn apply_assignments(&mut self, assignments: &Vec<(String, ClusterAssignment)>) -> (found: usize)
        requires
            old(self).wf(),
        ensures
            final(self).wf(),
            final(self)@ == reconciled(old(self)@, assignments_view(assignments@)),
            found <= assignments@.len(),
    {
        let ghost entries = assignments_view(assignments@);
        let mut found: usize = 0;
        let mut i: usize = 0;
        while i < assignments.len()
            invariant
                i <= assignments@.len(),
                found <= i,
                self.wf(),
                entries == assignments_view(assignments@),
                self@ == reconciled(old(self)@, entries.subrange(0, i as int)),
            decreases assignments@.len() - i,
        {
            let ghost next = entries.subrange(0, i + 1);
            assert(next.drop_last() =~= entries.subrange(0, i as int));
            assert(next.last() == (assignments@[i as int].0@, assignments@[i as int].1@));
            let entry = &assignments[i];
            let hit = self.update_cluster_result(
                entry.0.as_str(),
                entry.1.cluster_label.as_str(),
                entry.1.summary.as_str(),
                match &entry.1.instructions {
                    Some(s) => Some(s.as_str()),
                    None => None,
                },
            );
            if hit {
                found += 1;
            }
            i += 1;
        }
        assert(entries.subrange(0, assignments@.len() as int) =~= entries);
        found
    }
}

/// Storing a record whose identifier has a row replaces that row and adds
/// none; storing one whose identifier has none adds one row. Either way the
/// identifier has exactly one row afterwards, which holds the record, and
/// every other row is what it was.
pub proof fn lemma_upsert_replaces(rows: Seq<StoredConversationView>, record: ConversationRecordView)
    requires
        distinct_ids(rows),
    ensures
        distinct_ids(upserted(rows, record)),
        upserted(rows, record).len() == if position_of(rows, record.id) is Some {
            rows.len()
        } else {
            rows.len() + 1
        },
        ({
            let after = upserted(rows, record);
            exists|at: int|
                {
                    &&& 0 <= at < after.len()
                    &&& #[trigger] after[at] == fresh_row(record)
                    &&& forall|j: int|
                        0 <= j < after.len() && j != at ==> (#[trigger] after[j]).record.id
                            != record.id
                    &&& forall|j: int|
                        0 <= j < rows.len() && j != at ==> #[trigger] after[j] == rows[j]
                }
        }),
{
    lemma_position_of(rows, record.id);
    let after = upserted(rows, record);
    let at = match position_of(rows, record.id) {
        Some(at) => at,
        None => rows.len() as int,
    };
    assert(after[at] == fresh_row(record));
    assert forall|i: int, j: int| 0 <= i < j < after.len() implies (#[trigger] after[i]).record.id
        != (#[trigger] after[j]).record.id by {
        if i < rows.len() && j < rows.len() {
            assert(rows[i].record.id != rows[j].record.id);
        }
    }
    assert forall|j: int| 0 <= j < after.len() && j != at implies (#[trigger] after[j]).record.id
        != record.id by {
        if at < rows.len() {
            if j < at {
                assert(rows[j].record.id != rows[at].record.id);
            } else {
                assert(rows[at].record.id != rows[j].record.id);
            }
        }
    }
}

/// Storing the same record twice is storing it once.
pub proof fn lemma_upsert_twice(rows: Seq<StoredConversationView>, record: ConversationRecordView)
    requires
        distinct_ids(rows),
    ensures
        upserted(upserted(rows, record), record) == upserted(rows, record),
{
    lemma_position_of(rows, record.id);
    lemma_upsert_replaces(rows, record);
    let once = upserted(rows, record);
    lemma_position_of(once, record.id);
    let at = position_of(once, record.id)->Some_0;
    assert(once[at] == fresh_row(record)) by {
        let k = choose|k: int|
            {
                &&& 0 <= k < once.len()
                &&& #[trigger] once[k] == fresh_row(record)
                &&& forall|j: int|
                    0 <= j < once.len() && j != k ==> (#[trigger] once[j]).record.id != record.id
            };
        if k != at {
            assert(once[at].record.id != record.id);
        }
    }
    assert(once.update(at, fresh_row(record)) =~= once);
}

/// Writing assignments leaves every row in its place and takes each row to
/// what the last assignment for its identifier makes of it.
pub proof fn lemma_reconciled_by_row(
    rows: Seq<StoredConversationView>,
    entries: Seq<(Seq<char>, ClusterAssignmentView)>,
)
    requires
        distinct_ids(rows),
    ensures
        reconciled(rows, entries).len() == rows.len(),
        distinct_ids(reconciled(rows, entries)),
        forall|i: int|
            0 <= i < rows.len() ==> #[trigger] reconciled(rows, entries)[i] == row_after(
                rows[i],
                entries,
            ),
    decreases entries.len(),
{
    if entries.len() > 0 {
        let init = entries.drop_last();
        let (id, a) = entries.last();
        lemma_reconciled_by_row(rows, init);
        let before = reconciled(rows, init);
        let after = reconciled(rows, entries);
        lemma_position_of(before, id);
        assert forall|i: int| 0 <= i < rows.len() implies #[trigger] before[i].record.id
            == rows[i].record.id by {
            assert(before[i] == row_after(rows[i], init));
        }
        assert forall|i: int| 0 <= i < rows.len() implies #[trigger] after[i] == row_after(
            rows[i],
            entries,
        ) by {
            assert(before[i] == row_after(rows[i], init));
            match position_of(before, id) {
                Some(at) => {
                    if i != at && rows[i].record.id == id {
                        if i < at {
                            assert(before[i].record.id != before[at].record.id);
                        } else {
                            assert(before[at].record.id != before[i].record.id);
                        }
                    }
                },
                None => {
                    assert(before[i].record.id != id);
                },
            }
        }
        assert forall|i: int, j: int| 0 <= i < j < after.len() implies (#[trigger] after[i]).record.id
            != (#[trigger] after[j]).record.id by {
            assert(after[i] == row_after(rows[i], entries));
            assert(after[j] == row_after(rows[j], entries));
            assert(rows[i].record.id != rows[j].record.id);
        }
    }
}

/// Writing the same assignments a second time changes nothing.
pub proof fn lemma_reconcile_twice(
    rows: Seq<StoredConversationView>,
    entries: Seq<(Seq<char>, ClusterAssignmentView)>,
)
    requires
        distinct_ids(rows),
    ensures
        reconciled(reconciled(rows, entries), entries) == reconciled(rows, entries),
{
    let once = reconciled(rows, entries);
    lemma_reconciled_by_row(rows, entries);
    lemma_reconciled_by_row(once, entries);
    let twice = reconciled(once, entries);
    assert forall|i: int| 0 <= i < once.len() implies twice[i] == once[i] by {
        assert(once[i] == row_after(rows[i], entries));
        assert(twice[i] == row_after(once[i], entries));
    }
    assert(twice =~= once);
}

/// `a` comes before `b` in the order of time: a conversation without a
/// time of creation comes before every one that has it.
pub open spec fn time_lt(a: Option<i64>, b: Option<i64>) -> bool {
    match (a, b) {
        (None, Some(_)) => true,
        (Some(x), Some(y)) => x < y,
        _ => false,
    }
}

/// The order in which the rows are read: that of their time of creation.
pub open spec fn time_order() -> spec_fn(StoredConversationView, StoredConversationView) -> bool {
    |a: StoredConversationView, b: StoredConversationView|
        time_lt(a.record.created_at, b.record.created_at)
}

/// The rows in the order of their time of creation; rows of the same time
/// stay in the order in which they stand.
pub open spec fn by_time(rows: Seq<StoredConversationView>) -> Seq<StoredConversationView> {
    sorted(rows, time_order())
}

/// Reading in the order of time gives every row once, and no row behind
/// one that was created later.
pub proof fn lemma_by_time(rows: Seq<StoredConversationView>)
    ensures
        in_order(by_time(rows), time_order()),
        by_time(rows).to_multiset() == rows.to_multiset(),
        by_time(rows).len() == rows.len(),
{
    assert(orders(time_order()));
    lemma_sorted(rows, time_order());
}

fn time_less(a: Option<i64>, b: Option<i64>) -> (r: bool)
    ensures
        r == time_lt(a, b),
{
    match (a, b) {
        (None, Some(_)) => true,
        (Some(x), Some(y)) => x < y,
        _ => false,
    }
}

/// What enrichment reads of a row.
pub open spec fn conversation_row_matches(row: ConversationRow, stored: StoredConversationView) -> bool {
    &&& row.id@ == stored.record.id
    &&& opt_str_view(row.title) == Some(stored.record.title)
    &&& row.full_text@ == stored.record.full_text
    &&& row.token_estimate == stored.record.token_estimate
}

/// What the export to files reads of a row.
pub open spec fn export_row_matches(row: ExportRow, stored: StoredConversationView) -> bool {
    &&& row.id@ == stored.record.id
    &&& opt_str_view(row.title) == Some(stored.record.title)
    &&& row.created_at == stored.record.created_at
    &&& row.full_text@ == stored.record.full_text
    &&& opt_str_view(row.gizmo_id) == stored.record.gizmo_id
}

impl ConversationTable {
    /// The rows picked by `order`, in that order.
    pub closed spec fn picked(&self, order: Seq<usize>) -> Seq<StoredConversationView> {
        Seq::new(order.len(), |k: int| self@[order[k] as int])
    }

    /// The places of the rows, in the order of their time of creation.
    fn time_order(&self) -> (order: Vec<usize>)
        ensures
            order@.len() == self@.len(),
            forall|k: int| 0 <= k < order@.len() ==> (#[trigger] order@[k]) < self@.len(),
            self.picked(order@) == by_time(self@),
    {
        let mut order: Vec<usize> = Vec::new();
        let mut i: usize = 0;
        assert(self.picked(order@) =~= by_time(self@.subrange(0, 0)));
        while i < self.rows.len()
            invariant
                i <= self.rows@.len(),
                order@.len() == i,
                forall|k: int| 0 <= k < order@.len() ==> (#[trigger] order@[k]) < self@.len(),
                self.picked(order@) == by_time(self@.subrange(0, i as int)),
            decreases self.rows@.len() - i,
        {
            let ghost next = self@.subrange(0, i + 1);
            assert(next.drop_last() =~= self@.subrange(0, i as int));
            assert(next.last() == self@[i as int]);
            let ghost placed = self.picked(order@);
            let time = self.rows[i].record.created_at;
            let mut at: usize = order.len();
            while at > 0 && time_less(time, self.rows[order[at - 1]].record.created_at)
                invariant
                    at <= order@.len(),
                    placed == self.picked(order@),
                    time == self@[i as int].record.created_at,
                    i < self.rows@.len(),
                    forall|k: int| 0 <= k < order@.len() ==> (#[trigger] order@[k]) < self@.len(),
                    forall|k: int|
                        at <= k < placed.len() ==> time_lt(
                            time,
                            (#[trigger] placed[k]).record.created_at,
                        ),
                decreases at,
            {
                assert(placed[at - 1] == self@[order@[at - 1] as int]);
                at -= 1;
            }
            proof {
                if at > 0 {
                    assert(placed[at - 1] == self@[order@[at - 1] as int]);
                }
                lemma_insert_at(placed, self@[i as int], time_order(), at as int);
            }
            order.insert(at, i);
            assert(self.picked(order@) =~= placed.insert(at as int, self@[i as int]));
            i += 1;
        }
        assert(self@.subrange(0, self@.len() as int) =~= self@);
        order
    }

    /// All conversations, in the order of their time of creation, as
    /// enrichment reads them.
    pub fn get_all_conversations(&self) -> (r: Vec<ConversationRow>)
        ensures
            r@.len() == self@.len(),
            forall|k: int|
                0 <= k < r@.len() ==> conversation_row_matches(#[trigger] r@[k], by_time(self@)[k]),
    {
        let order = self.time_order();
        let mut out: Vec<ConversationRow> = Vec::new();
        let mut k: usize = 0;
        while k < order.len()
            invariant
                k <= order@.len(),
                out@.len() == k,
                order@.len() == self@.len(),
                forall|j: int| 0 <= j < order@.len() ==> (#[trigger] order@[j]) < self@.len(),
                self.picked(order@) == by_time(self@),
                forall|j: int|
                    0 <= j < k ==> conversation_row_matches(#[trigger] out@[j], by_time(self@)[j]),
            decreases order@.len() - k,
        {
            let row = &self.rows[order[k]];
            assert(self.picked(order@)[k as int] == row@);
            out.push(
                ConversationRow {
                    id: row.record.id.clone(),
                    title: Some(row.record.title.clone()),
                    full_text: row.record.full_text.clone(),
                    token_estimate: row.record.token_estimate as i64,
                },
            );
            k += 1;
        }
        out
    }

    /// All conversations, in the order of their time of creation, as the
    /// export to files reads them.
    pub fn get_conversations_for_export(&self) -> (r: Vec<ExportRow>)
        ensures
            r@.len() == self@.len(),
            forall|k: int|
                0 <= k < r@.len() ==> export_row_matches(#[trigger] r@[k], by_time(self@)[k]),
    {
        let order = self.time_order();
        let mut out: Vec<ExportRow> = Vec::new();
        let mut k: usize = 0;
        while k < order.len()
            invariant
                k <= order@.len(),
                out@.len() == k,
                order@.len() == self@.len(),
                forall|j: int| 0 <= j < order@.len() ==> (#[trigger] order@[j]) < self@.len(),
                self.picked(order@) == by_time(self@),
                forall|j: int|
                    0 <= j < k ==> export_row_matches(#[trigger] out@[j], by_time(self@)[j]),
            decreases order@.len() - k,
        {
            let row = &self.rows[order[k]];
            assert(self.picked(order@)[k as int] == row@);
            out.push(
                ExportRow {
                    id: row.record.id.clone(),
                    title: Some(row.record.title.clone()),
                    created_at: row.record.created_at,
                    full_text: row.record.full_text.clone(),
                    gizmo_id: clone_opt_string(&row.record.gizmo_id),
                },
            );
            k += 1;
        }
        out
    }
}

/// Among assignments of which no two are for one identifier, the last for
/// an identifier is the one for it.
proof fn lemma_last_for(entries: Seq<(Seq<char>, ClusterAssignmentView)>, id: Seq<char>)
    requires
        distinct_keys(entries),
    ensures
        match last_for(entries, id) {
            Some(a) => entries.contains((id, a)),
            None => forall|j: int| 0 <= j < entries.len() ==> (#[trigger] entries[j]).0 != id,
        },
        forall|a: ClusterAssignmentView| entries.contains((id, a)) ==> last_for(entries, id) == Some(a),
    decreases entries.len(),
{
    if entries.len() > 0 {
        let init = entries.drop_last();
        assert forall|i: int, j: int| 0 <= i < j < init.len() implies (#[trigger] init[i]).0 != (
        #[trigger] init[j]).0 by {
            assert(init[i] == entries[i] && init[j] == entries[j]);
        }
        lemma_last_for(init, id);
        let last = entries.len() - 1;
        if entries.last().0 == id {
            assert(entries[last] == (id, entries.last().1));
            assert forall|a: ClusterAssignmentView| entries.contains((id, a)) implies last_for(
                entries,
                id,
            ) == Some(a) by {
                let k = choose|k: int| 0 <= k < entries.len() && entries[k] == (id, a);
                if k < last {
                    assert(entries[k].0 != entries[last].0);
                }
            }
        } else {
            match last_for(init, id) {
                Some(a) => {
                    let k = choose|k: int| 0 <= k < init.len() && init[k] == (id, a);
                    assert(entries[k] == (id, a));
                },
                None => {
                    assert forall|j: int| 0 <= j < entries.len() implies (#[trigger] entries[j]).0
                        != id by {
                        if j < init.len() {
                            assert(init[j] == entries[j]);
                        }
                    }
                },
            }
            assert forall|a: ClusterAssignmentView| entries.contains((id, a)) implies last_for(
                entries,
                id,
            ) == Some(a) by {
                let k = choose|k: int| 0 <= k < entries.len() && entries[k] == (id, a);
                assert(k < last);
                assert(init[k] == (id, a));
                assert(init.contains((id, a)));
            }
        }
    }
}

/// Writing assignments does not depend on the order in which they come:
/// two runs of the same assignments, none of them twice for one identifier,
/// leave the same rows.
pub proof fn lemma_reconcile_any_order(
    rows: Seq<StoredConversationView>,
    one: Seq<(Seq<char>, ClusterAssignmentView)>,
    other: Seq<(Seq<char>, ClusterAssignmentView)>,
)
    requires
        distinct_ids(rows),
        distinct_keys(one),
        distinct_keys(other),
        one.to_multiset() == other.to_multiset(),
    ensures
        reconciled(rows, one) == reconciled(rows, other),
{
    broadcast use vstd::seq_lib::group_to_multiset_ensures;

    lemma_reconciled_by_row(rows, one);
    lemma_reconciled_by_row(rows, other);
    assert forall|i: int| 0 <= i < rows.len() implies reconciled(rows, one)[i] == reconciled(
        rows,
        other,
    )[i] by {
        let id = rows[i].record.id;
        lemma_last_for(one, id);
        lemma_last_for(other, id);
        match last_for(one, id) {
            Some(a) => {
                assert(one.to_multiset().count((id, a)) > 0);
                assert(other.contains((id, a)));
            },
            None => {
                match last_for(other, id) {
                    Some(b) => {
                        assert(other.to_multiset().count((id, b)) > 0);
                        assert(one.contains((id, b)));
                    },
                    None => {},
                }
            },
        }
        assert(reconciled(rows, one)[i] == row_after(rows[i], one));
        assert(reconciled(rows, other)[i] == row_after(rows[i], other));
    }
    assert(reconciled(rows, one) =~= reconciled(rows, other));
}

} // verus!
