//! Walking a sorted run of tables in either direction.
//!
//! A sorted run is a sequence of tables in key order. [`SortedRunIterator`]
//! decides which table to open next, which rows to hold back, and what each call
//! returns. The caller opens, initializes, reads and seeks the one table that is
//! current, and reports back what came of it.
use crate::bytes_range::{BoundView, BytesRange, KeyBound, RangeView};
use crate::byte_string::{as_slice, bytes_contents, clone_bytes, compare_keys, lex_lt, KeyOrder};
use crate::db_state::{tables_view, SsTableView, TableView};
use crate::error::SlateDBError;
use crate::types::{rows_view, RowEntry, RowView};
use bytes::Bytes;
use std::collections::VecDeque;
use vstd::prelude::*;

verus! {

/// The direction of a walk over keys.
#[derive(Clone, Copy, PartialEq, Eq, Structural, Debug)]
pub enum IterationOrder {
    Ascending,
    Descending,
}

/// A table to read, with the part of it to read.
#[derive(Debug)]
pub enum SstView<'a> {
    Owned(Box<SsTableView>, BytesRange),
    Borrowed(&'a SsTableView, BytesRange),
}

impl<'a> SstView<'a> {
    /// Whether the table is owned and not borrowed.
    pub open spec fn owned(self) -> bool {
        self is Owned
    }

    /// The table.
    pub open spec fn table(self) -> TableView {
        match self {
            SstView::Owned(table, _) => table@,
            SstView::Borrowed(table, _) => table@,
        }
    }

    /// The part of the table to read.
    pub open spec fn range(self) -> RangeView {
        match self {
            SstView::Owned(_, range) => range@,
            SstView::Borrowed(_, range) => range@,
        }
    }
}

/// The tables of a run that are still to be read, and the requested range.
#[derive(Debug)]
pub enum SortedRunView<'a> {
    Owned(VecDeque<SsTableView>, BytesRange),
    Borrowed(VecDeque<&'a SsTableView>, BytesRange),
}

/// The number of tables at the front of which nothing in `range` may be read.
pub open spec fn hidden_tables(tables: Seq<TableView>, range: RangeView) -> nat
    decreases tables.len(),
{
    if tables.len() == 0 || tables[0].view_range(range) is Some {
        0
    } else {
        1 + hidden_tables(tables.drop_first(), range)
    }
}

/// The hidden tables are at the front.
proof fn lemma_hidden_bound(tables: Seq<TableView>, range: RangeView)
    ensures
        hidden_tables(tables, range) <= tables.len(),
        forall|i: int|
            0 <= i < hidden_tables(tables, range) ==> (#[trigger] tables[i]).view_range(range)
                is None,
        hidden_tables(tables, range) < tables.len() ==> tables[hidden_tables(
            tables,
            range,
        ) as int].view_range(range) is Some,
    decreases tables.len(),
{
    if tables.len() > 0 && tables[0].view_range(range) is None {
        let rest = tables.drop_first();
        lemma_hidden_bound(rest, range);
        assert forall|i: int| 0 <= i < hidden_tables(tables, range) implies (
        #[trigger] tables[i]).view_range(range) is None by {
            if i > 0 {
                assert(rest[i - 1] == tables[i]);
            }
        }
    }
}

/// The meaning of a sequence of borrowed tables.
pub open spec fn borrowed_view(tables: Seq<&SsTableView>) -> Seq<TableView> {
    tables.map_values(|table: &SsTableView| table@)
}

/// Pops the first table of which something in `range` may be read.
fn pop_owned(tables: &mut VecDeque<SsTableView>, range: &BytesRange) -> (popped: Option<(SsTableView, BytesRange)>)
    ensures
        ({
            let before = tables_view(old(tables)@);
            let hidden = hidden_tables(before, range@) as int;
            match popped {
                Some((table, view_range)) => {
                    &&& hidden < before.len()
                    &&& table@ == before[hidden]
                    &&& Some(view_range@) == before[hidden].view_range(range@)
                    &&& tables_view(final(tables)@) == before.skip(hidden + 1)
                },
                None => hidden == before.len() && final(tables)@.len() == 0,
            }
        }),
{
    let ghost before = tables_view(tables@);
    let ghost hidden = hidden_tables(before, range@) as int;
    let ghost mut skipped: int = 0;
    proof {
        lemma_hidden_bound(before, range@);
        assert(tables_view(tables@) =~= before.skip(0));
    }
    loop
        invariant
            before == tables_view(old(tables)@),
            hidden == hidden_tables(before, range@),
            0 <= skipped <= hidden <= before.len(),
            tables_view(tables@) == before.skip(skipped),
            forall|i: int| 0 <= i < hidden ==> (#[trigger] before[i]).view_range(range@) is None,
            hidden < before.len() ==> before[hidden].view_range(range@) is Some,
        decreases tables@.len(),
    {
        let ghost rest = tables_view(tables@);
        match tables.pop_front() {
            None => {
                assert(rest.len() == 0);
                return None;
            },
            Some(table) => {
                proof {
                    assert(rest.len() > 0);
                    assert(rest[0] == table@);
                    assert(tables_view(tables@) =~= rest.drop_first());
                    assert(rest.drop_first() =~= before.skip(skipped + 1));
                }
                if let Some(view_range) = table.calculate_view_range(range) {
                    return Some((table, view_range));
                }
                proof {
                    skipped = skipped + 1;
                }
            },
        }
    }
}

/// Pops the first table of which something in `range` may be read.
fn pop_borrowed<'a>(tables: &mut VecDeque<&'a SsTableView>, range: &BytesRange) -> (popped: Option<(&'a SsTableView, BytesRange)>)
    ensures
        ({
            let before = borrowed_view(old(tables)@);
            let hidden = hidden_tables(before, range@) as int;
            match popped {
                Some((table, view_range)) => {
                    &&& hidden < before.len()
                    &&& table@ == before[hidden]
                    &&& Some(view_range@) == before[hidden].view_range(range@)
                    &&& borrowed_view(final(tables)@) == before.skip(hidden + 1)
                },
                None => hidden == before.len() && final(tables)@.len() == 0,
            }
        }),
{
    let ghost before = borrowed_view(tables@);
    let ghost hidden = hidden_tables(before, range@) as int;
    let ghost mut skipped: int = 0;
    proof {
        lemma_hidden_bound(before, range@);
        assert(borrowed_view(tables@) =~= before.skip(0));
    }
    loop
        invariant
            before == borrowed_view(old(tables)@),
            hidden == hidden_tables(before, range@),
            0 <= skipped <= hidden <= before.len(),
            borrowed_view(tables@) == before.skip(skipped),
            forall|i: int| 0 <= i < hidden ==> (#[trigger] before[i]).view_range(range@) is None,
            hidden < before.len() ==> before[hidden].view_range(range@) is Some,
        decreases tables@.len(),
    {
        let ghost rest = borrowed_view(tables@);
        match tables.pop_front() {
            None => {
                assert(rest.len() == 0);
                return None;
            },
            Some(table) => {
                proof {
                    assert(rest.len() > 0);
                    assert(rest[0] == table@);
                    assert(borrowed_view(tables@) =~= rest.drop_first());
                    assert(rest.drop_first() =~= before.skip(skipped + 1));
                }
                if let Some(view_range) = table.calculate_view_range(range) {
                    return Some((table, view_range));
                }
                proof {
                    skipped = skipped + 1;
                }
            },
        }
    }
}

impl<'a> SortedRunView<'a> {
    /// Whether the tables are owned and not borrowed.
    pub open spec fn owned(self) -> bool {
        self is Owned
    }

    /// The tables still to be read.
    pub open spec fn tables(self) -> Seq<TableView> {
        match self {
            SortedRunView::Owned(tables, _) => tables_view(tables@),
            SortedRunView::Borrowed(tables, _) => borrowed_view(tables@),
        }
    }

    /// The requested range.
    pub open spec fn range(self) -> RangeView {
        match self {
            SortedRunView::Owned(_, range) => range@,
            SortedRunView::Borrowed(_, range) => range@,
        }
    }

    /// Pops the next table, restricting the iteration range to the table's view
    /// range. Projected tables may have a `visible_range` narrower than the
    /// requested range; tables whose view range does not intersect the requested
    /// range are skipped entirely.
    pub fn pop_sst(&mut self) -> (popped: Option<SstView<'a>>)
        ensures
            final(self).range() == old(self).range(),
            final(self).owned() == old(self).owned(),
            popped matches Some(view) ==> view.owned() == old(self).owned(),
            ({
                let tables = old(self).tables();
                let hidden = hidden_tables(tables, old(self).range()) as int;
                match popped {
                    Some(view) => {
                        &&& hidden < tables.len()
                        &&& view.table() == tables[hidden]
                        &&& Some(view.range()) == tables[hidden].view_range(old(self).range())
                        &&& final(self).tables() == tables.skip(hidden + 1)
                    },
                    None => hidden == tables.len() && final(self).tables().len() == 0,
                }
            }),
    {
        match self {
            SortedRunView::Owned(tables, range) => match pop_owned(tables, range) {
                Some((table, view_range)) => Some(SstView::Owned(Box::new(table), view_range)),
                None => None,
            },
            SortedRunView::Borrowed(tables, range) => match pop_borrowed(tables, range) {
                Some((table, view_range)) => Some(SstView::Borrowed(table, view_range)),
                None => None,
            },
        }
    }

    /// The next table, whether or not anything of it may be read.
    pub fn peek_next_table(&self) -> (table: Option<&SsTableView>)
        ensures
            match table {
                Some(table) => self.tables().len() > 0 && table@ == self.tables()[0],
                None => self.tables().len() == 0,
            },
    {
        match self {
            SortedRunView::Owned(tables, _) => if tables.len() > 0 {
                Some(&tables[0])
            } else {
                None
            },
            SortedRunView::Borrowed(tables, _) => if tables.len() > 0 {
                Some(tables[0])
            } else {
                None
            },
        }
    }
}

/// Inserts a row into rows ordered from the greatest sequence number down,
/// after the rows with the same number.
pub open spec fn insert_by_seq(rows: Seq<RowView>, row: RowView) -> Seq<RowView>
    decreases rows.len(),
{
    if rows.len() == 0 || rows.last().seq >= row.seq {
        rows.push(row)
    } else {
        insert_by_seq(rows.drop_last(), row).push(rows.last())
    }
}

/// The rows from the greatest sequence number down; equal ones keep their order.
pub open spec fn newest_first(rows: Seq<RowView>) -> Seq<RowView>
    decreases rows.len(),
{
    if rows.len() == 0 {
        rows
    } else {
        insert_by_seq(newest_first(rows.drop_last()), rows.last())
    }
}

/// Inserting at the place where the greater and equal numbers end.
proof fn lemma_insert_at(rows: Seq<RowView>, row: RowView, at: int)
    requires
        0 <= at <= rows.len(),
        at > 0 ==> rows[at - 1].seq >= row.seq,
        forall|i: int| at <= i < rows.len() ==> (#[trigger] rows[i]).seq < row.seq,
    ensures
        insert_by_seq(rows, row) == rows.insert(at, row),
    decreases rows.len(),
{
    if at == rows.len() {
        assert(rows.insert(at, row) =~= rows.push(row));
    } else {
        assert(rows.last() == rows[rows.len() - 1]);
        lemma_insert_at(rows.drop_last(), row, at);
        assert(rows.drop_last().insert(at, row).push(rows.last()) =~= rows.insert(at, row));
    }
}

/// Inserts a row into rows ordered from the greatest sequence number down.
fn insert_newest_first(rows: &mut Vec<RowEntry>, row: RowEntry)
    ensures
        rows_view(final(rows)@) == insert_by_seq(rows_view(old(rows)@), row@),
{
    let mut at: usize = rows.len();
    while at > 0 && rows[at - 1].seq < row.seq
        invariant
            at <= rows@.len(),
            rows@ == old(rows)@,
            forall|i: int| at <= i < rows@.len() ==> (#[trigger] rows@[i]).seq < row.seq,
        decreases at,
    {
        at = at - 1;
    }
    let ghost before = rows_view(rows@);
    proof {
        assert forall|i: int| at <= i < before.len() implies (#[trigger] before[i]).seq
            < row@.seq by {
            assert(before[i] == rows@[i]@);
        }
        lemma_insert_at(before, row@, at as int);
    }
    rows.insert(at, row);
    assert(rows_view(rows@) =~= before.insert(at as int, row@));
}

/// Sorts rows from the greatest sequence number down; equal ones keep their order.
fn sort_newest_first(rows: Vec<RowEntry>) -> (sorted: Vec<RowEntry>)
    ensures
        rows_view(sorted@) == newest_first(rows_view(rows@)),
{
    let ghost all = rows_view(rows@);
    let mut rest: VecDeque<RowEntry> = VecDeque::new();
    let mut rows = rows;
    let mut sorted: Vec<RowEntry> = Vec::new();
    // Move the rows over so that they can be taken from the front.
    while rows.len() > 0
        invariant
            rows_view(rows@) + rows_view(rest@) == all,
        decreases rows@.len(),
    {
        let ghost before = rows@;
        let ghost after = rest@;
        if let Some(row) = rows.pop() {
            rest.push_front(row);
            proof {
                assert(rows_view(before) =~= rows_view(rows@).push(row@));
                assert(rows_view(rest@) =~= seq![row@] + rows_view(after));
                assert(rows_view(rows@) + rows_view(rest@) =~= rows_view(before) + rows_view(
                    after,
                ));
            }
        }
    }
    assert(rows_view(rest@) =~= all);
    let ghost mut done: int = 0;
    assert(all.skip(0) =~= all);
    assert(all.take(0) =~= Seq::<RowView>::empty());
    assert(rows_view(sorted@) =~= Seq::<RowView>::empty());
    while rest.len() > 0
        invariant
            0 <= done <= all.len(),
            rows_view(rest@) == all.skip(done),
            rows_view(sorted@) == newest_first(all.take(done)),
        decreases rest@.len(),
    {
        let ghost before = rows_view(rest@);
        if let Some(row) = rest.pop_front() {
            insert_newest_first(&mut sorted, row);
            proof {
                assert(before.len() > 0);
                assert(before[0] == row@);
                assert(rows_view(rest@) =~= before.drop_first());
                assert(before.drop_first() =~= all.skip(done + 1));
                assert(all.take(done + 1).drop_last() =~= all.take(done));
                assert(all.take(done + 1).last() == row@);
                done = done + 1;
            }
        }
    }
    proof {
        assert(rows_view(rest@).len() == rest@.len());
        assert(done == all.len());
        assert(all.take(done) =~= all);
    }
    sorted
}

/// How far an iterator has been set up.
#[derive(Clone, Copy, PartialEq, Eq, Structural, Debug)]
pub enum RunState {
    Uninitialized,
    Ascending,
    Descending,
}

/// What to go on with once the next table is open.
#[derive(Clone, Copy, PartialEq, Eq, Structural, Debug)]
pub enum RunResume {
    /// The construction of the iterator.
    New,
    /// A call of `next`.
    Next,
    /// A call of `next` that collects the versions of one key.
    Fill,
    /// A call of `seek` in ascending order.
    SeekAscending,
    /// A call of `seek` in descending order that passes over tables.
    SkipDescending,
    /// A call of `seek` in descending order whose key was before the last table.
    RetryDescending,
}

/// What an iterator is waiting for.
#[derive(Clone, Copy, PartialEq, Eq, Structural, Debug)]
pub enum RunTask {
    /// No call is under way.
    Idle,
    /// The next table to be opened.
    Opening(RunResume),
    /// The opened table to be initialized.
    Initializing(RunResume),
    /// The opened table to be moved to the key that was last sought.
    Reseeking(RunResume),
    /// The first table to be initialized.
    Init,
    /// A row of the current table.
    Row,
    /// A row of the current table, while the versions of one key are collected.
    FillRow,
    /// The current table to be moved to a key.
    SeekAscending,
    /// The current table to be moved to a key.
    SeekDescending,
}

/// What the caller reports.
#[derive(Debug)]
pub enum RunEvent {
    /// The table was opened and is the current one now.
    Opened,
    /// The current table was initialized, or moved to the key.
    Ready,
    /// The next row of the current table, if there is one.
    Row(Option<RowEntry>),
    /// What was asked for failed.
    Failed(SlateDBError),
}

/// The meaning of a [`RunEvent`].
pub enum RunEventView {
    Opened,
    Ready,
    Row(Option<RowView>),
    Failed(SlateDBError),
}

/// The meaning of an optional row.
pub open spec fn row_option(row: Option<RowEntry>) -> Option<RowView> {
    match row {
        Some(row) => Some(row@),
        None => None,
    }
}

impl View for RunEvent {
    type V = RunEventView;

    open spec fn view(&self) -> RunEventView {
        match self {
            RunEvent::Opened => RunEventView::Opened,
            RunEvent::Ready => RunEventView::Ready,
            RunEvent::Row(row) => RunEventView::Row(row_option(*row)),
            RunEvent::Failed(error) => RunEventView::Failed(*error),
        }
    }
}

/// What the caller does next.
#[derive(Debug)]
pub enum RunAction<'a> {
    /// Open this table and make it the current one.
    Open(SstView<'a>),
    /// Initialize the current table.
    Init,
    /// Read the next row of the current table.
    Next,
    /// Move the current table to this key.
    Seek(Bytes),
    /// The call is over. Calls other than `next` give no row.
    Done(Result<Option<RowEntry>, SlateDBError>),
}

/// The meaning of a [`RunAction`].
pub enum RunActionView {
    Open { table: TableView, range: RangeView, owned: bool },
    Init,
    Next,
    Seek(Seq<u8>),
    Done(Result<Option<RowView>, SlateDBError>),
}

impl<'a> View for RunAction<'a> {
    type V = RunActionView;

    open spec fn view(&self) -> RunActionView {
        match self {
            RunAction::Open(view) => RunActionView::Open {
                table: view.table(),
                range: view.range(),
                owned: view.owned(),
            },
            RunAction::Init => RunActionView::Init,
            RunAction::Next => RunActionView::Next,
            RunAction::Seek(key) => RunActionView::Seek(bytes_contents(*key)),
            RunAction::Done(Ok(row)) => RunActionView::Done(Ok(row_option(*row))),
            RunAction::Done(Err(error)) => RunActionView::Done(Err(*error)),
        }
    }
}

/// The table may hold the key.
pub open spec fn may_hold(tables: Seq<TableView>, key: Seq<u8>) -> bool {
    tables.len() > 0 && tables[0].effective_range.contains(key)
}

/// The table may hold keys after `key`.
pub open spec fn ends_after(table: TableView, key: Seq<u8>) -> bool {
    match table.effective_range.end {
        BoundView::Included(end) => lex_lt(key, end),
        BoundView::Excluded(end) => lex_lt(key, end),
        BoundView::Unbounded => true,
    }
}

/// The state of a [`SortedRunIterator`].
pub struct RunModel {
    /// The tables still to be opened, in the direction of the walk.
    pub tables: Seq<TableView>,
    pub range: RangeView,
    /// Whether the tables are owned and not borrowed.
    pub owned: bool,
    pub order: IterationOrder,
    pub state: RunState,
    /// Whether there is a current table.
    pub open: bool,
    /// Rows to return before any other, in order.
    pub buffered: Seq<RowView>,
    /// A row to return after those, before the current table is read on.
    pub pending_entry: Option<RowView>,
    /// The key that was last sought in descending order.
    pub pending_seek: Option<Seq<u8>>,
    /// The versions of one key collected so far.
    pub group: Seq<RowView>,
    /// Whether they come from more than one table.
    pub crossed: bool,
    /// The key of the call of `seek` under way.
    pub seek_key: Seq<u8>,
    pub task: RunTask,
}

impl RunModel {
    /// The state is one that calls lead to.
    pub open spec fn wf(self) -> bool {
        &&& self.state is Uninitialized ==> {
            &&& self.buffered.len() == 0
            &&& self.pending_entry is None
            &&& match self.task {
                RunTask::Idle | RunTask::Init => true,
                RunTask::Opening(resume) => resume is New,
                _ => false,
            }
        }
        &&& self.state is Ascending ==> {
            &&& self.order is Ascending
            &&& self.buffered.len() == 0
            &&& self.pending_entry is None
            &&& match self.task {
                RunTask::Opening(resume) | RunTask::Initializing(resume) => resume is Next
                    || resume is SeekAscending,
                RunTask::Idle | RunTask::Row | RunTask::SeekAscending => true,
                _ => false,
            }
        }
        &&& self.state is Descending ==> {
            &&& self.order is Descending
            &&& match self.task {
                RunTask::Opening(resume) | RunTask::Initializing(resume) | RunTask::Reseeking(
                    resume,
                ) => resume is Next || resume is Fill || resume is SkipDescending
                    || resume is RetryDescending,
                RunTask::Idle | RunTask::Row | RunTask::FillRow | RunTask::SeekDescending => true,
                _ => false,
            }
        }
        &&& self.task matches RunTask::Reseeking(_) ==> self.pending_seek is Some
        &&& self.collecting() == (self.group.len() > 0)
        &&& !(self.task is Idle) ==> self.buffered.len() == 0 && self.pending_entry is None
        &&& self.crossed ==> self.collecting()
        &&& self.needs_open() ==> self.open
    }

    /// The versions of one key are being collected.
    pub open spec fn collecting(self) -> bool {
        match self.task {
            RunTask::FillRow => true,
            RunTask::Opening(resume) | RunTask::Initializing(resume) | RunTask::Reseeking(
                resume,
            ) => resume is Fill,
            _ => false,
        }
    }

    /// The current table is being used.
    pub open spec fn needs_open(self) -> bool {
        match self.task {
            RunTask::Idle | RunTask::Opening(_) => false,
            _ => true,
        }
    }

    /// The event is an answer to what is being waited for.
    pub open spec fn fits(self, event: RunEventView) -> bool {
        match self.task {
            RunTask::Idle => false,
            RunTask::Opening(_) => event is Opened || event is Failed,
            RunTask::Initializing(_) | RunTask::Reseeking(_) | RunTask::Init
            | RunTask::SeekAscending | RunTask::SeekDescending => event is Ready || event is Failed,
            RunTask::Row | RunTask::FillRow => event is Row || event is Failed,
        }
    }

    /// Waits for the answer to an action.
    pub open spec fn wait(self, task: RunTask, action: RunActionView) -> (RunModel, RunActionView) {
        (RunModel { task, ..self }, action)
    }

    /// Ends the call.
    pub open spec fn done(self, result: Result<Option<RowView>, SlateDBError>) -> (
        RunModel,
        RunActionView,
    ) {
        (
            RunModel { task: RunTask::Idle, group: Seq::empty(), crossed: false, ..self },
            RunActionView::Done(result),
        )
    }

    /// Opens the next table of which something may be read, to go on with `resume`.
    /// Where there is none, there is no current table any more.
    pub open spec fn open_next(self, resume: RunResume) -> (RunModel, RunActionView) {
        let hidden = hidden_tables(self.tables, self.range) as int;
        if hidden < self.tables.len() {
            RunModel { tables: self.tables.skip(hidden + 1), ..self }.wait(
                RunTask::Opening(resume),
                RunActionView::Open {
                    table: self.tables[hidden],
                    range: self.tables[hidden].view_range(self.range)->0,
                    owned: self.owned,
                },
            )
        } else {
            RunModel { tables: Seq::empty(), open: false, ..self }.exhausted(resume)
        }
    }

    /// Goes on once the run has no table left.
    pub open spec fn exhausted(self, resume: RunResume) -> (RunModel, RunActionView) {
        match resume {
            RunResume::New | RunResume::Next | RunResume::SeekAscending => self.done(Ok(None)),
            RunResume::Fill => RunModel { crossed: true, ..self }.fill_done(),
            RunResume::SkipDescending | RunResume::RetryDescending => self.seek_done(),
        }
    }

    /// Goes on once the next table is open and set up.
    pub open spec fn resumed(self, resume: RunResume) -> (RunModel, RunActionView) {
        match resume {
            RunResume::New => self.done(Ok(None)),
            RunResume::Next => self.wait(RunTask::Row, RunActionView::Next),
            RunResume::Fill => RunModel { crossed: true, ..self }.wait(
                RunTask::FillRow,
                RunActionView::Next,
            ),
            RunResume::SeekAscending => self.seek_ascending(),
            RunResume::SkipDescending => self.skip_descending(),
            RunResume::RetryDescending => self.wait(
                RunTask::SeekDescending,
                RunActionView::Seek(self.seek_key),
            ),
        }
    }

    /// A row was read. In descending order the versions of a key that the next
    /// table may hold too are collected first.
    pub open spec fn entry(self, row: RowView) -> (RunModel, RunActionView) {
        if self.state is Descending && may_hold(self.tables, row.key) {
            let filling = RunModel { group: seq![row], crossed: false, ..self };
            if self.open {
                filling.wait(RunTask::FillRow, RunActionView::Next)
            } else {
                filling.fill_at_end()
            }
        } else {
            self.done(Ok(Some(row)))
        }
    }

    /// The current table has no more rows for the key being collected.
    pub open spec fn fill_at_end(self) -> (RunModel, RunActionView) {
        if may_hold(self.tables, self.group[0].key) {
            self.open_next(RunResume::Fill)
        } else {
            self.fill_done()
        }
    }

    /// Every version of the key is collected: the newest is returned, and the
    /// others are next.
    pub open spec fn fill_done(self) -> (RunModel, RunActionView) {
        let rows = if self.crossed {
            newest_first(self.group)
        } else {
            self.group
        };
        RunModel { buffered: rows.drop_first(), ..self }.done(Ok(Some(rows[0])))
    }

    /// Passes over tables while the next one starts before the key.
    pub open spec fn seek_ascending(self) -> (RunModel, RunActionView) {
        if self.tables.len() > 0 && lex_lt(self.tables[0].start_key(), self.seek_key) {
            self.open_next(RunResume::SeekAscending)
        } else if self.open {
            self.wait(RunTask::SeekAscending, RunActionView::Seek(self.seek_key))
        } else {
            self.done(Ok(None))
        }
    }

    /// Passes over tables while the next one ends after the key.
    pub open spec fn skip_descending(self) -> (RunModel, RunActionView) {
        if self.tables.len() > 0 && ends_after(self.tables[0], self.seek_key) {
            self.open_next(RunResume::SkipDescending)
        } else if self.open {
            self.wait(RunTask::SeekDescending, RunActionView::Seek(self.seek_key))
        } else {
            self.seek_done()
        }
    }

    /// The sought key is remembered for the tables still to be opened.
    pub open spec fn seek_done(self) -> (RunModel, RunActionView) {
        RunModel { pending_seek: Some(self.seek_key), ..self }.done(Ok(None))
    }

    /// A call of `init`.
    pub open spec fn init(self) -> (RunModel, RunActionView) {
        if self.state is Uninitialized {
            if self.open {
                self.wait(RunTask::Init, RunActionView::Init)
            } else {
                self.initialized().done(Ok(None))
            }
        } else {
            self.done(Ok(None))
        }
    }

    /// The walk can begin.
    pub open spec fn initialized(self) -> RunModel {
        RunModel {
            state: match self.order {
                IterationOrder::Ascending => RunState::Ascending,
                IterationOrder::Descending => RunState::Descending,
            },
            pending_seek: None,
            ..self
        }
    }

    /// A call of `next`.
    pub open spec fn next(self) -> (RunModel, RunActionView) {
        if self.state is Uninitialized {
            self.done(Err(SlateDBError::IteratorNotInitialized))
        } else if self.buffered.len() > 0 {
            RunModel { buffered: self.buffered.drop_first(), ..self }.done(
                Ok(Some(self.buffered[0])),
            )
        } else if self.pending_entry is Some {
            RunModel { pending_entry: None, ..self }.entry(self.pending_entry->0)
        } else if self.open {
            self.wait(RunTask::Row, RunActionView::Next)
        } else {
            self.done(Ok(None))
        }
    }

    /// A call of `seek`.
    pub open spec fn seek(self, key: Seq<u8>) -> (RunModel, RunActionView) {
        match self.state {
            RunState::Uninitialized => self.done(Err(SlateDBError::IteratorNotInitialized)),
            RunState::Ascending => RunModel { seek_key: key, ..self }.seek_ascending(),
            RunState::Descending => RunModel {
                seek_key: key,
                buffered: Seq::empty(),
                pending_entry: None,
                pending_seek: None,
                ..self
            }.skip_descending(),
        }
    }

    /// The answer to what was being waited for.
    pub open spec fn on_event(self, event: RunEventView) -> (RunModel, RunActionView) {
        match (self.task, event) {
            (RunTask::Opening(resume), RunEventView::Opened) => {
                let opened = RunModel { open: true, ..self };
                if self.state is Uninitialized {
                    opened.resumed(resume)
                } else {
                    opened.wait(RunTask::Initializing(resume), RunActionView::Init)
                }
            },
            (RunTask::Initializing(resume), RunEventView::Ready) => {
                if self.state is Descending && self.pending_seek is Some {
                    self.wait(
                        RunTask::Reseeking(resume),
                        RunActionView::Seek(self.pending_seek->0),
                    )
                } else {
                    self.resumed(resume)
                }
            },
            (RunTask::Reseeking(resume), RunEventView::Ready) => self.resumed(resume),
            (RunTask::Init, RunEventView::Ready) => self.initialized().done(Ok(None)),
            (RunTask::Row, RunEventView::Row(Some(row))) => self.entry(row),
            (RunTask::Row, RunEventView::Row(None)) => self.open_next(RunResume::Next),
            (RunTask::FillRow, RunEventView::Row(Some(row))) => {
                if row.key == self.group[0].key {
                    RunModel { group: self.group.push(row), ..self }.wait(
                        RunTask::FillRow,
                        RunActionView::Next,
                    )
                } else {
                    RunModel { pending_entry: Some(row), ..self }.fill_done()
                }
            },
            (RunTask::FillRow, RunEventView::Row(None)) => self.fill_at_end(),
            (RunTask::SeekAscending, RunEventView::Ready) => self.done(Ok(None)),
            (RunTask::SeekDescending, RunEventView::Ready) => self.seek_done(),
            (RunTask::SeekDescending, RunEventView::Failed(SlateDBError::SeekKeyOutOfKeyRange)) => {
                self.open_next(RunResume::RetryDescending)
            },
            (_, RunEventView::Failed(error)) => self.done(Err(error)),
            _ => self.done(Err(SlateDBError::InvalidDBState)),
        }
    }
}

/// Iterates over the rows of a sorted run, in either direction.
pub struct SortedRunIterator<'a> {
    view: SortedRunView<'a>,
    order: IterationOrder,
    state: RunState,
    open: bool,
    buffered_entries: VecDeque<RowEntry>,
    pending_entry: Option<RowEntry>,
    pending_seek: Option<Bytes>,
    group: Vec<RowEntry>,
    crossed_table_boundary: bool,
    seek_key: Bytes,
    task: RunTask,
}

impl<'a> View for SortedRunIterator<'a> {
    type V = RunModel;

    closed spec fn view(&self) -> RunModel {
        RunModel {
            tables: self.view.tables(),
            range: self.view.range(),
            owned: self.view.owned(),
            order: self.order,
            state: self.state,
            open: self.open,
            buffered: rows_view(self.buffered_entries@),
            pending_entry: row_option(self.pending_entry),
            pending_seek: match self.pending_seek {
                Some(key) => Some(bytes_contents(key)),
                None => None,
            },
            group: rows_view(self.group@),
            crossed: self.crossed_table_boundary,
            seek_key: bytes_contents(self.seek_key),
            task: self.task,
        }
    }
}

/// The state of a new iterator over tables in key order, before any is opened.
pub open spec fn new_run(
    tables: Seq<TableView>,
    range: RangeView,
    owned: bool,
    order: IterationOrder,
) -> RunModel {
    RunModel {
        tables: match order {
            IterationOrder::Ascending => tables,
            IterationOrder::Descending => tables.reverse(),
        },
        range,
        owned,
        order,
        state: RunState::Uninitialized,
        open: false,
        buffered: Seq::empty(),
        pending_entry: None,
        pending_seek: None,
        group: Seq::empty(),
        crossed: false,
        seek_key: Seq::empty(),
        task: RunTask::Idle,
    }
}

impl<'a> SortedRunIterator<'a> {
    /// An iterator over the tables of `view`, which are in walking order.
    fn new(view: SortedRunView<'a>, order: IterationOrder) -> (created: (Self, RunAction<'a>))
        ensures
            created.0@.wf(),
            ({
                let start = RunModel {
                    tables: view.tables(),
                    ..new_run(Seq::empty(), view.range(), view.owned(), order)
                };
                (created.0@, created.1@) == start.open_next(RunResume::New)
            }),
    {
        let mut iter = SortedRunIterator {
            view,
            order,
            state: RunState::Uninitialized,
            open: false,
            buffered_entries: VecDeque::new(),
            pending_entry: None,
            pending_seek: None,
            group: Vec::new(),
            crossed_table_boundary: false,
            seek_key: Bytes::copy_from_slice(&[]),
            task: RunTask::Idle,
        };
        proof {
            assert(iter@.buffered =~= Seq::<RowView>::empty());
            assert(iter@.group =~= Seq::<RowView>::empty());
            assert(iter@.seek_key =~= Seq::<u8>::empty());
        }
        let action = iter.advance_table(RunResume::New);
        (iter, action)
    }

    /// An iterator over `range` of a run that owns its tables, those that cover
    /// the range, in key order. The first table is to be opened right away.
    pub fn new_owned(range: BytesRange, tables: Vec<SsTableView>, order: IterationOrder) -> (created: (
        Self,
        RunAction<'a>,
    ))
        ensures
            created.0@.wf(),
            (created.0@, created.1@) == new_run(tables_view(tables@), range@, true, order).open_next(
                RunResume::New,
            ),
    {
        let ghost all = tables_view(tables@);
        let mut rest = tables;
        let mut queue: VecDeque<SsTableView> = VecDeque::new();
        while rest.len() > 0
            invariant
                tables_view(queue@) == match order {
                    IterationOrder::Ascending => all.skip(rest@.len() as int),
                    IterationOrder::Descending => all.skip(rest@.len() as int).reverse(),
                },
                rest@.len() <= all.len(),
                tables_view(rest@) == all.take(rest@.len() as int),
            decreases rest@.len(),
        {
            let ghost before = rest@;
            let ghost queued = tables_view(queue@);
            if let Some(table) = rest.pop() {
                let ghost n = rest@.len() as int;
                proof {
                    assert(before.last() == table);
                    assert(tables_view(before)[n] == table@);
                    assert(all[n] == table@);
                    assert(tables_view(rest@) =~= all.take(n));
                    assert(all.skip(n) =~= seq![table@] + all.skip(n + 1));
                }
                match order {
                    IterationOrder::Ascending => {
                        queue.push_front(table);
                        assert(tables_view(queue@) =~= seq![table@] + queued);
                    },
                    IterationOrder::Descending => {
                        queue.push_back(table);
                        assert(tables_view(queue@) =~= queued.push(table@));
                        assert(all.skip(n).reverse() =~= all.skip(n + 1).reverse().push(table@));
                    },
                }
            }
        }
        proof {
            assert(all.skip(0) =~= all);
        }
        let view = SortedRunView::Owned(queue, range);
        Self::new(view, order)
    }

    /// An iterator over `range` of a run that borrows its tables, those that cover
    /// the range, in key order. The first table is to be opened right away.
    pub fn new_borrowed(range: BytesRange, tables: &'a Vec<SsTableView>, order: IterationOrder) -> (created: (
        Self,
        RunAction<'a>,
    ))
        ensures
            created.0@.wf(),
            (created.0@, created.1@) == new_run(tables_view(tables@), range@, false, order).open_next(
                RunResume::New,
            ),
    {
        let ghost all = tables_view(tables@);
        let mut queue: VecDeque<&'a SsTableView> = VecDeque::new();
        let mut i: usize = 0;
        while i < tables.len()
            invariant
                i <= tables@.len(),
                all == tables_view(tables@),
                borrowed_view(queue@) == match order {
                    IterationOrder::Ascending => all.take(i as int),
                    IterationOrder::Descending => all.take(i as int).reverse(),
                },
            decreases tables@.len() - i,
        {
            let table: &'a SsTableView = &tables[i];
            let ghost queued = borrowed_view(queue@);
            proof {
                assert(all[i as int] == table@);
                assert(all.take(i + 1) =~= all.take(i as int).push(table@));
            }
            match order {
                IterationOrder::Ascending => {
                    queue.push_back(table);
                    assert(borrowed_view(queue@) =~= queued.push(table@));
                },
                IterationOrder::Descending => {
                    queue.push_front(table);
                    assert(borrowed_view(queue@) =~= seq![table@] + queued);
                    assert(all.take(i + 1).reverse() =~= seq![table@] + all.take(
                        i as int,
                    ).reverse());
                },
            }
            i = i + 1;
        }
        assert(all.take(all.len() as int) =~= all);
        let view = SortedRunView::Borrowed(queue, range);
        Self::new(view, order)
    }

    /// Ends the call.
    fn done(&mut self, result: Result<Option<RowEntry>, SlateDBError>) -> (action: RunAction<'a>)
        ensures
            (final(self)@, action@) == old(self)@.done(
                match result {
                    Ok(row) => Ok(row_option(row)),
                    Err(error) => Err(error),
                },
            ),
    {
        self.task = RunTask::Idle;
        self.group = Vec::new();
        self.crossed_table_boundary = false;
        assert(self@.group =~= Seq::<RowView>::empty());
        RunAction::Done(result)
    }

    /// Opens the next table of the run, to go on with `resume`.
    fn advance_table(&mut self, resume: RunResume) -> (action: RunAction<'a>)
        requires
            resume is Fill ==> old(self)@.group.len() > 0,
        ensures
            (final(self)@, action@) == old(self)@.open_next(resume),
    {
        match self.view.pop_sst() {
            Some(view) => {
                self.task = RunTask::Opening(resume);
                RunAction::Open(view)
            },
            None => {
                assert(self.view.tables() =~= Seq::<TableView>::empty());
                self.open = false;
                match resume {
                    RunResume::New | RunResume::Next | RunResume::SeekAscending => {
                        self.done(Ok(None))
                    },
                    RunResume::Fill => {
                        self.crossed_table_boundary = true;
                        self.finish_descending_buffer()
                    },
                    RunResume::SkipDescending | RunResume::RetryDescending => self.finish_seek(),
                }
            },
        }
    }

    /// Remembers the sought key and ends the call.
    fn finish_seek(&mut self) -> (action: RunAction<'a>)
        ensures
            (final(self)@, action@) == old(self)@.seek_done(),
    {
        self.pending_seek = Some(clone_bytes(&self.seek_key));
        self.done(Ok(None))
    }

    /// Returns the first of the collected rows and keeps the others.
    fn finish_descending_buffer(&mut self) -> (action: RunAction<'a>)
        requires
            old(self)@.group.len() > 0,
        ensures
            (final(self)@, action@) == old(self)@.fill_done(),
    {
        let mut group: Vec<RowEntry> = Vec::new();
        core::mem::swap(&mut self.group, &mut group);
        let ghost collected = rows_view(group@);
        let rows = if self.crossed_table_boundary {
            sort_newest_first(group)
        } else {
            group
        };
        proof {
            if self.crossed_table_boundary {
                lemma_newest_first_len(collected);
            }
        }
        let ghost sorted = rows_view(rows@);
        let mut rest = rows;
        let mut buffered: VecDeque<RowEntry> = VecDeque::new();
        while rest.len() > 0
            invariant
                rows_view(rest@) + rows_view(buffered@) == sorted,
            decreases rest@.len(),
        {
            let ghost before = rest@;
            let ghost after = buffered@;
            if let Some(row) = rest.pop() {
                buffered.push_front(row);
                proof {
                    assert(rows_view(before) =~= rows_view(rest@).push(row@));
                    assert(rows_view(buffered@) =~= seq![row@] + rows_view(after));
                    assert(rows_view(rest@) + rows_view(buffered@) =~= rows_view(before)
                        + rows_view(after));
                }
            }
        }
        assert(rows_view(buffered@) =~= sorted);
        let first = buffered.pop_front();
        assert(rows_view(buffered@) =~= sorted.drop_first());
        self.buffered_entries = buffered;
        self.done(Ok(first))
    }

    /// Collects the versions of a key in the current table and, where the next
    /// table may hold more of them, there too.
    fn fill_descending_buffer(&mut self) -> (action: RunAction<'a>)
        requires
            old(self)@.group.len() > 0,
        ensures
            (final(self)@, action@) == old(self)@.fill_at_end(),
    {
        let more: bool = match self.view.peek_next_table() {
            Some(table) => {
                let target_key = as_slice(&self.group[0].key);
                table.compacted_effective_range().contains(target_key)
            },
            None => false,
        };
        assert(self@.group[0] == self.group@[0]@);
        if more {
            self.advance_table(RunResume::Fill)
        } else {
            self.finish_descending_buffer()
        }
    }

    /// Takes up a row that was read.
    fn take_entry(&mut self, row: RowEntry) -> (action: RunAction<'a>)
        ensures
            (final(self)@, action@) == old(self)@.entry(row@),
    {
        let descending: bool = matches!(self.state, RunState::Descending);
        let collect: bool = descending && match self.view.peek_next_table() {
            Some(table) => table.compacted_effective_range().contains(as_slice(&row.key)),
            None => false,
        };
        if collect {
            let ghost first = row@;
            let mut group: Vec<RowEntry> = Vec::new();
            group.push(row);
            self.group = group;
            self.crossed_table_boundary = false;
            assert(self@.group =~= seq![first]);
            if self.open {
                self.task = RunTask::FillRow;
                RunAction::Next
            } else {
                self.fill_descending_buffer()
            }
        } else {
            self.done(Ok(Some(row)))
        }
    }

    /// Goes on once the next table is open and set up.
    fn resume(&mut self, resume: RunResume) -> (action: RunAction<'a>)
        ensures
            (final(self)@, action@) == old(self)@.resumed(resume),
    {
        match resume {
            RunResume::New => self.done(Ok(None)),
            RunResume::Next => {
                self.task = RunTask::Row;
                RunAction::Next
            },
            RunResume::Fill => {
                self.crossed_table_boundary = true;
                self.task = RunTask::FillRow;
                RunAction::Next
            },
            RunResume::SeekAscending => self.seek_ascending(),
            RunResume::SkipDescending => self.seek_descending(),
            RunResume::RetryDescending => {
                self.task = RunTask::SeekDescending;
                RunAction::Seek(clone_bytes(&self.seek_key))
            },
        }
    }

    /// Passes over tables while the next one starts before the sought key.
    fn seek_ascending(&mut self) -> (action: RunAction<'a>)
        ensures
            (final(self)@, action@) == old(self)@.seek_ascending(),
    {
        let pass: bool = match self.view.peek_next_table() {
            Some(table) => matches!(
                compare_keys(table.compacted_effective_start_key(), as_slice(&self.seek_key)),
                KeyOrder::Less
            ),
            None => false,
        };
        if pass {
            self.advance_table(RunResume::SeekAscending)
        } else if self.open {
            self.task = RunTask::SeekAscending;
            RunAction::Seek(clone_bytes(&self.seek_key))
        } else {
            self.done(Ok(None))
        }
    }

    /// Passes over tables while the next one ends after the sought key.
    fn seek_descending(&mut self) -> (action: RunAction<'a>)
        ensures
            (final(self)@, action@) == old(self)@.skip_descending(),
    {
        let pass: bool = match self.view.peek_next_table() {
            Some(table) => match &table.compacted_effective_range().end {
                KeyBound::Included(end) => matches!(
                    compare_keys(as_slice(end), as_slice(&self.seek_key)), KeyOrder::Greater
                ),
                KeyBound::Excluded(end) => matches!(
                    compare_keys(as_slice(end), as_slice(&self.seek_key)), KeyOrder::Greater
                ),
                KeyBound::Unbounded => true,
            },
            None => false,
        };
        if pass {
            self.advance_table(RunResume::SkipDescending)
        } else if self.open {
            self.task = RunTask::SeekDescending;
            RunAction::Seek(clone_bytes(&self.seek_key))
        } else {
            self.finish_seek()
        }
    }

    /// Sets the state for walking in the iterator's order.
    fn set_initialized(&mut self)
        ensures
            final(self)@ == old(self)@.initialized(),
    {
        self.state = match self.order {
            IterationOrder::Ascending => RunState::Ascending,
            IterationOrder::Descending => RunState::Descending,
        };
        self.pending_seek = None;
    }

    /// Initializes the iterator. A second call does nothing.
    pub fn init(&mut self) -> (action: RunAction<'a>)
        requires
            old(self)@.wf(),
            old(self)@.task is Idle,
        ensures
            final(self)@.wf(),
            (final(self)@, action@) == old(self)@.init(),
    {
        if matches!(self.state, RunState::Uninitialized) {
            if self.open {
                self.task = RunTask::Init;
                RunAction::Init
            } else {
                self.set_initialized();
                self.done(Ok(None))
            }
        } else {
            self.done(Ok(None))
        }
    }

    /// Asks for the next row.
    pub fn next(&mut self) -> (action: RunAction<'a>)
        requires
            old(self)@.wf(),
            old(self)@.task is Idle,
        ensures
            final(self)@.wf(),
            (final(self)@, action@) == old(self)@.next(),
    {
        if matches!(self.state, RunState::Uninitialized) {
            return self.done(Err(SlateDBError::IteratorNotInitialized));
        }
        let ghost buffered = self@.buffered;
        match self.buffered_entries.pop_front() {
            Some(row) => {
                assert(self@.buffered =~= buffered.drop_first());
                self.done(Ok(Some(row)))
            },
            None => {
                assert(self@.buffered =~= buffered);
                match self.pending_entry.take() {
                    Some(row) => self.take_entry(row),
                    None => {
                        if self.open {
                            self.task = RunTask::Row;
                            RunAction::Next
                        } else {
                            self.done(Ok(None))
                        }
                    },
                }
            },
        }
    }

    /// Moves to the first row at `next_key` or past it in walking order.
    pub fn seek(&mut self, next_key: &[u8]) -> (action: RunAction<'a>)
        requires
            old(self)@.wf(),
            old(self)@.task is Idle,
        ensures
            final(self)@.wf(),
            (final(self)@, action@) == old(self)@.seek(next_key@),
    {
        match self.state {
            RunState::Uninitialized => self.done(Err(SlateDBError::IteratorNotInitialized)),
            RunState::Ascending => {
                self.seek_key = Bytes::copy_from_slice(next_key);
                self.seek_ascending()
            },
            RunState::Descending => {
                self.seek_key = Bytes::copy_from_slice(next_key);
                self.buffered_entries = VecDeque::new();
                self.pending_entry = None;
                self.pending_seek = None;
                assert(self@.buffered =~= Seq::<RowView>::empty());
                self.seek_descending()
            },
        }
    }

    /// Takes up the answer to the last action.
    #[verifier::rlimit(40)]
    pub fn on_event(&mut self, event: RunEvent) -> (action: RunAction<'a>)
        requires
            old(self)@.wf(),
            old(self)@.fits(event@),
        ensures
            final(self)@.wf(),
            (final(self)@, action@) == old(self)@.on_event(event@),
    {
        match (self.task, event) {
            (RunTask::Opening(resume), RunEvent::Opened) => {
                self.open = true;
                if matches!(self.state, RunState::Uninitialized) {
                    self.resume(resume)
                } else {
                    self.task = RunTask::Initializing(resume);
                    RunAction::Init
                }
            },
            (RunTask::Initializing(resume), RunEvent::Ready) => {
                let descending: bool = matches!(self.state, RunState::Descending);
                if let (true, Some(key)) = (descending, &self.pending_seek) {
                    let key = clone_bytes(key);
                    self.task = RunTask::Reseeking(resume);
                    return RunAction::Seek(key);
                }
                self.resume(resume)
            },
            (RunTask::Reseeking(resume), RunEvent::Ready) => self.resume(resume),
            (RunTask::Init, RunEvent::Ready) => {
                self.set_initialized();
                self.done(Ok(None))
            },
            (RunTask::Row, RunEvent::Row(Some(row))) => self.take_entry(row),
            (RunTask::Row, RunEvent::Row(None)) => self.advance_table(RunResume::Next),
            (RunTask::FillRow, RunEvent::Row(Some(row))) => {
                assert(self@.group[0] == self.group@[0]@);
                let same_key: bool = matches!(
                    compare_keys(as_slice(&row.key), as_slice(&self.group[0].key)), KeyOrder::Equal
                );
                let ghost group = self@.group;
                if same_key {
                    self.group.push(row);
                    assert(self@.group =~= group.push(row@));
                    RunAction::Next
                } else {
                    self.pending_entry = Some(row);
                    self.finish_descending_buffer()
                }
            },
            (RunTask::FillRow, RunEvent::Row(None)) => self.fill_descending_buffer(),
            (RunTask::SeekAscending, RunEvent::Ready) => self.done(Ok(None)),
            (RunTask::SeekDescending, RunEvent::Ready) => self.finish_seek(),
            (RunTask::SeekDescending, RunEvent::Failed(error)) => {
                if matches!(error, SlateDBError::SeekKeyOutOfKeyRange) {
                    self.advance_table(RunResume::RetryDescending)
                } else {
                    self.done(Err(error))
                }
            },
            (_, RunEvent::Failed(error)) => self.done(Err(error)),
            _ => self.done(Err(SlateDBError::InvalidDBState)),
        }
    }
}

/// Sorting keeps the number of rows.
proof fn lemma_newest_first_len(rows: Seq<RowView>)
    ensures
        newest_first(rows).len() == rows.len(),
    decreases rows.len(),
{
    if rows.len() > 0 {
        lemma_newest_first_len(rows.drop_last());
        lemma_insert_len(newest_first(rows.drop_last()), rows.last());
    }
}

/// Inserting adds one row.
proof fn lemma_insert_len(rows: Seq<RowView>, row: RowView)
    ensures
        insert_by_seq(rows, row).len() == rows.len() + 1,
    decreases rows.len(),
{
    if rows.len() > 0 && rows.last().seq < row.seq {
        lemma_insert_len(rows.drop_last(), row);
    }
}

} // verus!
