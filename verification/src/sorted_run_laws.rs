//! What a walk over a sorted run returns.
//!
//! The laws speak of a run whose tables answer truthfully: opening a table makes
//! its rows the current ones, and reading gives them one by one.
use crate::byte_string::{lemma_lex_asymmetric, lemma_lex_irreflexive, lemma_lex_total,
    lemma_lex_transitive, lex_lt};
use crate::bytes_range::{bound_key, BoundView, RangeView};
use crate::db_state::TableView;
use crate::error::SlateDBError;
use crate::sorted_run_iterator::{ends_after, hidden_tables, insert_by_seq, may_hold, new_run,
    newest_first, IterationOrder, RunActionView, RunEventView, RunModel, RunResume, RunState, RunTask};
use crate::types::RowView;
use vstd::prelude::*;
use vstd::seq_lib::*;

verus! {

/// The rows behind an iterator: those left in the current table, or in the table
/// being opened, and those of each table still to be opened, in walking order.
pub struct RunRows {
    pub current: Seq<RowView>,
    pub rest: Seq<Seq<RowView>>,
}

/// The rows of several tables, one table after the other.
pub open spec fn joined(tables: Seq<Seq<RowView>>) -> Seq<RowView>
    decreases tables.len(),
{
    if tables.len() == 0 {
        Seq::empty()
    } else {
        tables[0] + joined(tables.drop_first())
    }
}

/// An optional row as a sequence.
pub open spec fn optional_row(row: Option<RowView>) -> Seq<RowView> {
    match row {
        Some(row) => seq![row],
        None => Seq::empty(),
    }
}

impl RunRows {
    /// The rows after an action that a call on `before` led to: a table that is
    /// opened becomes the current one.
    pub open spec fn after(self, before: RunModel, action: RunActionView) -> RunRows {
        let hidden = hidden_tables(before.tables, before.range) as int;
        if action is Open {
            RunRows { current: self.rest[hidden], rest: self.rest.skip(hidden + 1) }
        } else {
            self
        }
    }

    /// The rows in the current table, where there is one.
    pub open spec fn live(self, run: RunModel) -> Seq<RowView> {
        if run.open || run.task is Opening {
            self.current
        } else {
            Seq::empty()
        }
    }

    /// The rows of the tables still to be opened.
    pub open spec fn later(self, run: RunModel) -> Seq<RowView> {
        if run.tables.len() == 0 {
            Seq::empty()
        } else {
            joined(self.rest)
        }
    }

    /// All rows not yet returned or buffered, in the order of the tables.
    pub open spec fn raw(self, run: RunModel) -> Seq<RowView> {
        run.group + optional_row(run.pending_entry) + self.live(run) + self.later(run)
    }

    /// The rows fit the tables: one sequence for each, and none for a table of
    /// which nothing may be read.
    pub open spec fn fits(self, run: RunModel) -> bool {
        &&& run.tables.len() > 0 ==> self.rest.len() == run.tables.len()
        &&& forall|i: int|
            0 <= i < run.tables.len() && (#[trigger] run.tables[i]).view_range(run.range) is None
                ==> self.rest[i].len() == 0
    }

    /// The rows that calls of `next` still owe, in order.
    pub open spec fn owed(self, run: RunModel) -> Seq<RowView> {
        if run.state is Descending {
            run.buffered + by_key_and_age(self.raw(run))
        } else {
            self.raw(run)
        }
    }

    /// The truthful answer to what the iterator is waiting for, while `next` is
    /// under way.
    pub open spec fn answer(self, run: RunModel) -> RunEventView {
        match run.task {
            RunTask::Opening(_) => RunEventView::Opened,
            RunTask::Row | RunTask::FillRow => RunEventView::Row(
                if self.current.len() > 0 {
                    Some(self.current[0])
                } else {
                    None
                },
            ),
            _ => RunEventView::Ready,
        }
    }

    /// The rows once that answer was given: a row that was read is gone, and
    /// moving a table to a key in descending order passes over the keys after it.
    pub open spec fn answered(self, run: RunModel) -> RunRows {
        if (run.task is Row || run.task is FillRow) && self.current.len() > 0 {
            RunRows { current: self.current.drop_first(), ..self }
        } else if run.task is Reseeking {
            RunRows { current: rows_to(self.current, run.pending_seek->0), ..self }
        } else {
            self
        }
    }
}

/// The rows up to `key`.
pub open spec fn rows_to(rows: Seq<RowView>, key: Seq<u8>) -> Seq<RowView>
    decreases rows.len(),
{
    if rows.len() == 0 {
        rows
    } else if lex_lt(key, rows.last().key) {
        rows_to(rows.drop_last(), key)
    } else {
        rows_to(rows.drop_last(), key).push(rows.last())
    }
}

proof fn lemma_rows_to_len(rows: Seq<RowView>, key: Seq<u8>)
    ensures
        rows_to(rows, key).len() <= rows.len(),
    decreases rows.len(),
{
    if rows.len() > 0 {
        lemma_rows_to_len(rows.drop_last(), key);
    }
}

proof fn lemma_rows_to_all(rows: Seq<RowView>, key: Seq<u8>)
    requires
        forall|i: int| 0 <= i < rows.len() ==> !lex_lt(key, (#[trigger] rows[i]).key),
    ensures
        rows_to(rows, key) == rows,
    decreases rows.len(),
{
    if rows.len() > 0 {
        lemma_rows_to_all(rows.drop_last(), key);
        assert(rows.drop_last().push(rows.last()) =~= rows);
    }
}

/// The length of the run of rows at the front that have the same key.
pub open spec fn same_key_len(rows: Seq<RowView>) -> nat
    decreases rows.len(),
{
    if rows.len() == 0 {
        0
    } else if rows.len() == 1 || rows[1].key != rows[0].key {
        1
    } else {
        1 + same_key_len(rows.drop_first())
    }
}

/// The rows with each run of one key ordered from the newest version down.
pub open spec fn by_key_and_age(rows: Seq<RowView>) -> Seq<RowView>
    decreases rows.len(),
    via by_key_and_age_decreases
{
    if rows.len() == 0 {
        rows
    } else {
        let n = same_key_len(rows) as int;
        newest_first(rows.take(n)) + by_key_and_age(rows.skip(n))
    }
}

#[via_fn]
proof fn by_key_and_age_decreases(rows: Seq<RowView>) {
    if rows.len() > 0 {
        lemma_same_key_len(rows);
    }
}

/// The run at the front has one key, at least one row, and ends at another key.
pub proof fn lemma_same_key_len(rows: Seq<RowView>)
    requires
        rows.len() > 0,
    ensures
        1 <= same_key_len(rows) <= rows.len(),
        forall|i: int| 0 <= i < same_key_len(rows) ==> (#[trigger] rows[i]).key == rows[0].key,
        same_key_len(rows) < rows.len() ==> rows[same_key_len(rows) as int].key != rows[0].key,
    decreases rows.len(),
{
    if rows.len() > 1 && rows[1].key == rows[0].key {
        let rest = rows.drop_first();
        lemma_same_key_len(rest);
        assert forall|i: int| 0 <= i < same_key_len(rows) implies (#[trigger] rows[i]).key
            == rows[0].key by {
            if i > 0 {
                assert(rows[i] == rest[i - 1]);
            }
        }
    }
}

/// The run at the front is the longest one of its key.
proof fn lemma_same_key_len_unique(rows: Seq<RowView>, n: int)
    requires
        0 < n <= rows.len(),
        forall|i: int| 0 <= i < n ==> (#[trigger] rows[i]).key == rows[0].key,
        n < rows.len() ==> rows[n].key != rows[0].key,
    ensures
        same_key_len(rows) == n,
{
    lemma_same_key_len(rows);
    let m = same_key_len(rows) as int;
    if m < n {
        assert(rows[m].key == rows[0].key);
    }
    if n < m {
        assert(rows[n].key == rows[0].key);
    }
}

/// Rows of one key from the newest version down.
pub open spec fn ages_down(rows: Seq<RowView>) -> bool {
    forall|i: int, j: int|
        0 <= i < j < rows.len() ==> (#[trigger] rows[i]).seq >= (#[trigger] rows[j]).seq
}

/// Inserting keeps rows in order.
proof fn lemma_insert_sorted(rows: Seq<RowView>, row: RowView)
    requires
        ages_down(rows),
    ensures
        ages_down(insert_by_seq(rows, row)),
        insert_by_seq(rows, row).to_multiset() == rows.to_multiset().insert(row),
        rows.len() == 0 || rows.last().seq >= row.seq || insert_by_seq(rows, row).last()
            == rows.last(),
    decreases rows.len(),
{
    broadcast use group_to_multiset_ensures;

    if rows.len() == 0 || rows.last().seq >= row.seq {
        let after = rows.push(row);
        assert forall|i: int, j: int| 0 <= i < j < after.len() implies (#[trigger] after[i]).seq
            >= (#[trigger] after[j]).seq by {
            if j == rows.len() {
                assert(rows[i].seq >= rows.last().seq);
            }
        }
    } else {
        let shorter = rows.drop_last();
        let inserted = insert_by_seq(shorter, row);
        lemma_insert_sorted(shorter, row);
        let after = inserted.push(rows.last());
        assert forall|i: int| 0 <= i < inserted.len() implies (#[trigger] inserted[i]).seq
            >= rows.last().seq by {
            assert(inserted.to_multiset().count(inserted[i]) > 0) by {
                assert(inserted.contains(inserted[i]));
            }
            if inserted[i] != row {
                assert(shorter.to_multiset().count(inserted[i]) > 0);
                assert(shorter.contains(inserted[i]));
                let k = choose|k: int| 0 <= k < shorter.len() && shorter[k] == inserted[i];
                assert(rows[k].seq >= rows[rows.len() - 1].seq);
            }
        }
        assert forall|i: int, j: int| 0 <= i < j < after.len() implies (#[trigger] after[i]).seq
            >= (#[trigger] after[j]).seq by {
            if j < inserted.len() {
                assert(after[i] == inserted[i] && after[j] == inserted[j]);
            }
        }
        assert(rows =~= shorter.push(rows.last()));
        assert(after.to_multiset() =~= rows.to_multiset().insert(row));
    }
}

/// Sorting by age orders the rows from the newest down and keeps every one of them.
pub proof fn law_newest_first_sorts(rows: Seq<RowView>)
    ensures
        ages_down(newest_first(rows)),
        newest_first(rows).to_multiset() == rows.to_multiset(),
        newest_first(rows).len() == rows.len(),
    decreases rows.len(),
{
    broadcast use group_to_multiset_ensures;

    if rows.len() > 0 {
        law_newest_first_sorts(rows.drop_last());
        lemma_insert_sorted(newest_first(rows.drop_last()), rows.last());
        assert(rows =~= rows.drop_last().push(rows.last()));
        assert(newest_first(rows).to_multiset() =~= rows.to_multiset());
        assert(newest_first(rows).len() == newest_first(rows).to_multiset().len());
        assert(rows.len() == rows.to_multiset().len());
    }
}

/// Rows that are in order stay as they are.
proof fn lemma_sorted_stays(rows: Seq<RowView>)
    requires
        ages_down(rows),
    ensures
        newest_first(rows) == rows,
    decreases rows.len(),
{
    if rows.len() > 0 {
        lemma_sorted_stays(rows.drop_last());
        let shorter = rows.drop_last();
        if shorter.len() > 0 {
            assert(shorter.last() == rows[rows.len() - 2]);
            assert(rows[rows.len() - 2].seq >= rows[rows.len() - 1].seq);
        }
        assert(shorter.push(rows.last()) =~= rows);
    }
}

/// No key comes before a smaller one.
pub open spec fn keys_down(rows: Seq<RowView>) -> bool {
    forall|i: int, j: int|
        0 <= i < j < rows.len() ==> !lex_lt((#[trigger] rows[i]).key, (#[trigger] rows[j]).key)
}

/// The versions of each key go from the newest down.
pub open spec fn versions_down(rows: Seq<RowView>) -> bool {
    forall|i: int, j: int|
        0 <= i < j < rows.len() && rows[i].key == rows[j].key ==> (#[trigger] rows[i]).seq >= (
        #[trigger] rows[j]).seq
}

/// A row has the key.
pub open spec fn has_key(rows: Seq<RowView>, key: Seq<u8>) -> bool {
    exists|i: int| 0 <= i < rows.len() && (#[trigger] rows[i]).key == key
}

proof fn lemma_has_key_concat(a: Seq<RowView>, b: Seq<RowView>, key: Seq<u8>)
    ensures
        has_key(a + b, key) <==> has_key(a, key) || has_key(b, key),
{
    if has_key(a, key) {
        let i = choose|i: int| 0 <= i < a.len() && (#[trigger] a[i]).key == key;
        assert((a + b)[i].key == key);
    }
    if has_key(b, key) {
        let i = choose|i: int| 0 <= i < b.len() && (#[trigger] b[i]).key == key;
        assert((a + b)[a.len() + i].key == key);
    }
    if has_key(a + b, key) {
        let i = choose|i: int| 0 <= i < (a + b).len() && (#[trigger] (a + b)[i]).key == key;
        if i < a.len() {
            assert(a[i].key == key);
        } else {
            assert(b[i - a.len()].key == key);
        }
    }
}

/// Joining tables is joining the first ones and then the others.
proof fn lemma_joined_split(tables: Seq<Seq<RowView>>, n: int)
    requires
        0 <= n <= tables.len(),
    ensures
        joined(tables) == joined(tables.take(n)) + joined(tables.skip(n)),
    decreases n,
{
    if n == 0 {
        assert(tables.skip(0) =~= tables);
        assert(tables.take(0) =~= Seq::<Seq<RowView>>::empty());
        assert(joined(tables.take(0)) + joined(tables) =~= joined(tables));
    } else {
        let rest = tables.drop_first();
        lemma_joined_split(rest, n - 1);
        assert(tables.take(n).drop_first() =~= rest.take(n - 1));
        assert(tables.skip(n) =~= rest.skip(n - 1));
        assert(tables[0] + (joined(rest.take(n - 1)) + joined(rest.skip(n - 1))) =~= (tables[0]
            + joined(rest.take(n - 1))) + joined(rest.skip(n - 1)));
    }
}

/// Hidden tables at the front hold no rows, so the rows start at the first table
/// that is not hidden.
proof fn lemma_hidden_rows(run: RunModel, rows: RunRows)
    requires
        rows.fits(run),
        run.tables.len() > 0,
    ensures
        ({
            let hidden = hidden_tables(run.tables, run.range) as int;
            &&& hidden <= run.tables.len()
            &&& joined(rows.rest.take(hidden)).len() == 0
            &&& if hidden < run.tables.len() {
                joined(rows.rest) == rows.rest[hidden] + joined(rows.rest.skip(hidden + 1))
            } else {
                joined(rows.rest).len() == 0
            }
        }),
    decreases run.tables.len(),
{
    let hidden = hidden_tables(run.tables, run.range) as int;
    if run.tables[0].view_range(run.range) is Some {
        assert(rows.rest.take(0) =~= Seq::<Seq<RowView>>::empty());
        assert(rows.rest.skip(1) =~= rows.rest.drop_first());
    } else {
        let run1 = RunModel { tables: run.tables.drop_first(), ..run };
        let rows1 = RunRows { rest: rows.rest.drop_first(), ..rows };
        assert(rows.rest[0].len() == 0);
        assert(rows1.fits(run1)) by {
            assert forall|i: int|
                0 <= i < run1.tables.len() && (#[trigger] run1.tables[i]).view_range(run1.range)
                    is None implies rows1.rest[i].len() == 0 by {
                assert(run.tables[i + 1] == run1.tables[i]);
            }
        }
        assert(rows.rest[0] + joined(rows1.rest) =~= joined(rows1.rest));
        if run1.tables.len() > 0 {
            lemma_hidden_rows(run1, rows1);
            assert(rows.rest.take(hidden).drop_first() =~= rows1.rest.take(hidden - 1));
            assert(rows.rest.take(hidden)[0].len() == 0);
            if hidden < run.tables.len() {
                assert(rows.rest.skip(hidden + 1) =~= rows1.rest.skip(hidden));
                assert(rows.rest[hidden] == rows1.rest[hidden - 1]);
            }
        } else {
            assert(rows.rest.take(1).drop_first() =~= Seq::<Seq<RowView>>::empty());
            assert(rows.rest.take(1)[0].len() == 0);
            assert(rows1.rest =~= Seq::<Seq<RowView>>::empty());
            assert(hidden_tables(run1.tables, run1.range) == 0);
            assert(joined(rows.rest.take(1)).len() == 0);
        }
    }
}

/// What an action means for the rows owed: a row that is returned is the first
/// one owed, the end is reported where none is owed, and while the call goes on
/// the rows owed stay the same.
pub open spec fn delivers(
    owed: Seq<RowView>,
    run: RunModel,
    action: RunActionView,
    rows: RunRows,
) -> bool {
    match action {
        RunActionView::Done(Ok(Some(row))) => owed.len() > 0 && row == owed[0] && rows.owed(run)
            == owed.drop_first(),
        RunActionView::Done(Ok(None)) => owed.len() == 0 && rows.owed(run).len() == 0,
        RunActionView::Done(Err(_)) => false,
        _ => rows.owed(run) == owed,
    }
}

/// A call of `next` is under way.
pub open spec fn reading(run: RunModel) -> bool {
    match run.task {
        RunTask::Opening(resume) | RunTask::Initializing(resume) | RunTask::Reseeking(resume) => resume
            is Next || resume is Fill,
        RunTask::Row | RunTask::FillRow => true,
        _ => false,
    }
}

/// The tables answer truthfully, and without a current table there are no others.
pub open spec fn truthful(run: RunModel, rows: RunRows) -> bool {
    &&& run.wf()
    &&& rows.fits(run)
    &&& run.task is Idle || reading(run)
    &&& !run.open && !(run.task is Opening) ==> run.tables.len() == 0
    &&& run.task is Opening || run.task is Initializing || run.task is Reseeking
        ==> !(run.state is Uninitialized)
}

/// In ascending order, `next` returns the rows of the tables one after the
/// other: each call, however many tables it opens on the way, returns the first
/// row still owed, and the end once none is owed.
#[verifier::rlimit(40)]
pub proof fn law_ascending_walk_returns_every_row(run: RunModel, rows: RunRows)
    requires
        run.state is Ascending,
        truthful(run, rows),
    ensures
        rows.owed(run) == rows.live(run) + rows.later(run),
        run.task is Idle ==> ({
            let (after, action) = run.next();
            let left = rows.after(run, action);
            &&& truthful(after, left)
            &&& after.state is Ascending
            &&& delivers(rows.owed(run), after, action, left)
        }),
        reading(run) ==> ({
            let answered = rows.answered(run);
            let (after, action) = run.on_event(rows.answer(run));
            let left = answered.after(run, action);
            &&& truthful(after, left)
            &&& after.state is Ascending
            &&& delivers(rows.owed(run), after, action, left)
        }),
{
    assert(rows.raw(run) =~= rows.live(run) + rows.later(run));
    if run.task is Idle {
        let (after, action) = run.next();
        assert(rows.raw(after) =~= rows.raw(run));
    } else {
        let answered = rows.answered(run);
        let (after, action) = run.on_event(rows.answer(run));
        let left = answered.after(run, action);
        if run.task is Row && rows.current.len() == 0 {
            lemma_open_next(run, rows, RunResume::Next);
            assert(rows.raw(run) =~= rows.later(run));
            assert(left.raw(after) =~= left.live(after) + left.later(after));
        } else if run.task is Row {
            assert(left.raw(after) =~= rows.raw(run).drop_first());
        } else {
            assert(left.raw(after) =~= rows.raw(run));
        }
    }
}

/// Opening the next table keeps the rows of the tables still to be opened.
proof fn lemma_open_next(run: RunModel, rows: RunRows, resume: RunResume)
    requires
        rows.fits(run),
    ensures
        ({
            let hidden = hidden_tables(run.tables, run.range) as int;
            let (after, action) = run.open_next(resume);
            let left = rows.after(run, action);
            if hidden < run.tables.len() {
                &&& action is Open
                &&& left.fits(after)
                &&& left.live(after) == left.current
                &&& left.live(after) + left.later(after) == rows.later(run)
            } else {
                &&& !(action is Open)
                &&& rows.later(run).len() == 0
                &&& after.tables.len() == 0
                &&& left.fits(after)
            }
        }),
{
    let hidden = hidden_tables(run.tables, run.range) as int;
    let (after, action) = run.open_next(resume);
    let left = rows.after(run, action);
    if run.tables.len() > 0 {
        lemma_hidden_rows(run, rows);
    }
    if hidden < run.tables.len() {
        assert(left.fits(after)) by {
            assert forall|i: int|
                0 <= i < after.tables.len() && (#[trigger] after.tables[i]).view_range(after.range)
                    is None implies left.rest[i].len() == 0 by {
                assert(after.tables[i] == run.tables[hidden + 1 + i]);
            }
        }
        if after.tables.len() == 0 {
            assert(rows.rest.skip(hidden + 1) =~= Seq::<Seq<RowView>>::empty());
            assert(left.current + left.later(after) =~= rows.later(run));
        }
    }
}

/// A new iterator, once it is initialized, owes every row of the tables. In
/// descending order the tables are walked from the last to the first.
pub proof fn law_new_iterator_owes_every_row(
    tables: Seq<TableView>,
    range: RangeView,
    owned: bool,
    order: IterationOrder,
    contents: Seq<Seq<RowView>>,
)
    requires
        contents.len() == tables.len(),
        forall|i: int|
            0 <= i < tables.len() && (#[trigger] new_run(
                tables,
                range,
                owned,
                order,
            ).tables[i]).view_range(range) is None ==> contents[i].len() == 0,
    ensures
        ({
            let start = new_run(tables, range, owned, order);
            let (opening, open) = start.open_next(RunResume::New);
            let opened = if open is Open {
                opening.on_event(RunEventView::Opened).0
            } else {
                opening
            };
            let (initializing, init) = opened.init();
            let run = if init is Init {
                initializing.on_event(RunEventView::Ready).0
            } else {
                initializing
            };
            let rows = RunRows { current: Seq::empty(), rest: contents }.after(start, open);
            &&& run.task is Idle
            &&& run.state == match order {
                IterationOrder::Ascending => RunState::Ascending,
                IterationOrder::Descending => RunState::Descending,
            }
            &&& truthful(run, rows)
            &&& rows.raw(run) == joined(contents)
            &&& run.buffered.len() == 0
        }),
{
    let start = new_run(tables, range, owned, order);
    let before = RunRows { current: Seq::empty(), rest: contents };
    assert(before.fits(start)) by {
        assert forall|i: int|
            0 <= i < start.tables.len() && (#[trigger] start.tables[i]).view_range(start.range)
                is None implies before.rest[i].len() == 0 by {
            assert(new_run(tables, range, owned, order).tables[i].view_range(range) is None);
        }
    }
    assert(start.tables.len() == tables.len());
    lemma_open_next(start, before, RunResume::New);
    let (opening, open) = start.open_next(RunResume::New);
    let rows = before.after(start, open);
    let opened = if open is Open {
        opening.on_event(RunEventView::Opened).0
    } else {
        opening
    };
    let (initializing, init) = opened.init();
    let run = if init is Init {
        initializing.on_event(RunEventView::Ready).0
    } else {
        initializing
    };
    if tables.len() == 0 {
        assert(contents =~= Seq::<Seq<RowView>>::empty());
    }
    assert(before.later(start) == joined(contents));
    assert(rows.raw(run) =~= joined(contents));
}

/// The versions collected so far come from tables before the current one.
pub open spec fn group_apart(run: RunModel) -> bool {
    run.crossed || match run.task {
        RunTask::Opening(resume) | RunTask::Initializing(resume) | RunTask::Reseeking(resume) => resume
            is Fill,
        _ => false,
    }
}

/// The rows read or being read, before those of the tables still to be opened.
pub open spec fn front(run: RunModel, rows: RunRows) -> Seq<RowView> {
    run.group + optional_row(run.pending_entry) + rows.live(run)
}

/// A table that lies between two occurrences of a key may hold that key.
pub open spec fn spans_cover(run: RunModel, rows: RunRows) -> bool {
    forall|i: int, key: Seq<u8>|
        0 <= i < run.tables.len() && has_key(front(run, rows) + joined(rows.rest.take(i)), key)
            && has_key(joined(rows.rest.skip(i)), key)
            ==> #[trigger] run.tables[i].effective_range.contains(key)
}

/// After a seek, no key past the sought one is left.
pub open spec fn within_seek(pending_seek: Option<Seq<u8>>, rows: Seq<RowView>) -> bool {
    pending_seek matches Some(key) ==> forall|i: int|
        0 <= i < rows.len() ==> !lex_lt(key, (#[trigger] rows[i]).key)
}

proof fn lemma_within_seek_suffix(
    pending_seek: Option<Seq<u8>>,
    rows: Seq<RowView>,
    suffix: Seq<RowView>,
    n: int,
)
    requires
        within_seek(pending_seek, rows),
        0 <= n <= rows.len(),
        suffix == rows.skip(n),
    ensures
        within_seek(pending_seek, suffix),
{
    if let Some(key) = pending_seek {
        assert forall|i: int| 0 <= i < suffix.len() implies !lex_lt(
            key,
            (#[trigger] suffix[i]).key,
        ) by {
            assert(suffix[i] == rows[i + n]);
        }
    }
}

/// The tables of a descending walk are in order: keys only go down, each table
/// has the versions of a key from the newest down, and the ranges of the tables
/// cover the keys that they share.
pub open spec fn descending_tables(run: RunModel, rows: RunRows) -> bool {
    &&& keys_down(rows.raw(run))
    &&& within_seek(run.pending_seek, rows.raw(run))
    &&& versions_down(
        if group_apart(run) {
            rows.live(run)
        } else {
            front(run, rows)
        },
    )
    &&& forall|i: int| 0 <= i < rows.rest.len() ==> versions_down(#[trigger] rows.rest[i])
    &&& spans_cover(run, rows)
    &&& forall|i: int| 0 <= i < run.group.len() ==> (#[trigger] run.group[i]).key
        == run.group[0].key
}

/// Splitting the first run off.
proof fn lemma_group_first(group: Seq<RowView>, rest: Seq<RowView>)
    requires
        group.len() > 0,
        forall|i: int| 0 <= i < group.len() ==> (#[trigger] group[i]).key == group[0].key,
        rest.len() > 0 ==> rest[0].key != group[0].key,
    ensures
        by_key_and_age(group + rest) == newest_first(group) + by_key_and_age(rest),
{
    let rows = group + rest;
    lemma_same_key_len_unique(rows, group.len() as int);
    assert(rows.take(group.len() as int) =~= group);
    assert(rows.skip(group.len() as int) =~= rest);
}

/// The newest version of a key that no later table holds comes first.
proof fn lemma_newest_is_first(row: RowView, table: Seq<RowView>, later: Seq<RowView>)
    requires
        versions_down(seq![row] + table),
        keys_down(seq![row] + table + later),
        !has_key(later, row.key),
    ensures
        by_key_and_age(seq![row] + table + later) == seq![row] + by_key_and_age(table + later),
{
    let all = seq![row] + table + later;
    let rest = table + later;
    assert(all =~= seq![row] + rest);
    lemma_same_key_len(all);
    let n = same_key_len(all) as int;
    let first = all.take(n);
    // The run of the row's key ends within the table.
    if n > table.len() + 1 {
        assert(all[n - 1].key == row.key);
        assert(later[n - 2 - table.len()].key == row.key);
        assert(has_key(later, row.key));
    }
    assert(ages_down(first)) by {
        assert forall|i: int, j: int| 0 <= i < j < first.len() implies (#[trigger] first[i]).seq
            >= (#[trigger] first[j]).seq by {
            assert(first[i] == (seq![row] + table)[i]);
            assert(first[j] == (seq![row] + table)[j]);
            assert(all[i].key == all[j].key);
        }
    }
    lemma_sorted_stays(first);
    let tail = first.drop_first();
    assert(ages_down(tail)) by {
        assert forall|i: int, j: int| 0 <= i < j < tail.len() implies (#[trigger] tail[i]).seq >= (
        #[trigger] tail[j]).seq by {
            assert(first[i + 1].seq >= first[j + 1].seq);
        }
    }
    lemma_sorted_stays(tail);
    assert(by_key_and_age(all) == first + by_key_and_age(all.skip(n)));
    if tail.len() > 0 {
        assert(rest =~= tail + all.skip(n));
        assert forall|i: int| 0 <= i < tail.len() implies (#[trigger] tail[i]).key
            == tail[0].key by {
            assert(tail[i] == all[i + 1]);
            assert(tail[0] == all[1]);
            assert(all[i + 1].key == row.key);
            assert(all[1].key == row.key);
        }
        if all.skip(n).len() > 0 {
            assert(all.skip(n)[0] == all[n]);
            assert(tail[0] == all[1]);
            assert(all[1].key == row.key);
        }
        lemma_group_first(tail, all.skip(n));
        assert(first + by_key_and_age(all.skip(n)) =~= seq![row] + (tail + by_key_and_age(
            all.skip(n),
        )));
    } else {
        assert(rest =~= all.skip(n));
        assert(first =~= seq![row]);
    }
}

/// The rest of rows whose keys go down.
proof fn lemma_keys_down_suffix(rows: Seq<RowView>, suffix: Seq<RowView>, n: int)
    requires
        keys_down(rows),
        0 <= n <= rows.len(),
        suffix == rows.skip(n),
    ensures
        keys_down(suffix),
{
    assert forall|i: int, j: int| 0 <= i < j < suffix.len() implies !lex_lt(
        (#[trigger] suffix[i]).key,
        (#[trigger] suffix[j]).key,
    ) by {
        assert(suffix[i] == rows[i + n]);
        assert(suffix[j] == rows[j + n]);
    }
}

/// The rest of rows whose versions go down.
proof fn lemma_versions_down_suffix(rows: Seq<RowView>, suffix: Seq<RowView>, n: int)
    requires
        versions_down(rows),
        0 <= n <= rows.len(),
        suffix == rows.skip(n),
    ensures
        versions_down(suffix),
{
    assert forall|i: int, j: int|
        0 <= i < j < suffix.len() && suffix[i].key == suffix[j].key implies (
    #[trigger] suffix[i]).seq >= (#[trigger] suffix[j]).seq by {
        assert(suffix[i] == rows[i + n]);
        assert(suffix[j] == rows[j + n]);
    }
}

/// Fewer rows in front leave the ranges covering.
proof fn lemma_spans_shrink(run: RunModel, rows: RunRows, run2: RunModel, rows2: RunRows)
    requires
        spans_cover(run, rows),
        run2.tables == run.tables || run2.tables.len() == 0,
        rows2.rest == rows.rest,
        forall|key: Seq<u8>|
            #[trigger] has_key(front(run2, rows2), key) ==> has_key(front(run, rows), key),
    ensures
        spans_cover(run2, rows2),
{
    assert forall|i: int, key: Seq<u8>|
        0 <= i < run2.tables.len() && has_key(front(run2, rows2) + joined(rows2.rest.take(i)), key)
            && has_key(joined(rows2.rest.skip(i)), key) implies
        #[trigger] run2.tables[i].effective_range.contains(key) by {
        lemma_has_key_concat(front(run2, rows2), joined(rows2.rest.take(i)), key);
        lemma_has_key_concat(front(run, rows), joined(rows.rest.take(i)), key);
        assert(run.tables[i].effective_range.contains(key));
    }
}

/// Opening a table leaves the ranges covering.
pub proof fn lemma_spans_open(run: RunModel, rows: RunRows, resume: RunResume)
    requires
        spans_cover(run, rows),
        rows.fits(run),
        hidden_tables(run.tables, run.range) < run.tables.len(),
    ensures
        ({
            let (after, action) = run.open_next(resume);
            spans_cover(after, rows.after(run, action))
        }),
{
    let hidden = hidden_tables(run.tables, run.range) as int;
    let (after, action) = run.open_next(resume);
    let left = rows.after(run, action);
    let kept = run.group + optional_row(run.pending_entry);
    assert forall|i: int, key: Seq<u8>|
        0 <= i < after.tables.len() && has_key(front(after, left) + joined(left.rest.take(i)), key)
            && has_key(joined(left.rest.skip(i)), key) implies
        #[trigger] after.tables[i].effective_range.contains(key) by {
        let k = hidden + 1 + i;
        assert(after.tables[i] == run.tables[k]);
        assert(left.rest.skip(i) =~= rows.rest.skip(k));
        let between = rows.rest.take(k);
        lemma_joined_split(between, hidden);
        assert(between.skip(hidden) =~= seq![rows.rest[hidden]] + left.rest.take(i));
        assert(between.skip(hidden).drop_first() =~= left.rest.take(i));
        assert(joined(between.skip(hidden)) == rows.rest[hidden] + joined(left.rest.take(i)));
        lemma_has_key_concat(front(after, left), joined(left.rest.take(i)), key);
        lemma_has_key_concat(kept, left.current, key);
        lemma_has_key_concat(kept, rows.live(run), key);
        lemma_has_key_concat(rows.rest[hidden], joined(left.rest.take(i)), key);
        lemma_has_key_concat(
            joined(between.take(hidden)),
            joined(between.skip(hidden)),
            key,
        );
        lemma_has_key_concat(front(run, rows), joined(between), key);
        assert(run.tables[k].effective_range.contains(key));
    }
}

/// What a step of a descending walk keeps and returns.
spec fn step_holds(
    owed: Seq<RowView>,
    run: RunModel,
    action: RunActionView,
    rows: RunRows,
) -> bool {
    &&& run.state is Descending
    &&& truthful(run, rows)
    &&& descending_tables(run, rows)
    &&& delivers(owed, run, action, rows)
}

/// The collected versions are returned from the newest down.
proof fn lemma_fill_done(run: RunModel, rows: RunRows)
    requires
        run.state is Descending,
        run.order is Descending,
        run.buffered.len() == 0,
        run.group.len() > 0,
        forall|i: int| 0 <= i < run.group.len() ==> (#[trigger] run.group[i]).key
            == run.group[0].key,
        !(run.task is Opening),
        !run.crossed ==> ages_down(run.group),
        rows.fits(run),
        !run.open ==> run.tables.len() == 0,
        keys_down(rows.raw(run)),
        within_seek(run.pending_seek, rows.raw(run)),
        versions_down(optional_row(run.pending_entry) + rows.live(run)),
        forall|i: int| 0 <= i < rows.rest.len() ==> versions_down(#[trigger] rows.rest[i]),
        spans_cover(run, rows),
        ({
            let rest = optional_row(run.pending_entry) + rows.live(run) + rows.later(run);
            rest.len() > 0 ==> rest[0].key != run.group[0].key
        }),
    ensures
        ({
            let (after, action) = run.fill_done();
            step_holds(by_key_and_age(rows.raw(run)), after, action, rows)
        }),
{
    let (after, action) = run.fill_done();
    let rest = optional_row(run.pending_entry) + rows.live(run) + rows.later(run);
    assert(rows.raw(run) =~= run.group + rest);
    lemma_group_first(run.group, rest);
    law_newest_first_sorts(run.group);
    if !run.crossed {
        lemma_sorted_stays(run.group);
    }
    let sorted = newest_first(run.group);
    assert(rows.raw(after) =~= rest);
    assert((sorted + by_key_and_age(rest)).drop_first() =~= sorted.drop_first() + by_key_and_age(
        rest,
    ));
    assert(rest =~= rows.raw(run).skip(run.group.len() as int));
    lemma_keys_down_suffix(rows.raw(run), rest, run.group.len() as int);
    lemma_within_seek_suffix(run.pending_seek, rows.raw(run), rest, run.group.len() as int);
    assert(front(after, rows) =~= optional_row(run.pending_entry) + rows.live(run));
    assert forall|key: Seq<u8>| #[trigger] has_key(front(after, rows), key) implies has_key(
        front(run, rows),
        key,
    ) by {
        lemma_has_key_concat(run.group, front(after, rows), key);
        assert(front(run, rows) =~= run.group + front(after, rows));
    }
    lemma_spans_shrink(run, rows, after, rows);
}

/// Once the current table has no more versions of the key, either the next table
/// is asked for more or the collected ones are returned.
#[verifier::rlimit(40)]
proof fn lemma_fill_at_end(run: RunModel, rows: RunRows)
    requires
        run.state is Descending,
        run.order is Descending,
        run.buffered.len() == 0,
        run.pending_entry is None,
        run.group.len() > 0,
        forall|i: int| 0 <= i < run.group.len() ==> (#[trigger] run.group[i]).key
            == run.group[0].key,
        !(run.task is Opening),
        !run.crossed ==> ages_down(run.group),
        rows.fits(run),
        !run.open ==> run.tables.len() == 0,
        rows.live(run).len() == 0,
        keys_down(rows.raw(run)),
        within_seek(run.pending_seek, rows.raw(run)),
        forall|i: int| 0 <= i < rows.rest.len() ==> versions_down(#[trigger] rows.rest[i]),
        spans_cover(run, rows),
    ensures
        ({
            let (after, action) = run.fill_at_end();
            step_holds(by_key_and_age(rows.raw(run)), after, action, rows.after(run, action))
        }),
{
    let key = run.group[0].key;
    let hidden = hidden_tables(run.tables, run.range) as int;
    assert(rows.raw(run) =~= run.group + rows.later(run));
    assert(rows.live(run) =~= Seq::<RowView>::empty());
    if may_hold(run.tables, key) {
        lemma_open_next(run, rows, RunResume::Fill);
        let (after, action) = run.open_next(RunResume::Fill);
        let left = rows.after(run, action);
        if hidden < run.tables.len() {
            assert(left.raw(after) =~= rows.raw(run));
            lemma_spans_open(run, rows, RunResume::Fill);
            assert forall|i: int| 0 <= i < left.rest.len() implies versions_down(
                #[trigger] left.rest[i],
            ) by {
                assert(left.rest[i] == rows.rest[hidden + 1 + i]);
            }
            assert(versions_down(rows.rest[hidden]));
        } else {
            let closed = RunModel { tables: Seq::empty(), open: false, crossed: true, ..run };
            assert(rows.raw(closed) =~= rows.raw(run));
            assert(spans_cover(closed, rows));
            lemma_fill_done(closed, rows);
        }
    } else {
        if rows.later(run).len() > 0 && rows.later(run)[0].key == key {
            assert(rows.rest.take(0) =~= Seq::<Seq<RowView>>::empty());
            assert(rows.rest.skip(0) =~= rows.rest);
            assert(front(run, rows) + joined(rows.rest.take(0)) =~= run.group);
            assert(run.group[0].key == key);
            assert(has_key(run.group, key));
            assert(joined(rows.rest)[0].key == key);
            assert(has_key(joined(rows.rest.skip(0)), key));
            assert(run.tables[0].effective_range.contains(key));
            assert(false);
        }
        assert(optional_row(run.pending_entry) + rows.live(run) + rows.later(run)
            =~= rows.later(run));
        lemma_fill_done(run, rows);
    }
}

/// A row that was read is returned, or starts the collection of its key's versions.
proof fn lemma_entry(run: RunModel, rows: RunRows, row: RowView)
    requires
        run.state is Descending,
        run.order is Descending,
        run.buffered.len() == 0,
        run.pending_entry is None,
        run.group.len() == 0,
        !run.crossed,
        run.task is Idle || run.task is Row,
        rows.fits(run),
        !run.open ==> run.tables.len() == 0,
        keys_down(seq![row] + rows.live(run) + rows.later(run)),
        within_seek(run.pending_seek, seq![row] + rows.live(run) + rows.later(run)),
        versions_down(seq![row] + rows.live(run)),
        forall|i: int| 0 <= i < rows.rest.len() ==> versions_down(#[trigger] rows.rest[i]),
        spans_cover(RunModel { pending_entry: Some(row), ..run }, rows),
    ensures
        ({
            let (after, action) = run.entry(row);
            step_holds(
                by_key_and_age(seq![row] + rows.live(run) + rows.later(run)),
                after,
                action,
                rows.after(run, action),
            )
        }),
{
    let pending = RunModel { pending_entry: Some(row), ..run };
    let all = seq![row] + rows.live(run) + rows.later(run);
    let (after, action) = run.entry(row);
    assert(front(pending, rows) =~= seq![row] + rows.live(run));
    if may_hold(run.tables, row.key) {
        assert(after.group =~= seq![row]);
        assert(rows.raw(after) =~= all);
        assert(front(after, rows) =~= seq![row] + rows.live(run));
        lemma_spans_shrink(pending, rows, after, rows);
    } else {
        if has_key(rows.later(run), row.key) {
            assert(run.tables.len() > 0);
            assert(rows.rest.take(0) =~= Seq::<Seq<RowView>>::empty());
            assert(rows.rest.skip(0) =~= rows.rest);
            assert(front(pending, rows) + joined(rows.rest.take(0)) =~= front(pending, rows));
            assert(front(pending, rows)[0] == row);
            assert(has_key(front(pending, rows), row.key));
            assert(has_key(joined(rows.rest.skip(0)), row.key));
            assert(pending.tables[0].effective_range.contains(row.key));
            assert(false);
        }
        lemma_newest_is_first(row, rows.live(run), rows.later(run));
        assert(rows.raw(after) =~= rows.live(run) + rows.later(run));
        let left = by_key_and_age(rows.live(run) + rows.later(run));
        assert((seq![row] + left).drop_first() =~= left);
        assert(after.buffered + left =~= left);
        assert(rows.raw(after) =~= all.skip(1));
        lemma_keys_down_suffix(all, rows.raw(after), 1);
        lemma_within_seek_suffix(run.pending_seek, all, rows.raw(after), 1);
        assert(front(after, rows) =~= rows.live(run));
        assert(rows.live(run) =~= (seq![row] + rows.live(run)).skip(1));
        lemma_versions_down_suffix(seq![row] + rows.live(run), rows.live(run), 1);
        assert forall|key: Seq<u8>| #[trigger] has_key(front(after, rows), key) implies has_key(
            front(pending, rows),
            key,
        ) by {
            lemma_has_key_concat(seq![row], rows.live(run), key);
        }
        lemma_spans_shrink(pending, rows, after, rows);
    }
}

/// In descending order, `next` returns the rows of the tables with the keys
/// going down and the versions of each key from the newest down, also where the
/// versions of one key lie in several tables: each call, however many tables it
/// opens on the way, returns the first row still owed, and the end once none is
/// owed.
pub proof fn law_descending_walk_returns_every_row(run: RunModel, rows: RunRows)
    requires
        run.state is Descending,
        truthful(run, rows),
        descending_tables(run, rows),
    ensures
        rows.owed(run) == run.buffered + by_key_and_age(rows.raw(run)),
        run.task is Idle ==> ({
            let (after, action) = run.next();
            let left = rows.after(run, action);
            &&& after.state is Descending
            &&& truthful(after, left)
            &&& descending_tables(after, left)
            &&& delivers(rows.owed(run), after, action, left)
        }),
        reading(run) ==> ({
            let answered = rows.answered(run);
            let (after, action) = run.on_event(rows.answer(run));
            let left = answered.after(run, action);
            &&& after.state is Descending
            &&& truthful(after, left)
            &&& descending_tables(after, left)
            &&& delivers(rows.owed(run), after, action, left)
        }),
{
    if run.task is Idle {
        lemma_descending_next(run, rows);
    } else if run.task is Row {
        lemma_descending_row(run, rows);
    } else if run.task is FillRow {
        lemma_descending_fill(run, rows);
    } else {
        lemma_descending_set_up(run, rows);
    }
}

/// A call of `next` on an iterator that waits for nothing.
proof fn lemma_descending_next(run: RunModel, rows: RunRows)
    requires
        run.state is Descending,
        truthful(run, rows),
        descending_tables(run, rows),
        run.task is Idle,
    ensures
        ({
            let (after, action) = run.next();
            step_holds(rows.owed(run), after, action, rows.after(run, action))
        }),
{
    let owed = rows.owed(run);
    let none = Seq::<RowView>::empty();
    let (after, action) = run.next();
    assert(run.group =~= none);
    if run.buffered.len() == 0 {
        assert(owed =~= by_key_and_age(rows.raw(run)));
    }
    if run.buffered.len() > 0 {
        assert(rows.raw(after) =~= rows.raw(run));
        assert(owed.drop_first() =~= after.buffered + by_key_and_age(rows.raw(run)));
        assert(front(after, rows) =~= front(run, rows));
        lemma_spans_shrink(run, rows, after, rows);
    } else if run.pending_entry is Some {
        let row = run.pending_entry->0;
        let base = RunModel { pending_entry: None, ..run };
        assert(rows.raw(run) =~= seq![row] + rows.live(base) + rows.later(base));
        assert(front(run, rows) =~= seq![row] + rows.live(base));
        lemma_spans_shrink(run, rows, RunModel { pending_entry: Some(row), ..base }, rows);
        lemma_entry(base, rows, row);
    } else {
        assert(rows.raw(after) =~= rows.raw(run));
        assert(front(after, rows) =~= front(run, rows));
        lemma_spans_shrink(run, rows, after, rows);
    }
}

/// The answer to a call of `next` that reads a row.
#[verifier::rlimit(40)]
proof fn lemma_descending_row(run: RunModel, rows: RunRows)
    requires
        run.state is Descending,
        truthful(run, rows),
        descending_tables(run, rows),
        run.task is Row,
    ensures
        ({
            let (after, action) = run.on_event(rows.answer(run));
            step_holds(rows.owed(run), after, action, rows.answered(run).after(run, action))
        }),
{
    let none = Seq::<RowView>::empty();
    let answered = rows.answered(run);
    let (after, action) = run.on_event(rows.answer(run));
    let left = answered.after(run, action);
    assert(rows.owed(run) =~= by_key_and_age(rows.raw(run)));
    assert(run.group =~= none);
    if rows.current.len() > 0 {
        let row = rows.current[0];
        assert(rows.raw(run) =~= seq![row] + answered.live(run) + answered.later(run));
        assert(front(run, rows) =~= seq![row] + answered.live(run));
        let pending = RunModel { pending_entry: Some(row), ..run };
        assert(front(pending, answered) =~= front(run, rows));
        lemma_spans_shrink(run, rows, pending, answered);
        lemma_entry(run, answered, row);
    } else {
        lemma_open_next(run, rows, RunResume::Next);
        assert(rows.raw(run) =~= rows.later(run));
        if action is Open {
            assert(left.raw(after) =~= rows.raw(run));
            lemma_spans_open(run, rows, RunResume::Next);
            let hidden = hidden_tables(run.tables, run.range) as int;
            assert(versions_down(rows.rest[hidden]));
            assert(front(after, left) =~= rows.rest[hidden]);
            assert forall|i: int| 0 <= i < left.rest.len() implies versions_down(
                #[trigger] left.rest[i],
            ) by {
                assert(left.rest[i] == rows.rest[hidden + 1 + i]);
            }
        } else {
            assert(left.raw(after) =~= none);
            assert(front(after, left) =~= none);
        }
    }
}

/// The answer to a call of `next` that collects the versions of a key.
#[verifier::rlimit(40)]
proof fn lemma_descending_fill(run: RunModel, rows: RunRows)
    requires
        run.state is Descending,
        truthful(run, rows),
        descending_tables(run, rows),
        run.task is FillRow,
    ensures
        ({
            let (after, action) = run.on_event(rows.answer(run));
            step_holds(rows.owed(run), after, action, rows.answered(run).after(run, action))
        }),
{
    let answered = rows.answered(run);
    let (after, action) = run.on_event(rows.answer(run));
    assert(rows.owed(run) =~= by_key_and_age(rows.raw(run)));
    lemma_collected_ages(run, rows);
    if rows.current.len() == 0 {
        lemma_fill_at_end(run, rows);
    } else {
        let row = rows.current[0];
        assert(rows.live(run) =~= seq![row] + answered.live(run));
        if row.key == run.group[0].key {
            assert(answered.raw(after) =~= rows.raw(run));
            assert(front(after, answered) =~= front(run, rows));
            lemma_spans_shrink(run, rows, after, answered);
            if run.crossed {
                assert(answered.live(after) =~= rows.live(run).skip(1));
                lemma_versions_down_suffix(rows.live(run), answered.live(after), 1);
            }
            assert forall|i: int| 0 <= i < after.group.len() implies (
            #[trigger] after.group[i]).key == after.group[0].key by {
                if i < run.group.len() {
                    assert(after.group[i] == run.group[i]);
                }
            }
        } else {
            let stopped = RunModel { pending_entry: Some(row), ..run };
            assert(answered.raw(stopped) =~= rows.raw(run));
            assert(front(stopped, answered) =~= front(run, rows));
            lemma_spans_shrink(run, rows, stopped, answered);
            let part = optional_row(stopped.pending_entry) + answered.live(stopped);
            assert(part =~= rows.live(run));
            if !run.crossed {
                assert(part =~= front(run, rows).skip(run.group.len() as int));
                lemma_versions_down_suffix(front(run, rows), part, run.group.len() as int);
            }
            lemma_fill_done(stopped, answered);
        }
    }
}

/// The answers while a table is opened and set up.
proof fn lemma_descending_set_up(run: RunModel, rows: RunRows)
    requires
        run.state is Descending,
        truthful(run, rows),
        descending_tables(run, rows),
        reading(run),
        !(run.task is Row),
        !(run.task is FillRow),
    ensures
        ({
            let (after, action) = run.on_event(rows.answer(run));
            step_holds(rows.owed(run), after, action, rows.answered(run).after(run, action))
        }),
{
    let (after, action) = run.on_event(rows.answer(run));
    let left = rows.answered(run).after(run, action);
    if run.task is Reseeking {
        let raw = rows.raw(run);
        let n = raw.len() - rows.live(run).len() - rows.later(run).len();
        assert forall|i: int| 0 <= i < rows.current.len() implies !lex_lt(
            run.pending_seek->0,
            (#[trigger] rows.current[i]).key,
        ) by {
            assert(raw[n + i] == rows.current[i]);
        }
        lemma_rows_to_all(rows.current, run.pending_seek->0);
    }
    assert(left.raw(after) =~= rows.raw(run));
    assert(front(after, left) =~= front(run, rows));
    lemma_spans_shrink(run, rows, after, left);
}

/// Versions collected from one table go from the newest down.
proof fn lemma_collected_ages(run: RunModel, rows: RunRows)
    requires
        descending_tables(run, rows),
        run.task is FillRow,
    ensures
        !run.crossed ==> ages_down(run.group),
{
    if !run.crossed {
        assert forall|i: int, j: int| 0 <= i < j < run.group.len() implies (
        #[trigger] run.group[i]).seq >= (#[trigger] run.group[j]).seq by {
            assert(front(run, rows)[i] == run.group[i]);
            assert(front(run, rows)[j] == run.group[j]);
        }
    }
}

/// The rows that a descending walk owes are all the rows of the tables, with the
/// keys going down and the versions of each key from the newest down.
pub proof fn law_descending_rows_are_ordered(rows: Seq<RowView>)
    requires
        keys_down(rows),
    ensures
        keys_down(by_key_and_age(rows)),
        versions_down(by_key_and_age(rows)),
        by_key_and_age(rows).to_multiset() == rows.to_multiset(),
    decreases rows.len(),
{
    broadcast use group_to_multiset_ensures;

    if rows.len() > 0 {
        lemma_same_key_len(rows);
        let n = same_key_len(rows) as int;
        let first = rows.take(n);
        let rest = rows.skip(n);
        let sorted = newest_first(first);
        let tail = by_key_and_age(rest);
        let all = by_key_and_age(rows);
        lemma_keys_down_suffix(rows, rest, n);
        law_descending_rows_are_ordered(rest);
        law_newest_first_sorts(first);
        assert(rows =~= first + rest);
        lemma_multiset_commutative(first, rest);
        lemma_multiset_commutative(sorted, tail);
        assert(all.to_multiset() =~= rows.to_multiset());
        let key = rows[0].key;
        assert forall|i: int| 0 <= i < sorted.len() implies (#[trigger] sorted[i]).key == key by {
            lemma_same_members(sorted, first, i);
            let k = choose|k: int| 0 <= k < first.len() && first[k] == sorted[i];
            assert(rows[k].key == key);
        }
        assert forall|i: int| 0 <= i < tail.len() implies lex_lt((#[trigger] tail[i]).key, key) by {
            lemma_same_members(tail, rest, i);
            let k = choose|k: int| 0 <= k < rest.len() && rest[k] == tail[i];
            assert(rest[k] == rows[n + k]);
            lemma_below_first(rows, n, n + k);
        }
        assert forall|i: int, j: int| 0 <= i < j < all.len() implies !lex_lt(
            (#[trigger] all[i]).key,
            (#[trigger] all[j]).key,
        ) && (all[i].key == all[j].key ==> all[i].seq >= all[j].seq) by {
            lemma_lex_irreflexive(key);
            if j < sorted.len() {
                assert(all[i] == sorted[i] && all[j] == sorted[j]);
            } else if i >= sorted.len() {
                assert(all[i] == tail[i - sorted.len()] && all[j] == tail[j - sorted.len()]);
            } else {
                assert(all[i] == sorted[i] && all[j] == tail[j - sorted.len()]);
                lemma_lex_asymmetric(all[j].key, key);
            }
        }
    }
}

/// A row of one of two sequences with the same members is in the other.
proof fn lemma_same_members(a: Seq<RowView>, b: Seq<RowView>, i: int)
    requires
        a.to_multiset() == b.to_multiset(),
        0 <= i < a.len(),
    ensures
        exists|k: int| 0 <= k < b.len() && b[k] == a[i],
{
    broadcast use group_to_multiset_ensures;

    assert(a.contains(a[i]));
    assert(a.to_multiset().count(a[i]) > 0);
    assert(b.contains(a[i]));
}

/// Past the first run, keys are below its key.
proof fn lemma_below_first(rows: Seq<RowView>, n: int, j: int)
    requires
        keys_down(rows),
        rows.len() > 0,
        0 < n <= j < rows.len(),
        rows[n].key != rows[0].key,
    ensures
        lex_lt(rows[j].key, rows[0].key),
{
    lemma_lex_total(rows[0].key, rows[n].key);
    assert(!lex_lt(rows[0].key, rows[n].key));
    if j > n {
        lemma_lex_total(rows[n].key, rows[j].key);
        assert(!lex_lt(rows[n].key, rows[j].key));
        if lex_lt(rows[j].key, rows[n].key) {
            lemma_lex_transitive(rows[j].key, rows[n].key, rows[0].key);
        }
    }
}

/// How many answers a call of `next` can still take.
pub open spec fn answers_left(run: RunModel, rows: RunRows) -> nat {
    let stage: nat = match run.task {
        RunTask::Opening(_) => 3,
        RunTask::Initializing(_) => 2,
        RunTask::Reseeking(_) => 1,
        _ => 0,
    };
    stage + 4 * run.tables.len() + rows.live(run).len() + rows.later(run).len()
}

/// A call of `next` ends after finitely many truthful answers.
pub proof fn law_next_call_ends(run: RunModel, rows: RunRows)
    requires
        truthful(run, rows),
        reading(run),
    ensures
        ({
            let answered = rows.answered(run);
            let (after, action) = run.on_event(rows.answer(run));
            let left = answered.after(run, action);
            action is Done || answers_left(after, left) < answers_left(run, rows)
        }),
{
    let answered = rows.answered(run);
    let (after, action) = run.on_event(rows.answer(run));
    let left = answered.after(run, action);
    if run.task is Reseeking {
        lemma_rows_to_len(rows.current, run.pending_seek->0);
    }
    if (run.task is Row || run.task is FillRow) && rows.current.len() == 0 {
        lemma_open_next(run, rows, RunResume::Next);
        lemma_open_next(run, rows, RunResume::Fill);
        if run.tables.len() > 0 {
            lemma_hidden_rows(run, rows);
        }
    }
}

/// The rows from `key` on.
pub open spec fn rows_from(rows: Seq<RowView>, key: Seq<u8>) -> Seq<RowView>
    decreases rows.len(),
{
    if rows.len() == 0 {
        rows
    } else if lex_lt(rows.last().key, key) {
        rows_from(rows.drop_last(), key)
    } else {
        rows_from(rows.drop_last(), key).push(rows.last())
    }
}

proof fn lemma_rows_from_concat(a: Seq<RowView>, b: Seq<RowView>, key: Seq<u8>)
    ensures
        rows_from(a + b, key) == rows_from(a, key) + rows_from(b, key),
    decreases b.len(),
{
    if b.len() == 0 {
        assert(a + b =~= a);
        assert(rows_from(a, key) + rows_from(b, key) =~= rows_from(a, key));
    } else {
        assert((a + b).drop_last() =~= a + b.drop_last());
        lemma_rows_from_concat(a, b.drop_last(), key);
        assert(rows_from(a + b, key) =~= rows_from(a, key) + rows_from(b, key));
    }
}

proof fn lemma_rows_from_all(rows: Seq<RowView>, key: Seq<u8>)
    requires
        forall|i: int| 0 <= i < rows.len() ==> !lex_lt((#[trigger] rows[i]).key, key),
    ensures
        rows_from(rows, key) == rows,
    decreases rows.len(),
{
    if rows.len() > 0 {
        lemma_rows_from_all(rows.drop_last(), key);
        assert(rows.drop_last().push(rows.last()) =~= rows);
    }
}

proof fn lemma_rows_from_none(rows: Seq<RowView>, key: Seq<u8>)
    requires
        forall|i: int| 0 <= i < rows.len() ==> lex_lt((#[trigger] rows[i]).key, key),
    ensures
        rows_from(rows, key).len() == 0,
    decreases rows.len(),
{
    if rows.len() > 0 {
        lemma_rows_from_none(rows.drop_last(), key);
    }
}

/// A call of `seek` in ascending order is under way.
pub open spec fn seeking(run: RunModel) -> bool {
    match run.task {
        RunTask::Opening(resume) | RunTask::Initializing(resume) => resume is SeekAscending,
        RunTask::SeekAscending => true,
        _ => false,
    }
}

/// The tables of an ascending walk are in order: each starts at its start key,
/// which no earlier row is past, and start keys only go up.
pub open spec fn ascending_tables(run: RunModel, rows: RunRows) -> bool {
    &&& forall|i: int, j: int|
        0 <= i < run.tables.len() && 0 <= j < rows.rest[i].len() ==> !lex_lt(
            (#[trigger] rows.rest[i][j]).key,
            run.tables[i].start_key(),
        )
    &&& forall|i: int, j: int|
        0 <= i < run.tables.len() && 0 <= j < rows.live(run).len() ==> !lex_lt(
            #[trigger] run.tables[i].start_key(),
            (#[trigger] rows.live(run)[j]).key,
        )
    &&& forall|i: int, j: int, k: int|
        0 <= i < k < run.tables.len() && 0 <= j < rows.rest[i].len() ==> !lex_lt(
            #[trigger] run.tables[k].start_key(),
            (#[trigger] rows.rest[i][j]).key,
        )
    &&& forall|i: int, k: int|
        0 <= i < k < run.tables.len() ==> !lex_lt(
            #[trigger] run.tables[k].start_key(),
            #[trigger] run.tables[i].start_key(),
        )
}

/// The rows fit the run, and without a current table there are no others.
pub open spec fn seekable(run: RunModel, rows: RunRows) -> bool {
    &&& run.wf()
    &&& run.state is Ascending
    &&& rows.fits(run)
    &&& run.task is Idle || seeking(run)
    &&& !run.open && !(run.task is Opening) ==> run.tables.len() == 0
    &&& run.task is SeekAscending && run.tables.len() > 0 ==> !lex_lt(
        run.tables[0].start_key(),
        run.seek_key,
    )
    &&& ascending_tables(run, rows)
}

impl RunRows {
    /// The rows once the answer to what a `seek` is waiting for was given:
    /// moving the current table to a key passes over the rows before it.
    pub open spec fn sought(self, run: RunModel) -> RunRows {
        if run.task is SeekAscending {
            RunRows { current: rows_from(self.current, run.seek_key), ..self }
        } else {
            self
        }
    }
}

/// What an action means for a `seek`: when it ends, the rows owed are those of
/// `target`, and until then those are the ones at or past the key.
pub open spec fn seek_delivers(
    target: Seq<RowView>,
    run: RunModel,
    action: RunActionView,
    rows: RunRows,
) -> bool {
    match action {
        RunActionView::Done(Ok(None)) => rows.owed(run) == target,
        RunActionView::Done(_) => false,
        _ => rows_from(rows.owed(run), run.seek_key) == target,
    }
}

/// In ascending order, `seek` passes over exactly the rows before the key: what
/// is owed afterwards is what was owed before, from the key on.
#[verifier::rlimit(40)]
pub proof fn law_ascending_seek_skips_to_the_key(run: RunModel, rows: RunRows, key: Seq<u8>)
    requires
        seekable(run, rows),
    ensures
        run.task is Idle ==> ({
            let (after, action) = run.seek(key);
            let left = rows.after(run, action);
            &&& seekable(after, left)
            &&& after.seek_key == key
            &&& seek_delivers(rows_from(rows.owed(run), key), after, action, left)
        }),
        seeking(run) ==> ({
            let sought = rows.sought(run);
            let (after, action) = run.on_event(rows.answer(run));
            let left = sought.after(run, action);
            &&& seekable(after, left)
            &&& after.seek_key == run.seek_key
            &&& seek_delivers(rows_from(rows.owed(run), run.seek_key), after, action, left)
        }),
{
    let none = Seq::<RowView>::empty();
    assert(rows.owed(run) =~= rows.live(run) + rows.later(run));
    if run.task is Idle {
        let start = RunModel { seek_key: key, ..run };
        assert(rows.owed(start) =~= rows.owed(run));
        lemma_seek_ascending(start, rows);
        let (after, action) = run.seek(key);
        assert(rows.after(start, action) == rows.after(run, action));
    } else {
        match run.task {
            RunTask::Opening(_) => {
                let sought = rows.sought(run);
                let (after, action) = run.on_event(rows.answer(run));
                assert(sought.owed(after) =~= rows.owed(run));
                assert(sought.live(after) =~= rows.live(run));
            },
            RunTask::Initializing(_) => {
                lemma_seek_ascending(run, rows);
            },
            _ => {
                let sought = rows.sought(run);
                let (after, action) = run.on_event(rows.answer(run));
                assert(after.group =~= none);
                assert(sought.owed(after) =~= rows_from(rows.current, run.seek_key) + rows.later(
                    run,
                ));
                lemma_rows_from_concat(rows.live(run), rows.later(run), run.seek_key);
                lemma_later_rows_past(run, rows);
                assert(ascending_tables(after, sought)) by {
                    assert forall|i: int, j: int|
                        0 <= i < after.tables.len() && 0 <= j < sought.live(
                            after,
                        ).len() implies !lex_lt(
                        #[trigger] after.tables[i].start_key(),
                        (#[trigger] sought.live(after)[j]).key,
                    ) by {
                        lemma_rows_from_member(rows.current, run.seek_key, j);
                        let k = choose|k: int|
                            0 <= k < rows.current.len() && rows.current[k] == sought.live(after)[j];
                        assert(rows.live(run)[k] == sought.live(after)[j]);
                    }
                }
            },
        }
    }
}

/// "Not before" is transitive.
proof fn lemma_not_before(a: Seq<u8>, b: Seq<u8>, c: Seq<u8>)
    requires
        !lex_lt(a, b),
        !lex_lt(b, c),
    ensures
        !lex_lt(a, c),
{
    lemma_lex_total(a, b);
    lemma_lex_total(b, c);
    if lex_lt(a, c) {
        if lex_lt(b, a) {
            lemma_lex_transitive(b, a, c);
        }
    }
}

/// A row from a key on is one of the rows.
proof fn lemma_rows_from_member(rows: Seq<RowView>, key: Seq<u8>, j: int)
    requires
        0 <= j < rows_from(rows, key).len(),
    ensures
        exists|k: int| 0 <= k < rows.len() && rows[k] == rows_from(rows, key)[j],
    decreases rows.len(),
{
    let shorter = rows.drop_last();
    let kept = rows_from(shorter, key);
    if j < kept.len() {
        lemma_rows_from_member(shorter, key, j);
        let k = choose|k: int| 0 <= k < shorter.len() && shorter[k] == kept[j];
        assert(rows[k] == kept[j]);
    } else {
        assert(rows[rows.len() - 1] == rows_from(rows, key)[j]);
    }
}

/// Joined tables have no row before a key that none of them has a row before.
proof fn lemma_joined_past(tables: Seq<Seq<RowView>>, key: Seq<u8>)
    requires
        forall|i: int, j: int|
            0 <= i < tables.len() && 0 <= j < tables[i].len() ==> !lex_lt(
                (#[trigger] tables[i][j]).key,
                key,
            ),
    ensures
        forall|k: int| 0 <= k < joined(tables).len() ==> !lex_lt((#[trigger] joined(tables)[k]).key, key),
    decreases tables.len(),
{
    if tables.len() > 0 {
        let rest = tables.drop_first();
        assert forall|i: int, j: int|
            0 <= i < rest.len() && 0 <= j < rest[i].len() implies !lex_lt(
            (#[trigger] rest[i][j]).key,
            key,
        ) by {
            assert(rest[i][j] == tables[i + 1][j]);
        }
        lemma_joined_past(rest, key);
        assert forall|k: int| 0 <= k < joined(tables).len() implies !lex_lt(
            (#[trigger] joined(tables)[k]).key,
            key,
        ) by {
            if k < tables[0].len() {
                assert(joined(tables)[k] == tables[0][k]);
            } else {
                assert(joined(tables)[k] == joined(rest)[k - tables[0].len()]);
            }
        }
    }
}

/// Where the next table does not start before the key, no later row is before it.
proof fn lemma_later_rows_past(run: RunModel, rows: RunRows)
    requires
        rows.fits(run),
        ascending_tables(run, rows),
        run.tables.len() > 0 ==> !lex_lt(run.tables[0].start_key(), run.seek_key),
    ensures
        rows_from(rows.later(run), run.seek_key) == rows.later(run),
{
    if run.tables.len() > 0 {
        assert forall|i: int, j: int|
            0 <= i < rows.rest.len() && 0 <= j < rows.rest[i].len() implies !lex_lt(
            (#[trigger] rows.rest[i][j]).key,
            run.seek_key,
        ) by {
            let start = run.tables[i].start_key();
            if i > 0 {
                assert(!lex_lt(run.tables[i].start_key(), run.tables[0].start_key()));
                lemma_not_before(start, run.tables[0].start_key(), run.seek_key);
            }
            lemma_not_before(rows.rest[i][j].key, start, run.seek_key);
        }
        lemma_joined_past(rows.rest, run.seek_key);
    }
    lemma_rows_from_all(rows.later(run), run.seek_key);
}

/// Passing over tables on the way to the key drops only rows before it.
#[verifier::rlimit(40)]
proof fn lemma_seek_ascending(run: RunModel, rows: RunRows)
    requires
        run.wf(),
        run.state is Ascending,
        rows.fits(run),
        ascending_tables(run, rows),
        run.task is Idle || run.task is Initializing,
        !run.open ==> run.tables.len() == 0,
    ensures
        ({
            let (after, action) = run.seek_ascending();
            let left = rows.after(run, action);
            &&& seekable(after, left)
            &&& after.seek_key == run.seek_key
            &&& seek_delivers(rows_from(rows.owed(run), run.seek_key), after, action, left)
        }),
{
    let none = Seq::<RowView>::empty();
    let key = run.seek_key;
    let (after, action) = run.seek_ascending();
    let left = rows.after(run, action);
    assert(rows.owed(run) =~= rows.live(run) + rows.later(run));
    lemma_rows_from_concat(rows.live(run), rows.later(run), key);
    if run.tables.len() > 0 && lex_lt(run.tables[0].start_key(), key) {
        let hidden = hidden_tables(run.tables, run.range) as int;
        let start = run.tables[0].start_key();
        lemma_open_next(run, rows, RunResume::SeekAscending);
        lemma_hidden_rows(run, rows);
        assert forall|j: int| 0 <= j < rows.live(run).len() implies lex_lt(
            (#[trigger] rows.live(run)[j]).key,
            key,
        ) by {
            let row_key = rows.live(run)[j].key;
            assert(!lex_lt(run.tables[0].start_key(), row_key));
            lemma_lex_total(start, row_key);
            if lex_lt(row_key, start) {
                lemma_lex_transitive(row_key, start, key);
            }
        }
        lemma_rows_from_none(rows.live(run), key);
        assert(rows_from(rows.owed(run), key) =~= rows_from(rows.later(run), key));
        if hidden < run.tables.len() {
            assert(left.owed(after) =~= rows.later(run));
            assert(ascending_tables(after, left)) by {
                assert forall|i: int, j: int|
                    0 <= i < after.tables.len() && 0 <= j < left.rest[i].len() implies !lex_lt(
                    (#[trigger] left.rest[i][j]).key,
                    after.tables[i].start_key(),
                ) by {
                    assert(left.rest[i][j] == rows.rest[hidden + 1 + i][j]);
                    assert(after.tables[i] == run.tables[hidden + 1 + i]);
                }
                assert forall|i: int, j: int|
                    0 <= i < after.tables.len() && 0 <= j < left.live(after).len() implies !lex_lt(
                    #[trigger] after.tables[i].start_key(),
                    (#[trigger] left.live(after)[j]).key,
                ) by {
                    assert(left.live(after)[j] == rows.rest[hidden][j]);
                    assert(after.tables[i] == run.tables[hidden + 1 + i]);
                }
                assert forall|i: int, j: int, k: int|
                    0 <= i < k < after.tables.len() && 0 <= j < left.rest[i].len() implies !lex_lt(
                    #[trigger] after.tables[k].start_key(),
                    (#[trigger] left.rest[i][j]).key,
                ) by {
                    assert(left.rest[i][j] == rows.rest[hidden + 1 + i][j]);
                    assert(after.tables[k] == run.tables[hidden + 1 + k]);
                }
                assert forall|i: int, k: int| 0 <= i < k < after.tables.len() implies !lex_lt(
                    #[trigger] after.tables[k].start_key(),
                    #[trigger] after.tables[i].start_key(),
                ) by {
                    assert(after.tables[i] == run.tables[hidden + 1 + i]);
                    assert(after.tables[k] == run.tables[hidden + 1 + k]);
                }
            }
        } else {
            assert(left.owed(after) =~= none);
            assert(rows.later(run) =~= none);
            assert(rows_from(none, key) =~= none);
        }
    } else {
        assert(left.owed(after) =~= rows.owed(run));
        assert(left.live(after) =~= rows.live(run));
        if !run.open {
            assert(rows.owed(run) =~= none);
            assert(rows_from(none, key) =~= none);
        }
    }
}

proof fn lemma_rows_to_concat(a: Seq<RowView>, b: Seq<RowView>, key: Seq<u8>)
    ensures
        rows_to(a + b, key) == rows_to(a, key) + rows_to(b, key),
    decreases b.len(),
{
    if b.len() == 0 {
        assert(a + b =~= a);
        assert(rows_to(a, key) + rows_to(b, key) =~= rows_to(a, key));
    } else {
        assert((a + b).drop_last() =~= a + b.drop_last());
        lemma_rows_to_concat(a, b.drop_last(), key);
        assert(rows_to(a + b, key) =~= rows_to(a, key) + rows_to(b, key));
    }
}

proof fn lemma_rows_to_none(rows: Seq<RowView>, key: Seq<u8>)
    requires
        forall|i: int| 0 <= i < rows.len() ==> lex_lt(key, (#[trigger] rows[i]).key),
    ensures
        rows_to(rows, key).len() == 0,
    decreases rows.len(),
{
    if rows.len() > 0 {
        lemma_rows_to_none(rows.drop_last(), key);
    }
}

/// A row up to a key is one of the rows.
proof fn lemma_rows_to_member(rows: Seq<RowView>, key: Seq<u8>, j: int)
    requires
        0 <= j < rows_to(rows, key).len(),
    ensures
        exists|k: int| 0 <= k < rows.len() && rows[k] == rows_to(rows, key)[j],
    decreases rows.len(),
{
    let shorter = rows.drop_last();
    let kept = rows_to(shorter, key);
    if j < kept.len() {
        lemma_rows_to_member(shorter, key, j);
        let k = choose|k: int| 0 <= k < shorter.len() && shorter[k] == kept[j];
        assert(rows[k] == kept[j]);
    } else {
        assert(rows[rows.len() - 1] == rows_to(rows, key)[j]);
    }
}

/// Ordering versions by age and passing over keys after a key can be done in
/// either order.
proof fn lemma_rows_to_by_age(rows: Seq<RowView>, key: Seq<u8>)
    requires
        keys_down(rows),
    ensures
        rows_to(by_key_and_age(rows), key) == by_key_and_age(rows_to(rows, key)),
    decreases rows.len(),
{
    if rows.len() > 0 {
        lemma_same_key_len(rows);
        let n = same_key_len(rows) as int;
        let first = rows.take(n);
        let rest = rows.skip(n);
        let sorted = newest_first(first);
        assert(rows =~= first + rest);
        lemma_keys_down_suffix(rows, rest, n);
        lemma_rows_to_by_age(rest, key);
        lemma_rows_to_concat(first, rest, key);
        lemma_rows_to_concat(sorted, by_key_and_age(rest), key);
        law_newest_first_sorts(first);
        assert forall|i: int| 0 <= i < sorted.len() implies (#[trigger] sorted[i]).key
            == rows[0].key by {
            lemma_same_members(sorted, first, i);
            let k = choose|k: int| 0 <= k < first.len() && first[k] == sorted[i];
            assert(rows[k].key == rows[0].key);
        }
        if lex_lt(key, rows[0].key) {
            lemma_rows_to_none(first, key);
            lemma_rows_to_none(sorted, key);
            assert(rows_to(rows, key) =~= rows_to(rest, key));
            assert(rows_to(by_key_and_age(rows), key) =~= rows_to(by_key_and_age(rest), key));
        } else {
            lemma_rows_to_all(first, key);
            lemma_rows_to_all(sorted, key);
            let left = rows_to(rest, key);
            if left.len() > 0 {
                lemma_rows_to_member(rest, key, 0);
                let k = choose|k: int| 0 <= k < rest.len() && rest[k] == left[0];
                assert(rest[k] == rows[n + k]);
                lemma_below_first(rows, n, n + k);
                lemma_lex_irreflexive(rows[0].key);
            }
            assert(first[0] == rows[0]);
            lemma_group_first(first, left);
        }
    } else {
        assert(rows_to(by_key_and_age(rows), key) =~= rows);
    }
}

/// The key is not past the end of the table.
pub open spec fn not_past_end(table: TableView, key: Seq<u8>) -> bool {
    match table.effective_range.end {
        BoundView::Included(end) => !lex_lt(end, key),
        BoundView::Excluded(end) => !lex_lt(end, key),
        BoundView::Unbounded => true,
    }
}

/// The key is not before the end of the table.
pub open spec fn not_before_end(table: TableView, key: Seq<u8>) -> bool {
    match table.effective_range.end {
        BoundView::Included(end) => !lex_lt(key, end),
        BoundView::Excluded(end) => !lex_lt(key, end),
        BoundView::Unbounded => false,
    }
}

/// One table does not end after another.
pub open spec fn ends_no_later(table: TableView, other: TableView) -> bool {
    forall|key: Seq<u8>| #[trigger] ends_after(table, key) ==> ends_after(other, key)
}

/// The tables of a descending walk are in order: each ends at its end, which no
/// earlier row is before, and ends only go down.
pub open spec fn descending_ends(run: RunModel, rows: RunRows) -> bool {
    &&& forall|i: int, j: int|
        0 <= i < run.tables.len() && 0 <= j < rows.rest[i].len() ==> not_past_end(
            run.tables[i],
            (#[trigger] rows.rest[i][j]).key,
        )
    &&& forall|i: int, j: int|
        0 <= i < run.tables.len() && 0 <= j < rows.live(run).len() ==> not_before_end(
            #[trigger] run.tables[i],
            (#[trigger] rows.live(run)[j]).key,
        )
    &&& forall|i: int, j: int, k: int|
        0 <= i < k < run.tables.len() && 0 <= j < rows.rest[i].len() ==> not_before_end(
            #[trigger] run.tables[k],
            (#[trigger] rows.rest[i][j]).key,
        )
    &&& forall|i: int, k: int|
        0 <= i < k < run.tables.len() ==> ends_no_later(
            #[trigger] run.tables[k],
            #[trigger] run.tables[i],
        )
}

/// A call of `seek` in descending order is under way.
pub open spec fn seeking_down(run: RunModel) -> bool {
    match run.task {
        RunTask::Opening(resume) | RunTask::Initializing(resume) => resume is SkipDescending
            || resume is RetryDescending,
        RunTask::SeekDescending => true,
        _ => false,
    }
}

/// No table that ends after the key is to be passed over any more.
pub open spec fn tables_passed(run: RunModel) -> bool {
    let passed = match run.task {
        RunTask::Opening(resume) | RunTask::Initializing(resume) => resume is RetryDescending,
        RunTask::SeekDescending => true,
        _ => false,
    };
    passed && run.tables.len() > 0 ==> !ends_after(run.tables[0], run.seek_key)
}

/// The rows fit the run, and without a current table there are no others.
pub open spec fn seekable_down(run: RunModel, rows: RunRows) -> bool {
    &&& run.wf()
    &&& run.state is Descending
    &&& rows.fits(run)
    &&& run.task is Idle || seeking_down(run)
    &&& seeking_down(run) ==> run.pending_seek is None
    &&& !run.open && !(run.task is Opening) ==> run.tables.len() == 0
    &&& tables_passed(run)
    &&& descending_ends(run, rows)
}

impl RunRows {
    /// The rows once the answer to what a descending `seek` is waiting for was
    /// given: moving the current table to a key passes over the keys after it.
    pub open spec fn sought_down(self, run: RunModel, refused: bool) -> RunRows {
        if run.task is SeekDescending && !refused {
            RunRows { current: rows_to(self.current, run.seek_key), ..self }
        } else {
            self
        }
    }

    /// The rows of the current table and of those still to be opened.
    pub open spec fn unread(self, run: RunModel) -> Seq<RowView> {
        self.live(run) + self.later(run)
    }
}

/// The answer to what a descending `seek` is waiting for. A table without a row
/// up to the key may refuse to be moved there.
pub open spec fn seek_answer(run: RunModel, refused: bool) -> RunEventView {
    if run.task is Opening {
        RunEventView::Opened
    } else if run.task is SeekDescending && refused {
        RunEventView::Failed(SlateDBError::SeekKeyOutOfKeyRange)
    } else {
        RunEventView::Ready
    }
}

/// What an action means for a descending `seek`: when it ends, the rows left are
/// those of `target`, and until then those are the ones up to the key.
pub open spec fn seek_down_delivers(
    target: Seq<RowView>,
    run: RunModel,
    action: RunActionView,
    rows: RunRows,
) -> bool {
    match action {
        RunActionView::Done(Ok(None)) => {
            &&& rows.owed(run) == by_key_and_age(target)
            &&& rows.unread(run) == target
            &&& run.buffered.len() == 0
            &&& run.pending_entry is None
            &&& run.group.len() == 0
            &&& run.pending_seek == Some(run.seek_key)
        },
        RunActionView::Done(_) => false,
        _ => rows_to(rows.unread(run), run.seek_key) == target,
    }
}

/// Every step of a descending `seek` passes over keys after the sought one only.
#[verifier::rlimit(40)]
pub proof fn law_descending_seek_steps(run: RunModel, rows: RunRows, refused: bool)
    requires
        seekable_down(run, rows),
        seeking_down(run),
        refused ==> rows_to(rows.current, run.seek_key).len() == 0,
    ensures
        ({
            let sought = rows.sought_down(run, refused);
            let (after, action) = run.on_event(seek_answer(run, refused));
            let left = sought.after(run, action);
            &&& seekable_down(after, left)
            &&& after.seek_key == run.seek_key
            &&& seek_down_delivers(
                rows_to(rows.unread(run), run.seek_key),
                after,
                action,
                left,
            )
        }),
{
    let key = run.seek_key;
    let sought = rows.sought_down(run, refused);
    let (after, action) = run.on_event(seek_answer(run, refused));
    lemma_nothing_held(after, sought.after(run, action));
    match run.task {
        RunTask::Opening(_) => {
            assert(sought.unread(after) =~= rows.unread(run));
            assert(sought.live(after) =~= rows.live(run));
        },
        RunTask::Initializing(resume) => {
            if resume is SkipDescending {
                lemma_skip_descending(run, rows);
            } else {
                assert(rows.unread(after) =~= rows.unread(run));
                assert(rows.live(after) =~= rows.live(run));
            }
        },
        _ => {
            lemma_rows_to_concat(rows.live(run), rows.later(run), key);
            lemma_later_rows_up_to(run, rows);
            if refused {
                lemma_drop_current(run, rows, RunResume::RetryDescending);
                assert(rows_to(rows.unread(run), key) =~= rows.later(run));
                let hidden = hidden_tables(run.tables, run.range) as int;
                let left = rows.after(run, action);
                if hidden < run.tables.len() {
                    assert(left.unread(after) =~= rows.later(run));
                    if after.tables.len() > 0 {
                        assert(after.tables[0] == run.tables[hidden + 1]);
                        assert(ends_no_later(run.tables[hidden + 1], run.tables[0]));
                    }
                } else {
                    assert(left.unread(after) =~= Seq::<RowView>::empty());
                    assert(rows.later(run) =~= Seq::<RowView>::empty());
                }
            } else {
                assert(sought.unread(after) =~= rows_to(rows.current, key) + rows.later(run));
                assert(descending_ends(after, sought)) by {
                    assert forall|i: int, j: int|
                        0 <= i < after.tables.len() && 0 <= j < sought.live(
                            after,
                        ).len() implies not_before_end(
                        #[trigger] after.tables[i],
                        (#[trigger] sought.live(after)[j]).key,
                    ) by {
                        lemma_rows_to_member(rows.current, key, j);
                        let k = choose|k: int|
                            0 <= k < rows.current.len() && rows.current[k] == sought.live(after)[j];
                        assert(rows.live(run)[k] == sought.live(after)[j]);
                    }
                }
            }
        },
    }
}

/// In descending order, `seek` passes over exactly the rows after the key, where
/// no row up to the key was read ahead: what is owed once it ends is what was
/// owed before, up to the key.
pub proof fn law_descending_seek_skips_to_the_key(run: RunModel, rows: RunRows, key: Seq<u8>)
    requires
        seekable_down(run, rows),
        run.task is Idle,
        keys_down(rows.raw(run)),
        forall|i: int| 0 <= i < run.buffered.len() ==> lex_lt(key, (#[trigger] run.buffered[i]).key),
        run.pending_entry matches Some(row) ==> lex_lt(key, row.key),
    ensures
        ({
            let (after, action) = run.seek(key);
            let left = rows.after(run, action);
            let target = rows_to(rows.unread(run), key);
            &&& seekable_down(after, left)
            &&& after.seek_key == key
            &&& seek_down_delivers(target, after, action, left)
            &&& rows_to(rows.owed(run), key) == by_key_and_age(target)
        }),
{
    let start = RunModel {
        seek_key: key,
        buffered: Seq::empty(),
        pending_entry: None,
        pending_seek: None,
        ..run
    };
    assert(rows.unread(start) =~= rows.unread(run));
    assert(rows.live(start) =~= rows.live(run));
    assert(descending_ends(start, rows));
    lemma_skip_descending(start, rows);
    let (after, action) = run.seek(key);
    assert(rows.after(start, action) == rows.after(run, action));
    assert(run.group =~= Seq::<RowView>::empty());
    let held = optional_row(run.pending_entry);
    assert(rows.raw(run) =~= held + rows.unread(run));
    lemma_rows_to_none(held, key);
    lemma_rows_to_none(run.buffered, key);
    lemma_rows_to_concat(held, rows.unread(run), key);
    lemma_rows_to_concat(run.buffered, by_key_and_age(rows.raw(run)), key);
    lemma_rows_to_by_age(rows.raw(run), key);
    assert(rows_to(rows.raw(run), key) =~= rows_to(rows.unread(run), key));
    assert(rows_to(rows.owed(run), key) =~= rows_to(by_key_and_age(rows.raw(run)), key));
}

/// Where the next table does not end after the key, no later row is after it.
proof fn lemma_later_rows_up_to(run: RunModel, rows: RunRows)
    requires
        rows.fits(run),
        descending_ends(run, rows),
        run.tables.len() > 0 ==> !ends_after(run.tables[0], run.seek_key),
    ensures
        rows_to(rows.later(run), run.seek_key) == rows.later(run),
{
    let key = run.seek_key;
    if run.tables.len() > 0 {
        assert forall|i: int, j: int|
            0 <= i < rows.rest.len() && 0 <= j < rows.rest[i].len() implies !lex_lt(
            key,
            (#[trigger] rows.rest[i][j]).key,
        ) by {
            let row_key = rows.rest[i][j].key;
            assert(not_past_end(run.tables[i], row_key));
            if i > 0 {
                assert(ends_no_later(run.tables[i], run.tables[0]));
            }
            assert(!ends_after(run.tables[i], key));
            match run.tables[i].effective_range.end {
                BoundView::Included(end) => {
                    lemma_not_before(key, end, row_key);
                },
                BoundView::Excluded(end) => {
                    lemma_not_before(key, end, row_key);
                },
                BoundView::Unbounded => {},
            }
        }
        lemma_joined_up_to(rows.rest, key);
    }
    lemma_rows_to_all(rows.later(run), key);
}

/// Joined tables have no row after a key that none of them has a row after.
proof fn lemma_joined_up_to(tables: Seq<Seq<RowView>>, key: Seq<u8>)
    requires
        forall|i: int, j: int|
            0 <= i < tables.len() && 0 <= j < tables[i].len() ==> !lex_lt(
                key,
                (#[trigger] tables[i][j]).key,
            ),
    ensures
        forall|k: int| 0 <= k < joined(tables).len() ==> !lex_lt(key, (#[trigger] joined(tables)[k]).key),
    decreases tables.len(),
{
    if tables.len() > 0 {
        let rest = tables.drop_first();
        assert forall|i: int, j: int|
            0 <= i < rest.len() && 0 <= j < rest[i].len() implies !lex_lt(
            key,
            (#[trigger] rest[i][j]).key,
        ) by {
            assert(rest[i][j] == tables[i + 1][j]);
        }
        lemma_joined_up_to(rest, key);
        assert forall|k: int| 0 <= k < joined(tables).len() implies !lex_lt(
            key,
            (#[trigger] joined(tables)[k]).key,
        ) by {
            if k < tables[0].len() {
                assert(joined(tables)[k] == tables[0][k]);
            } else {
                assert(joined(tables)[k] == joined(rest)[k - tables[0].len()]);
            }
        }
    }
}

/// Opening the next table leaves the tables in order.
proof fn lemma_drop_current(run: RunModel, rows: RunRows, resume: RunResume)
    requires
        rows.fits(run),
        descending_ends(run, rows),
    ensures
        ({
            let hidden = hidden_tables(run.tables, run.range) as int;
            let (after, action) = run.open_next(resume);
            let left = rows.after(run, action);
            if hidden < run.tables.len() {
                &&& action is Open
                &&& left.fits(after)
                &&& descending_ends(after, left)
                &&& left.unread(after) == rows.later(run)
            } else {
                &&& !(action is Open)
                &&& rows.later(run).len() == 0
                &&& left.fits(after)
            }
        }),
{
    let hidden = hidden_tables(run.tables, run.range) as int;
    let (after, action) = run.open_next(resume);
    let left = rows.after(run, action);
    lemma_open_next(run, rows, resume);
    if run.tables.len() > 0 {
        lemma_hidden_rows(run, rows);
    }
    if hidden < run.tables.len() {
        assert forall|i: int, j: int|
            0 <= i < after.tables.len() && 0 <= j < left.rest[i].len() implies not_past_end(
            after.tables[i],
            (#[trigger] left.rest[i][j]).key,
        ) by {
            assert(left.rest[i][j] == rows.rest[hidden + 1 + i][j]);
            assert(after.tables[i] == run.tables[hidden + 1 + i]);
        }
        assert forall|i: int, j: int|
            0 <= i < after.tables.len() && 0 <= j < left.live(after).len() implies not_before_end(
            #[trigger] after.tables[i],
            (#[trigger] left.live(after)[j]).key,
        ) by {
            assert(left.live(after)[j] == rows.rest[hidden][j]);
            assert(after.tables[i] == run.tables[hidden + 1 + i]);
        }
        assert forall|i: int, j: int, k: int|
            0 <= i < k < after.tables.len() && 0 <= j < left.rest[i].len() implies not_before_end(
            #[trigger] after.tables[k],
            (#[trigger] left.rest[i][j]).key,
        ) by {
            assert(left.rest[i][j] == rows.rest[hidden + 1 + i][j]);
            assert(after.tables[k] == run.tables[hidden + 1 + k]);
        }
        assert forall|i: int, k: int| 0 <= i < k < after.tables.len() implies ends_no_later(
            #[trigger] after.tables[k],
            #[trigger] after.tables[i],
        ) by {
            assert(after.tables[i] == run.tables[hidden + 1 + i]);
            assert(after.tables[k] == run.tables[hidden + 1 + k]);
        }
    }
}

/// Passing over tables on the way to the key drops only rows after it.
#[verifier::rlimit(40)]
proof fn lemma_skip_descending(run: RunModel, rows: RunRows)
    requires
        run.state is Descending,
        run.order is Descending,
        run.task is Idle || run.task == RunTask::Initializing(RunResume::SkipDescending),
        run.buffered.len() == 0,
        run.pending_entry is None,
        run.pending_seek is None,
        run.group.len() == 0,
        !run.crossed,
        rows.fits(run),
        descending_ends(run, rows),
        !run.open ==> run.tables.len() == 0,
    ensures
        ({
            let (after, action) = run.skip_descending();
            let left = rows.after(run, action);
            &&& seekable_down(after, left)
            &&& after.seek_key == run.seek_key
            &&& seek_down_delivers(
                rows_to(rows.unread(run), run.seek_key),
                after,
                action,
                left,
            )
        }),
{
    let none = Seq::<RowView>::empty();
    let key = run.seek_key;
    let (after, action) = run.skip_descending();
    let left = rows.after(run, action);
    lemma_rows_to_concat(rows.live(run), rows.later(run), key);
    if run.tables.len() > 0 && ends_after(run.tables[0], key) {
        let hidden = hidden_tables(run.tables, run.range) as int;
        lemma_drop_current(run, rows, RunResume::SkipDescending);
        assert forall|j: int| 0 <= j < rows.live(run).len() implies lex_lt(
            key,
            (#[trigger] rows.live(run)[j]).key,
        ) by {
            let row_key = rows.live(run)[j].key;
            assert(not_before_end(run.tables[0], row_key));
            let end = bound_key(run.tables[0].effective_range.end);
            lemma_lex_total(row_key, end);
            if lex_lt(end, row_key) {
                lemma_lex_transitive(key, end, row_key);
            }
        }
        lemma_rows_to_none(rows.live(run), key);
        assert(rows_to(rows.unread(run), key) =~= rows_to(rows.later(run), key));
        if hidden < run.tables.len() {
            assert(left.unread(after) == rows.later(run));
        } else {
            assert(left.unread(after) =~= none);
            assert(rows.later(run) =~= none);
            assert(rows_to(none, key) =~= none);
        }
    } else {
        assert(left.unread(after) =~= rows.unread(run));
        assert(left.live(after) =~= rows.live(run));
        if !run.open {
            assert(rows.unread(run) =~= none);
            assert(rows_to(none, key) =~= none);
        }
    }
    lemma_nothing_held(after, left);
}

/// Where no row was read ahead, what is owed is what was not read.
proof fn lemma_nothing_held(run: RunModel, rows: RunRows)
    ensures
        run.state is Descending && run.buffered.len() == 0 && run.pending_entry is None
            && run.group.len() == 0 ==> rows.owed(run) == by_key_and_age(rows.unread(run)),
{
    if run.buffered.len() == 0 && run.pending_entry is None && run.group.len() == 0 {
        assert(rows.raw(run) =~= rows.unread(run));
        assert(run.buffered + by_key_and_age(rows.raw(run)) =~= by_key_and_age(rows.raw(run)));
    }
}

} // verus!
