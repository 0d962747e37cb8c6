//! What the single steps of a walk over a sorted run do, and what of a run's
//! tables and answers they go by.
use crate::byte_string::{bytes_contents, lex_lt};
use crate::bytes_range::{bound_key, law_crossed_range_is_empty, law_intersection_is_exact,
    BoundView, RangeView};
use crate::db_state::TableView;
use crate::error::SlateDBError;
use crate::key_laws::law_only_tables_without_a_key_to_see_are_passed_over;
use crate::sorted_run_iterator::{ends_after, hidden_tables, insert_by_seq, may_hold, new_run,
    newest_first, IterationOrder, RunAction, RunActionView, RunEvent,
    RunEventView, RunModel, RunResume, RunTask, SortedRunView, SstView};
use crate::types::RowView;
use vstd::prelude::*;

verus! {

/// An action shows what it asks for: the table to open with the part of it to
/// read, the key to move to, or the row or error that a call ends with.
pub proof fn law_an_action_shows_what_it_asks_for<'a>(action: RunAction<'a>)
    ensures
        action matches RunAction::Open(SstView::Owned(table, range)) ==> action@
            == (RunActionView::Open { table: (*table)@, range: range@, owned: true }),
        action matches RunAction::Open(SstView::Borrowed(table, range)) ==> action@
            == (RunActionView::Open { table: table@, range: range@, owned: false }),
        action is Init ==> action@ == RunActionView::Init,
        action is Next ==> action@ == RunActionView::Next,
        action matches RunAction::Seek(key) ==> action@ == RunActionView::Seek(
            bytes_contents(key),
        ),
        action matches RunAction::Done(Ok(Some(row))) ==> action@ == RunActionView::Done(
            Ok(Some(row@)),
        ),
        action matches RunAction::Done(Ok(None)) ==> action@ == RunActionView::Done(Ok(None)),
        action matches RunAction::Done(Err(error)) ==> action@ == RunActionView::Done(Err(error)),
{
}

/// An event shows what happened: the row that was read, or the error.
pub proof fn law_an_event_shows_what_happened(event: RunEvent)
    ensures
        event is Opened ==> event@ == RunEventView::Opened,
        event is Ready ==> event@ == RunEventView::Ready,
        event matches RunEvent::Row(Some(row)) ==> event@ == RunEventView::Row(Some(row@)),
        event matches RunEvent::Row(None) ==> event@ == RunEventView::Row(None),
        event matches RunEvent::Failed(error) ==> event@ == RunEventView::Failed(error),
{
}

/// A view of a run shows its tables in order, owned or borrowed, and its range.
pub proof fn law_a_run_shows_its_tables<'a>(view: SortedRunView<'a>)
    ensures
        view matches SortedRunView::Owned(tables, range) ==> {
            &&& view.owned()
            &&& view.range() == range@
            &&& view.tables().len() == tables@.len()
            &&& forall|i: int| 0 <= i < tables@.len() ==> #[trigger] view.tables()[i] == tables@[i]@
        },
        view matches SortedRunView::Borrowed(tables, range) ==> {
            &&& !view.owned()
            &&& view.range() == range@
            &&& view.tables().len() == tables@.len()
            &&& forall|i: int| 0 <= i < tables@.len() ==> #[trigger] view.tables()[i] == tables@[i]@
        },
{
}

/// A table may hold a key that is in its range, and it ends after a key where a
/// bound of its range comes after the key or there is no such bound.
pub proof fn law_a_table_may_hold_the_keys_in_its_range(tables: Seq<TableView>, key: Seq<u8>)
    ensures
        may_hold(tables, key) <==> tables.len() > 0 && tables[0].effective_range.contains(key),
        tables.len() > 0 ==> {
            let end = tables[0].effective_range.end;
            &&& end is Unbounded ==> ends_after(tables[0], key)
            &&& end matches BoundView::Included(last) ==> (ends_after(tables[0], key) <==> lex_lt(
                key,
                last,
            ))
            &&& end matches BoundView::Excluded(past) ==> (ends_after(tables[0], key) <==> lex_lt(
                key,
                past,
            ))
        },
        tables.len() > 0 ==> {
            let start = tables[0].effective_range.start;
            &&& start is Unbounded ==> tables[0].start_key().len() == 0
            &&& start matches BoundView::Included(first) ==> tables[0].start_key() == first
            &&& start matches BoundView::Excluded(first) ==> tables[0].start_key() == first
        },
{
}

/// Sorting the versions of a key by age keeps the order of those with the same
/// sequence number.
pub proof fn law_sorting_by_age_keeps_the_order_of_equals(rows: Seq<RowView>, seq: u64)
    ensures
        newest_first(rows).filter(|row: RowView| row.seq == seq) == rows.filter(
            |row: RowView| row.seq == seq,
        ),
    decreases rows.len(),
{
    let same = |row: RowView| row.seq == seq;
    reveal(Seq::filter);
    if rows.len() > 0 {
        law_sorting_by_age_keeps_the_order_of_equals(rows.drop_last(), seq);
        lemma_insert_keeps_equals(newest_first(rows.drop_last()), rows.last(), seq);
    }
}

/// A row is inserted behind the rows with its sequence number.
proof fn lemma_insert_keeps_equals(rows: Seq<RowView>, row: RowView, seq: u64)
    ensures
        insert_by_seq(rows, row).filter(|other: RowView| other.seq == seq) == if row.seq == seq {
            rows.filter(|other: RowView| other.seq == seq).push(row)
        } else {
            rows.filter(|other: RowView| other.seq == seq)
        },
    decreases rows.len(),
{
    let same = |other: RowView| other.seq == seq;
    reveal(Seq::filter);
    if rows.len() == 0 || rows.last().seq >= row.seq {
        assert(rows.push(row).drop_last() =~= rows);
        assert(rows.push(row).last() == row);
    } else {
        let shorter = insert_by_seq(rows.drop_last(), row);
        lemma_insert_keeps_equals(rows.drop_last(), row, seq);
        assert(shorter.push(rows.last()).drop_last() =~= shorter);
        assert(shorter.push(rows.last()).last() == rows.last());
    }
}

/// A new walk has every table to go through, in key order or against it, and has
/// nothing open, buffered or sought.
pub proof fn law_a_new_walk_has_every_table_ahead(
    tables: Seq<TableView>,
    range: RangeView,
    owned: bool,
    order: IterationOrder,
    i: int,
)
    requires
        0 <= i < tables.len(),
    ensures
        ({
            let run = new_run(tables, range, owned, order);
            &&& run.tables.len() == tables.len()
            &&& order is Ascending ==> run.tables[i] == tables[i]
            &&& order is Descending ==> run.tables[i] == tables[tables.len() - 1 - i]
            &&& run.range == range && run.owned == owned && run.order == order
            &&& run.state is Uninitialized && !run.open && run.task is Idle
            &&& run.buffered.len() == 0 && run.group.len() == 0
            &&& run.pending_entry is None && run.pending_seek is None
        }),
{
}

/// The next table to be opened is the first of which a requested key may be
/// seen. It is opened over the requested keys that may be seen, all of them and
/// no others; the tables behind it stay as they are, and those before it are
/// gone. Where there is no such table, nothing is open any more.
pub proof fn law_the_next_table_is_opened_over_what_may_be_seen(
    run: RunModel,
    resume: RunResume,
    key: Seq<u8>,
)
    ensures
        ({
            let at = hidden_tables(run.tables, run.range) as int;
            let (after, action) = run.open_next(resume);
            &&& 0 <= at <= run.tables.len()
            &&& at < run.tables.len() <==> action is Open
            &&& forall|i: int|
                0 <= i < at ==> !(run.range.contains(key) && (
                #[trigger] run.tables[i]).visible_range->0.contains(key))
                    && run.tables[i].visible_range is Some
            &&& action matches RunActionView::Open { table, range, owned } ==> {
                &&& table == run.tables[at]
                &&& owned == run.owned
                &&& range.contains(key) <==> run.range.contains(key) && (
                table.visible_range matches Some(visible) ==> visible.contains(key))
                &&& table.visible_range is None ==> range == run.range
                &&& after.tables.len() == run.tables.len() - at - 1
                &&& forall|i: int|
                    0 <= i < after.tables.len() ==> #[trigger] after.tables[i] == run.tables[at + 1
                        + i]
                &&& after.task == RunTask::Opening(resume)
            }
            &&& !(action is Open) ==> after.tables.len() == 0 && !after.open
        }),
{
    law_only_tables_without_a_key_to_see_are_passed_over(run.tables, run.range);
    let at = hidden_tables(run.tables, run.range) as int;
    if at < run.tables.len() {
        if let Some(visible) = run.tables[at].visible_range {
            law_intersection_is_exact(run.range, visible, key);
        }
    }
    assert forall|i: int| 0 <= i < at implies !(run.range.contains(key) && (
    #[trigger] run.tables[i]).visible_range->0.contains(key)) && run.tables[i].visible_range
        is Some by {
        if let Some(visible) = run.tables[i].visible_range {
            law_intersection_is_exact(run.range, visible, key);
            assert(run.tables[i].view_range(run.range) is None);
            law_crossed_range_is_empty(run.range.intersection(visible), key);
        }
    }
}

/// A call of `next` needs an initialized walk. It gives a buffered row where
/// there is one, the oldest first, then reads the current table, and is at its
/// end where there is none.
pub proof fn law_next_gives_buffered_rows_before_it_reads(run: RunModel)
    ensures
        run.state is Uninitialized ==> run.next().1 == RunActionView::Done(
            Err(SlateDBError::IteratorNotInitialized),
        ),
        !(run.state is Uninitialized) && run.buffered.len() > 0 ==> {
            &&& run.next().1 == RunActionView::Done(Ok(Some(run.buffered[0])))
            &&& run.next().0.buffered == run.buffered.drop_first()
            &&& run.next().0.tables == run.tables && run.next().0.open == run.open
            &&& run.next().0.pending_entry == run.pending_entry
        },
        !(run.state is Uninitialized) && run.buffered.len() == 0 && run.pending_entry is None
            && run.open ==> run.next().1 == RunActionView::Next && run.next().0.task is Row,
        !(run.state is Uninitialized) && run.buffered.len() == 0 && run.pending_entry is None
            && !run.open ==> run.next().1 == RunActionView::Done(Ok(None)),
        !(run.state is Uninitialized) && run.buffered.len() == 0 && run.pending_entry is Some ==> {
            let row = run.pending_entry->0;
            !(run.state is Descending && may_hold(run.tables, row.key)) ==> {
                &&& run.next().1 == RunActionView::Done(Ok(Some(row)))
                &&& run.next().0.pending_entry is None
            }
        },
{
}

/// A row that was read is returned at once, unless the walk goes down and the
/// next table may hold older or newer versions of its key.
pub proof fn law_a_row_is_held_back_only_for_its_other_versions(run: RunModel, row: RowView)
    requires
        run.task is Row,
    ensures
        ({
            let (after, action) = run.on_event(RunEventView::Row(Some(row)));
            let held = run.state is Descending && run.tables.len() > 0
                && run.tables[0].effective_range.contains(row.key);
            &&& !held ==> action == RunActionView::Done(Ok(Some(row))) && after.task is Idle
            &&& held && run.open ==> {
                &&& action == RunActionView::Next
                &&& after.group == seq![row]
                &&& after.task is FillRow
                &&& !after.crossed
            }
            &&& after.open == run.open || !run.open
        }),
        ({
            let (after, action) = run.on_event(RunEventView::Row(None));
            (after, action) == run.open_next(RunResume::Next)
        }),
{
}

/// While the versions of a key are collected, a row with that key joins them and
/// one with another key ends the collecting and waits for its own turn. The
/// version that is returned is the first collected, or the newest where they
/// come from several tables, and the others follow.
pub proof fn law_collected_versions_are_returned_in_order(run: RunModel, row: RowView)
    requires
        run.task is FillRow,
        run.group.len() > 0,
    ensures
        ({
            let (after, action) = run.on_event(RunEventView::Row(Some(row)));
            &&& row.key == run.group[0].key ==> {
                &&& action == RunActionView::Next
                &&& after.group == run.group.push(row)
                &&& after.task is FillRow
            }
            &&& row.key != run.group[0].key ==> {
                let versions = if run.crossed {
                    newest_first(run.group)
                } else {
                    run.group
                };
                &&& action == RunActionView::Done(Ok(Some(versions[0])))
                &&& after.buffered == versions.drop_first()
                &&& after.pending_entry == Some(row)
                &&& after.task is Idle
            }
        }),
        ({
            let (after, action) = run.on_event(RunEventView::Row(None));
            let more = run.tables.len() > 0 && run.tables[0].effective_range.contains(
                run.group[0].key,
            );
            &&& more ==> (after, action) == run.open_next(RunResume::Fill)
            &&& !more ==> {
                let versions = if run.crossed {
                    newest_first(run.group)
                } else {
                    run.group
                };
                &&& action == RunActionView::Done(Ok(Some(versions[0])))
                &&& after.buffered == versions.drop_first()
                &&& after.task is Idle
            }
        }),
{
}

/// A call of `seek` needs an initialized walk. Going up it passes over tables
/// while the next one starts before the key, going down while the next one ends
/// after it, and then moves the current table to the key. Going down it drops
/// what was read ahead.
pub proof fn law_a_seek_passes_over_tables_up_to_the_key(run: RunModel, key: Seq<u8>)
    requires
        run.task is Idle,
    ensures
        ({
            let (after, action) = run.seek(key);
            let starts_before = run.tables.len() > 0 && lex_lt(
                bound_key(run.tables[0].effective_range.start),
                key,
            );
            let ends_past = run.tables.len() > 0 && ends_after(run.tables[0], key);
            &&& run.state is Uninitialized ==> action == RunActionView::Done(
                Err(SlateDBError::IteratorNotInitialized),
            )
            &&& run.state is Ascending && !starts_before && run.open ==> action
                == RunActionView::Seek(key) && after.task is SeekAscending && after.tables
                == run.tables
            &&& run.state is Ascending && !starts_before && !run.open ==> action
                == RunActionView::Done(Ok(None))
            &&& run.state is Ascending && starts_before ==> (after, action) == (RunModel {
                seek_key: key,
                ..run
            }).open_next(RunResume::SeekAscending)
            &&& run.state is Descending && !ends_past && run.open ==> action
                == RunActionView::Seek(key) && after.task is SeekDescending && after.tables
                == run.tables
            &&& run.state is Descending && !ends_past && !run.open ==> action
                == RunActionView::Done(Ok(None)) && after.pending_seek == Some(key)
            &&& run.state is Descending ==> after.buffered.len() == 0 && after.pending_entry is None
            &&& run.state is Descending && action is Open ==> ends_past
            &&& run.state is Descending && ends_past && hidden_tables(run.tables, run.range)
                < run.tables.len() ==> action is Open
            &&& !(run.state is Uninitialized) ==> after.seek_key == key
        }),
{
    law_only_tables_without_a_key_to_see_are_passed_over(run.tables, run.range);
}

/// A failure ends the call with the very error, in whatever the walk was waiting
/// for. The one exception is a table that a descending seek asks for a key
/// before its range: the walk goes on with the next table.
pub proof fn law_a_failure_ends_the_call_with_its_error(run: RunModel, error: SlateDBError)
    requires
        !(run.task is Idle),
    ensures
        ({
            let (after, action) = run.on_event(RunEventView::Failed(error));
            let passed = run.task is SeekDescending && error is SeekKeyOutOfKeyRange;
            &&& !passed ==> action == RunActionView::Done(Err(error)) && after.task is Idle
                && after.tables == run.tables && after.open == run.open && after.buffered
                == run.buffered && after.pending_seek == run.pending_seek
            &&& passed ==> (after, action) == run.open_next(RunResume::RetryDescending)
        }),
{
}

/// A table that was opened is initialized before it is used, once the walk is
/// initialized itself; going down it is then moved to the key that was last
/// sought, where there is one. The first table of a walk waits for `init`.
pub proof fn law_an_opened_table_is_set_up_before_it_is_read(run: RunModel, resume: RunResume)
    ensures
        run.task == RunTask::Opening(resume) ==> {
            let (after, action) = run.on_event(RunEventView::Opened);
            &&& !(run.state is Uninitialized) || resume is New ==> after.open
            &&& !(run.state is Uninitialized) ==> action == RunActionView::Init && after.task
                == RunTask::Initializing(resume)
            &&& run.state is Uninitialized && resume is New ==> action == RunActionView::Done(
                Ok(None),
            )
        },
        run.task == RunTask::Initializing(resume) && run.state is Descending
            && run.pending_seek is Some ==> {
            let (after, action) = run.on_event(RunEventView::Ready);
            &&& action == RunActionView::Seek(run.pending_seek->0)
            &&& after.task == RunTask::Reseeking(resume)
            &&& after.pending_seek == run.pending_seek
        },
        run.task == RunTask::Initializing(resume) && !(run.state is Descending
            && run.pending_seek is Some) && resume is Next ==> run.on_event(RunEventView::Ready).1
            == RunActionView::Next && run.on_event(RunEventView::Ready).0.task is Row,
        run.task == RunTask::Reseeking(resume) && resume is Next ==> run.on_event(
            RunEventView::Ready,
        ).1 == RunActionView::Next && run.on_event(RunEventView::Ready).0.task is Row,
        run.task == RunTask::Reseeking(resume) && resume is Fill ==> run.on_event(
            RunEventView::Ready,
        ).0.crossed && run.on_event(RunEventView::Ready).0.group == run.group,
{
}

/// A table that was moved to the sought key ends the seek; going down, the key is
/// kept for the tables still to be opened. A table that was opened on the way is
/// passed over in turn while the next one starts before the key, going up, or
/// ends after it, going down.
pub proof fn law_a_seek_ends_at_the_table_moved_to_the_key(run: RunModel)
    ensures
        run.task is SeekAscending ==> {
            let (after, action) = run.on_event(RunEventView::Ready);
            &&& action == RunActionView::Done(Ok(None))
            &&& after.task is Idle && after.tables == run.tables && after.open == run.open
        },
        run.task is SeekDescending ==> {
            let (after, action) = run.on_event(RunEventView::Ready);
            &&& action == RunActionView::Done(Ok(None))
            &&& after.task is Idle && after.tables == run.tables && after.open == run.open
            &&& after.pending_seek == Some(run.seek_key)
        },
        run.task == RunTask::Initializing(RunResume::SeekAscending) && run.state is Ascending ==> {
            let (after, action) = run.on_event(RunEventView::Ready);
            let starts_before = run.tables.len() > 0 && lex_lt(
                bound_key(run.tables[0].effective_range.start),
                run.seek_key,
            );
            &&& starts_before ==> (after, action) == run.open_next(RunResume::SeekAscending)
            &&& !starts_before && run.open ==> action == RunActionView::Seek(run.seek_key)
                && after.task is SeekAscending && after.tables == run.tables
        },
        run.task == RunTask::Initializing(RunResume::SkipDescending) && run.state is Descending
            && run.pending_seek is None ==> {
            let (after, action) = run.on_event(RunEventView::Ready);
            let ends_past = run.tables.len() > 0 && ends_after(run.tables[0], run.seek_key);
            &&& ends_past ==> (after, action) == run.open_next(RunResume::SkipDescending)
            &&& !ends_past && run.open ==> action == RunActionView::Seek(run.seek_key)
                && after.task is SeekDescending && after.tables == run.tables
        },
        run.task == RunTask::Initializing(RunResume::RetryDescending) && run.state is Descending
            && run.pending_seek is None ==> {
            let (after, action) = run.on_event(RunEventView::Ready);
            action == RunActionView::Seek(run.seek_key) && after.task is SeekDescending
        },
{
}

/// Where no table is left to open, a call ends: `next` and an ascending `seek`
/// with nothing, a descending `seek` with the key kept, and the collecting of
/// versions with the newest of them.
pub proof fn law_a_run_without_tables_left_ends_the_call(run: RunModel, resume: RunResume)
    requires
        hidden_tables(run.tables, run.range) >= run.tables.len(),
        resume is Fill ==> run.group.len() > 0,
    ensures
        ({
            let (after, action) = run.open_next(resume);
            &&& !after.open && after.tables.len() == 0 && after.task is Idle
            &&& !(resume is Fill) ==> action == RunActionView::Done(Ok(None))
            &&& resume is Fill ==> {
                &&& action == RunActionView::Done(Ok(Some(newest_first(run.group)[0])))
                &&& after.buffered == newest_first(run.group).drop_first()
            }
            &&& resume is SkipDescending || resume is RetryDescending ==> after.pending_seek
                == Some(run.seek_key)
            &&& !(resume is SkipDescending || resume is RetryDescending) ==> after.pending_seek
                == run.pending_seek
        }),
{
}

/// Every answer that what is being waited for can have is taken up: that it was
/// done, or that it failed.
pub proof fn law_a_walk_takes_up_the_answers_to_what_it_asked(
    run: RunModel,
    row: Option<RowView>,
    error: SlateDBError,
)
    ensures
        run.fits(RunEventView::Failed(error)) <==> !(run.task is Idle),
        run.fits(RunEventView::Opened) <==> run.task is Opening,
        run.fits(RunEventView::Row(row)) <==> run.task is Row || run.task is FillRow,
        run.fits(RunEventView::Ready) <==> !(run.task is Idle) && !(run.task is Opening) && !(
        run.task is Row) && !(run.task is FillRow),
{
}

/// Initializing sets up the first table and lets the walk begin in its order; a
/// second call does nothing.
pub proof fn law_a_walk_is_initialized_once(run: RunModel)
    requires
        run.task is Idle,
    ensures
        ({
            let (after, action) = run.init();
            &&& run.state is Uninitialized && run.open ==> action == RunActionView::Init
                && after.task is Init
            &&& run.state is Uninitialized && !run.open ==> action == RunActionView::Done(Ok(None))
                && !(after.state is Uninitialized)
            &&& !(run.state is Uninitialized) ==> action == RunActionView::Done(Ok(None))
                && after.state == run.state && after.tables == run.tables && after.buffered
                == run.buffered && after.pending_seek == run.pending_seek
        }),
        run.initialized().state is Ascending <==> run.order is Ascending,
        run.initialized().state is Descending <==> run.order is Descending,
        run.initialized().tables == run.tables,
{
}

} // verus!
