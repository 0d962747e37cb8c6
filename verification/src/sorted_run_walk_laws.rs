//! What the calls of a whole walk over a sorted run return, from its start on.
use crate::bytes_range::RangeView;
use crate::db_state::TableView;
use crate::sorted_run_iterator::{hidden_tables, new_run, IterationOrder, RunActionView,
    RunEventView, RunModel, RunResume};
use crate::sorted_run_laws::{answers_left, by_key_and_age, delivers, descending_tables, front,
    has_key, joined, keys_down, law_ascending_walk_returns_every_row,
    law_descending_rows_are_ordered, law_descending_walk_returns_every_row,
    law_new_iterator_owes_every_row, law_next_call_ends, lemma_spans_open, reading, spans_cover,
    truthful, versions_down, RunRows};
use crate::types::RowView;
use vstd::prelude::*;
use vstd::seq_lib::*;

verus! {

/// Gives truthful answers until the call under way ends.
pub open spec fn finish(run: RunModel, rows: RunRows, action: RunActionView) -> (
    RunModel,
    RunRows,
    RunActionView,
)
    decreases answers_left(run, rows),
    via finish_decreases
{
    if action is Done || !reading(run) || !truthful(run, rows) {
        (run, rows, action)
    } else {
        let answered = rows.answered(run);
        let (after, next) = run.on_event(rows.answer(run));
        let left = answered.after(run, next);
        if next is Done {
            (after, left, next)
        } else {
            finish(after, left, next)
        }
    }
}

#[via_fn]
proof fn finish_decreases(run: RunModel, rows: RunRows, action: RunActionView) {
    if reading(run) && truthful(run, rows) {
        law_next_call_ends(run, rows);
    }
}

/// A whole call of `next`, up to its result.
pub open spec fn whole_call(run: RunModel, rows: RunRows) -> (RunModel, RunRows, RunActionView) {
    let (after, action) = run.next();
    finish(after, rows.after(run, action), action)
}

/// The rows that so many calls of `next` return, up to the first that returns none.
pub open spec fn walk(run: RunModel, rows: RunRows, calls: nat) -> Seq<RowView>
    decreases calls,
{
    if calls == 0 {
        Seq::empty()
    } else {
        let (after, left, action) = whole_call(run, rows);
        match action {
            RunActionView::Done(Ok(Some(row))) => seq![row] + walk(after, left, (calls - 1) as nat),
            _ => Seq::empty(),
        }
    }
}

/// The first rows of a sequence, or all where there are fewer.
pub open spec fn up_to(rows: Seq<RowView>, n: nat) -> Seq<RowView> {
    if n <= rows.len() {
        rows.take(n as int)
    } else {
        rows
    }
}

/// What each step of a walk keeps.
spec fn walking(run: RunModel, rows: RunRows) -> bool {
    &&& truthful(run, rows)
    &&& run.state is Ascending || run.state is Descending && descending_tables(run, rows)
}

/// Answers lead to the end of the call, which returns the first row owed.
proof fn lemma_finish(
    owed: Seq<RowView>,
    run: RunModel,
    rows: RunRows,
    action: RunActionView,
)
    requires
        walking(run, rows),
        delivers(owed, run, action, rows),
        action is Done ==> run.task is Idle,
        !(action is Done) ==> reading(run),
    ensures
        ({
            let (after, left, last) = finish(run, rows, action);
            &&& walking(after, left)
            &&& after.task is Idle
            &&& last is Done
            &&& delivers(owed, after, last, left)
        }),
    decreases answers_left(run, rows),
{
    if !(action is Done) {
        let answered = rows.answered(run);
        let (after, next) = run.on_event(rows.answer(run));
        let left = answered.after(run, next);
        law_next_call_ends(run, rows);
        if run.state is Ascending {
            law_ascending_walk_returns_every_row(run, rows);
        } else {
            law_descending_walk_returns_every_row(run, rows);
        }
        if !(next is Done) {
            lemma_finish(owed, after, left, next);
        }
    }
}

/// A whole call returns the first row owed.
proof fn lemma_whole_call(run: RunModel, rows: RunRows)
    requires
        walking(run, rows),
        run.task is Idle,
    ensures
        ({
            let (after, left, last) = whole_call(run, rows);
            &&& walking(after, left)
            &&& after.task is Idle
            &&& last is Done
            &&& delivers(rows.owed(run), after, last, left)
        }),
{
    let (first, action) = run.next();
    if run.state is Ascending {
        law_ascending_walk_returns_every_row(run, rows);
    } else {
        law_descending_walk_returns_every_row(run, rows);
    }
    lemma_finish(rows.owed(run), first, rows.after(run, action), action);
}

/// A walk returns the rows owed, in order.
proof fn lemma_walk(run: RunModel, rows: RunRows, calls: nat)
    requires
        walking(run, rows),
        run.task is Idle,
    ensures
        walk(run, rows, calls) == up_to(rows.owed(run), calls),
    decreases calls,
{
    let owed = rows.owed(run);
    if calls > 0 {
        lemma_whole_call(run, rows);
        let (after, left, last) = whole_call(run, rows);
        if owed.len() > 0 {
            lemma_walk(after, left, (calls - 1) as nat);
            lemma_up_to(owed, calls);
        } else {
            assert(walk(run, rows, calls) =~= up_to(owed, calls));
        }
    } else {
        assert(walk(run, rows, calls) =~= up_to(owed, calls));
    }
}

proof fn lemma_up_to(rows: Seq<RowView>, n: nat)
    requires
        rows.len() > 0,
        n > 0,
    ensures
        up_to(rows, n) == seq![rows[0]] + up_to(rows.drop_first(), (n - 1) as nat),
{
    assert(up_to(rows, n) =~= seq![rows[0]] + up_to(rows.drop_first(), (n - 1) as nat));
}

/// A new iterator over tables with those rows, in walking order, once it is
/// initialized.
pub open spec fn started(
    tables: Seq<TableView>,
    range: RangeView,
    owned: bool,
    order: IterationOrder,
    contents: Seq<Seq<RowView>>,
) -> (RunModel, RunRows) {
    let start = new_run(tables, range, owned, order);
    let (opening, open) = start.open_next(RunResume::New);
    let opened = if open is Open {
        opening.on_event(RunEventView::Opened).0
    } else {
        opening
    };
    let (initializing, init) = opened.init();
    let run = if init is Init {
        initializing.on_event(RunEventView::Ready).0
    } else {
        initializing
    };
    (run, RunRows { current: Seq::empty(), rest: contents }.after(start, open))
}

/// The tables in the order in which a walk opens them.
pub open spec fn in_walking_order(tables: Seq<TableView>, order: IterationOrder) -> Seq<
    TableView,
> {
    match order {
        IterationOrder::Ascending => tables,
        IterationOrder::Descending => tables.reverse(),
    }
}

/// One sequence of rows for each table in walking order, and none for a table of
/// which nothing may be read.
pub open spec fn contents_fit(
    tables: Seq<TableView>,
    range: RangeView,
    order: IterationOrder,
    contents: Seq<Seq<RowView>>,
) -> bool {
    let walked = in_walking_order(tables, order);
    &&& contents.len() == tables.len()
    &&& forall|i: int|
        0 <= i < walked.len() && (#[trigger] walked[i]).view_range(range) is None
            ==> contents[i].len() == 0
}

/// The rows of the tables from the last table to the first are in order: keys
/// only go down, each table has the versions of a key from the newest down, and
/// the ranges of the tables cover the keys that they share.
pub open spec fn ordered_down(tables: Seq<TableView>, contents: Seq<Seq<RowView>>) -> bool {
    &&& keys_down(joined(contents))
    &&& forall|i: int| 0 <= i < contents.len() ==> versions_down(#[trigger] contents[i])
    &&& forall|i: int, key: Seq<u8>|
        0 <= i < tables.len() && has_key(joined(contents.take(i)), key) && has_key(
            joined(contents.skip(i)),
            key,
        ) ==> #[trigger] tables.reverse()[i].effective_range.contains(key)
}

/// A new iterator's calls of `next` return the rows of its tables, all of them and
/// none twice: in ascending order one table after the other, and in descending
/// order with the keys going down and the versions of each key from the newest
/// down.
pub proof fn law_calls_return_the_rows(
    tables: Seq<TableView>,
    range: RangeView,
    owned: bool,
    order: IterationOrder,
    contents: Seq<Seq<RowView>>,
    calls: nat,
)
    requires
        contents_fit(tables, range, order, contents),
        order is Descending ==> ordered_down(tables, contents),
    ensures
        ({
            let (run, rows) = started(tables, range, owned, order, contents);
            walk(run, rows, calls) == up_to(
                match order {
                    IterationOrder::Ascending => joined(contents),
                    IterationOrder::Descending => by_key_and_age(joined(contents)),
                },
                calls,
            )
        }),
{
    let (run, rows) = started(tables, range, owned, order, contents);
    assert forall|i: int|
        0 <= i < tables.len() && (#[trigger] new_run(
            tables,
            range,
            owned,
            order,
        ).tables[i]).view_range(range) is None implies contents[i].len() == 0 by {
        assert(in_walking_order(tables, order)[i].view_range(range) is None);
    }
    law_new_iterator_owes_every_row(tables, range, owned, order, contents);
    if order is Descending {
        lemma_started_down(tables, range, owned, contents);
        assert(rows.owed(run) =~= by_key_and_age(joined(contents)));
    }
    lemma_walk(run, rows, calls);
}

/// A new descending iterator's tables are in order.
proof fn lemma_started_down(
    tables: Seq<TableView>,
    range: RangeView,
    owned: bool,
    contents: Seq<Seq<RowView>>,
)
    requires
        contents_fit(tables, range, IterationOrder::Descending, contents),
        ordered_down(tables, contents),
        ({
            let (run, rows) = started(tables, range, owned, IterationOrder::Descending, contents);
            rows.raw(run) == joined(contents)
        }),
    ensures
        ({
            let (run, rows) = started(tables, range, owned, IterationOrder::Descending, contents);
            descending_tables(run, rows)
        }),
{
    let order = IterationOrder::Descending;
    let start = new_run(tables, range, owned, order);
    let before = RunRows { current: Seq::empty(), rest: contents };
    let (opening, open) = start.open_next(RunResume::New);
    let (run, rows) = started(tables, range, owned, order, contents);
    assert(before.fits(start)) by {
        assert forall|i: int|
            0 <= i < start.tables.len() && (#[trigger] start.tables[i]).view_range(start.range)
                is None implies before.rest[i].len() == 0 by {
            assert(in_walking_order(tables, order)[i].view_range(range) is None);
        }
    }
    assert(front(start, before) =~= Seq::<RowView>::empty());
    assert(spans_cover(start, before)) by {
        assert forall|i: int, key: Seq<u8>|
            0 <= i < start.tables.len() && has_key(
                front(start, before) + joined(before.rest.take(i)),
                key,
            ) && has_key(joined(before.rest.skip(i)), key) implies
            #[trigger] start.tables[i].effective_range.contains(key) by {
            assert(front(start, before) + joined(before.rest.take(i)) =~= joined(contents.take(i)));
            assert(tables.reverse()[i].effective_range.contains(key));
        }
    }
    if hidden_tables(start.tables, start.range) < start.tables.len() {
        lemma_spans_open(start, before, RunResume::New);
        assert(front(run, rows) =~= front(opening, before.after(start, open)));
        assert(rows.live(run) =~= contents[hidden_tables(start.tables, start.range) as int]);
        assert(front(run, rows) =~= rows.live(run));
    } else {
        assert(front(run, rows) =~= Seq::<RowView>::empty());
        assert(rows.live(run) =~= Seq::<RowView>::empty());
    }
}

/// The rows of tables that hold the same rows, in either order of the tables, are
/// the same rows.
proof fn lemma_joined_reversed(up: Seq<Seq<RowView>>, down: Seq<Seq<RowView>>)
    requires
        up.len() == down.len(),
        forall|i: int|
            0 <= i < up.len() ==> (#[trigger] up[i]).to_multiset() == down[up.len() - 1
                - i].to_multiset(),
    ensures
        joined(up).to_multiset() == joined(down).to_multiset(),
    decreases up.len(),
{
    if up.len() > 0 {
        let rest = up.drop_first();
        let others = down.drop_last();
        assert forall|i: int| 0 <= i < rest.len() implies (#[trigger] rest[i]).to_multiset()
            == others[rest.len() - 1 - i].to_multiset() by {
            assert(rest[i] == up[i + 1]);
        }
        lemma_joined_reversed(rest, others);
        lemma_joined_last(down);
        lemma_multiset_commutative(up[0], joined(rest));
        lemma_multiset_commutative(joined(others), down.last());
        assert(up[0].to_multiset() == down[up.len() - 1].to_multiset());
        assert(joined(up).to_multiset() =~= joined(down).to_multiset());
    }
}

proof fn lemma_joined_last(tables: Seq<Seq<RowView>>)
    requires
        tables.len() > 0,
    ensures
        joined(tables) == joined(tables.drop_last()) + tables.last(),
    decreases tables.len(),
{
    let rest = tables.drop_first();
    if rest.len() == 0 {
        assert(rest =~= Seq::<Seq<RowView>>::empty());
        assert(tables.drop_last() =~= Seq::<Seq<RowView>>::empty());
        assert(joined(tables) =~= joined(tables.drop_last()) + tables.last());
    } else {
        lemma_joined_last(rest);
        assert(tables.drop_last().drop_first() =~= rest.drop_last());
        assert(tables.drop_last()[0] == tables[0]);
        assert(joined(tables) =~= joined(tables.drop_last()) + tables.last());
    }
}

/// Over the same tables, a descending walk returns the rows of an ascending walk in
/// another order, none lost and none added: the keys go down, and the versions of
/// each key go from the newest down.
pub proof fn law_descending_walk_permutes_the_ascending_one(
    tables: Seq<TableView>,
    range: RangeView,
    owned: bool,
    up: Seq<Seq<RowView>>,
    down: Seq<Seq<RowView>>,
    calls: nat,
)
    requires
        contents_fit(tables, range, IterationOrder::Ascending, up),
        contents_fit(tables, range, IterationOrder::Descending, down),
        forall|i: int|
            0 <= i < up.len() ==> (#[trigger] up[i]).to_multiset() == down[up.len() - 1
                - i].to_multiset(),
        ordered_down(tables, down),
        calls >= joined(up).len(),
    ensures
        ({
            let (ascending, rows_up) = started(
                tables,
                range,
                owned,
                IterationOrder::Ascending,
                up,
            );
            let (descending, rows_down) = started(
                tables,
                range,
                owned,
                IterationOrder::Descending,
                down,
            );
            let first = walk(ascending, rows_up, calls);
            let second = walk(descending, rows_down, calls);
            &&& first == joined(up)
            &&& second.to_multiset() == first.to_multiset()
            &&& second.len() == first.len()
            &&& keys_down(second)
            &&& versions_down(second)
        }),
{
    broadcast use group_to_multiset_ensures;

    let all_up = joined(up);
    let all_down = by_key_and_age(joined(down));
    law_calls_return_the_rows(tables, range, owned, IterationOrder::Ascending, up, calls);
    law_calls_return_the_rows(tables, range, owned, IterationOrder::Descending, down, calls);
    lemma_joined_reversed(up, down);
    law_descending_rows_are_ordered(joined(down));
    assert(all_up.len() == all_up.to_multiset().len());
    assert(all_down.len() == all_down.to_multiset().len());
    assert(up_to(all_up, calls) =~= all_up);
    assert(up_to(all_down, calls) =~= all_down);
}

} // verus!
