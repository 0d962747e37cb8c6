//! What holds of a whole run of a WAL replay, from its start to its end.
use crate::error::SlateDBError;
use crate::types::{RowMap, RowView};
use crate::wal_blocks::{blocks_error, blocks_rows, DecodedWalSst};
use crate::wal_replay::{batch_map, batch_seq, batch_tick, fetches, listed_size, plans, reservation,
    reserved_total, FetchOutcome, ReplayPhase, ReplayedMemtable, ReplayedWal, WalObjectPlan,
    WalReplayAction, WalReplayIterator, WalReplayStep};
use crate::wal_replay_laws::{law_last_seq_is_the_greatest, law_last_tick_is_the_greatest,
    law_newer_rows_are_replayed, law_replayed_rows_come_from_the_wal};
use vstd::prelude::*;

verus! {

/// What a replay is told.
pub enum ReplayInput {
    /// The next table is wanted.
    Next,
    /// What became of a fetch.
    Fetch(FetchOutcome),
    /// The WAL ends before the object waited for.
    Truncated,
    /// What became of a decoding.
    Decode(Result<DecodedWalSst, SlateDBError>),
    /// The estimated size of the table so far.
    Estimate(usize),
}

/// One step of a replay: what it was told, and what it did.
pub struct ReplayMove {
    pub before: WalReplayIterator,
    pub input: ReplayInput,
    pub after: WalReplayIterator,
    pub step: WalReplayStep,
}

impl ReplayMove {
    /// The step is one that the replay's functions take.
    pub open spec fn holds(self) -> bool {
        &&& self.before.wf()
        &&& self.after.wf()
        &&& match self.input {
            ReplayInput::Next => {
                &&& self.before.phase is Idle
                &&& self.after.next_stepped(&self.before, self.step)
            },
            ReplayInput::Fetch(outcome) => {
                &&& self.before.phase is Fetching
                &&& self.after.fetch_stepped(&self.before, outcome, self.step)
            },
            ReplayInput::Truncated => {
                &&& self.before.phase is Fetching
                &&& self.after.truncate_stepped(&self.before, self.step)
            },
            ReplayInput::Decode(outcome) => {
                &&& self.before.phase is Decoding
                &&& self.after.decode_stepped(&self.before, outcome, self.step)
            },
            ReplayInput::Estimate(bytes) => {
                &&& self.before.phase is Estimating
                &&& self.after.estimate_stepped(&self.before, bytes, self.step)
            },
        }
    }

    /// Storage answered well: the object was fetched and has the rows of
    /// `contents`, and the table was measured by `size`.
    pub open spec fn answered_well(
        self,
        contents: spec_fn(u64) -> Seq<RowView>,
        size: spec_fn(RowMap) -> usize,
    ) -> bool {
        match self.input {
            ReplayInput::Next => true,
            ReplayInput::Fetch(outcome) => outcome is Fetched,
            ReplayInput::Truncated => false,
            ReplayInput::Decode(outcome) => {
                &&& outcome matches Ok(decoded)
                &&& blocks_error(decoded.blocks()) is None
                &&& blocks_rows(decoded.blocks()) == contents(self.before.phase->Decoding_0.wal_id)
            },
            ReplayInput::Estimate(bytes) => bytes == size(self.before.table@@),
        }
    }
}

/// Where a run has come to.
pub open spec fn reached(start: WalReplayIterator, run: Seq<ReplayMove>) -> WalReplayIterator {
    if run.len() == 0 {
        start
    } else {
        run.last().after
    }
}

/// The steps follow one another from the start.
pub open spec fn run_holds(start: WalReplayIterator, run: Seq<ReplayMove>) -> bool
    decreases run.len(),
{
    run.len() > 0 ==> {
        &&& run_holds(start, run.drop_last())
        &&& run.last().holds()
        &&& run.last().before == reached(start, run.drop_last())
    }
}

/// Storage answered well throughout.
pub open spec fn all_answered_well(
    run: Seq<ReplayMove>,
    contents: spec_fn(u64) -> Seq<RowView>,
    size: spec_fn(RowMap) -> usize,
) -> bool {
    forall|i: int| 0 <= i < run.len() ==> (#[trigger] run[i]).answered_well(contents, size)
}

/// The tables that a run handed out, in order.
pub open spec fn tables_of(run: Seq<ReplayMove>) -> Seq<ReplayedMemtable>
    decreases run.len(),
{
    if run.len() == 0 {
        Seq::empty()
    } else {
        let before = tables_of(run.drop_last());
        match run.last().step.action {
            WalReplayAction::Done(Ok(Some(table))) => before.push(table),
            _ => before,
        }
    }
}

/// A replay as it is created, before any step, of a range whose IDs are not zero.
pub open spec fn is_start(start: WalReplayIterator) -> bool {
    &&& start.wf()
    &&& start.phase is Idle
    &&& start.failed is None
    &&& !start.current_iter.initialized
    &&& start.history@.len() == 0
    &&& 1 <= start.wal_id_range.start <= start.wal_id_range.end
}

/// The objects with IDs from `from` up to `to`, which is left out.
pub open spec fn objects(contents: spec_fn(u64) -> Seq<RowView>, from: int, to: int) -> Seq<
    ReplayedWal,
> {
    Seq::new(
        (to - from) as nat,
        |i: int| ReplayedWal { wal_id: (from + i) as u64, rows: contents((from + i) as u64) },
    )
}

/// The first ID that a table covers: the one after the table before it.
pub open spec fn first_of(start: WalReplayIterator, tables: Seq<ReplayedMemtable>, i: int) -> int {
    if i == 0 {
        start.wal_id_range.start as int
    } else {
        tables[i - 1].last_wal_id + 1
    }
}

/// The rows of a table, as a map.
pub open spec fn rows_between(
    start: WalReplayIterator,
    contents: spec_fn(u64) -> Seq<RowView>,
    from: int,
    to: int,
) -> RowMap {
    batch_map(objects(contents, from, to), start.min_seq)
}

/// A table of a run holds exactly the newer rows of the objects after the table
/// before it up to its own last one and no recorded segments, it reports the greatest tick and sequence
/// number so far, and it was cut where it had to be: at the first object at which
/// it has rows and reaches the target size, or else at the end of the range.
pub open spec fn table_described(
    start: WalReplayIterator,
    tables: Seq<ReplayedMemtable>,
    contents: spec_fn(u64) -> Seq<RowView>,
    size: spec_fn(RowMap) -> usize,
    i: int,
) -> bool {
    let first = first_of(start, tables, i);
    let table = tables[i];
    let end = table.last_wal_id + 1;
    let target = start.options.max_memtable_bytes;
    let seen = objects(contents, start.wal_id_range.start as int, end);
    &&& first < end <= start.wal_id_range.end
    &&& table.table@@ == rows_between(start, contents, first, end)
    &&& table.table@.segments() == Set::<Seq<u8>>::empty()
    &&& table.last_tick == batch_tick(start.origin@.0, seen, start.min_seq)
    &&& table.last_seq == batch_seq(start.origin@.1, seen, start.min_seq)
    &&& {
        ||| table.table@@ != RowMap::empty() && size(table.table@@) >= target
        ||| end == start.wal_id_range.end
    }
    &&& forall|wal_id: int|
        first <= wal_id < table.last_wal_id ==> short_of_target(
            start,
            size,
            #[trigger] rows_between(start, contents, first, wal_id + 1),
        )
}

/// A table without rows, or under the target size.
pub open spec fn short_of_target(
    start: WalReplayIterator,
    size: spec_fn(RowMap) -> usize,
    rows: RowMap,
) -> bool {
    rows == RowMap::empty() || size(rows) < start.options.max_memtable_bytes
}

/// What holds after every step of a run.
spec fn run_invariant(
    start: WalReplayIterator,
    run: Seq<ReplayMove>,
    contents: spec_fn(u64) -> Seq<RowView>,
    size: spec_fn(RowMap) -> usize,
) -> bool {
    let now = reached(start, run);
    let tables = tables_of(run);
    let low = start.wal_id_range.start as int;
    let begun = low + now.emitted@;
    let done = low + now.history@.len();
    &&& now.wf()
    &&& now.failed is None
    &&& now.wal_id_range == start.wal_id_range
    &&& now.options == start.options
    &&& now.min_seq == start.min_seq
    &&& now.origin == start.origin
    &&& now.history@ == objects(contents, low, done)
    &&& begun == if tables.len() == 0 {
        low
    } else {
        tables.last().last_wal_id + 1
    }
    &&& forall|i: int|
        0 <= i < tables.len() ==> #[trigger] table_described(start, tables, contents, size, i)
    &&& !(now.phase is Idle) ==> forall|to: int|
        begun < to < done || (to == done && begun < done && !(now.phase is Estimating))
            ==> short_of_target(start, size, #[trigger] rows_between(start, contents, begun, to))
}

/// A run from the start keeps its invariant.
#[verifier::rlimit(60)]
proof fn lemma_run(
    start: WalReplayIterator,
    run: Seq<ReplayMove>,
    contents: spec_fn(u64) -> Seq<RowView>,
    size: spec_fn(RowMap) -> usize,
)
    requires
        is_start(start),
        run_holds(start, run),
        all_answered_well(run, contents, size),
    ensures
        run_invariant(start, run, contents, size),
    decreases run.len(),
{
    let low = start.wal_id_range.start as int;
    if run.len() == 0 {
        assert(start.history@ =~= objects(contents, low, low));
    } else {
        let earlier = run.drop_last();
        let last = run.last();
        assert forall|i: int| 0 <= i < earlier.len() implies (
        #[trigger] earlier[i]).answered_well(contents, size) by {
            assert(earlier[i] == run[i]);
        }
        lemma_run(start, earlier, contents, size);
        assert(run[run.len() - 1].answered_well(contents, size));
        lemma_move(start, earlier, last, contents, size);
        assert(earlier.push(last) =~= run);
    }
}

/// One more step keeps the invariant.
#[verifier::rlimit(80)]
proof fn lemma_move(
    start: WalReplayIterator,
    run: Seq<ReplayMove>,
    last: ReplayMove,
    contents: spec_fn(u64) -> Seq<RowView>,
    size: spec_fn(RowMap) -> usize,
)
    requires
        is_start(start),
        run_invariant(start, run, contents, size),
        last.holds(),
        last.before == reached(start, run),
        last.answered_well(contents, size),
    ensures
        run_invariant(start, run.push(last), contents, size),
{
    let longer = run.push(last);
    assert(longer.drop_last() =~= run);
    assert(longer.last() == last);
    let before = last.before;
    let after = last.after;
    let low = start.wal_id_range.start as int;
    match last.input {
        ReplayInput::Next => {},
        ReplayInput::Fetch(_) => {},
        ReplayInput::Truncated => {},
        ReplayInput::Decode(_) => {
            lemma_decode_move(start, run, last, contents, size);
        },
        ReplayInput::Estimate(bytes) => {
            let begun = low + before.emitted@;
            let done = low + before.history@.len();
            lemma_batch(start, before, contents);
            assert(before.table@@ == rows_between(start, contents, begun, done));
            if before.history@.len() == before.emitted@ {
                assert(before.history@.skip(before.emitted@ as int) =~= Seq::<ReplayedWal>::empty());
            }
            if let WalReplayAction::Done(Ok(Some(table))) = last.step.action {
                let tables = tables_of(run);
                let all = tables.push(table);
                assert(tables_of(longer) == all);
                assert(before.history@.last() == before.history@[before.history@.len() - 1]);
                assert(table.last_wal_id + 1 == done);
                assert(table_described(start, all, contents, size, tables.len() as int)) by {
                    assert forall|wal_id: int|
                        begun <= wal_id < table.last_wal_id implies short_of_target(
                        start,
                        size,
                        #[trigger] rows_between(start, contents, begun, wal_id + 1),
                    ) by {
                        assert(begun < wal_id + 1 < done);
                    }
                }
                assert forall|i: int| 0 <= i < all.len() implies #[trigger] table_described(
                    start,
                    all,
                    contents,
                    size,
                    i,
                ) by {
                    if i < tables.len() {
                        assert(table_described(start, tables, contents, size, i));
                        assert(all[i] == tables[i]);
                        assert(first_of(start, all, i) == first_of(start, tables, i));
                    }
                }
            }
        },
    }
}

/// The rows of the table being built are those of the objects since the last cut.
proof fn lemma_batch(
    start: WalReplayIterator,
    now: WalReplayIterator,
    contents: spec_fn(u64) -> Seq<RowView>,
)
    requires
        now.wf(),
        now.failed is None,
        !(now.phase is Idle),
        now.min_seq == start.min_seq,
        now.wal_id_range == start.wal_id_range,
        ({
            let low = start.wal_id_range.start as int;
            now.history@ == objects(contents, low, low + now.history@.len())
        }),
    ensures
        ({
            let low = start.wal_id_range.start as int;
            now.table@@ == rows_between(
                start,
                contents,
                low + now.emitted@,
                low + now.history@.len(),
            )
        }),
{
    let low = start.wal_id_range.start as int;
    assert(now.history@.skip(now.emitted@ as int) =~= objects(
        contents,
        low + now.emitted@,
        low + now.history@.len(),
    ));
}

/// Taking up an object adds it to those that were replayed.
#[verifier::rlimit(60)]
proof fn lemma_decode_move(
    start: WalReplayIterator,
    run: Seq<ReplayMove>,
    last: ReplayMove,
    contents: spec_fn(u64) -> Seq<RowView>,
    size: spec_fn(RowMap) -> usize,
)
    requires
        is_start(start),
        run_invariant(start, run, contents, size),
        last.holds(),
        last.before == reached(start, run),
        last.answered_well(contents, size),
        last.input is Decode,
    ensures
        run_invariant(start, run.push(last), contents, size),
{
    let longer = run.push(last);
    assert(longer.drop_last() =~= run);
    assert(longer.last() == last);
    let before = last.before;
    let after = last.after;
    let low = start.wal_id_range.start as int;
    let done = low + before.history@.len();
    assert(before.phase->Decoding_0.wal_id == done);
    assert(after.history@ =~= objects(contents, low, done + 1));
    assert(tables_of(longer) == tables_of(run));
}

/// A whole replay: the tables of a run cover consecutive runs of objects without
/// gap or overlap, each holds exactly the newer rows of its objects, each was cut
/// at the first object that reaches the target size, and once there is nothing
/// more, the objects of the whole range have been handed out.
pub proof fn law_run_hands_out_every_object(
    start: WalReplayIterator,
    run: Seq<ReplayMove>,
    contents: spec_fn(u64) -> Seq<RowView>,
    size: spec_fn(RowMap) -> usize,
)
    requires
        is_start(start),
        run_holds(start, run),
        all_answered_well(run, contents, size),
    ensures
        ({
            let tables = tables_of(run);
            let now = reached(start, run);
            &&& forall|i: int|
                0 <= i < tables.len() ==> #[trigger] table_described(
                    start,
                    tables,
                    contents,
                    size,
                    i,
                )
            &&& forall|i: int, j: int|
                0 <= i < j < tables.len() ==> (#[trigger] tables[i]).last_wal_id < (
                #[trigger] tables[j]).last_wal_id
            &&& now.phase is Idle && now.current_iter.finished() ==> {
                &&& tables.len() >= 1 <==> start.wal_id_range.start < start.wal_id_range.end
                &&& tables.len() >= 1 ==> tables.last().last_wal_id + 1 == start.wal_id_range.end
            }
        }),
{
    lemma_run(start, run, contents, size);
    let tables = tables_of(run);
    assert forall|i: int, j: int| 0 <= i < j < tables.len() implies (
    #[trigger] tables[i]).last_wal_id < (#[trigger] tables[j]).last_wal_id by {
        lemma_increasing(start, tables, contents, size, i, j);
    }
    if tables.len() > 0 {
        assert(table_described(start, tables, contents, size, tables.len() - 1));
        lemma_first(start, tables, contents, size, tables.len() - 1);
    }
}

/// Where the WAL turns out to end before an object, the tables handed out by then
/// hold exactly the newer rows of all objects before it, without gap or overlap.
pub proof fn law_truncated_run_hands_out_every_earlier_object(
    start: WalReplayIterator,
    run: Seq<ReplayMove>,
    last: ReplayMove,
    contents: spec_fn(u64) -> Seq<RowView>,
    size: spec_fn(RowMap) -> usize,
)
    requires
        is_start(start),
        run_holds(start, run.push(last)),
        all_answered_well(run, contents, size),
        last.input is Truncated,
    ensures
        ({
            let tables = tables_of(run.push(last));
            let wal_id = last.before.phase->Fetching_0.wal_id;
            &&& start.wal_id_range.start <= wal_id < start.wal_id_range.end
            &&& tables.len() >= 1 <==> start.wal_id_range.start < wal_id
            &&& tables.len() >= 1 ==> tables.last().last_wal_id + 1 == wal_id
            &&& forall|i: int|
                0 <= i < tables.len() ==> {
                    let first = first_of(start, tables, i);
                    &&& first <= (#[trigger] tables[i]).last_wal_id
                    &&& tables[i].table@@ == rows_between(
                        start,
                        contents,
                        first,
                        tables[i].last_wal_id + 1,
                    )
                }
        }),
{
    let longer = run.push(last);
    assert(longer.drop_last() =~= run);
    assert(longer.last() == last);
    lemma_run(start, run, contents, size);
    let before = last.before;
    let low = start.wal_id_range.start as int;
    let done = low + before.history@.len();
    let earlier = tables_of(run);
    let tables = tables_of(longer);
    assert(before.phase->Fetching_0.wal_id == done);
    lemma_batch(start, before, contents);
    if earlier.len() > 0 {
        assert(table_described(start, earlier, contents, size, earlier.len() - 1));
        lemma_first(start, earlier, contents, size, earlier.len() - 1);
    }
    if before.last_wal_id > 0 {
        assert(before.history@.last() == before.history@[before.history@.len() - 1]);
    }
    assert forall|i: int| 0 <= i < tables.len() implies {
        let first = first_of(start, tables, i);
        &&& first <= (#[trigger] tables[i]).last_wal_id
        &&& tables[i].table@@ == rows_between(
            start,
            contents,
            first,
            tables[i].last_wal_id + 1,
        )
    } by {
        if i < earlier.len() {
            assert(table_described(start, earlier, contents, size, i));
            assert(tables[i] == earlier[i]);
            assert(first_of(start, tables, i) == first_of(start, earlier, i));
        }
    }
}

/// Later tables end later.
proof fn lemma_increasing(
    start: WalReplayIterator,
    tables: Seq<ReplayedMemtable>,
    contents: spec_fn(u64) -> Seq<RowView>,
    size: spec_fn(RowMap) -> usize,
    i: int,
    j: int,
)
    requires
        forall|k: int|
            0 <= k < tables.len() ==> #[trigger] table_described(start, tables, contents, size, k),
        0 <= i < j < tables.len(),
    ensures
        tables[i].last_wal_id < tables[j].last_wal_id,
    decreases j - i,
{
    assert(table_described(start, tables, contents, size, j));
    if i + 1 < j {
        lemma_increasing(start, tables, contents, size, i, j - 1);
    }
}

/// Every table but the last was cut because it has rows and reached the target
/// size, and no table could have been cut at an earlier object.
pub proof fn law_tables_are_cut_at_the_first_boundary_that_reaches_the_target(
    start: WalReplayIterator,
    run: Seq<ReplayMove>,
    contents: spec_fn(u64) -> Seq<RowView>,
    size: spec_fn(RowMap) -> usize,
    i: int,
)
    requires
        is_start(start),
        run_holds(start, run),
        all_answered_well(run, contents, size),
        0 <= i < tables_of(run).len(),
    ensures
        ({
            let tables = tables_of(run);
            let target = start.options.max_memtable_bytes;
            let first = first_of(start, tables, i);
            &&& i < tables.len() - 1 ==> tables[i].table@@ != RowMap::empty() && size(
                tables[i].table@@,
            ) >= target
            &&& forall|wal_id: int|
                first <= wal_id < tables[i].last_wal_id ==> {
                    let rows = #[trigger] rows_between(start, contents, first, wal_id + 1);
                    rows == RowMap::empty() || size(rows) < target
                }
        }),
{
    lemma_run(start, run, contents, size);
    let tables = tables_of(run);
    assert(table_described(start, tables, contents, size, i));
    if i < tables.len() - 1 {
        assert(table_described(start, tables, contents, size, i + 1));
    }
    let first = first_of(start, tables, i);
    assert forall|wal_id: int| first <= wal_id < tables[i].last_wal_id implies {
        let rows = #[trigger] rows_between(start, contents, first, wal_id + 1);
        rows == RowMap::empty() || size(rows) < start.options.max_memtable_bytes
    } by {
        assert(short_of_target(
            start,
            size,
            rows_between(start, contents, first, wal_id + 1),
        ));
    }
}

/// The fetches that a run started, in order.
pub open spec fn starts_of(run: Seq<ReplayMove>) -> Seq<WalObjectPlan>
    decreases run.len(),
{
    if run.len() == 0 {
        Seq::empty()
    } else {
        starts_of(run.drop_last()) + run.last().step.start@
    }
}

/// A replay as it is created under a listing: the first fetches follow the
/// listing, and the sizes of the other objects are known from it.
pub open spec fn is_listed_start(start: WalReplayIterator, listed: Seq<(u64, u64)>) -> bool {
    let limit = start.options.prefetch.max_inflight_bytes;
    let count = start.pending_fetches@.len() as int;
    &&& start.wf()
    &&& start.phase is Idle
    &&& start.pending_fetches@ == fetches(start.wal_id_range.start, count, listed, limit)
    &&& start.next_wal_id == start.wal_id_range.start + count
    &&& sizes_known(start, listed)
}

/// The sizes of the objects still to be fetched are those of a listing.
pub open spec fn sizes_known(now: WalReplayIterator, listed: Seq<(u64, u64)>) -> bool {
    forall|wal_id: u64|
        now.next_wal_id <= wal_id ==> #[trigger] listed_size(now.listed_sizes@, wal_id)
            == listed_size(listed, wal_id)
}

/// The bytes reserved for an object are those of its listed size.
pub open spec fn reserved_by_listing(
    now: WalReplayIterator,
    listed: Seq<(u64, u64)>,
    wal_id: u64,
    reserved_bytes: usize,
) -> bool {
    reserved_bytes == reservation(
        listed_size(listed, wal_id),
        now.options.prefetch.max_inflight_bytes,
    )
}

/// Every object that is fetched, decoded or replayed holds the bytes of its listed
/// size.
pub open spec fn follows_listing(now: WalReplayIterator, listed: Seq<(u64, u64)>) -> bool {
    &&& forall|i: int|
        0 <= i < now.pending_fetches@.len() ==> {
            let wal = #[trigger] now.pending_fetches@[i];
            reserved_by_listing(now, listed, wal.wal_id, wal.reserved_bytes)
        }
    &&& match now.phase {
        ReplayPhase::Fetching(wal) | ReplayPhase::Decoding(wal) => reserved_by_listing(
            now,
            listed,
            wal.wal_id,
            wal.reserved_bytes,
        ),
        _ => true,
    }
    &&& now.current_iter.current_iter matches Some(wal) ==> reserved_by_listing(
        now,
        listed,
        wal.wal_id,
        wal.reserved_bytes,
    )
}

/// Fetches of consecutive objects under two listings that agree on them are the
/// same.
proof fn lemma_same_fetches(
    first: u64,
    count: int,
    known: Seq<(u64, u64)>,
    listed: Seq<(u64, u64)>,
    limit: usize,
)
    requires
        0 <= count,
        first + count <= u64::MAX,
        forall|wal_id: u64|
            first <= wal_id ==> #[trigger] listed_size(known, wal_id) == listed_size(
                listed,
                wal_id,
            ),
    ensures
        plans(first, count, known) == plans(first, count, listed),
        fetches(first, count, known, limit) == fetches(first, count, listed, limit),
{
    assert(plans(first, count, known) =~= plans(first, count, listed));
    assert(fetches(first, count, known, limit) =~= fetches(first, count, listed, limit));
}

/// One step keeps to the listing.
#[verifier::rlimit(60)]
proof fn lemma_listed_move(last: ReplayMove, listed: Seq<(u64, u64)>)
    requires
        last.holds(),
        sizes_known(last.before, listed),
        follows_listing(last.before, listed),
    ensures
        sizes_known(last.after, listed),
        follows_listing(last.after, listed),
        last.after.options == last.before.options,
        last.before.next_wal_id <= last.after.next_wal_id,
        last.step.start@ == plans(
            last.before.next_wal_id,
            last.after.next_wal_id - last.before.next_wal_id,
            listed,
        ),
{
    let before = last.before;
    let after = last.after;
    let limit = before.options.prefetch.max_inflight_bytes;
    let count = last.step.start@.len() as int;
    let none = plans(before.next_wal_id, 0, listed);
    assert(none =~= Seq::<WalObjectPlan>::empty());
    if count == 0 {
        assert(last.step.start@ =~= none);
    }
    let goes_on = match last.input {
        ReplayInput::Next => before.failed is None && !before.current_iter.finished(),
        ReplayInput::Decode(outcome) => outcome is Ok,
        ReplayInput::Estimate(bytes) => before.table@@ == RowMap::empty() || bytes
            < before.options.max_memtable_bytes,
        _ => false,
    };
    if goes_on {
        assert(after.next_wal_id == before.next_wal_id + count);
        lemma_same_fetches(before.next_wal_id, count, before.listed_sizes@, listed, limit);
        let added = fetches(before.next_wal_id, count, listed, limit);
        let queue = before.pending_fetches@ + added;
        assert forall|i: int| 0 <= i < queue.len() implies {
            let wal = #[trigger] queue[i];
            reserved_by_listing(before, listed, wal.wal_id, wal.reserved_bytes)
        } by {
            if i < before.pending_fetches@.len() {
                assert(queue[i] == before.pending_fetches@[i]);
            } else {
                assert(queue[i] == added[i - before.pending_fetches@.len()]);
            }
        }
        assert forall|i: int| 0 <= i < after.pending_fetches@.len() implies {
            let wal = #[trigger] after.pending_fetches@[i];
            reserved_by_listing(after, listed, wal.wal_id, wal.reserved_bytes)
        } by {
            if after.phase is Fetching {
                assert(after.pending_fetches@[i] == queue[i + 1]);
            } else {
                assert(after.pending_fetches@[i] == queue[i]);
            }
        }
        if after.phase is Fetching {
            assert(after.phase->Fetching_0 == queue[0]);
        }
    }
}

/// Every fetch that a run starts expects the size that the listing gives for its
/// object, each object is started once and in order, and as long as an object is
/// fetched or replayed the bytes of its listed size stay reserved. All
/// reservations together stay within the limit, so the limit is one on the bytes
/// of the listed objects.
pub proof fn law_run_follows_the_listing(
    start: WalReplayIterator,
    listed: Seq<(u64, u64)>,
    run: Seq<ReplayMove>,
)
    requires
        is_listed_start(start, listed),
        run_holds(start, run),
    ensures
        ({
            let now = reached(start, run);
            let limit = start.options.prefetch.max_inflight_bytes;
            &&& now.options == start.options
            &&& start.next_wal_id <= now.next_wal_id
            &&& starts_of(run) == plans(
                start.next_wal_id,
                now.next_wal_id - start.next_wal_id,
                listed,
            )
            &&& sizes_known(now, listed)
            &&& follows_listing(now, listed)
            &&& now.available_bytes + reserved_total(now.pending_fetches@) + now.held_bytes()
                == limit
        }),
        forall|i: int, j: int|
            0 <= i < run.len() && 0 <= j < run[i].step.start@.len() ==> (
            #[trigger] run[i].step.start@[j]).expected_size == listed_size(
                listed,
                run[i].step.start@[j].wal_id,
            ),
    decreases run.len(),
{
    if run.len() == 0 {
        assert(starts_of(run) =~= plans(start.next_wal_id, 0, listed));
    } else {
        let earlier = run.drop_last();
        let last = run.last();
        law_run_follows_the_listing(start, listed, earlier);
        lemma_listed_move(last, listed);
        let middle = last.before.next_wal_id;
        let done = last.after.next_wal_id;
        assert(starts_of(run) =~= plans(start.next_wal_id, done - start.next_wal_id, listed));
        assert forall|i: int, j: int|
            0 <= i < run.len() && 0 <= j < run[i].step.start@.len() implies (
        #[trigger] run[i].step.start@[j]).expected_size == listed_size(
            listed,
            run[i].step.start@[j].wal_id,
        ) by {
            if i < earlier.len() {
                assert(earlier[i] == run[i]);
                assert(earlier[i].step.start@[j] == run[i].step.start@[j]);
            } else {
                assert(run[i] == last);
                assert(last.step.start@[j] == plans(middle, done - middle, listed)[j]);
            }
        }
    }
}

/// A table of a run holds a row for exactly the keys and sequence numbers of the
/// newer rows of its objects.
pub proof fn law_run_tables_hold_the_newer_rows(
    start: WalReplayIterator,
    run: Seq<ReplayMove>,
    contents: spec_fn(u64) -> Seq<RowView>,
    size: spec_fn(RowMap) -> usize,
    i: int,
    id: (Seq<u8>, u64),
)
    requires
        is_start(start),
        run_holds(start, run),
        all_answered_well(run, contents, size),
        0 <= i < tables_of(run).len(),
    ensures
        ({
            let tables = tables_of(run);
            let first = first_of(start, tables, i);
            tables[i].table@@.contains_key(id) <==> exists|wal_id: u64, j: int|
                {
                    &&& first <= wal_id <= tables[i].last_wal_id
                    &&& 0 <= j < contents(wal_id).len()
                    &&& (#[trigger] contents(wal_id)[j]).id() == id
                    &&& id.1 > start.min_seq
                }
        }),
{
    lemma_run(start, run, contents, size);
    let tables = tables_of(run);
    assert(table_described(start, tables, contents, size, i));
    let first = first_of(start, tables, i);
    let end = tables[i].last_wal_id + 1;
    lemma_first(start, tables, contents, size, i);
    let wals = objects(contents, first, end);
    if tables[i].table@@.contains_key(id) {
        law_replayed_rows_come_from_the_wal(wals, start.min_seq, id);
        let (k, j) = choose|k: int, j: int|
            0 <= k < wals.len() && 0 <= j < wals[k].rows.len() && #[trigger] wals[k].rows[j]
                == batch_map(wals, start.min_seq)[id];
        let wal_id = (first + k) as u64;
        assert(contents(wal_id)[j].id() == id);
    }
    if exists|wal_id: u64, j: int|
        {
            &&& first <= wal_id <= tables[i].last_wal_id
            &&& 0 <= j < contents(wal_id).len()
            &&& (#[trigger] contents(wal_id)[j]).id() == id
            &&& id.1 > start.min_seq
        } {
        let (wal_id, j) = choose|wal_id: u64, j: int|
            {
                &&& first <= wal_id <= tables[i].last_wal_id
                &&& 0 <= j < contents(wal_id).len()
                &&& (#[trigger] contents(wal_id)[j]).id() == id
                &&& id.1 > start.min_seq
            };
        assert(wals[wal_id - first].rows == contents(wal_id));
        law_newer_rows_are_replayed(wals, start.min_seq, wal_id - first, j);
    }
}

/// The first ID of a table is at least the start of the range.
proof fn lemma_first(
    start: WalReplayIterator,
    tables: Seq<ReplayedMemtable>,
    contents: spec_fn(u64) -> Seq<RowView>,
    size: spec_fn(RowMap) -> usize,
    i: int,
)
    requires
        forall|k: int|
            0 <= k < tables.len() ==> #[trigger] table_described(start, tables, contents, size, k),
        0 <= i < tables.len(),
    ensures
        start.wal_id_range.start <= first_of(start, tables, i),
    decreases i,
{
    if i > 0 {
        lemma_first(start, tables, contents, size, i - 1);
        assert(table_described(start, tables, contents, size, i - 1));
    }
}

/// An object before the end of a table is in that table or an earlier one.
proof fn lemma_table_of(
    start: WalReplayIterator,
    tables: Seq<ReplayedMemtable>,
    contents: spec_fn(u64) -> Seq<RowView>,
    size: spec_fn(RowMap) -> usize,
    i: int,
    wal_id: int,
) -> (j: int)
    requires
        forall|k: int|
            0 <= k < tables.len() ==> #[trigger] table_described(start, tables, contents, size, k),
        0 <= i < tables.len(),
        start.wal_id_range.start <= wal_id <= tables[i].last_wal_id,
    ensures
        0 <= j <= i,
        first_of(start, tables, j) <= wal_id <= tables[j].last_wal_id,
    decreases i,
{
    if first_of(start, tables, i) <= wal_id {
        i
    } else {
        lemma_table_of(start, tables, contents, size, i - 1, wal_id)
    }
}

/// The sequence number that a table reports is the greatest of the manifest's and
/// of all rows in this table and those before it, so it never goes back.
pub proof fn law_reported_seq_is_the_greatest(
    start: WalReplayIterator,
    run: Seq<ReplayMove>,
    contents: spec_fn(u64) -> Seq<RowView>,
    size: spec_fn(RowMap) -> usize,
    i: int,
)
    requires
        is_start(start),
        run_holds(start, run),
        all_answered_well(run, contents, size),
        0 <= i < tables_of(run).len(),
    ensures
        ({
            let tables = tables_of(run);
            let reported = tables[i].last_seq;
            &&& start.origin@.1 <= reported
            &&& forall|j: int| 0 <= j <= i ==> (#[trigger] tables[j]).last_seq <= reported
            &&& forall|j: int, id: (Seq<u8>, u64)|
                0 <= j <= i && #[trigger] tables[j].table@@.contains_key(id) ==> id.1 <= reported
            &&& reported == start.origin@.1 || exists|j: int, id: (Seq<u8>, u64)|
                0 <= j <= i && #[trigger] tables[j].table@@.contains_key(id) && id.1 == reported
        }),
    decreases i,
{
    lemma_run(start, run, contents, size);
    let tables = tables_of(run);
    let reported = tables[i].last_seq;
    let low = start.wal_id_range.start as int;
    assert(table_described(start, tables, contents, size, i));
    let seen = objects(contents, low, tables[i].last_wal_id + 1);
    law_last_seq_is_the_greatest(start.origin@.1, seen, start.min_seq);
    assert forall|j: int, id: (Seq<u8>, u64)|
        0 <= j <= i && #[trigger] tables[j].table@@.contains_key(id) implies id.1 <= reported by {
        let (k, r) = lemma_row_source(start, run, contents, size, i, j, id);
        assert(seen[k].rows[r].seq <= reported);
    }
    if reported != start.origin@.1 {
        let (k, r) = choose|k: int, r: int|
            0 <= k < seen.len() && 0 <= r < seen[k].rows.len() && (#[trigger] seen[k].rows[r]).seq
                > start.min_seq && seen[k].rows[r].seq == reported;
        let row = seen[k].rows[r];
        let j = lemma_row_table(start, run, contents, size, i, k, r);
        assert(tables[j].table@@.contains_key(row.id()));
    }
    assert forall|j: int| 0 <= j <= i implies (#[trigger] tables[j]).last_seq <= reported by {
        if j < i {
            law_reported_seq_is_the_greatest(start, run, contents, size, j);
        }
    }
}

/// A row of a table is a row of an object seen by then.
proof fn lemma_row_source(
    start: WalReplayIterator,
    run: Seq<ReplayMove>,
    contents: spec_fn(u64) -> Seq<RowView>,
    size: spec_fn(RowMap) -> usize,
    i: int,
    j: int,
    id: (Seq<u8>, u64),
) -> (at: (int, int))
    requires
        is_start(start),
        run_holds(start, run),
        all_answered_well(run, contents, size),
        0 <= j <= i < tables_of(run).len(),
        tables_of(run)[j].table@@.contains_key(id),
    ensures
        ({
            let tables = tables_of(run);
            let seen = objects(
                contents,
                start.wal_id_range.start as int,
                tables[i].last_wal_id + 1,
            );
            &&& 0 <= at.0 < seen.len()
            &&& 0 <= at.1 < seen[at.0].rows.len()
            &&& seen[at.0].rows[at.1] == tables[j].table@@[id]
            &&& seen[at.0].rows[at.1].id() == id
            &&& id.1 > start.min_seq
        }),
{
    lemma_run(start, run, contents, size);
    let tables = tables_of(run);
    let low = start.wal_id_range.start as int;
    assert(table_described(start, tables, contents, size, i));
    assert(table_described(start, tables, contents, size, j));
    lemma_first(start, tables, contents, size, j);
    if j < i {
        lemma_increasing(start, tables, contents, size, j, i);
    }
    let first = first_of(start, tables, j);
    let wals = objects(contents, first, tables[j].last_wal_id + 1);
    let seen = objects(contents, low, tables[i].last_wal_id + 1);
    law_replayed_rows_come_from_the_wal(wals, start.min_seq, id);
    let (k, r) = choose|k: int, r: int|
        0 <= k < wals.len() && 0 <= r < wals[k].rows.len() && #[trigger] wals[k].rows[r]
            == batch_map(wals, start.min_seq)[id];
    assert(seen[first - low + k] == wals[k]);
    (first - low + k, r)
}

/// A newer row of an object seen by then is in a table.
proof fn lemma_row_table(
    start: WalReplayIterator,
    run: Seq<ReplayMove>,
    contents: spec_fn(u64) -> Seq<RowView>,
    size: spec_fn(RowMap) -> usize,
    i: int,
    k: int,
    r: int,
) -> (j: int)
    requires
        is_start(start),
        run_holds(start, run),
        all_answered_well(run, contents, size),
        0 <= i < tables_of(run).len(),
        ({
            let seen = objects(
                contents,
                start.wal_id_range.start as int,
                tables_of(run)[i].last_wal_id + 1,
            );
            0 <= k < seen.len() && 0 <= r < seen[k].rows.len() && seen[k].rows[r].seq
                > start.min_seq
        }),
    ensures
        ({
            let seen = objects(
                contents,
                start.wal_id_range.start as int,
                tables_of(run)[i].last_wal_id + 1,
            );
            0 <= j <= i && tables_of(run)[j].table@@.contains_key(seen[k].rows[r].id())
        }),
{
    lemma_run(start, run, contents, size);
    let tables = tables_of(run);
    let low = start.wal_id_range.start as int;
    assert(table_described(start, tables, contents, size, i));
    let seen = objects(contents, low, tables[i].last_wal_id + 1);
    lemma_first(start, tables, contents, size, i);
    let j = lemma_table_of(start, tables, contents, size, i, low + k);
    assert(table_described(start, tables, contents, size, j));
    let first = first_of(start, tables, j);
    let wals = objects(contents, first, tables[j].last_wal_id + 1);
    assert(wals[low + k - first] == seen[k]);
    law_newer_rows_are_replayed(wals, start.min_seq, low + k - first, r);
    j
}

/// A row of an object in the range that is newer than where the replay starts.
pub open spec fn in_replay(
    start: WalReplayIterator,
    contents: spec_fn(u64) -> Seq<RowView>,
    wal_id: u64,
    i: int,
) -> bool {
    &&& start.wal_id_range.start <= wal_id < start.wal_id_range.end
    &&& 0 <= i < contents(wal_id).len()
    &&& contents(wal_id)[i].seq > start.min_seq
}

/// The tick that a table reports is the greatest of the manifest's and of all rows
/// in this table and those before it, so it never goes back. Rows with the same
/// key and sequence number have to agree on their creation time: of two that do
/// not, the tables hold the later one only.
pub proof fn law_reported_tick_is_the_greatest(
    start: WalReplayIterator,
    run: Seq<ReplayMove>,
    contents: spec_fn(u64) -> Seq<RowView>,
    size: spec_fn(RowMap) -> usize,
    i: int,
)
    requires
        is_start(start),
        run_holds(start, run),
        all_answered_well(run, contents, size),
        0 <= i < tables_of(run).len(),
        forall|v: u64, a: int, w: u64, b: int|
            in_replay(start, contents, v, a) && in_replay(start, contents, w, b) && (
            #[trigger] contents(v)[a]).id() == (#[trigger] contents(w)[b]).id() ==> contents(
                v,
            )[a].create_ts == contents(w)[b].create_ts,
    ensures
        ({
            let tables = tables_of(run);
            let reported = tables[i].last_tick;
            &&& start.origin@.0 <= reported
            &&& forall|j: int| 0 <= j <= i ==> (#[trigger] tables[j]).last_tick <= reported
            &&& forall|j: int, id: (Seq<u8>, u64)|
                0 <= j <= i && #[trigger] tables[j].table@@.contains_key(id) ==> (
                tables[j].table@@[id].create_ts matches Some(tick) ==> tick <= reported)
            &&& reported == start.origin@.0 || exists|j: int, id: (Seq<u8>, u64)|
                0 <= j <= i && #[trigger] tables[j].table@@.contains_key(id)
                    && tables[j].table@@[id].create_ts == Some(reported)
        }),
    decreases i,
{
    lemma_run(start, run, contents, size);
    let tables = tables_of(run);
    let reported = tables[i].last_tick;
    let low = start.wal_id_range.start as int;
    assert(table_described(start, tables, contents, size, i));
    let seen = objects(contents, low, tables[i].last_wal_id + 1);
    law_last_tick_is_the_greatest(start.origin@.0, seen, start.min_seq);
    assert forall|j: int, id: (Seq<u8>, u64)|
        0 <= j <= i && #[trigger] tables[j].table@@.contains_key(id) implies (
    tables[j].table@@[id].create_ts matches Some(tick) ==> tick <= reported) by {
        let (k, r) = lemma_row_source(start, run, contents, size, i, j, id);
        assert(seen[k].rows[r].create_ts == tables[j].table@@[id].create_ts);
    }
    if reported != start.origin@.0 {
        let (k, r) = choose|k: int, r: int|
            0 <= k < seen.len() && 0 <= r < seen[k].rows.len() && (#[trigger] seen[k].rows[r]).seq
                > start.min_seq && seen[k].rows[r].create_ts == Some(reported);
        let row = seen[k].rows[r];
        let j = lemma_row_table(start, run, contents, size, i, k, r);
        let (k2, r2) = lemma_row_source(start, run, contents, size, i, j, row.id());
        lemma_first(start, tables, contents, size, i);
        let v = seen[k].wal_id;
        let w = seen[k2].wal_id;
        assert(in_replay(start, contents, v, r));
        assert(in_replay(start, contents, w, r2));
        assert(contents(v)[r].id() == contents(w)[r2].id());
        assert(tables[j].table@@.contains_key(row.id()));
        assert(tables[j].table@@[row.id()].create_ts == Some(reported));
    }
    assert forall|j: int| 0 <= j <= i implies (#[trigger] tables[j]).last_tick <= reported by {
        if j < i {
            law_reported_tick_is_the_greatest(start, run, contents, size, j);
        }
    }
}

/// A replay that has failed stays failed: every later call of `next` gives the
/// same error, and no fetch is started and no table handed out ever again.
pub proof fn law_failed_replay_stays_failed(start: WalReplayIterator, run: Seq<ReplayMove>)
    requires
        start.wf(),
        start.failed is Some,
        run_holds(start, run),
    ensures
        reached(start, run) == start,
        tables_of(run).len() == 0,
        forall|i: int|
            0 <= i < run.len() ==> {
                &&& (#[trigger] run[i]).input is Next
                &&& run[i].step.action == WalReplayAction::Done(Err(start.failed->0))
                &&& run[i].step.start@.len() == 0
                &&& run[i].step.abort@.len() == 0
            },
    decreases run.len(),
{
    if run.len() > 0 {
        let earlier = run.drop_last();
        law_failed_replay_stays_failed(start, earlier);
        assert forall|i: int| 0 <= i < run.len() implies {
            &&& (#[trigger] run[i]).input is Next
            &&& run[i].step.action == WalReplayAction::Done(Err(start.failed->0))
            &&& run[i].step.start@.len() == 0
            &&& run[i].step.abort@.len() == 0
        } by {
            if i < earlier.len() {
                assert(earlier[i] == run[i]);
            } else {
                assert(run[i] == run.last());
            }
        }
    }
}

/// A call that fails reports the error itself, aborts every outstanding fetch and
/// gives the whole byte budget back. From then on every call of `next` gives the
/// same error, and no fetch is started and no table handed out.
pub proof fn law_failure_is_final(last: ReplayMove, error: SlateDBError, run: Seq<ReplayMove>)
    requires
        last.holds(),
        last.step.action == WalReplayAction::Done(Err(error)),
        run_holds(last.after, run),
    ensures
        last.after.failed_with(error),
        forall|i: int|
            0 <= i < last.before.pending_fetches@.len() ==> last.step.abort@.contains(
                (#[trigger] last.before.pending_fetches@[i]).wal_id,
            ),
        forall|i: int|
            0 <= i < last.step.start@.len() ==> last.step.abort@.contains(
                (#[trigger] last.step.start@[i]).wal_id,
            ),
        tables_of(run).len() == 0,
        forall|i: int|
            0 <= i < run.len() ==> {
                &&& (#[trigger] run[i]).input is Next
                &&& run[i].step.action == WalReplayAction::Done(Err(error))
                &&& run[i].step.start@.len() == 0
            },
{
    let pending = last.before.pending_fetches@;
    let start = last.step.start@;
    let abort = last.step.abort@;
    law_failed_replay_stays_failed(last.after, run);
    assert forall|i: int| 0 <= i < pending.len() implies abort.contains(
        (#[trigger] pending[i]).wal_id,
    ) by {
        assert(abort[i] == pending[i].wal_id);
    }
    assert forall|i: int| 0 <= i < start.len() implies abort.contains(
        (#[trigger] start[i]).wal_id,
    ) by {
        assert(abort[pending.len() + i] == start[i].wal_id);
    }
}

/// A replay that found nothing more stays at its end: every later call of `next`
/// finds nothing more either, and no fetch is started.
pub proof fn law_finished_replay_stays_finished(start: WalReplayIterator, run: Seq<ReplayMove>)
    requires
        start.wf(),
        start.failed is None,
        start.phase is Idle,
        start.current_iter.finished(),
        run_holds(start, run),
    ensures
        tables_of(run).len() == 0,
        reached(start, run) == (WalReplayIterator {
            completion_logged: reached(start, run).completion_logged,
            ..start
        }),
        forall|i: int|
            0 <= i < run.len() ==> {
                &&& (#[trigger] run[i]).input is Next
                &&& run[i].step.action == WalReplayAction::Done(Ok(None))
                &&& run[i].step.start@.len() == 0
            },
    decreases run.len(),
{
    if run.len() > 0 {
        let earlier = run.drop_last();
        law_finished_replay_stays_finished(start, earlier);
        assert forall|i: int| 0 <= i < run.len() implies {
            &&& (#[trigger] run[i]).input is Next
            &&& run[i].step.action == WalReplayAction::Done(Ok(None))
            &&& run[i].step.start@.len() == 0
        } by {
            if i < earlier.len() {
                assert(earlier[i] == run[i]);
            } else {
                assert(run[i] == run.last());
            }
        }
    }
}

} // verus!
