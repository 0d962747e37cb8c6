//! What the single steps of a WAL replay do, in terms of the fields they change.
use crate::byte_string::bytes_contents;
use crate::error::SlateDBError;
use crate::text::decimal;
use crate::types::RowMap;
use crate::wal_block_laws::{law_blocks_are_read_one_after_the_other,
    law_every_stored_row_is_replayed, says, stored_before};
use crate::wal_blocks::{blocks_error, blocks_rows, replayed_map, DecodedWalSst};
use crate::wal_replay::{batch_map, batch_seq, batch_tick, fetches, listed_size, listing_valid,
    plans, reservation, reserved_total, task_name_chars, FetchOutcome, PendingWal,
    ReplayPhase, ReplayedMemtable, ReplayedWal, WalReplayAction, WalReplayIterator, WalReplaySettings,
    WalReplayStep};
use bytes::Bytes;
use std::ops::Range;
use vstd::prelude::*;
use vstd::string::*;

verus! {

/// Limits are valid where they allow an object and a byte, and the bytes can be
/// counted in 32 bits.
pub proof fn law_valid_limits_allow_an_object_and_a_byte(settings: WalReplaySettings)
    ensures
        settings.valid() <==> settings.max_concurrent_objects > 0 && settings.max_inflight_bytes
            > 0 && settings.max_inflight_bytes <= 0xFFFF_FFFF,
{
}

/// A listing is valid where its IDs are in the range and strictly increase.
pub proof fn law_a_listing_strictly_increases(listed: Seq<(u64, u64)>, start: u64, end: u64)
    ensures
        listing_valid(listed, start, end) <==> {
            &&& forall|i: int|
                0 <= i < listed.len() ==> start <= (#[trigger] listed[i]).0 && listed[i].0 < end
            &&& forall|i: int| 0 < i < listed.len() ==> listed[i - 1].0 < (#[trigger] listed[i]).0
        },
{
    if listing_valid(listed, start, end) {
        assert forall|i: int| 0 < i < listed.len() implies listed[i - 1].0 < (
        #[trigger] listed[i]).0 by {
            assert(listed[i - 1].0 < listed[i].0);
        }
    }
    if (forall|i: int|
        0 <= i < listed.len() ==> start <= (#[trigger] listed[i]).0 && listed[i].0 < end) && (
    forall|i: int| 0 < i < listed.len() ==> listed[i - 1].0 < (#[trigger] listed[i]).0) {
        assert forall|i: int, j: int| 0 <= i < j < listed.len() implies (#[trigger] listed[i]).0 < (
        #[trigger] listed[j]).0 by {
            lemma_increasing(listed, i, j);
        }
    }
}

/// What increases from each place to the next increases over any distance.
proof fn lemma_increasing(listed: Seq<(u64, u64)>, i: int, j: int)
    requires
        0 <= i < j < listed.len(),
        forall|k: int| 0 < k < listed.len() ==> listed[k - 1].0 < (#[trigger] listed[k]).0,
    ensures
        listed[i].0 < listed[j].0,
    decreases j - i,
{
    if i + 1 < j {
        lemma_increasing(listed, i, j - 1);
    }
    assert(listed[j - 1].0 < listed[j].0);
}

/// The size of an object is known exactly where the object was listed, and is
/// the one it was listed with.
pub proof fn law_the_listed_size_is_the_one_listed(
    listed: Seq<(u64, u64)>,
    start: u64,
    end: u64,
    wal_id: u64,
    i: int,
)
    requires
        listing_valid(listed, start, end),
    ensures
        listed_size(listed, wal_id) is Some <==> exists|k: int|
            0 <= k < listed.len() && (#[trigger] listed[k]).0 == wal_id,
        0 <= i < listed.len() ==> listed_size(listed, listed[i].0) == Some(listed[i].1),
{
    if 0 <= i < listed.len() {
        let k = choose|k: int| 0 <= k < listed.len() && (#[trigger] listed[k]).0 == listed[i].0;
        if k < i {
            assert(listed[k].0 < listed[i].0);
        } else if i < k {
            assert(listed[i].0 < listed[k].0);
        }
    }
}

/// An object reserves its size, but at least a byte and at most all of them, and
/// all of them where its size is not known.
pub proof fn law_an_object_reserves_its_size_within_the_limit(size: u64, limit: usize)
    requires
        limit >= 1,
    ensures
        1 <= reservation(Some(size), limit) <= limit,
        1 <= size <= limit ==> reservation(Some(size), limit) == size,
        size > limit ==> reservation(Some(size), limit) == limit,
        reservation(None, limit) == limit,
{
}

/// Pending fetches hold their bytes together.
pub proof fn law_pending_fetches_hold_their_bytes_together(
    first: Seq<PendingWal>,
    second: Seq<PendingWal>,
    wal: PendingWal,
)
    ensures
        reserved_total(first + second) == reserved_total(first) + reserved_total(second),
        reserved_total(seq![wal]) == wal.reserved_bytes,
        reserved_total(Seq::<PendingWal>::empty()) == 0,
    decreases second.len(),
{
    assert(seq![wal].drop_last() =~= Seq::<PendingWal>::empty());
    assert(reserved_total(Seq::<PendingWal>::empty()) == 0);
    assert(reserved_total(seq![wal]) == wal.reserved_bytes);
    if second.len() == 0 {
        assert(first + second =~= first);
    } else {
        law_pending_fetches_hold_their_bytes_together(first, second.drop_last(), wal);
        assert((first + second).drop_last() =~= first + second.drop_last());
        assert((first + second).last() == second.last());
    }
}

/// Fetches are of one ID after the other, each with the size it was listed with
/// and the bytes that reserves.
pub proof fn law_fetches_are_of_one_id_after_the_other(
    first: u64,
    count: int,
    listed: Seq<(u64, u64)>,
    limit: usize,
    i: int,
)
    requires
        0 <= i < count,
        first + count <= u64::MAX,
    ensures
        plans(first, count, listed).len() == count,
        fetches(first, count, listed, limit).len() == count,
        plans(first, count, listed)[i].wal_id == first + i,
        plans(first, count, listed)[i].expected_size == listed_size(listed, (first + i) as u64),
        fetches(first, count, listed, limit)[i].wal_id == first + i,
        fetches(first, count, listed, limit)[i].reserved_bytes == reservation(
            listed_size(listed, (first + i) as u64),
            limit,
        ),
{
}

/// Two sets of objects after each other leave what the second leaves over what
/// the first left, and none leaves nothing.
pub proof fn law_objects_are_replayed_one_after_the_other(
    wals: Seq<ReplayedWal>,
    wal: ReplayedWal,
    tick: i64,
    seq: u64,
    min_seq: u64,
)
    ensures
        batch_map(wals.push(wal), min_seq) == replayed_map(
            batch_map(wals, min_seq),
            wal.rows,
            min_seq,
        ),
        batch_map(Seq::<ReplayedWal>::empty(), min_seq) == RowMap::empty(),
        batch_tick(tick, Seq::<ReplayedWal>::empty(), min_seq) == tick,
        batch_seq(seq, Seq::<ReplayedWal>::empty(), min_seq) == seq,
{
    assert(wals.push(wal).drop_last() =~= wals);
}

/// The task that replays a range is named after it.
pub proof fn law_the_task_is_named_after_its_range(range: Range<u64>)
    ensures
        task_name_chars(range) == "wal_replay["@ + decimal(range.start as nat) + ".."@ + decimal(
            range.end as nat,
        ) + "]"@,
{
    assert(task_name_chars(range) =~= "wal_replay["@ + decimal(range.start as nat) + ".."@
        + decimal(range.end as nat) + "]"@);
}

/// The fetches that are to be aborted are all that are pending, and no others.
pub open spec fn aborts_all(abort: Seq<u64>, pending: Seq<PendingWal>) -> bool {
    &&& abort.len() == pending.len()
    &&& forall|i: int| 0 <= i < pending.len() ==> #[trigger] abort[i] == pending[i].wal_id
}

/// A replay that failed holds nothing and waits for nothing, and keeps the error.
pub proof fn law_a_failed_replay_lets_everything_go(iter: WalReplayIterator, error: SlateDBError)
    ensures
        iter.failed_with(error) <==> {
            &&& iter.failed == Some(error)
            &&& iter.phase is Idle
            &&& iter.pending_fetches@.len() == 0
            &&& iter.current_iter.current_iter is None
            &&& iter.available_bytes == iter.options.prefetch.max_inflight_bytes
        },
{
}

/// A failure lets go of what is outstanding and changes nothing else: how far
/// the range was walked, what was replayed, and what was counted stay.
pub proof fn law_a_failure_leaves_what_was_replayed(
    before: WalReplayIterator,
    after: WalReplayIterator,
)
    requires
        after.same_but_for_failure(&before),
    ensures
        after.options == before.options,
        after.wal_id_range == before.wal_id_range,
        after.next_wal_id == before.next_wal_id,
        after.listed_sizes == before.listed_sizes,
        after.last_tick == before.last_tick,
        after.last_seq == before.last_seq,
        after.last_wal_id == before.last_wal_id,
        after.min_seq == before.min_seq,
        after.history == before.history,
        after.emitted == before.emitted,
        after.origin == before.origin,
        after.fetched_objects == before.fetched_objects,
        after.fetched_bytes == before.fetched_bytes,
        after.decoded_objects == before.decoded_objects,
        after.peak_concurrent_objects == before.peak_concurrent_objects,
        after.peak_reserved_bytes == before.peak_reserved_bytes,
        after.completion_logged == before.completion_logged,
{
}

/// A fetched object goes on to be decoded as it came, and is counted with its
/// bytes, as far as the counters go. Nothing that was replayed changes.
pub proof fn law_a_fetched_object_is_decoded(
    before: WalReplayIterator,
    after: WalReplayIterator,
    bytes: Bytes,
    step: WalReplayStep,
)
    requires
        before.phase is Fetching,
        after.fetch_stepped(&before, FetchOutcome::Fetched(bytes), step),
    ensures
        step.action == (WalReplayAction::Decode { wal_id: before.phase->Fetching_0.wal_id, bytes }),
        step.start@.len() == 0 && step.abort@.len() == 0 && step.completed is None,
        after.phase == ReplayPhase::Decoding(before.phase->Fetching_0),
        before.fetched_objects < u64::MAX ==> after.fetched_objects == before.fetched_objects + 1,
        before.fetched_objects == u64::MAX ==> after.fetched_objects == u64::MAX,
        before.fetched_bytes + bytes_contents(bytes).len() <= u64::MAX ==> after.fetched_bytes
            == before.fetched_bytes + bytes_contents(bytes).len(),
        before.fetched_bytes + bytes_contents(bytes).len() > u64::MAX ==> after.fetched_bytes
            == u64::MAX,
        after.decoded_objects == before.decoded_objects,
        after.table == before.table,
        after.history == before.history,
        after.last_seq == before.last_seq && after.last_tick == before.last_tick,
        after.last_wal_id == before.last_wal_id,
        after.pending_fetches == before.pending_fetches,
        after.available_bytes == before.available_bytes,
        after.next_wal_id == before.next_wal_id,
        after.failed == before.failed,
{
}

/// A fetch that does not bring an object fails the replay for good: with its own
/// error, or with the name of the task that panicked or was cancelled. All other
/// fetches are aborted.
pub proof fn law_a_fetch_without_an_object_fails_the_replay(
    before: WalReplayIterator,
    after: WalReplayIterator,
    outcome: FetchOutcome,
    step: WalReplayStep,
)
    requires
        before.phase is Fetching,
        !(outcome is Fetched),
        after.fetch_stepped(&before, outcome, step),
    ensures
        step.action matches WalReplayAction::Done(Err(error)) && after.failed == Some(error) && {
            &&& outcome matches FetchOutcome::Failed(own) ==> error == own
            &&& outcome is Panicked ==> (error matches SlateDBError::BackgroundTaskPanic(name)
                && name@ == task_name_chars(before.wal_id_range))
            &&& outcome is Cancelled ==> (error matches SlateDBError::BackgroundTaskCancelled(name)
                && name@ == task_name_chars(before.wal_id_range))
        },
        aborts_all(step.abort@, before.pending_fetches@),
        step.start@.len() == 0 && step.completed is None,
        after.pending_fetches@.len() == 0,
        after.available_bytes == before.options.prefetch.max_inflight_bytes,
        after.phase is Idle,
        after.history == before.history,
        after.table == before.table,
        after.same_but_for_failure(&before),
{
}

/// Where the WAL ends before an object, the objects replayed in this call are
/// handed out in one table, and otherwise the call fails; either way later calls
/// report the object at which the WAL ended, and all fetches are aborted.
pub proof fn law_a_truncated_wal_hands_out_what_came_before(
    before: WalReplayIterator,
    after: WalReplayIterator,
    step: WalReplayStep,
)
    requires
        before.phase is Fetching,
        after.truncate_stepped(&before, step),
    ensures
        after.failed == Some(SlateDBError::WalTruncated(before.phase->Fetching_0.wal_id)),
        before.last_wal_id > 0 ==> (step.action matches WalReplayAction::Done(Ok(Some(replayed)))
            && {
            &&& replayed.table == before.table
            &&& replayed.last_tick == before.last_tick
            &&& replayed.last_seq == before.last_seq
            &&& replayed.last_wal_id == before.last_wal_id
        }),
        before.last_wal_id == 0 ==> step.action == WalReplayAction::Done(
            Err(SlateDBError::WalTruncated(before.phase->Fetching_0.wal_id)),
        ),
        aborts_all(step.abort@, before.pending_fetches@),
        step.start@.len() == 0 && step.completed is None,
        after.pending_fetches@.len() == 0,
        after.available_bytes == before.options.prefetch.max_inflight_bytes,
        after.phase is Idle,
        after.same_but_for_failure(&before),
{
}

/// An object has the blocks that it was decoded to, and a fence has none.
pub proof fn law_an_object_has_its_blocks(decoded: DecodedWalSst)
    ensures
        decoded is Fence ==> decoded.blocks().len() == 0,
        decoded matches DecodedWalSst::Data { format_version, blocks } ==> decoded.blocks()
            == blocks@,
{
}

/// Decoding an object without an error puts every row above the minimum sequence
/// number into the table, whatever the row says, and leaves the rest of the
/// table alone; the object then counts as replayed.
pub proof fn law_a_decoded_object_is_replayed_in_full(
    before: WalReplayIterator,
    after: WalReplayIterator,
    decoded: DecodedWalSst,
    step: WalReplayStep,
    at: int,
    k: int,
)
    requires
        before.phase is Decoding,
        after.decode_stepped(&before, Ok(decoded), step),
        forall|i: int|
            0 <= i < decoded.blocks().len() ==> (#[trigger] decoded.blocks()[i]).error is None,
        0 <= at < decoded.blocks().len(),
        0 <= k < decoded.blocks()[at].rows@.len(),
        decoded.blocks()[at].rows@[k].seq > before.min_seq,
    ensures
        ({
            let blocks = decoded.blocks();
            let stored = blocks[at].rows@[k];
            let id = (bytes_contents(stored.key), stored.seq);
            &&& after.table@@.contains_key(id)
            &&& (forall|j: int|
                stored_before(blocks, at) + k < j < blocks_rows(blocks).len() ==> !((
                #[trigger] blocks_rows(blocks)[j]).key == id.0 && blocks_rows(blocks)[j].seq
                    == id.1)) ==> says(after.table@@[id], stored)
        }),
        step.action == WalReplayAction::Estimate,
        after.last_wal_id == before.phase->Decoding_0.wal_id,
        after.history@.len() == before.history@.len() + 1,
        after.history@.last().wal_id == before.phase->Decoding_0.wal_id,
        after.history@.last().rows == blocks_rows(decoded.blocks()),
{
    let blocks = decoded.blocks();
    law_blocks_are_read_one_after_the_other(blocks, Seq::empty());
    law_every_stored_row_is_replayed(before.table@@, blocks, before.min_seq, at, k);
}

/// An object counts as decoded once, and where its rows end in an error the
/// replay fails with that error and aborts every fetch, those just started too.
/// An object that cannot be decoded at all fails the replay in the same way.
pub proof fn law_an_object_that_cannot_be_read_fails_the_replay(
    before: WalReplayIterator,
    after: WalReplayIterator,
    outcome: Result<DecodedWalSst, SlateDBError>,
    step: WalReplayStep,
)
    requires
        before.phase is Decoding,
        after.decode_stepped(&before, outcome, step),
    ensures
        step.completed is None,
        outcome matches Ok(_) ==> (before.decoded_objects < u64::MAX ==> after.decoded_objects
            == before.decoded_objects + 1),
        outcome matches Ok(_) ==> after.fetched_objects == before.fetched_objects
            && after.fetched_bytes == before.fetched_bytes,
        outcome matches Err(error) ==> {
            &&& step.action == WalReplayAction::Done(Err(error))
            &&& after.failed == Some(error)
            &&& after.pending_fetches@.len() == 0
            &&& aborts_all(step.abort@, before.pending_fetches@)
            &&& step.start@.len() == 0
            &&& after.same_but_for_failure(&before)
        },
        outcome matches Ok(decoded) ==> (blocks_error(decoded.blocks()) matches Some(error) ==> {
            &&& step.action == WalReplayAction::Done(Err(error))
            &&& after.failed == Some(error)
            &&& after.pending_fetches@.len() == 0
            &&& step.abort@.len() == before.pending_fetches@.len() + step.start@.len()
            &&& after.history == before.history
        }),
        outcome matches Ok(decoded) ==> (blocks_error(decoded.blocks()) is None ==> {
            &&& step.action == WalReplayAction::Estimate
            &&& step.abort@.len() == 0
            &&& after.failed is None
        }),
{
}

/// A table that holds a row and has reached its target size is handed out as it
/// is, and the object it ends with is released. A table that does not, or holds
/// no row, is not handed out before the range is used up.
pub proof fn law_only_a_full_table_with_rows_is_handed_out_early(
    before: WalReplayIterator,
    after: WalReplayIterator,
    estimated_bytes: usize,
    step: WalReplayStep,
)
    requires
        before.wf(),
        before.phase is Estimating,
        before.last_wal_id > 0,
        after.estimate_stepped(&before, estimated_bytes, step),
    ensures
        before.table@.rows().len() > 0 && estimated_bytes >= before.options.max_memtable_bytes ==> {
            &&& step.action matches WalReplayAction::Done(Ok(Some(replayed)))
            &&& replayed.table == before.table
            &&& replayed.last_wal_id == before.last_wal_id
            &&& replayed.last_seq == before.last_seq
            &&& replayed.last_tick == before.last_tick
            &&& after.table@@ == RowMap::empty()
            &&& after.available_bytes == before.available_bytes
                + before.current_iter.current_iter->0.reserved_bytes
            &&& after.pending_fetches == before.pending_fetches
            &&& after.next_wal_id == before.next_wal_id
            &&& after.last_tick == before.last_tick && after.last_seq == before.last_seq
            &&& after.history == before.history && after.failed is None
            &&& after.fetched_objects == before.fetched_objects && after.decoded_objects
                == before.decoded_objects && after.fetched_bytes == before.fetched_bytes
            &&& after.min_seq == before.min_seq
            &&& step.start@.len() == 0
        },
        before.table@.rows().len() == 0 || estimated_bytes < before.options.max_memtable_bytes
            ==> (before.pending_fetches@.len() > 0 ==> {
            &&& step.action == (WalReplayAction::Fetch {
                wal_id: before.pending_fetches@[0].wal_id,
            })
            &&& after.table == before.table
            &&& after.last_wal_id == before.last_wal_id
        }),
        step.completed is None,
{
    before.table@.lemma_empty();
    if before.table@@ == RowMap::empty() || estimated_bytes < before.options.max_memtable_bytes {
        let limit = before.options.prefetch.max_inflight_bytes;
        let count = step.start@.len() as int;
        let added = fetches(before.next_wal_id, count, before.listed_sizes@, limit);
        let queue = before.pending_fetches@ + added;
        if before.pending_fetches@.len() > 0 {
            assert(queue[0] == before.pending_fetches@[0]);
        }
    }
}

/// Moving on releases the object in use, starts fetches until one of the limits
/// is reached or the range is used up, and waits for the oldest fetch. Only
/// where there is none is the call over: with the table so far, where an object
/// was replayed into it, and otherwise with nothing more.
pub proof fn law_moving_on_waits_for_the_oldest_fetch(
    before: WalReplayIterator,
    after: WalReplayIterator,
    step: WalReplayStep,
)
    requires
        before.next_wal_id + step.start@.len() <= u64::MAX,
        after.advanced(&before, step),
    ensures
        ({
            let count = step.start@.len();
            let pending = before.pending_fetches@.len() + count;
            &&& forall|i: int|
                0 <= i < count ==> (#[trigger] step.start@[i]).wal_id == before.next_wal_id + i
                    && step.start@[i].expected_size == listed_size(
                    before.listed_sizes@,
                    (before.next_wal_id + i) as u64,
                )
            &&& after.next_wal_id == before.next_wal_id + count
            &&& pending >= after.options.prefetch.max_concurrent_objects || after.next_wal_id
                >= after.wal_id_range.end || reservation(
                listed_size(before.listed_sizes@, after.next_wal_id),
                before.options.prefetch.max_inflight_bytes,
            ) > after.available_bytes
            &&& step.abort@.len() == 0
            &&& after.failed == before.failed
            &&& after.history == before.history
            &&& after.options == before.options && after.wal_id_range == before.wal_id_range
            &&& after.min_seq == before.min_seq && after.origin == before.origin
            &&& after.last_tick == before.last_tick && after.last_seq == before.last_seq
            &&& after.fetched_objects == before.fetched_objects && after.fetched_bytes
                == before.fetched_bytes && after.decoded_objects == before.decoded_objects
            &&& before.pending_fetches@.len() > 0 ==> step.action == (WalReplayAction::Fetch {
                wal_id: before.pending_fetches@[0].wal_id,
            })
            &&& before.pending_fetches@.len() == 0 && count > 0 ==> step.action
                == (WalReplayAction::Fetch { wal_id: before.next_wal_id })
            &&& pending > 0 ==> {
                &&& after.pending_fetches@.len() == pending - 1
                &&& after.table == before.table
                &&& after.last_wal_id == before.last_wal_id
                &&& step.completed is None
                &&& forall|i: int|
                    0 < i < before.pending_fetches@.len() ==> after.pending_fetches@[i - 1]
                        == #[trigger] before.pending_fetches@[i]
            }
            &&& before.phase is Idle || before.phase is Estimating ==> after.available_bytes
                == before.available_bytes + match before.current_iter.current_iter {
                Some(current) => current.reserved_bytes as int,
                None => 0,
            } - reserved_total(
                fetches(
                    before.next_wal_id,
                    count as int,
                    before.listed_sizes@,
                    before.options.prefetch.max_inflight_bytes,
                ),
            )
            &&& forall|wal_id: u64|
                after.next_wal_id <= wal_id ==> #[trigger] listed_size(after.listed_sizes@, wal_id)
                    == listed_size(before.listed_sizes@, wal_id)
            &&& pending == 0 ==> {
                &&& after.next_wal_id >= after.wal_id_range.end
                &&& before.last_wal_id > 0 ==> step.action == WalReplayAction::Done(
                    Ok(
                        Some(
                            ReplayedMemtable {
                                table: before.table,
                                last_tick: before.last_tick,
                                last_seq: before.last_seq,
                                last_wal_id: before.last_wal_id,
                            },
                        ),
                    ),
                )
                &&& before.last_wal_id == 0 ==> {
                    &&& step.action == WalReplayAction::Done(Ok(None))
                    &&& step.completed is Some <==> !before.completion_logged
                    &&& step.completed matches Some(summary) ==> {
                        &&& summary.fetched_objects == before.fetched_objects
                        &&& summary.fetched_bytes == before.fetched_bytes
                        &&& summary.decoded_objects == before.decoded_objects
                        &&& summary.peak_concurrent_objects == after.peak_concurrent_objects
                        &&& summary.peak_reserved_bytes == after.peak_reserved_bytes
                    }
                }
                &&& before.last_wal_id > 0 ==> step.completed is None
            }
        }),
{
    let limit = before.options.prefetch.max_inflight_bytes;
    let count = step.start@.len() as int;
    let added = fetches(before.next_wal_id, count, before.listed_sizes@, limit);
    let queue = before.pending_fetches@ + added;
    if before.pending_fetches@.len() > 0 {
        assert(queue[0] == before.pending_fetches@[0]);
    } else if count > 0 {
        assert(queue[0] == added[0]);
    }
}

/// While an object is decoded, fetches are started until one of the limits is
/// reached or the range is used up, in the order of the IDs and behind those
/// that are pending, and the object keeps its bytes.
pub proof fn law_decoding_goes_on_fetching(
    before: WalReplayIterator,
    after: WalReplayIterator,
    decoded: DecodedWalSst,
    step: WalReplayStep,
)
    requires
        before.phase is Decoding,
        before.next_wal_id + step.start@.len() <= u64::MAX,
        after.decode_stepped(&before, Ok(decoded), step),
        blocks_error(decoded.blocks()) is None,
    ensures
        ({
            let count = step.start@.len();
            &&& forall|i: int|
                0 <= i < count ==> (#[trigger] step.start@[i]).wal_id == before.next_wal_id + i
                    && step.start@[i].expected_size == listed_size(
                    before.listed_sizes@,
                    (before.next_wal_id + i) as u64,
                )
            &&& after.next_wal_id == before.next_wal_id + count
            &&& after.pending_fetches@.len() == before.pending_fetches@.len() + count
            &&& forall|i: int|
                0 <= i < before.pending_fetches@.len() ==> #[trigger] after.pending_fetches@[i]
                    == before.pending_fetches@[i]
            &&& after.pending_fetches@.len() >= before.options.prefetch.max_concurrent_objects
                || after.next_wal_id >= before.wal_id_range.end || reservation(
                listed_size(before.listed_sizes@, after.next_wal_id),
                before.options.prefetch.max_inflight_bytes,
            ) > after.available_bytes
            &&& after.available_bytes == before.available_bytes - reserved_total(
                fetches(
                    before.next_wal_id,
                    count as int,
                    before.listed_sizes@,
                    before.options.prefetch.max_inflight_bytes,
                ),
            )
            &&& after.current_iter.current_iter matches Some(current) && current.wal_id
                == before.phase->Decoding_0.wal_id && current.reserved_bytes
                == before.phase->Decoding_0.reserved_bytes
            &&& after.min_seq == before.min_seq && after.options == before.options
                && after.wal_id_range == before.wal_id_range
        }),
{
}

/// A consistent replay has every byte of its budget either available, held by a
/// pending fetch, or held by the one object that is fetched, decoded or
/// replayed; it has no more fetches pending than allowed, of the consecutive IDs
/// right before the next one.
pub proof fn law_the_byte_budget_is_accounted_for(iter: WalReplayIterator)
    requires
        iter.wf(),
    ensures
        iter.available_bytes + reserved_total(iter.pending_fetches@) + match iter.phase {
            ReplayPhase::Fetching(wal) => wal.reserved_bytes as int,
            ReplayPhase::Decoding(wal) => wal.reserved_bytes as int,
            _ => 0,
        } + match iter.current_iter.current_iter {
            Some(wal) => wal.reserved_bytes as int,
            None => 0,
        } == iter.options.prefetch.max_inflight_bytes,
        iter.pending_fetches@.len() <= iter.options.prefetch.max_concurrent_objects,
        forall|i: int|
            0 <= i < iter.pending_fetches@.len() ==> (#[trigger] iter.pending_fetches@[i]).wal_id
                + iter.pending_fetches@.len() == iter.next_wal_id + i,
{
}

/// The most fetches and bytes that were outstanding at once only go up, and go up
/// to what is outstanding after fetches were started.
pub proof fn law_peaks_are_the_most_that_was_outstanding(
    before: WalReplayIterator,
    after: WalReplayIterator,
    started: int,
    pending: nat,
    available: int,
)
    requires
        after.peaks_follow(&before, started, pending, available),
        pending <= usize::MAX,
        0 <= available <= before.options.prefetch.max_inflight_bytes,
    ensures
        after.peak_concurrent_objects >= before.peak_concurrent_objects,
        after.peak_reserved_bytes >= before.peak_reserved_bytes,
        started <= 0 ==> after.peak_concurrent_objects == before.peak_concurrent_objects
            && after.peak_reserved_bytes == before.peak_reserved_bytes,
        started > 0 ==> after.peak_concurrent_objects >= pending && after.peak_reserved_bytes
            >= before.options.prefetch.max_inflight_bytes - available,
        after.peak_concurrent_objects == before.peak_concurrent_objects
            || after.peak_concurrent_objects == pending,
        after.peak_reserved_bytes == before.peak_reserved_bytes || after.peak_reserved_bytes
            == before.options.prefetch.max_inflight_bytes - available,
{
}

/// A call begins with an empty table, unless the replay is over: after a failure
/// every call gives the same error, and after the end every call gives nothing,
/// and what the replay took is told the first time only.
pub proof fn law_a_call_begins_with_an_empty_table(
    before: WalReplayIterator,
    after: WalReplayIterator,
    step: WalReplayStep,
)
    requires
        after.next_stepped(&before, step),
    ensures
        before.failed matches Some(error) ==> {
            &&& step.action == WalReplayAction::Done(Err(error))
            &&& step.start@.len() == 0 && step.abort@.len() == 0
            &&& after == before
        },
        before.failed is None && before.current_iter.initialized
            && before.current_iter.current_iter is None ==> {
            &&& step.action == WalReplayAction::Done(Ok(None))
            &&& step.start@.len() == 0 && step.abort@.len() == 0
            &&& step.completed is Some <==> !before.completion_logged
            &&& after.completion_logged
            &&& step.completed matches Some(summary) ==> {
                &&& summary.fetched_objects == before.fetched_objects
                &&& summary.fetched_bytes == before.fetched_bytes
                &&& summary.decoded_objects == before.decoded_objects
                &&& summary.peak_concurrent_objects == before.peak_concurrent_objects
                &&& summary.peak_reserved_bytes == before.peak_reserved_bytes
            }
        },
        before.failed is None && !(before.current_iter.initialized
            && before.current_iter.current_iter is None) ==> {
            &&& after.table@@ == RowMap::empty()
            &&& after.history == before.history
            &&& step.action is Fetch || step.action is Done
            &&& step.action is Fetch ==> after.last_wal_id == 0
            &&& step.action is Done ==> step.action == WalReplayAction::Done(Ok(None))
        },
{
}

} // verus!
