//! In-memory tables of rows.
use crate::byte_string::{as_slice, bytes_contents, compare_keys, lex_lt, slice_bytes, KeyOrder};
use crate::error::SlateDBError;
use crate::types::{lemma_row_order, lemma_row_order_transitive, lemma_sorted_rows_map, row_before,
    rows_map, rows_sorted, rows_view, RowEntry, RowMap, RowView};
use bytes::Bytes;
use vstd::prelude::*;

verus! {

/// Rows in table order, with the bounds of their sequence numbers and the
/// segments that they belong to.
#[derive(Debug)]
pub struct KVTable {
    rows: Vec<RowEntry>,
    first_seq: u64,
    last_seq: u64,
    touched_segments: Vec<Bytes>,
}

/// The byte strings that a vector of segments stands for.
pub open spec fn segment_set(segments: Seq<Bytes>) -> Set<Seq<u8>> {
    Set::new(
        |s: Seq<u8>|
            exists|i: int|
                0 <= i < segments.len() && #[trigger] bytes_contents(segments[i]) == s,
    )
}

/// No segment is listed twice.
pub open spec fn segments_unique(segments: Seq<Bytes>) -> bool {
    forall|i: int, j: int|
        0 <= i < j < segments.len() ==> bytes_contents(#[trigger] segments[i]) != bytes_contents(
            #[trigger] segments[j],
        )
}

/// `low` and `high` are the least and the greatest sequence number of the rows.
pub open spec fn seq_bounds(rows: Seq<RowView>, low: u64, high: u64) -> bool {
    &&& forall|i: int| 0 <= i < rows.len() ==> low <= (#[trigger] rows[i]).seq <= high
    &&& exists|i: int| 0 <= i < rows.len() && (#[trigger] rows[i]).seq == low
    &&& exists|i: int| 0 <= i < rows.len() && (#[trigger] rows[i]).seq == high
}

impl View for KVTable {
    type V = RowMap;

    /// The rows of the table by key and sequence number.
    open spec fn view(&self) -> RowMap {
        rows_map(self.rows())
    }
}

impl KVTable {
    /// The rows of the table in table order.
    pub closed spec fn rows(&self) -> Seq<RowView> {
        rows_view(self.rows@)
    }

    /// The segments recorded for the table.
    pub closed spec fn segments(&self) -> Set<Seq<u8>> {
        segment_set(self.touched_segments@)
    }

    /// The rows are sorted and the bounds are those of the rows.
    pub closed spec fn wf(&self) -> bool {
        &&& rows_sorted(self.rows())
        &&& self.rows@.len() > 0 ==> seq_bounds(self.rows(), self.first_seq, self.last_seq)
        &&& segments_unique(self.touched_segments@)
    }

    /// The rows of a table are in key order, the newest version of a key first,
    /// and no key has two rows with the same sequence number.
    pub proof fn law_rows_are_sorted(&self)
        requires
            self.wf(),
        ensures
            rows_sorted(self.rows()),
            forall|i: int, j: int|
                0 <= i < j < self.rows().len() ==> {
                    ||| lex_lt(#[trigger] self.rows()[i].key, #[trigger] self.rows()[j].key)
                    ||| self.rows()[i].key == self.rows()[j].key && self.rows()[i].seq
                        > self.rows()[j].seq
                },
    {
        assert forall|i: int, j: int| 0 <= i < j < self.rows().len() implies {
            ||| lex_lt(#[trigger] self.rows()[i].key, #[trigger] self.rows()[j].key)
            ||| self.rows()[i].key == self.rows()[j].key && self.rows()[i].seq
                > self.rows()[j].seq
        } by {
            assert(row_before(self.rows()[i], self.rows()[j]));
        }
    }

    /// A table has no rows exactly where its map is empty.
    pub proof fn lemma_empty(&self)
        ensures
            self.rows().len() == 0 <==> self@ == RowMap::empty(),
    {
        if self.rows().len() == 0 {
            assert(self@ =~= RowMap::empty());
        } else {
            assert(self@.contains_key(self.rows()[0].id()));
        }
    }

    /// Every row of a table stands in its map.
    pub proof fn lemma_row_in_map(&self, i: int)
        requires
            self.wf(),
            0 <= i < self.rows().len(),
        ensures
            self@.contains_key(self.rows()[i].id()),
            self@[self.rows()[i].id()] == self.rows()[i],
    {
        lemma_sorted_rows_map(self.rows(), i);
    }

    /// An empty table.
    pub fn new() -> (table: KVTable)
        ensures
            table.wf(),
            table.rows() =~= Seq::<RowView>::empty(),
            table@ =~= RowMap::empty(),
            table.segments() =~= Set::<Seq<u8>>::empty(),
    {
        KVTable { rows: Vec::new(), first_seq: 0, last_seq: 0, touched_segments: Vec::new() }
    }

    /// Whether the table has no rows.
    pub fn is_empty(&self) -> (empty: bool)
        ensures
            empty == (self.rows().len() == 0),
    {
        self.rows.len() == 0
    }

    /// The number of rows.
    pub fn entry_num(&self) -> (count: usize)
        ensures
            count == self.rows().len(),
    {
        self.rows.len()
    }

    /// The row at position `index` in table order.
    pub fn row(&self, index: usize) -> (row: &RowEntry)
        requires
            index < self.rows().len(),
        ensures
            row@ == self.rows()[index as int],
    {
        &self.rows[index]
    }

    /// The least sequence number in the table.
    pub fn first_seq(&self) -> (seq: Option<u64>)
        requires
            self.wf(),
        ensures
            seq is None <==> self.rows().len() == 0,
            seq matches Some(low) ==> {
                &&& forall|i: int|
                    0 <= i < self.rows().len() ==> low <= (#[trigger] self.rows()[i]).seq
                &&& exists|i: int| 0 <= i < self.rows().len() && (#[trigger] self.rows()[i]).seq == low
            },
    {
        if self.rows.len() == 0 {
            None
        } else {
            Some(self.first_seq)
        }
    }

    /// The greatest sequence number in the table.
    pub fn last_seq(&self) -> (seq: Option<u64>)
        requires
            self.wf(),
        ensures
            seq is None <==> self.rows().len() == 0,
            seq matches Some(high) ==> {
                &&& forall|i: int|
                    0 <= i < self.rows().len() ==> (#[trigger] self.rows()[i]).seq <= high
                &&& exists|i: int|
                    0 <= i < self.rows().len() && (#[trigger] self.rows()[i]).seq == high
            },
    {
        if self.rows.len() == 0 {
            None
        } else {
            Some(self.last_seq)
        }
    }

    /// The number of rows that sort before `row`.
    fn position(&self, row: &RowEntry) -> (at: usize)
        requires
            self.wf(),
        ensures
            at <= self.rows().len(),
            forall|i: int| 0 <= i < at ==> row_before(#[trigger] self.rows()[i], row@),
            forall|i: int|
                at <= i < self.rows().len() ==> !row_before(#[trigger] self.rows()[i], row@),
    {
        let mut low: usize = 0;
        let mut high: usize = self.rows.len();
        while low < high
            invariant
                low <= high <= self.rows().len(),
                self.rows().len() == self.rows@.len(),
                rows_sorted(self.rows()),
                forall|i: int| 0 <= i < low ==> row_before(#[trigger] self.rows()[i], row@),
                forall|i: int|
                    high <= i < self.rows().len() ==> !row_before(#[trigger] self.rows()[i], row@),
            decreases high - low,
        {
            let mid: usize = low + (high - low) / 2;
            let candidate = &self.rows[mid];
            assert(self.rows()[mid as int] == candidate@);
            let before: bool = match compare_keys(as_slice(&candidate.key), as_slice(&row.key)) {
                KeyOrder::Less => true,
                KeyOrder::Equal => candidate.seq > row.seq,
                KeyOrder::Greater => false,
            };
            assert(before == row_before(candidate@, row@));
            if before {
                assert forall|i: int| 0 <= i < mid + 1 implies row_before(
                    #[trigger] self.rows()[i],
                    row@,
                ) by {
                    if i < mid {
                        lemma_row_order_transitive(self.rows()[i], candidate@, row@);
                    }
                }
                low = mid + 1;
            } else {
                assert forall|i: int| mid <= i < self.rows().len() implies !row_before(
                    #[trigger] self.rows()[i],
                    row@,
                ) by {
                    if mid < i && row_before(self.rows()[i], row@) {
                        lemma_row_order_transitive(candidate@, self.rows()[i], row@);
                    }
                }
                high = mid;
            }
        }
        low
    }

    /// Adds a row. A row with the same key and sequence number is replaced.
    pub fn put(&mut self, row: RowEntry)
        requires
            old(self).wf(),
        ensures
            final(self).wf(),
            final(self)@ == old(self)@.insert(row@.id(), row@),
            final(self).rows().len() > 0,
            final(self).segments() == old(self).segments(),
    {
        let at: usize = self.position(&row);
        let ghost before = self.rows();
        let ghost added = row@;
        let seq: u64 = row.seq;
        let replaces: bool = at < self.rows.len() && self.rows[at].seq == row.seq && matches!(
            compare_keys(as_slice(&self.rows[at].key), as_slice(&row.key)), KeyOrder::Equal);
        proof {
            if at < before.len() {
                assert(before[at as int] == self.rows@[at as int]@);
            }
            assert(replaces <==> at < before.len() && before[at as int].id() == added.id());
            assert forall|i: int| at <= i < before.len() implies (row_before(
                added,
                #[trigger] before[i],
            ) || (i == at && before[i].id() == added.id())) by {
                lemma_row_order(before[i], added);
                if i > at {
                    lemma_row_order(before[at as int], added);
                    if before[at as int].id() == added.id() {
                        assert(row_before(before[at as int], before[i]));
                    } else {
                        lemma_row_order_transitive(added, before[at as int], before[i]);
                    }
                }
            }
        }
        if self.rows.len() == 0 {
            self.first_seq = seq;
            self.last_seq = seq;
        } else {
            if seq < self.first_seq {
                self.first_seq = seq;
            }
            if seq > self.last_seq {
                self.last_seq = seq;
            }
        }
        if replaces {
            self.rows.set(at, row);
            proof {
                let after = self.rows();
                assert(after =~= before.update(at as int, added));
                assert(rows_sorted(after)) by {
                    assert forall|i: int, j: int| 0 <= i < j < after.len() implies row_before(
                        #[trigger] after[i],
                        #[trigger] after[j],
                    ) by {
                        assert(row_before(before[i], before[j]));
                    }
                }
                lemma_put_map(before, after, at as int, added);
                lemma_put_bounds(
                    before,
                    after,
                    at as int,
                    added,
                    old(self).first_seq,
                    old(self).last_seq,
                );
            }
        } else {
            self.rows.insert(at, row);
            proof {
                let after = self.rows();
                assert(after =~= before.insert(at as int, added));
                assert(rows_sorted(after)) by {
                    assert forall|i: int, j: int| 0 <= i < j < after.len() implies row_before(
                        #[trigger] after[i],
                        #[trigger] after[j],
                    ) by {
                        if i < at && j == at {
                            assert(row_before(before[i], added));
                        } else if i < at && j > at {
                            assert(row_before(before[i], before[j - 1]));
                        } else if i == at {
                            assert(row_before(added, before[j - 1]));
                        } else if i < at {
                            assert(row_before(before[i], before[j]));
                        } else {
                            assert(row_before(before[i - 1], before[j - 1]));
                        }
                    }
                }
                lemma_put_map(before, after, at as int, added);
                lemma_put_bounds(
                    before,
                    after,
                    at as int,
                    added,
                    old(self).first_seq,
                    old(self).last_seq,
                );
            }
        }
    }
}

/// Setting or inserting a row at its place adds it to the map of rows.
proof fn lemma_put_map(before: Seq<RowView>, after: Seq<RowView>, at: int, added: RowView)
    requires
        rows_sorted(before),
        rows_sorted(after),
        ({
            ||| 0 <= at < before.len() && before[at].id() == added.id() && after == before.update(
                at,
                added,
            )
            ||| 0 <= at <= before.len() && after == before.insert(at, added)
        }),
    ensures
        rows_map(after) == rows_map(before).insert(added.id(), added),
{
    let left = rows_map(after);
    let right = rows_map(before).insert(added.id(), added);
    assert(after[at] == added);
    lemma_sorted_rows_map(after, at);
    let shift = if after.len() == before.len() {
        0int
    } else {
        1int
    };
    assert forall|id: (Seq<u8>, u64)| #[trigger] left.contains_key(id) implies right.contains_key(
        id,
    ) && left[id] == right[id] by {
        let j = choose|j: int| 0 <= j < after.len() && (#[trigger] after[j]).id() == id;
        lemma_sorted_rows_map(after, j);
        if j != at {
            let k = if j < at {
                j
            } else {
                j - shift
            };
            assert(after[j] == before[k]);
            lemma_sorted_rows_map(before, k);
            if j < at {
                lemma_row_order(after[j], after[at]);
            } else {
                lemma_row_order(after[at], after[j]);
            }
        }
    }
    assert forall|id: (Seq<u8>, u64)| #[trigger] right.contains_key(id) implies left.contains_key(
        id,
    ) by {
        if id != added.id() {
            let k = choose|k: int| 0 <= k < before.len() && (#[trigger] before[k]).id() == id;
            let j = if k < at {
                k
            } else {
                k + shift
            };
            assert(after[j] == before[k]);
        }
    }
    assert(left =~= right);
}

/// Adding a row widens the bounds of the sequence numbers to take it in.
proof fn lemma_put_bounds(
    before: Seq<RowView>,
    after: Seq<RowView>,
    at: int,
    added: RowView,
    low: u64,
    high: u64,
)
    requires
        before.len() > 0 ==> seq_bounds(before, low, high),
        ({
            ||| 0 <= at < before.len() && before[at].id() == added.id() && after == before.update(
                at,
                added,
            )
            ||| 0 <= at <= before.len() && after == before.insert(at, added)
        }),
    ensures
        before.len() == 0 ==> seq_bounds(after, added.seq, added.seq),
        before.len() > 0 ==> seq_bounds(
            after,
            if added.seq < low {
                added.seq
            } else {
                low
            },
            if added.seq > high {
                added.seq
            } else {
                high
            },
        ),
{
    assert(after[at] == added);
    if before.len() > 0 {
        let shift = if after.len() == before.len() {
            0int
        } else {
            1int
        };
        let a = choose|i: int| 0 <= i < before.len() && (#[trigger] before[i]).seq == low;
        let b = choose|i: int| 0 <= i < before.len() && (#[trigger] before[i]).seq == high;
        assert(after[if a < at {
            a
        } else {
            a + shift
        }].seq == low);
        assert(after[if b < at {
            b
        } else {
            b + shift
        }].seq == high);
        assert forall|i: int| 0 <= i < after.len() && i != at implies low <= (
        #[trigger] after[i]).seq <= high by {
            assert(after[i] == before[if i < at {
                i
            } else {
                i - shift
            }]);
        }
    }
}

/// The segment of a row whose prefix has the given length, where it has one.
pub open spec fn segment_of(row: RowView, prefix_len: Option<usize>) -> Option<Seq<u8>> {
    match prefix_len {
        Some(len) if 0 < len <= row.key.len() => Some(row.key.take(len as int)),
        _ => None,
    }
}

/// The segments of the rows that `keep` selects.
pub open spec fn segments_of(
    rows: Seq<RowView>,
    prefix_lens: Seq<Option<usize>>,
    keep: spec_fn(RowView) -> bool,
) -> Set<Seq<u8>> {
    Set::new(
        |s: Seq<u8>|
            exists|i: int|
                0 <= i < rows.len() && keep(rows[i]) && segment_of(
                    #[trigger] rows[i],
                    prefix_lens[i],
                ) == Some(s),
    )
}

/// Every row that `keep` selects has a segment.
pub open spec fn all_have_segments(
    rows: Seq<RowView>,
    prefix_lens: Seq<Option<usize>>,
    keep: spec_fn(RowView) -> bool,
) -> bool {
    forall|i: int|
        0 <= i < rows.len() && keep(rows[i]) ==> segment_of(#[trigger] rows[i], prefix_lens[i])
            is Some
}

/// The non-empty prefix of a row's key that names its segment.
pub fn extract_segment_prefix(key: &Bytes, prefix_len: Option<usize>) -> (segment: Result<
    Bytes,
    SlateDBError,
>)
    ensures
        ({
            let owed = match prefix_len {
                Some(len) => 0 < len <= bytes_contents(*key).len(),
                None => false,
            };
            match segment {
                Ok(segment) => owed && bytes_contents(segment) == bytes_contents(*key).take(
                    prefix_len->0 as int,
                ),
                Err(error) => !owed && error == SlateDBError::MissingSegmentPrefix,
            }
        }),
{
    match prefix_len {
        Some(len) => {
            if len > 0 && len <= key.len() {
                let segment = slice_bytes(key, 0, len);
                Ok(segment)
            } else {
                Err(SlateDBError::MissingSegmentPrefix)
            }
        },
        None => Err(SlateDBError::MissingSegmentPrefix),
    }
}

/// Adds a segment to a list of distinct segments.
pub fn add_segment(segments: &mut Vec<Bytes>, segment: Bytes)
    requires
        segments_unique(old(segments)@),
    ensures
        segments_unique(final(segments)@),
        segment_set(final(segments)@) == segment_set(old(segments)@).insert(
            bytes_contents(segment),
        ),
{
    let mut i: usize = 0;
    while i < segments.len()
        invariant
            i <= segments@.len(),
            segments@ == old(segments)@,
            segments_unique(segments@),
            forall|j: int|
                0 <= j < i ==> bytes_contents(#[trigger] segments@[j]) != bytes_contents(segment),
        decreases segments@.len() - i,
    {
        if let KeyOrder::Equal = compare_keys(as_slice(&segments[i]), as_slice(&segment)) {
            assert(bytes_contents(segments@[i as int]) == bytes_contents(segment));
            assert(segment_set(segments@).contains(bytes_contents(segment)));
            assert(segment_set(segments@) =~= segment_set(old(segments)@).insert(
                bytes_contents(segment),
            ));
            return;
        }
        i = i + 1;
    }
    let ghost before = segments@;
    segments.push(segment);
    proof {
        let after = segments@;
        assert(after =~= before.push(segment));
        assert forall|s: Seq<u8>| segment_set(after).contains(s) <==> segment_set(before).insert(
            bytes_contents(segment),
        ).contains(s) by {
            if segment_set(before).contains(s) {
                let k = choose|k: int|
                    0 <= k < before.len() && #[trigger] bytes_contents(before[k]) == s;
                assert(bytes_contents(after[k]) == s);
            }
            if s == bytes_contents(segment) {
                assert(bytes_contents(after[before.len() as int]) == s);
            }
            if segment_set(after).contains(s) {
                let k = choose|k: int|
                    0 <= k < after.len() && #[trigger] bytes_contents(after[k]) == s;
                if k < before.len() {
                    assert(bytes_contents(before[k]) == s);
                }
            }
        }
        assert(segment_set(after) =~= segment_set(before).insert(bytes_contents(segment)));
    }
}

impl KVTable {
    /// The segments of the rows with a sequence number above `min_seq`, or an
    /// error where one of those rows has none.
    fn derive_segments(&self, prefix_lens: &Vec<Option<usize>>, min_seq: Option<u64>) -> (segments:
        Result<Vec<Bytes>, SlateDBError>)
        requires
            prefix_lens@.len() == self.rows().len(),
        ensures
            ({
                let keep = |row: RowView| min_seq is Some ==> row.seq > min_seq->0;
                match segments {
                    Ok(segments) => {
                        &&& all_have_segments(self.rows(), prefix_lens@, keep)
                        &&& segments_unique(segments@)
                        &&& segment_set(segments@) == segments_of(self.rows(), prefix_lens@, keep)
                    },
                    Err(error) => {
                        &&& !all_have_segments(self.rows(), prefix_lens@, keep)
                        &&& error == SlateDBError::MissingSegmentPrefix
                    },
                }
            }),
    {
        let ghost keep = |row: RowView| min_seq is Some ==> row.seq > min_seq->0;
        let mut segments: Vec<Bytes> = Vec::new();
        let mut i: usize = 0;
        assert(segment_set(segments@) =~= segments_of(self.rows().take(0), prefix_lens@, keep));
        while i < self.rows.len()
            invariant
                i <= self.rows@.len(),
                self.rows().len() == self.rows@.len(),
                prefix_lens@.len() == self.rows().len(),
                keep == (|row: RowView| min_seq is Some ==> row.seq > min_seq->0),
                segments_unique(segments@),
                segment_set(segments@) == segments_of(self.rows().take(i as int), prefix_lens@, keep),
                forall|j: int|
                    0 <= j < i && keep(self.rows()[j]) ==> segment_of(
                        #[trigger] self.rows()[j],
                        prefix_lens@[j],
                    ) is Some,
            decreases self.rows@.len() - i,
        {
            let row = &self.rows[i];
            let ghost rows = self.rows();
            let ghost done = rows.take(i as int);
            let ghost next = rows.take(i + 1);
            assert(rows[i as int] == row@);
            let wanted: bool = match min_seq {
                Some(seq) => row.seq > seq,
                None => true,
            };
            assert(wanted == keep(row@));
            if wanted {
                match extract_segment_prefix(&row.key, prefix_lens[i]) {
                    Ok(segment) => {
                        let ghost text = bytes_contents(segment);
                        add_segment(&mut segments, segment);
                        proof {
                            let left = segments_of(done, prefix_lens@, keep).insert(text);
                            let right = segments_of(next, prefix_lens@, keep);
                            assert(segment_of(next[i as int], prefix_lens@[i as int]) == Some(text));
                            assert forall|s: Seq<u8>| left.contains(s) <==> right.contains(s) by {
                                if segments_of(done, prefix_lens@, keep).contains(s) {
                                    let k = choose|k: int|
                                        0 <= k < done.len() && keep(done[k]) && segment_of(
                                            #[trigger] done[k],
                                            prefix_lens@[k],
                                        ) == Some(s);
                                    assert(next[k] == done[k]);
                                }
                                if right.contains(s) {
                                    let k = choose|k: int|
                                        0 <= k < next.len() && keep(next[k]) && segment_of(
                                            #[trigger] next[k],
                                            prefix_lens@[k],
                                        ) == Some(s);
                                    if k < i {
                                        assert(done[k] == next[k]);
                                    }
                                }
                            }
                            assert(left =~= right);
                        }
                    },
                    Err(error) => {
                        assert(segment_of(rows[i as int], prefix_lens@[i as int]) is None);
                        return Err(error);
                    },
                }
            } else {
                proof {
                    let left = segments_of(done, prefix_lens@, keep);
                    let right = segments_of(next, prefix_lens@, keep);
                    assert forall|s: Seq<u8>| left.contains(s) <==> right.contains(s) by {
                        if left.contains(s) {
                            let k = choose|k: int|
                                0 <= k < done.len() && keep(done[k]) && segment_of(
                                    #[trigger] done[k],
                                    prefix_lens@[k],
                                ) == Some(s);
                            assert(next[k] == done[k]);
                        }
                        if right.contains(s) {
                            let k = choose|k: int|
                                0 <= k < next.len() && keep(next[k]) && segment_of(
                                    #[trigger] next[k],
                                    prefix_lens@[k],
                                ) == Some(s);
                            assert(done[k] == next[k]);
                        }
                    }
                    assert(left =~= right);
                }
            }
            i = i + 1;
        }
        assert(self.rows().take(self.rows().len() as int) =~= self.rows());
        Ok(segments)
    }

    /// The segments recorded for the table.
    pub fn touched_segments(&self) -> (segments: &Vec<Bytes>)
        requires
            self.wf(),
        ensures
            segments_unique(segments@),
            segment_set(segments@) == self.segments(),
    {
        &self.touched_segments
    }
}

/// A table that rows can still be added to.
#[derive(Debug)]
pub struct WritableKVTable {
    table: KVTable,
}

impl View for WritableKVTable {
    type V = KVTable;

    closed spec fn view(&self) -> KVTable {
        self.table
    }
}

impl WritableKVTable {
    /// An empty table.
    pub fn new() -> (table: WritableKVTable)
        ensures
            table@.wf(),
            table@.rows() == Seq::<RowView>::empty(),
            table@@ == RowMap::empty(),
            table@.segments() == Set::<Seq<u8>>::empty(),
    {
        WritableKVTable { table: KVTable::new() }
    }

    /// Adds a row. A row with the same key and sequence number is replaced.
    pub fn put(&mut self, row: RowEntry)
        requires
            old(self)@.wf(),
        ensures
            final(self)@.wf(),
            final(self)@@ == old(self)@@.insert(row@.id(), row@),
            final(self)@.rows().len() > 0,
            final(self)@.segments() == old(self)@.segments(),
    {
        self.table.put(row)
    }

    /// Whether the table has no rows.
    pub fn is_empty(&self) -> (empty: bool)
        ensures
            empty == (self@.rows().len() == 0),
    {
        self.table.is_empty()
    }

    /// The rows added so far.
    pub fn table(&self) -> (table: &KVTable)
        ensures
            *table == self@,
    {
        &self.table
    }

    /// Records the segment of every row, given the length of each row's prefix
    /// in table order. A row without a prefix fails the whole call.
    pub fn record_replayed_touched_segments(&mut self, prefix_lens: &Vec<Option<usize>>) -> (result:
        Result<(), SlateDBError>)
        requires
            old(self)@.wf(),
            prefix_lens@.len() == old(self)@.rows().len(),
        ensures
            final(self)@.wf(),
            final(self)@.rows() == old(self)@.rows(),
            match result {
                Ok(()) => {
                    &&& all_have_segments(old(self)@.rows(), prefix_lens@, |row: RowView| true)
                    &&& final(self)@.segments() == segments_of(
                        old(self)@.rows(),
                        prefix_lens@,
                        |row: RowView| true,
                    )
                },
                Err(error) => {
                    &&& !all_have_segments(old(self)@.rows(), prefix_lens@, |row: RowView| true)
                    &&& error == SlateDBError::MissingSegmentPrefix
                    &&& *final(self) == *old(self)
                },
            },
    {
        proof {
            let keep = |row: RowView| None::<u64> is Some ==> row.seq > None::<u64>->0;
            let all = |row: RowView| true;
            assert(keep =~= all);
        }
        match self.table.derive_segments(prefix_lens, None) {
            Ok(segments) => {
                self.table.touched_segments = segments;
                Ok(())
            },
            Err(error) => Err(error),
        }
    }
}

/// A table that no longer changes, with the WAL it was replayed through.
#[derive(Debug)]
pub struct ImmutableMemtable {
    table: KVTable,
    recent_flushed_wal_id: u64,
}

/// The rows of a table with a sequence number above `seq`.
pub open spec fn rows_after_seq(table: RowMap, seq: u64) -> RowMap {
    Map::new(|id: (Seq<u8>, u64)| table.contains_key(id) && id.1 > seq, |id: (Seq<u8>, u64)| table[id])
}

/// Keeping the rows after one sequence number and then those after another keeps
/// the rows after the greater of the two.
pub proof fn law_filters_compose(table: RowMap, first: u64, second: u64)
    ensures
        rows_after_seq(rows_after_seq(table, first), second) == rows_after_seq(
            table,
            if first > second {
                first
            } else {
                second
            },
        ),
{
    let greater = if first > second {
        first
    } else {
        second
    };
    assert(rows_after_seq(rows_after_seq(table, first), second) =~= rows_after_seq(table, greater));
}

impl View for ImmutableMemtable {
    type V = KVTable;

    closed spec fn view(&self) -> KVTable {
        self.table
    }
}

impl ImmutableMemtable {
    /// The last WAL that was replayed in full when the table was made.
    pub closed spec fn spec_recent_flushed_wal_id(&self) -> u64 {
        self.recent_flushed_wal_id
    }

    /// Freezes a table that holds rows up to the given WAL.
    pub fn new(table: WritableKVTable, recent_flushed_wal_id: u64) -> (memtable: ImmutableMemtable)
        ensures
            memtable@ == table@,
            memtable.spec_recent_flushed_wal_id() == recent_flushed_wal_id,
    {
        ImmutableMemtable { table: table.table, recent_flushed_wal_id }
    }

    /// The rows.
    pub fn table(&self) -> (table: &KVTable)
        ensures
            *table == self@,
    {
        &self.table
    }

    /// The last WAL that was replayed in full when the table was made.
    pub fn recent_flushed_wal_id(&self) -> (wal_id: u64)
        ensures
            wal_id == self.spec_recent_flushed_wal_id(),
    {
        self.recent_flushed_wal_id
    }

    /// The part of the table with sequence numbers above `seq`. With prefix
    /// lengths of this table's rows, the segments of the kept rows are derived
    /// again, and a kept row without a prefix fails the call.
    pub fn filter_after_seq(&self, seq: u64, prefix_lens: Option<&Vec<Option<usize>>>) -> (filtered:
        Result<ImmutableMemtable, SlateDBError>)
        requires
            self@.wf(),
            prefix_lens matches Some(lens) ==> lens@.len() == self@.rows().len(),
        ensures
            match filtered {
                Ok(memtable) => {
                    &&& memtable@.wf()
                    &&& memtable@@ == rows_after_seq(self@@, seq)
                    &&& memtable.spec_recent_flushed_wal_id() == self.spec_recent_flushed_wal_id()
                    &&& match prefix_lens {
                        Some(lens) => {
                            &&& all_have_segments(self@.rows(), lens@, |row: RowView| row.seq > seq)
                            &&& memtable@.segments() == segments_of(
                                self@.rows(),
                                lens@,
                                |row: RowView| row.seq > seq,
                            )
                        },
                        None => memtable@.segments() == Set::<Seq<u8>>::empty(),
                    }
                },
                Err(error) => {
                    &&& error == SlateDBError::MissingSegmentPrefix
                    &&& prefix_lens matches Some(lens) && !all_have_segments(
                        self@.rows(),
                        lens@,
                        |row: RowView| row.seq > seq,
                    )
                },
            },
    {
        let ghost rows = self@.rows();
        let mut kept = KVTable::new();
        let mut i: usize = 0;
        assert(rows_map(rows.take(0)) =~= RowMap::empty());
        assert(kept@ =~= rows_after_seq(rows_map(rows.take(0)), seq));
        while i < self.table.rows.len()
            invariant
                i <= rows.len(),
                rows == self@.rows(),
                rows.len() == self.table.rows@.len(),
                rows_sorted(rows),
                kept.wf(),
                kept.segments() == Set::<Seq<u8>>::empty(),
                kept@ == rows_after_seq(rows_map(rows.take(i as int)), seq),
            decreases rows.len() - i,
        {
            let row = &self.table.rows[i];
            proof {
                assert(rows[i as int] == row@);
                let done = rows.take(i as int);
                let next = rows.take(i + 1);
                assert(rows_sorted(done));
                assert(rows_sorted(next));
                assert(next =~= done.insert(i as int, row@));
                lemma_put_map(done, next, i as int, row@);
                if row@.seq > seq {
                    assert(rows_after_seq(rows_map(next), seq) =~= rows_after_seq(
                        rows_map(done),
                        seq,
                    ).insert(row@.id(), row@));
                } else {
                    assert(rows_after_seq(rows_map(next), seq) =~= rows_after_seq(
                        rows_map(done),
                        seq,
                    ));
                }
            }
            if row.seq > seq {
                kept.put(row.clone());
            }
            i = i + 1;
        }
        assert(rows.take(rows.len() as int) =~= rows);
        if let Some(lens) = prefix_lens {
            proof {
                let keep = |row: RowView| Some(seq) is Some ==> row.seq > Some(seq)->0;
                let newer = |row: RowView| row.seq > seq;
                assert(keep =~= newer);
            }
            match self.table.derive_segments(lens, Some(seq)) {
                Ok(segments) => {
                    kept.touched_segments = segments;
                },
                Err(error) => {
                    return Err(error);
                },
            }
        }
        Ok(ImmutableMemtable { table: kept, recent_flushed_wal_id: self.recent_flushed_wal_id })
    }
}

} // verus!
