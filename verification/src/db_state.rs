//! Sorted tables, runs and segments as a manifest describes them.
use crate::bytes_range::{bound_key, law_crossed_range_is_empty, law_intersection_is_exact,
    BytesRange, KeyBound, RangeView};
use crate::byte_string::{as_slice, bytes_contents, compare_keys, KeyOrder};
use bytes::Bytes;
use vstd::prelude::*;

verus! {

/// A sorted table as seen from a manifest.
#[derive(Debug)]
pub struct SsTableView {
    /// Identifies the view.
    pub id: u128,
    /// Identifies the table that is viewed.
    pub sst_id: u128,
    /// The keys that the table may hold rows for.
    pub effective_range: BytesRange,
    /// The keys that may be read from the table, where only a part may be.
    pub visible_range: Option<BytesRange>,
}

/// The meaning of a [`SsTableView`].
pub struct TableView {
    pub id: u128,
    pub sst_id: u128,
    pub effective_range: RangeView,
    pub visible_range: Option<RangeView>,
}

impl View for SsTableView {
    type V = TableView;

    open spec fn view(&self) -> TableView {
        TableView {
            id: self.id,
            sst_id: self.sst_id,
            effective_range: self.effective_range@,
            visible_range: match self.visible_range {
                Some(range) => Some(range@),
                None => None,
            },
        }
    }
}

impl Clone for SsTableView {
    fn clone(&self) -> (copy: Self)
        ensures
            copy@ == self@,
    {
        SsTableView {
            id: self.id,
            sst_id: self.sst_id,
            effective_range: self.effective_range.clone(),
            visible_range: match &self.visible_range {
                Some(range) => Some(range.clone()),
                None => None,
            },
        }
    }
}

impl TableView {
    /// The part of `range` that may be read from the table, or `None` where
    /// nothing of it may be.
    pub open spec fn view_range(self, range: RangeView) -> Option<RangeView> {
        match self.visible_range {
            Some(visible) => if range.intersection(visible).non_empty() {
                Some(range.intersection(visible))
            } else {
                None
            },
            None => Some(range),
        }
    }

    /// The least key that the table may hold.
    pub open spec fn start_key(self) -> Seq<u8> {
        bound_key(self.effective_range.start)
    }
}

impl SsTableView {
    /// The view of a whole table, which has the identifier of the table.
    pub fn identity(sst_id: u128, effective_range: BytesRange) -> (view: SsTableView)
        ensures
            view@ == (TableView {
                id: sst_id,
                sst_id,
                effective_range: effective_range@,
                visible_range: None,
            }),
    {
        SsTableView { id: sst_id, sst_id, effective_range, visible_range: None }
    }

    /// Whether two views are the same.
    pub fn same(&self, other: &SsTableView) -> (same: bool)
        ensures
            same == (self@ == other@),
    {
        let visible: bool = match (&self.visible_range, &other.visible_range) {
            (Some(a), Some(b)) => a.same(b),
            (None, None) => true,
            _ => false,
        };
        self.id == other.id && self.sst_id == other.sst_id && self.effective_range.same(
            &other.effective_range,
        ) && visible
    }

    /// The part of `range` that may be read from the table.
    pub fn calculate_view_range(&self, range: &BytesRange) -> (view_range: Option<BytesRange>)
        ensures
            view_range is Some <==> self@.view_range(range@) is Some,
            view_range matches Some(part) ==> self@.view_range(range@) == Some(part@),
            self.visible_range is None ==> (view_range matches Some(part) && part@.start
                == range.start@ && part@.end == range.end@),
            view_range matches Some(part) ==> forall|key: Seq<u8>| #[trigger]
                part@.contains(key) <==> range@.contains(key) && (self.visible_range matches Some(
                    visible,
                ) ==> visible@.contains(key)),
            view_range is None ==> self.visible_range is Some && forall|key: Seq<u8>| #[trigger]
                range@.contains(key) ==> !self.visible_range->0@.contains(key),
    {
        proof {
            if let Some(visible) = &self.visible_range {
                let both = range@.intersection(visible@);
                assert forall|key: Seq<u8>| #[trigger]
                    both.contains(key) <==> range@.contains(key) && visible@.contains(key) by {
                    law_intersection_is_exact(range@, visible@, key);
                }
                if !both.non_empty() {
                    assert forall|key: Seq<u8>| #[trigger] range@.contains(key) implies
                        !visible@.contains(key) by {
                        law_intersection_is_exact(range@, visible@, key);
                        law_crossed_range_is_empty(both, key);
                    }
                }
            }
        }
        match &self.visible_range {
            Some(visible) => range.intersect(visible),
            None => Some(range.clone()),
        }
    }

    /// The keys that the table may hold rows for.
    pub fn compacted_effective_range(&self) -> (range: &BytesRange)
        ensures
            range@ == self@.effective_range,
    {
        &self.effective_range
    }

    /// The least key that the table may hold. A table without a lower bound
    /// starts at the empty key.
    pub fn compacted_effective_start_key(&self) -> (key: &[u8])
        ensures
            key@ == self@.start_key(),
            self.effective_range.start matches KeyBound::Included(start) ==> key@
                == bytes_contents(start),
            self.effective_range.start matches KeyBound::Excluded(start) ==> key@
                == bytes_contents(start),
            self.effective_range.start is Unbounded ==> key@.len() == 0,
    {
        match &self.effective_range.start {
            KeyBound::Included(key) => as_slice(key),
            KeyBound::Excluded(key) => as_slice(key),
            KeyBound::Unbounded => empty_key(),
        }
    }
}

/// The empty key.
fn empty_key() -> (key: &'static [u8])
    ensures
        key@ == Seq::<u8>::empty(),
{
    let key: &'static [u8; 0] = &[];
    assert(key@ =~= Seq::<u8>::empty());
    key
}

/// The meaning of a sequence of tables.
pub open spec fn tables_view(tables: Seq<SsTableView>) -> Seq<TableView> {
    tables.map_values(|table: SsTableView| table@)
}

/// Whether two lists of tables are the same.
pub fn same_tables(a: &Vec<SsTableView>, b: &Vec<SsTableView>) -> (same: bool)
    ensures
        same == (tables_view(a@) == tables_view(b@)),
{
    if a.len() != b.len() {
        assert(tables_view(a@).len() != tables_view(b@).len());
        return false;
    }
    let mut i: usize = 0;
    while i < a.len()
        invariant
            i <= a@.len() == b@.len(),
            forall|j: int| 0 <= j < i ==> (#[trigger] a@[j])@ == b@[j]@,
        decreases a@.len() - i,
    {
        if !a[i].same(&b[i]) {
            assert(tables_view(a@)[i as int] != tables_view(b@)[i as int]);
            return false;
        }
        i = i + 1;
    }
    assert(tables_view(a@) =~= tables_view(b@));
    true
}

/// Two lists of tables are the same where they have as many tables, and the same
/// one at each place.
pub proof fn law_tables_are_the_same_place_by_place(a: Seq<SsTableView>, b: Seq<SsTableView>)
    ensures
        tables_view(a) == tables_view(b) <==> a.len() == b.len() && forall|i: int|
            0 <= i < a.len() ==> (#[trigger] a[i])@ == b[i]@,
        tables_view(a).len() == a.len(),
        forall|i: int| 0 <= i < a.len() ==> #[trigger] tables_view(a)[i] == a[i]@,
{
    if tables_view(a) == tables_view(b) {
        assert(tables_view(a).len() == tables_view(b).len());
        assert forall|i: int| 0 <= i < a.len() implies (#[trigger] a[i])@ == b[i]@ by {
            assert(tables_view(a)[i] == a[i]@);
            assert(tables_view(b)[i] == b[i]@);
        }
    }
    if a.len() == b.len() && forall|i: int| 0 <= i < a.len() ==> (#[trigger] a[i])@ == b[i]@ {
        assert(tables_view(a) =~= tables_view(b));
    }
}

/// A run of tables that do not overlap, in key order.
#[derive(Debug)]
pub struct SortedRun {
    pub id: u32,
    pub sst_views: Vec<SsTableView>,
}

/// The meaning of a [`SortedRun`].
pub struct SortedRunInfo {
    pub id: u32,
    pub tables: Seq<TableView>,
}

impl View for SortedRun {
    type V = SortedRunInfo;

    open spec fn view(&self) -> SortedRunInfo {
        SortedRunInfo { id: self.id, tables: tables_view(self.sst_views@) }
    }
}

/// The meaning of a sequence of runs.
pub open spec fn runs_view(runs: Seq<SortedRun>) -> Seq<SortedRunInfo> {
    runs.map_values(|run: SortedRun| run@)
}

/// Two lists of runs are the same where they have as many runs, and at each place
/// the runs have the same identifier and as many tables, the same at each place.
pub proof fn law_runs_are_the_same_place_by_place(a: Seq<SortedRun>, b: Seq<SortedRun>)
    ensures
        runs_view(a) == runs_view(b) <==> a.len() == b.len() && forall|i: int|
            #![trigger a[i]]
            0 <= i < a.len() ==> {
                &&& a[i].id == b[i].id
                &&& a[i].sst_views@.len() == b[i].sst_views@.len()
                &&& forall|j: int|
                    0 <= j < a[i].sst_views@.len() ==> (#[trigger] a[i].sst_views@[j])@
                        == b[i].sst_views@[j]@
            },
        runs_view(a).len() == a.len(),
{
    if runs_view(a) == runs_view(b) {
        assert(runs_view(a).len() == runs_view(b).len());
        assert forall|i: int|
            #![trigger a[i]]
            0 <= i < a.len() implies {
            &&& a[i].id == b[i].id
            &&& a[i].sst_views@.len() == b[i].sst_views@.len()
            &&& forall|j: int|
                0 <= j < a[i].sst_views@.len() ==> (#[trigger] a[i].sst_views@[j])@
                    == b[i].sst_views@[j]@
        } by {
            assert(runs_view(a)[i] == a[i]@);
            assert(runs_view(b)[i] == b[i]@);
            law_tables_are_the_same_place_by_place(a[i].sst_views@, b[i].sst_views@);
        }
    }
    if a.len() == b.len() && forall|i: int|
        #![trigger a[i]]
        0 <= i < a.len() ==> {
            &&& a[i].id == b[i].id
            &&& a[i].sst_views@.len() == b[i].sst_views@.len()
            &&& forall|j: int|
                0 <= j < a[i].sst_views@.len() ==> (#[trigger] a[i].sst_views@[j])@
                    == b[i].sst_views@[j]@
        } {
        assert forall|i: int| 0 <= i < a.len() implies runs_view(a)[i] == runs_view(b)[i] by {
            assert(a[i].id == b[i].id);
            law_tables_are_the_same_place_by_place(a[i].sst_views@, b[i].sst_views@);
        }
        assert(runs_view(a) =~= runs_view(b));
    }
}

/// Whether two lists of runs are the same.
pub fn same_runs(a: &Vec<SortedRun>, b: &Vec<SortedRun>) -> (same: bool)
    ensures
        same == (runs_view(a@) == runs_view(b@)),
{
    if a.len() != b.len() {
        assert(runs_view(a@).len() != runs_view(b@).len());
        return false;
    }
    let mut i: usize = 0;
    while i < a.len()
        invariant
            i <= a@.len() == b@.len(),
            forall|j: int| 0 <= j < i ==> (#[trigger] a@[j])@ == b@[j]@,
        decreases a@.len() - i,
    {
        if a[i].id != b[i].id || !same_tables(&a[i].sst_views, &b[i].sst_views) {
            assert(runs_view(a@)[i as int] != runs_view(b@)[i as int]);
            return false;
        }
        i = i + 1;
    }
    assert(runs_view(a@) =~= runs_view(b@));
    true
}

/// The tables of a database or of one of its segments.
#[derive(Debug)]
pub struct LsmTreeState {
    pub last_compacted_l0_sst_view_id: Option<u128>,
    pub last_compacted_l0_sst_id: Option<u128>,
    pub l0: Vec<SsTableView>,
    pub compacted: Vec<SortedRun>,
}

/// The meaning of a [`LsmTreeState`].
pub struct LsmTreeView {
    pub last_compacted_l0_sst_view_id: Option<u128>,
    pub last_compacted_l0_sst_id: Option<u128>,
    pub l0: Seq<TableView>,
    pub compacted: Seq<SortedRunInfo>,
}

impl View for LsmTreeState {
    type V = LsmTreeView;

    open spec fn view(&self) -> LsmTreeView {
        LsmTreeView {
            last_compacted_l0_sst_view_id: self.last_compacted_l0_sst_view_id,
            last_compacted_l0_sst_id: self.last_compacted_l0_sst_id,
            l0: tables_view(self.l0@),
            compacted: runs_view(self.compacted@),
        }
    }
}

/// Whether two optional identifiers are the same.
pub fn same_id(a: &Option<u128>, b: &Option<u128>) -> (same: bool)
    ensures
        same == (*a == *b),
{
    match (a, b) {
        (Some(a), Some(b)) => *a == *b,
        (None, None) => true,
        _ => false,
    }
}

impl LsmTreeState {
    /// Whether two trees are the same.
    pub fn same(&self, other: &LsmTreeState) -> (same: bool)
        ensures
            same == (self@ == other@),
    {
        same_id(&self.last_compacted_l0_sst_view_id, &other.last_compacted_l0_sst_view_id)
            && same_id(&self.last_compacted_l0_sst_id, &other.last_compacted_l0_sst_id)
            && same_tables(&self.l0, &other.l0) && same_runs(&self.compacted, &other.compacted)
    }
}

/// A part of the key space with tables of its own.
#[derive(Debug)]
pub struct Segment {
    pub prefix: Bytes,
    pub tree: LsmTreeState,
}

/// The meaning of a [`Segment`].
pub struct SegmentView {
    pub prefix: Seq<u8>,
    pub tree: LsmTreeView,
}

impl View for Segment {
    type V = SegmentView;

    open spec fn view(&self) -> SegmentView {
        SegmentView { prefix: bytes_contents(self.prefix), tree: self.tree@ }
    }
}

/// The meaning of a sequence of segments.
pub open spec fn segments_view(segments: Seq<Segment>) -> Seq<SegmentView> {
    segments.map_values(|segment: Segment| segment@)
}

/// Two lists of segments are the same where they have as many segments, and at
/// each place the segments have the same prefix, compaction markers, L0 tables
/// and runs.
pub proof fn law_segments_are_the_same_place_by_place(a: Seq<Segment>, b: Seq<Segment>)
    ensures
        segments_view(a) == segments_view(b) <==> a.len() == b.len() && forall|i: int|
            #![trigger a[i]]
            0 <= i < a.len() ==> {
                &&& bytes_contents(a[i].prefix) == bytes_contents(b[i].prefix)
                &&& a[i].tree.last_compacted_l0_sst_view_id
                    == b[i].tree.last_compacted_l0_sst_view_id
                &&& a[i].tree.last_compacted_l0_sst_id == b[i].tree.last_compacted_l0_sst_id
                &&& tables_view(a[i].tree.l0@) == tables_view(b[i].tree.l0@)
                &&& runs_view(a[i].tree.compacted@) == runs_view(b[i].tree.compacted@)
            },
        segments_view(a).len() == a.len(),
{
    if segments_view(a) == segments_view(b) {
        assert(segments_view(a).len() == segments_view(b).len());
        assert forall|i: int|
            #![trigger a[i]]
            0 <= i < a.len() implies {
            &&& bytes_contents(a[i].prefix) == bytes_contents(b[i].prefix)
            &&& a[i].tree.last_compacted_l0_sst_view_id == b[i].tree.last_compacted_l0_sst_view_id
            &&& a[i].tree.last_compacted_l0_sst_id == b[i].tree.last_compacted_l0_sst_id
            &&& tables_view(a[i].tree.l0@) == tables_view(b[i].tree.l0@)
            &&& runs_view(a[i].tree.compacted@) == runs_view(b[i].tree.compacted@)
        } by {
            assert(segments_view(a)[i] == a[i]@);
            assert(segments_view(b)[i] == b[i]@);
        }
    }
    if a.len() == b.len() && forall|i: int|
        #![trigger a[i]]
        0 <= i < a.len() ==> {
            &&& bytes_contents(a[i].prefix) == bytes_contents(b[i].prefix)
            &&& a[i].tree.last_compacted_l0_sst_view_id == b[i].tree.last_compacted_l0_sst_view_id
            &&& a[i].tree.last_compacted_l0_sst_id == b[i].tree.last_compacted_l0_sst_id
            &&& tables_view(a[i].tree.l0@) == tables_view(b[i].tree.l0@)
            &&& runs_view(a[i].tree.compacted@) == runs_view(b[i].tree.compacted@)
        } {
        assert forall|i: int| 0 <= i < a.len() implies segments_view(a)[i] == segments_view(
            b,
        )[i] by {
            assert(bytes_contents(a[i].prefix) == bytes_contents(b[i].prefix));
        }
        assert(segments_view(a) =~= segments_view(b));
    }
}

/// Whether two lists of segments are the same.
pub fn same_segments(a: &Vec<Segment>, b: &Vec<Segment>) -> (same: bool)
    ensures
        same == (segments_view(a@) == segments_view(b@)),
{
    if a.len() != b.len() {
        assert(segments_view(a@).len() != segments_view(b@).len());
        return false;
    }
    let mut i: usize = 0;
    while i < a.len()
        invariant
            i <= a@.len() == b@.len(),
            forall|j: int| 0 <= j < i ==> (#[trigger] a@[j])@ == b@[j]@,
        decreases a@.len() - i,
    {
        let same_prefix: bool = matches!(
            compare_keys(as_slice(&a[i].prefix), as_slice(&b[i].prefix)), KeyOrder::Equal
        );
        if !same_prefix || !a[i].tree.same(&b[i].tree) {
            assert(segments_view(a@)[i as int] != segments_view(b@)[i as int]);
            return false;
        }
        i = i + 1;
    }
    assert(segments_view(a@) =~= segments_view(b@));
    true
}

} // verus!
