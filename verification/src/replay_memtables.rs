//! The tables that a reader has replayed from the WAL.
use crate::byte_string::{bytes_contents, clone_bytes};
use crate::mem_table::{add_segment, segment_set, segments_unique, ImmutableMemtable};
use crate::shared::share;
use bytes::Bytes;
use std::sync::Arc;
use vstd::prelude::*;

verus! {

/// Persistent newest-first collection of WAL-replayed immutable memtables.
///
/// A new replay poll only prepends newly decoded tables and shares the
/// existing tail with snapshots and in-flight reads. This makes applying a WAL
/// delta proportional to the delta rather than to the complete replay history.
#[derive(Debug)]
pub struct ReplayMemtables {
    pub head: Option<Arc<ReplayMemtableNode>>,
    pub len: usize,
}

/// A table with the older ones behind it.
#[derive(Debug)]
pub struct ReplayMemtableNode {
    pub table: Arc<ImmutableMemtable>,
    pub older: Option<Arc<ReplayMemtableNode>>,
}

/// The tables from a node on, the newest first.
pub open spec fn node_tables(node: Option<Arc<ReplayMemtableNode>>) -> Seq<Arc<ImmutableMemtable>>
    decreases node,
{
    match node {
        Some(node) => seq![node.table] + node_tables(node.older),
        None => Seq::empty(),
    }
}

/// Every table is well-formed.
pub open spec fn tables_wf(tables: Seq<Arc<ImmutableMemtable>>) -> bool {
    forall|i: int| 0 <= i < tables.len() ==> (#[trigger] tables[i])@.wf()
}

impl View for ReplayMemtables {
    type V = Seq<Arc<ImmutableMemtable>>;

    /// The tables, the newest first.
    open spec fn view(&self) -> Seq<Arc<ImmutableMemtable>> {
        node_tables(self.head)
    }
}

impl ReplayMemtables {
    /// The length is that of the list, and the tables are well-formed.
    pub open spec fn wf(&self) -> bool {
        self.len == self@.len() && tables_wf(self@)
    }

    /// Adds a table that is newer than all others. The others are shared, not copied.
    pub fn prepend(&mut self, table: Arc<ImmutableMemtable>)
        requires
            old(self).wf(),
            old(self)@.len() < usize::MAX,
            table@.wf(),
        ensures
            final(self).wf(),
            final(self)@ == seq![table] + old(self)@,
            final(self).head matches Some(node) && node.table == table && node.older == old(
                self,
            ).head,
    {
        let older = self.head.take();
        self.head = Some(Arc::new(ReplayMemtableNode { table, older }));
        self.len = self.len + 1;
    }

    /// The newest table.
    pub fn front(&self) -> (table: Option<&Arc<ImmutableMemtable>>)
        ensures
            match table {
                Some(table) => self@.len() > 0 && *table == self@[0],
                None => self@.len() == 0,
            },
    {
        match &self.head {
            Some(node) => Some(&node.table),
            None => None,
        }
    }

    /// A walk over the tables from the newest on.
    pub fn iter(&self) -> (iter: ReplayMemtablesIter<'_>)
        ensures
            iter@ == self@,
    {
        ReplayMemtablesIter { next: &self.head }
    }

    /// The number of tables.
    pub fn len(&self) -> (len: usize)
        requires
            self.wf(),
        ensures
            len == self@.len(),
    {
        self.len
    }

    /// Whether there is no table.
    pub fn is_empty(&self) -> (empty: bool)
        requires
            self.wf(),
        ensures
            empty == (self@.len() == 0),
    {
        self.len == 0
    }

    /// The collection of the given tables, which are in order from the newest.
    pub fn from_tables(tables: Vec<Arc<ImmutableMemtable>>) -> (collection: ReplayMemtables)
        requires
            tables_wf(tables@),
        ensures
            collection.wf(),
            collection@ == tables@,
    {
        let ghost all = tables@;
        let count: usize = tables.len();
        let mut rest = tables;
        let mut collection = ReplayMemtables::default();
        assert(all.skip(all.len() as int) =~= Seq::<Arc<ImmutableMemtable>>::empty());
        while rest.len() > 0
            invariant
                tables_wf(all),
                rest@.len() <= all.len() == count,
                rest@ == all.take(rest@.len() as int),
                collection.wf(),
                collection@ == all.skip(rest@.len() as int),
            decreases rest@.len(),
        {
            let ghost before = rest@;
            if let Some(table) = rest.pop() {
                let ghost n = rest@.len() as int;
                proof {
                    assert(table == all[n]);
                    assert(rest@ =~= all.take(n));
                    assert(seq![table] + all.skip(n + 1) =~= all.skip(n));
                }
                collection.prepend(table);
            }
        }
        assert(all.skip(0) =~= all);
        collection
    }

    /// The segments that the tables touch.
    pub fn touched_segments(&self) -> (segments: Vec<Bytes>)
        requires
            self.wf(),
        ensures
            segments_unique(segments@),
            segment_set(segments@) == tables_segments(self@),
    {
        let mut segments: Vec<Bytes> = Vec::new();
        let mut iter = self.iter();
        let ghost all = self@;
        let ghost mut done: int = 0;
        assert(all.skip(0) =~= all);
        assert(segment_set(segments@) =~= tables_segments(all.take(0)));
        loop
            invariant
                tables_wf(all),
                0 <= done <= all.len(),
                iter@ == all.skip(done),
                segments_unique(segments@),
                segment_set(segments@) == tables_segments(all.take(done)),
            ensures
                done == all.len(),
            decreases all.len() - done,
        {
            match iter.next() {
                None => {
                    break;
                },
                Some(table) => {
                    assert(table == all[done]);
                    add_segments(&mut segments, table.table().touched_segments());
                    proof {
                        lemma_tables_segments(all, done);
                        assert(all.skip(done).drop_first() =~= all.skip(done + 1));
                        done = done + 1;
                    }
                },
            }
        }
        assert(all.take(done) =~= all);
        segments
    }
}

/// The segments that some of the tables touch.
pub open spec fn tables_segments(tables: Seq<Arc<ImmutableMemtable>>) -> Set<Seq<u8>> {
    Set::new(
        |s: Seq<u8>|
            exists|i: int| 0 <= i < tables.len() && (#[trigger] tables[i])@.segments().contains(s),
    )
}

/// One more table touches its segments too.
proof fn lemma_tables_segments(tables: Seq<Arc<ImmutableMemtable>>, n: int)
    requires
        0 <= n < tables.len(),
    ensures
        tables_segments(tables.take(n + 1)) == tables_segments(tables.take(n)).union(
            tables[n]@.segments(),
        ),
{
    let left = tables_segments(tables.take(n + 1));
    let before = tables_segments(tables.take(n));
    assert forall|s: Seq<u8>| left.contains(s) <==> before.union(tables[n]@.segments()).contains(
        s,
    ) by {
        if before.contains(s) {
            let i = choose|i: int|
                0 <= i < n && (#[trigger] tables.take(n)[i])@.segments().contains(s);
            assert(tables.take(n + 1)[i]@.segments().contains(s));
        }
        if tables[n]@.segments().contains(s) {
            assert(tables.take(n + 1)[n]@.segments().contains(s));
        }
        if left.contains(s) {
            let i = choose|i: int|
                0 <= i < n + 1 && (#[trigger] tables.take(n + 1)[i])@.segments().contains(s);
            if i < n {
                assert(tables.take(n)[i]@.segments().contains(s));
            }
        }
    }
    assert(left =~= before.union(tables[n]@.segments()));
}

/// Adds segments to a list of distinct segments.
fn add_segments(segments: &mut Vec<Bytes>, more: &Vec<Bytes>)
    requires
        segments_unique(old(segments)@),
    ensures
        segments_unique(final(segments)@),
        segment_set(final(segments)@) == segment_set(old(segments)@).union(segment_set(more@)),
{
    let ghost before = segment_set(segments@);
    let mut i: usize = 0;
    assert(before =~= before.union(segment_set(more@.take(0))));
    while i < more.len()
        invariant
            i <= more@.len(),
            segments_unique(segments@),
            segment_set(segments@) == before.union(segment_set(more@.take(i as int))),
        decreases more@.len() - i,
    {
        add_segment(segments, clone_bytes(&more[i]));
        proof {
            let text = bytes_contents(more@[i as int]);
            let shorter = more@.take(i as int);
            let longer = more@.take(i + 1);
            assert forall|s: Seq<u8>| segment_set(longer).contains(s) <==> segment_set(
                shorter,
            ).insert(text).contains(s) by {
                if segment_set(shorter).contains(s) {
                    let k = choose|k: int|
                        0 <= k < shorter.len() && #[trigger] bytes_contents(shorter[k]) == s;
                    assert(bytes_contents(longer[k]) == s);
                }
                assert(bytes_contents(longer[i as int]) == text);
                if segment_set(longer).contains(s) {
                    let k = choose|k: int|
                        0 <= k < longer.len() && #[trigger] bytes_contents(longer[k]) == s;
                    if k < i {
                        assert(bytes_contents(shorter[k]) == s);
                    }
                }
            }
            assert(segment_set(segments@) =~= before.union(segment_set(longer)));
        }
        i = i + 1;
    }
    assert(more@.take(more@.len() as int) =~= more@);
}

impl Clone for ReplayMemtables {
    /// Shares the tables.
    fn clone(&self) -> (copy: Self)
        ensures
            copy == *self,
    {
        ReplayMemtables {
            head: match &self.head {
                Some(node) => Some(share(node)),
                None => None,
            },
            len: self.len,
        }
    }
}

impl Default for ReplayMemtables {
    /// No tables.
    fn default() -> (collection: Self)
        ensures
            collection.wf(),
            collection@ == Seq::<Arc<ImmutableMemtable>>::empty(),
            collection.head is None,
    {
        let collection = ReplayMemtables { head: None, len: 0 };
        assert(collection@ =~= Seq::<Arc<ImmutableMemtable>>::empty());
        collection
    }
}

/// A walk over replayed tables, the newest first.
pub struct ReplayMemtablesIter<'a> {
    next: &'a Option<Arc<ReplayMemtableNode>>,
}

impl<'a> View for ReplayMemtablesIter<'a> {
    type V = Seq<Arc<ImmutableMemtable>>;

    /// The tables still to come.
    closed spec fn view(&self) -> Seq<Arc<ImmutableMemtable>> {
        node_tables(*self.next)
    }
}

impl<'a> ReplayMemtablesIter<'a> {
    /// The next table.
    pub fn next(&mut self) -> (table: Option<Arc<ImmutableMemtable>>)
        ensures
            match table {
                Some(table) => old(self)@.len() > 0 && table == old(self)@[0] && final(self)@
                    == old(self)@.drop_first(),
                None => old(self)@.len() == 0 && final(self)@ == old(self)@,
            },
    {
        match self.next {
            Some(node) => {
                let table = share(&node.table);
                proof {
                    assert(old(self)@.drop_first() =~= node_tables(node.older));
                }
                self.next = &node.older;
                Some(table)
            },
            None => None,
        }
    }
}

} // verus!
