//! What a reader reads of a manifest.
use crate::byte_string::bytes_contents;
use crate::db_state::{law_runs_are_the_same_place_by_place,
    law_segments_are_the_same_place_by_place, runs_view, same_id, same_runs, same_segments,
    segments_view, tables_view, LsmTreeState, Segment};
use crate::error::SlateDBError;
use crate::shared::{same_uuid, share};
use crate::text::text_is;
use crate::time::Timestamp;
use std::sync::Arc;
use uuid::Uuid;
use vstd::prelude::*;

verus! {

/// A version of the manifest that garbage collection keeps.
#[derive(Debug)]
pub struct Checkpoint {
    pub id: Uuid,
    pub manifest_id: u64,
    /// When the checkpoint lapses, unless it is refreshed before.
    pub expire_time: Option<Timestamp>,
    pub create_time: Timestamp,
    pub name: Option<String>,
}

impl Clone for Checkpoint {
    fn clone(&self) -> (copy: Self)
        ensures
            copy == *self,
    {
        Checkpoint {
            id: self.id,
            manifest_id: self.manifest_id,
            expire_time: self.expire_time,
            create_time: self.create_time,
            name: match &self.name {
                Some(name) => Some(name.clone()),
                None => None,
            },
        }
    }
}

/// The state of the database that a manifest records.
#[derive(Debug)]
pub struct ManifestCore {
    /// Whether the database has been set up in full.
    pub initialized: bool,
    /// The tables outside any segment.
    pub tree: LsmTreeState,
    /// The segments with their tables.
    pub segments: Vec<Segment>,
    /// The name of the extractor that the segments are made with.
    pub segment_extractor_name: Option<String>,
    /// The greatest sequence number that L0 holds.
    pub last_l0_seq: u64,
    /// The greatest clock tick that L0 holds.
    pub last_l0_clock_tick: i64,
    /// The WAL up to which every row is in L0.
    pub replay_after_wal_id: u64,
    /// The first WAL ID that the manifest does not record as written.
    pub next_wal_sst_id: u64,
    /// The checkpoints that are kept.
    pub checkpoints: Vec<Checkpoint>,
}

impl ManifestCore {
    /// The state of a database that holds nothing.
    pub fn new() -> (core: ManifestCore)
        ensures
            core.initialized,
            core.tree.l0@.len() == 0 && core.tree.compacted@.len() == 0,
            core.tree.last_compacted_l0_sst_view_id is None,
            core.tree.last_compacted_l0_sst_id is None,
            core.segments@.len() == 0,
            core.segment_extractor_name is None,
            core.last_l0_seq == 0,
            core.last_l0_clock_tick == i64::MIN,
            core.replay_after_wal_id == 0,
            core.next_wal_sst_id == 1,
            core.checkpoints@.len() == 0,
    {
        ManifestCore {
            initialized: true,
            tree: LsmTreeState {
                last_compacted_l0_sst_view_id: None,
                last_compacted_l0_sst_id: None,
                l0: Vec::new(),
                compacted: Vec::new(),
            },
            segments: Vec::new(),
            segment_extractor_name: None,
            last_l0_seq: 0,
            last_l0_clock_tick: i64::MIN,
            replay_after_wal_id: 0,
            next_wal_sst_id: 1,
            checkpoints: Vec::new(),
        }
    }

    /// The first checkpoint with the given identifier.
    pub fn find_checkpoint(&self, id: &Uuid) -> (found: Option<&Checkpoint>)
        ensures
            match found {
                Some(checkpoint) => exists|i: int|
                    {
                        &&& 0 <= i < self.checkpoints@.len()
                        &&& *checkpoint == #[trigger] self.checkpoints@[i]
                        &&& checkpoint.id == *id
                        &&& forall|j: int| 0 <= j < i ==> (#[trigger] self.checkpoints@[j]).id
                            != *id
                    },
                None => forall|i: int|
                    0 <= i < self.checkpoints@.len() ==> (#[trigger] self.checkpoints@[i]).id
                        != *id,
            },
    {
        let mut i: usize = 0;
        while i < self.checkpoints.len()
            invariant
                i <= self.checkpoints@.len(),
                forall|j: int| 0 <= j < i ==> (#[trigger] self.checkpoints@[j]).id != *id,
            decreases self.checkpoints@.len() - i,
        {
            if same_uuid(&self.checkpoints[i].id, id) {
                return Some(&self.checkpoints[i]);
            }
            i = i + 1;
        }
        None
    }

    /// What reads see of the database differs between two manifests: newer L0
    /// tables, other compacted tables, or other segments.
    pub open spec fn tables_differ(&self, current: &ManifestCore) -> bool {
        ||| self.tree.last_compacted_l0_sst_view_id != current.tree.last_compacted_l0_sst_view_id
        ||| self.last_l0_seq > current.last_l0_seq
        ||| runs_view(self.tree.compacted@) != runs_view(current.tree.compacted@)
        ||| segments_view(self.segments@) != segments_view(current.segments@)
    }

    /// Reads see the same under two manifests exactly where the later one has no
    /// newer L0 tables, and both have the same compaction marker, the same runs,
    /// place by place, and the same segments, place by place.
    pub proof fn law_tables_differ_where_a_field_does(&self, current: &ManifestCore)
        ensures
            !self.tables_differ(current) <==> {
                &&& self.tree.last_compacted_l0_sst_view_id
                    == current.tree.last_compacted_l0_sst_view_id
                &&& self.last_l0_seq <= current.last_l0_seq
                &&& self.tree.compacted@.len() == current.tree.compacted@.len()
                &&& forall|i: int|
                    #![trigger self.tree.compacted@[i]]
                    0 <= i < self.tree.compacted@.len() ==> {
                        &&& self.tree.compacted@[i].id == current.tree.compacted@[i].id
                        &&& self.tree.compacted@[i].sst_views@.len()
                            == current.tree.compacted@[i].sst_views@.len()
                        &&& forall|j: int|
                            0 <= j < self.tree.compacted@[i].sst_views@.len() ==> (
                            #[trigger] self.tree.compacted@[i].sst_views@[j])@
                                == current.tree.compacted@[i].sst_views@[j]@
                    }
                &&& self.segments@.len() == current.segments@.len()
                &&& forall|i: int|
                    #![trigger self.segments@[i]]
                    0 <= i < self.segments@.len() ==> {
                        &&& bytes_contents(self.segments@[i].prefix) == bytes_contents(
                            current.segments@[i].prefix,
                        )
                        &&& self.segments@[i].tree.last_compacted_l0_sst_view_id
                            == current.segments@[i].tree.last_compacted_l0_sst_view_id
                        &&& self.segments@[i].tree.last_compacted_l0_sst_id
                            == current.segments@[i].tree.last_compacted_l0_sst_id
                        &&& tables_view(self.segments@[i].tree.l0@) == tables_view(
                            current.segments@[i].tree.l0@,
                        )
                        &&& runs_view(self.segments@[i].tree.compacted@) == runs_view(
                            current.segments@[i].tree.compacted@,
                        )
                    }
            },
    {
        law_runs_are_the_same_place_by_place(self.tree.compacted@, current.tree.compacted@);
        law_segments_are_the_same_place_by_place(self.segments@, current.segments@);
    }

    /// Another list of compacted runs, with more, fewer or other runs, is enough
    /// for reads to see something else, whatever the rest of the manifests says.
    pub proof fn law_other_runs_are_a_difference(&self, current: &ManifestCore, i: int)
        requires
            ({
                let later = self.tree.compacted@;
                let earlier = current.tree.compacted@;
                ||| later.len() != earlier.len()
                ||| 0 <= i < later.len() && later[i].id != earlier[i].id
                ||| 0 <= i < later.len() && later[i].sst_views@.len()
                    != earlier[i].sst_views@.len()
                ||| 0 <= i < later.len() && exists|j: int|
                    0 <= j < later[i].sst_views@.len() && (#[trigger] later[i].sst_views@[j])@
                        != earlier[i].sst_views@[j]@
            }),
        ensures
            self.tables_differ(current),
            current.tables_differ(self),
    {
        let later = self.tree.compacted@;
        let earlier = current.tree.compacted@;
        law_runs_are_the_same_place_by_place(later, earlier);
        if runs_view(later) == runs_view(earlier) {
            assert(later[i].id == earlier[i].id);
        }
    }

    /// Whether reads see something else under this manifest than under `current`.
    pub fn differs_from(&self, current: &ManifestCore) -> (differs: bool)
        ensures
            differs == self.tables_differ(current),
            !differs <==> {
                &&& self.tree.last_compacted_l0_sst_view_id
                    == current.tree.last_compacted_l0_sst_view_id
                &&& self.last_l0_seq <= current.last_l0_seq
                &&& self.tree.compacted@.len() == current.tree.compacted@.len()
                &&& forall|i: int|
                    #![trigger self.tree.compacted@[i]]
                    0 <= i < self.tree.compacted@.len() ==> {
                        &&& self.tree.compacted@[i].id == current.tree.compacted@[i].id
                        &&& self.tree.compacted@[i].sst_views@.len()
                            == current.tree.compacted@[i].sst_views@.len()
                        &&& forall|j: int|
                            0 <= j < self.tree.compacted@[i].sst_views@.len() ==> (
                            #[trigger] self.tree.compacted@[i].sst_views@[j])@
                                == current.tree.compacted@[i].sst_views@[j]@
                    }
                &&& self.segments@.len() == current.segments@.len()
                &&& forall|i: int|
                    #![trigger self.segments@[i]]
                    0 <= i < self.segments@.len() ==> {
                        &&& bytes_contents(self.segments@[i].prefix) == bytes_contents(
                            current.segments@[i].prefix,
                        )
                        &&& self.segments@[i].tree.last_compacted_l0_sst_view_id
                            == current.segments@[i].tree.last_compacted_l0_sst_view_id
                        &&& self.segments@[i].tree.last_compacted_l0_sst_id
                            == current.segments@[i].tree.last_compacted_l0_sst_id
                        &&& tables_view(self.segments@[i].tree.l0@) == tables_view(
                            current.segments@[i].tree.l0@,
                        )
                        &&& runs_view(self.segments@[i].tree.compacted@) == runs_view(
                            current.segments@[i].tree.compacted@,
                        )
                    }
            },
    {
        proof {
            self.law_tables_differ_where_a_field_does(current);
        }
        !same_id(
            &self.tree.last_compacted_l0_sst_view_id,
            &current.tree.last_compacted_l0_sst_view_id,
        ) || self.last_l0_seq > current.last_l0_seq || !same_runs(
            &self.tree.compacted,
            &current.tree.compacted,
        ) || !same_segments(&self.segments, &current.segments)
    }
}

/// A reader's segment extractor is the one that the database was made with.
pub open spec fn same_extractor(recorded: Option<String>, configured: Option<&str>) -> bool {
    match (recorded, configured) {
        (Some(recorded), Some(configured)) => recorded@ == configured@,
        (None, None) => true,
        _ => false,
    }
}

/// Checks the name of the configured segment extractor against the one that the
/// manifest records.
pub fn check_extractor(core: &ManifestCore, name: Option<&str>) -> (result: Result<
    (),
    SlateDBError,
>)
    ensures
        result == if same_extractor(core.segment_extractor_name, name) {
            Ok::<(), SlateDBError>(())
        } else {
            Err::<(), SlateDBError>(SlateDBError::SegmentExtractorMismatch)
        },
        result is Ok <==> {
            &&& core.segment_extractor_name is Some <==> name is Some
            &&& name is Some ==> core.segment_extractor_name->0@ == name->0@
        },
{
    let same: bool = match (&core.segment_extractor_name, name) {
        (Some(recorded), Some(configured)) => text_is(recorded.as_str(), configured),
        (None, None) => true,
        _ => false,
    };
    if same {
        Ok(())
    } else {
        Err(SlateDBError::SegmentExtractorMismatch)
    }
}

/// A manifest.
#[derive(Debug)]
pub struct Manifest {
    pub core: ManifestCore,
}

/// A manifest with its version.
#[derive(Debug)]
pub struct VersionedManifest {
    pub id: u64,
    pub manifest: Arc<Manifest>,
}

impl VersionedManifest {
    /// The given version of a manifest.
    pub fn from_manifest(id: u64, manifest: &Arc<Manifest>) -> (versioned: VersionedManifest)
        ensures
            versioned == (VersionedManifest { id, manifest: *manifest }),
    {
        VersionedManifest { id, manifest: share(manifest) }
    }
}

} // verus!
