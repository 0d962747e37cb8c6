//! Polling of the manifest, and the checkpoints that keep generations readable.
use crate::config::DbReaderMode;
use crate::db_reader::DbReaderInner;
use crate::error::SlateDBError;
use crate::manifest::{Checkpoint, ManifestCore};
use crate::reader_generation::ReaderGeneration;
use crate::shared::same_uuid;
use crate::time::{TimeSpan, Timestamp};
use uuid::Uuid;
use vstd::prelude::*;

verus! {

/// What a poll, or the cleanup after the last one, is waiting for.
#[derive(Clone, Copy, PartialEq, Eq, Structural, Debug)]
pub enum PollPhase {
    /// Nothing is under way.
    Idle,
    /// The manifest to be loaded.
    Loading,
    /// Released checkpoints to be deleted.
    Deleting,
    /// A checkpoint to be created.
    Creating,
    /// The state to be rebuilt on a new checkpoint.
    Reestablishing,
    /// New WAL to be replayed.
    Replaying,
    /// The leases of the generations that are still in use.
    Leases,
    /// Checkpoints to be refreshed.
    Refreshing,
    /// A generation whose checkpoint was lost to be drained.
    Draining,
    /// The latest manifest to be read and applied.
    Following,
    /// The manifest to be loaded for the cleanup.
    CleanupLoading,
    /// All generations to be invalidated for the cleanup.
    CleanupInvalidating,
    /// All generations to be drained for the cleanup.
    CleanupDraining,
    /// All checkpoints to be deleted for the cleanup.
    CleanupDeleting,
}

/// What the caller does next.
#[derive(Debug)]
pub enum PollAction {
    /// Load the manifest.
    LoadManifest,
    /// Delete these checkpoints.
    DeleteCheckpoints(Vec<Uuid>),
    /// Create a checkpoint of the loaded manifest with this lifetime.
    CreateCheckpoint { lifetime: TimeSpan },
    /// Rebuild the state on this checkpoint's manifest and install it.
    Reestablish(Checkpoint),
    /// Replay what was added to the WAL.
    ReplayNewWals,
    /// Tell the time and the leases of the generations that are still in use.
    ReportLeases,
    /// Refresh these checkpoints for this lifetime.
    RefreshCheckpoints { ids: Vec<Uuid>, lifetime: TimeSpan },
    /// Invalidate the generation of this checkpoint, where it is still in use,
    /// and wait until no operation on it is in flight.
    Drain(Uuid),
    /// Invalidate the generations of these checkpoints, where they are still in use.
    InvalidateAll(Vec<Uuid>),
    /// Wait until no operation on the generations of these checkpoints is in flight.
    DrainAll(Vec<Uuid>),
    /// Read the latest manifest and apply it.
    FollowLatest,
    /// Keep these refreshed checkpoints with their generations, where they are
    /// still in use; the poll is over and is counted.
    Renew(Vec<Checkpoint>),
    /// The poll is over. A poll that was carried out is counted.
    Done { result: Result<(), SlateDBError>, counted: bool },
}

/// The action writes a new version of the manifest.
pub open spec fn writes_manifest(action: PollAction) -> bool {
    action is DeleteCheckpoints || action is CreateCheckpoint || action is RefreshCheckpoints
}

/// A reader that manages no checkpoints never comes to a step that writes: such a
/// step is only taken out of phases that its poller is never in.
pub proof fn law_unmanaged_reader_never_waits_for_a_write(poller: ManifestPoller, mode: DbReaderMode)
    requires
        poller.fits_mode(mode),
        mode != DbReaderMode::ManagedCheckpoint,
    ensures
        !(poller.phase is Loading) && !(poller.phase is Deleting) && !(poller.phase is Creating)
            && !(poller.phase is Leases) && !(poller.phase is Refreshing)
            && !(poller.phase is Draining) && !(poller.phase is CleanupDraining)
            && !(poller.phase is CleanupDeleting),
        poller.generations@.len() == 0,
{
}

/// The manifest is written where checkpoints are created, refreshed or deleted,
/// and by nothing else.
pub proof fn law_only_changes_of_checkpoints_write_the_manifest(action: PollAction)
    ensures
        writes_manifest(action) <==> action is CreateCheckpoint || action is RefreshCheckpoints
            || action is DeleteCheckpoints,
{
}

/// Two pollers keep track of the same checkpoints where their lists agree place
/// by place.
pub proof fn law_the_same_checkpoints_are_tracked_place_by_place(
    poller: ManifestPoller,
    other: ManifestPoller,
)
    ensures
        poller.same_generations(&other) <==> poller.generations@.len() == other.generations@.len()
            && forall|i: int|
            0 <= i < poller.generations@.len() ==> #[trigger] poller.generations@[i]
                == other.generations@[i],
        poller.wf() ==> forall|i: int, j: int|
            0 <= i < j < poller.generations@.len() ==> #[trigger] poller.generations@[i]
                != #[trigger] poller.generations@[j],
{
    if poller.generations@.len() == other.generations@.len() && forall|i: int|
        0 <= i < poller.generations@.len() ==> #[trigger] poller.generations@[i]
            == other.generations@[i] {
        assert(poller.generations@ =~= other.generations@);
    }
}

/// The times of leases are valid where each that lapses has fewer nanoseconds
/// than a second.
pub proof fn law_leases_are_valid_one_by_one(leases: Seq<LiveLease>)
    ensures
        leases_wf(leases) <==> forall|i: int|
            0 <= i < leases.len() && (#[trigger] leases[i]).expire_time is Some
                ==> leases[i].expire_time->0.nanos < 1_000_000_000,
{
}

/// A generation that is still in use, with the time its checkpoint lapses.
#[derive(Clone, Copy, Debug)]
pub struct LiveLease {
    pub id: Uuid,
    pub expire_time: Option<Timestamp>,
}

/// The identifier is in the list.
pub open spec fn listed(ids: Seq<Uuid>, id: Uuid) -> bool {
    exists|i: int| 0 <= i < ids.len() && #[trigger] ids[i] == id
}

/// Whether an identifier is in a list.
pub fn is_listed(ids: &Vec<Uuid>, id: &Uuid) -> (found: bool)
    ensures
        found == listed(ids@, *id),
        found <==> ids@.contains(*id),
{
    let mut i: usize = 0;
    while i < ids.len()
        invariant
            i <= ids@.len(),
            forall|j: int| 0 <= j < i ==> #[trigger] ids@[j] != *id,
        decreases ids@.len() - i,
    {
        if same_uuid(&ids[i], id) {
            assert(ids@[i as int] == *id);
            return true;
        }
        i = i + 1;
    }
    false
}

/// The identifiers of a list that `keep` selects, in order.
pub open spec fn selected(ids: Seq<Uuid>, keep: spec_fn(Uuid) -> bool) -> Seq<Uuid>
    decreases ids.len(),
{
    if ids.len() == 0 {
        ids
    } else if keep(ids.last()) {
        selected(ids.drop_last(), keep).push(ids.last())
    } else {
        selected(ids.drop_last(), keep)
    }
}

/// Selecting keeps exactly the identifiers that are wanted, each as often as before.
pub proof fn lemma_selected(ids: Seq<Uuid>, keep: spec_fn(Uuid) -> bool)
    ensures
        forall|id: Uuid|
            #[trigger] listed(selected(ids, keep), id) <==> listed(ids, id) && keep(id),
        ids.no_duplicates() ==> selected(ids, keep).no_duplicates(),
        selected(ids, keep).len() <= ids.len(),
    decreases ids.len(),
{
    if ids.len() > 0 {
        let shorter = ids.drop_last();
        let before = selected(shorter, keep);
        let after = selected(ids, keep);
        lemma_selected(shorter, keep);
        assert forall|id: Uuid| #[trigger] listed(after, id) <==> listed(ids, id) && keep(id) by {
            if listed(after, id) {
                let k = choose|k: int| 0 <= k < after.len() && #[trigger] after[k] == id;
                if k < before.len() {
                    assert(before[k] == id);
                    assert(listed(before, id));
                    assert(listed(shorter, id));
                    let m = choose|m: int| 0 <= m < shorter.len() && #[trigger] shorter[m] == id;
                    assert(ids[m] == id);
                } else {
                    assert(ids[ids.len() - 1] == id);
                }
            }
            if listed(ids, id) && keep(id) {
                let m = choose|m: int| 0 <= m < ids.len() && #[trigger] ids[m] == id;
                if m < shorter.len() {
                    assert(shorter[m] == id);
                    assert(listed(shorter, id));
                    assert(listed(before, id));
                    let k = choose|k: int| 0 <= k < before.len() && #[trigger] before[k] == id;
                    assert(after[k] == id);
                } else {
                    assert(after[after.len() - 1] == id);
                }
            }
        }
        if ids.no_duplicates() {
            assert(shorter.no_duplicates()) by {
                assert forall|i: int, j: int|
                    0 <= i < shorter.len() && 0 <= j < shorter.len() && i != j implies shorter[i]
                    != shorter[j] by {
                    assert(ids[i] != ids[j]);
                }
            }
            if keep(ids.last()) {
                assert forall|i: int, j: int|
                    0 <= i < after.len() && 0 <= j < after.len() && i != j implies after[i]
                    != after[j] by {
                    if i < before.len() && j < before.len() {
                        assert(before[i] != before[j]);
                    } else {
                        let k = if i < before.len() {
                            i
                        } else {
                            j
                        };
                        assert(listed(before, before[k]));
                        assert(listed(shorter, before[k]));
                        let m = choose|m: int|
                            0 <= m < shorter.len() && #[trigger] shorter[m] == before[k];
                        assert(ids[m] != ids[ids.len() - 1]);
                    }
                }
            }
        }
    }
}

/// Splits identifiers into those that are in `others` and those that are not.
fn partition(ids: &Vec<Uuid>, others: &Vec<Uuid>) -> (parts: (Vec<Uuid>, Vec<Uuid>))
    ensures
        parts.0@ == selected(ids@, |id: Uuid| listed(others@, id)),
        parts.1@ == selected(ids@, |id: Uuid| !listed(others@, id)),
{
    let ghost inside = |id: Uuid| listed(others@, id);
    let ghost outside = |id: Uuid| !listed(others@, id);
    let mut found: Vec<Uuid> = Vec::new();
    let mut missing: Vec<Uuid> = Vec::new();
    let mut i: usize = 0;
    assert(ids@.take(0) =~= Seq::<Uuid>::empty());
    while i < ids.len()
        invariant
            i <= ids@.len(),
            inside == (|id: Uuid| listed(others@, id)),
            outside == (|id: Uuid| !listed(others@, id)),
            found@ == selected(ids@.take(i as int), inside),
            missing@ == selected(ids@.take(i as int), outside),
        decreases ids@.len() - i,
    {
        let id: Uuid = ids[i];
        proof {
            assert(ids@.take(i + 1).drop_last() =~= ids@.take(i as int));
            assert(ids@.take(i + 1).last() == id);
        }
        if is_listed(others, &id) {
            found.push(id);
        } else {
            missing.push(id);
        }
        i = i + 1;
    }
    assert(ids@.take(ids@.len() as int) =~= ids@);
    (found, missing)
}

/// Copies a list of identifiers.
fn copy_ids(ids: &Vec<Uuid>) -> (copy: Vec<Uuid>)
    ensures
        copy@ == ids@,
{
    let mut copy: Vec<Uuid> = Vec::new();
    let mut i: usize = 0;
    while i < ids.len()
        invariant
            i <= ids@.len(),
            copy@ == ids@.take(i as int),
        decreases ids@.len() - i,
    {
        copy.push(ids[i]);
        i = i + 1;
        assert(copy@ =~= ids@.take(i as int));
    }
    assert(ids@.take(ids@.len() as int) =~= ids@);
    copy
}

/// The identifiers of leases.
pub open spec fn lease_ids(leases: Seq<LiveLease>) -> Seq<Uuid> {
    leases.map_values(|lease: LiveLease| lease.id)
}

/// A lease is due to be refreshed: less than half of its lifetime is left.
pub open spec fn lease_due(expire_time: Option<Timestamp>, now: Timestamp, lifetime: TimeSpan) -> bool {
    expire_time matches Some(expiry) && now.total_nanos() > expiry.total_nanos()
        - lifetime.total_nanos() / 2
}

/// One of the leases is due to be refreshed.
pub open spec fn refresh_due(leases: Seq<LiveLease>, now: Timestamp, lifetime: TimeSpan) -> bool {
    exists|i: int|
        0 <= i < leases.len() && lease_due((#[trigger] leases[i]).expire_time, now, lifetime)
}

/// A refresh is due exactly where some lease, at whatever place, has a time at
/// which it lapses and more than half of the lifetime up to that time is gone,
/// counted in nanoseconds.
pub proof fn law_a_lease_is_due_past_half_its_lifetime(
    leases: Seq<LiveLease>,
    now: Timestamp,
    lifetime: TimeSpan,
)
    ensures
        refresh_due(leases, now, lifetime) <==> exists|i: int|
            0 <= i < leases.len() && (#[trigger] leases[i]).expire_time is Some && (now.secs
                * 1_000_000_000 + now.nanos) > (leases[i].expire_time->0.secs * 1_000_000_000
                + leases[i].expire_time->0.nanos) - (lifetime.secs * 1_000_000_000
                + lifetime.nanos) / 2,
        forall|expiry: Timestamp|
            #[trigger] lease_due(Some(expiry), now, lifetime) <==> (now.secs * 1_000_000_000
                + now.nanos) > (expiry.secs * 1_000_000_000 + expiry.nanos) - (lifetime.secs
                * 1_000_000_000 + lifetime.nanos) / 2,
        !lease_due(None, now, lifetime),
{
    if exists|i: int|
        0 <= i < leases.len() && (#[trigger] leases[i]).expire_time is Some && (now.secs
            * 1_000_000_000 + now.nanos) > (leases[i].expire_time->0.secs * 1_000_000_000
            + leases[i].expire_time->0.nanos) - (lifetime.secs * 1_000_000_000 + lifetime.nanos)
            / 2 {
        let i = choose|i: int|
            0 <= i < leases.len() && (#[trigger] leases[i]).expire_time is Some && (now.secs
                * 1_000_000_000 + now.nanos) > (leases[i].expire_time->0.secs * 1_000_000_000
                + leases[i].expire_time->0.nanos) - (lifetime.secs * 1_000_000_000
                + lifetime.nanos) / 2;
        assert(lease_due(leases[i].expire_time, now, lifetime));
    }
    if refresh_due(leases, now, lifetime) {
        let i = choose|i: int|
            0 <= i < leases.len() && lease_due((#[trigger] leases[i]).expire_time, now, lifetime);
        assert(leases[i].expire_time is Some);
    }
}

/// The order of the leases makes no difference to whether a refresh is due: two
/// lists with the same leases, in whatever order, are due together.
pub proof fn law_the_order_of_leases_makes_no_difference(
    leases: Seq<LiveLease>,
    others: Seq<LiveLease>,
    now: Timestamp,
    lifetime: TimeSpan,
)
    requires
        leases.to_multiset() == others.to_multiset(),
    ensures
        refresh_due(leases, now, lifetime) == refresh_due(others, now, lifetime),
{
    if refresh_due(leases, now, lifetime) {
        lemma_due_among(leases, others, now, lifetime);
    }
    if refresh_due(others, now, lifetime) {
        lemma_due_among(others, leases, now, lifetime);
    }
}

/// A due lease is due in every list that has the same leases.
proof fn lemma_due_among(
    leases: Seq<LiveLease>,
    others: Seq<LiveLease>,
    now: Timestamp,
    lifetime: TimeSpan,
)
    requires
        leases.to_multiset() == others.to_multiset(),
        refresh_due(leases, now, lifetime),
    ensures
        refresh_due(others, now, lifetime),
{
    broadcast use vstd::seq_lib::group_to_multiset_ensures;
    let i = choose|i: int|
        0 <= i < leases.len() && lease_due((#[trigger] leases[i]).expire_time, now, lifetime);
    let lease = leases[i];
    assert(leases.contains(lease));
    assert(leases.to_multiset().count(lease) > 0);
    assert(others.contains(lease));
    let k = choose|k: int| 0 <= k < others.len() && others[k] == lease;
    assert(lease_due(others[k].expire_time, now, lifetime));
}

/// The times of the leases are valid.
pub open spec fn leases_wf(leases: Seq<LiveLease>) -> bool {
    forall|i: int|
        0 <= i < leases.len() ==> ((#[trigger] leases[i]).expire_time matches Some(expiry)
            ==> expiry.wf())
}

/// Whether a lease is due to be refreshed.
pub fn is_due(expire_time: Option<Timestamp>, now: Timestamp, lifetime: TimeSpan) -> (due: bool)
    requires
        now.wf(),
        lifetime.wf(),
        expire_time matches Some(expiry) ==> expiry.wf(),
    ensures
        due == lease_due(expire_time, now, lifetime),
        due <==> expire_time is Some && (now.secs * 1_000_000_000 + now.nanos) > (
        expire_time->0.secs * 1_000_000_000 + expire_time->0.nanos) - (lifetime.secs * 1_000_000_000
            + lifetime.nanos) / 2,
{
    match expire_time {
        Some(expiry) => {
            let half: TimeSpan = lifetime.half();
            let deadline: i128 = expiry.as_nanos() - (half.as_nanos() as i128);
            now.as_nanos() > deadline
        },
        None => false,
    }
}

/// Polls the manifest. A reader that manages checkpoints keeps track of the
/// checkpoint of each generation that may still be in use.
pub struct ManifestPoller {
    /// The checkpoints that the reader created and has not deleted.
    pub generations: Vec<Uuid>,
    pub phase: PollPhase,
    /// The checkpoints being deleted.
    pub released: Vec<Uuid>,
    /// The checkpoint that was lost.
    pub lost: Option<Uuid>,
}

impl ManifestPoller {
    /// No checkpoint is listed twice, and a generation is drained because its
    /// checkpoint was lost.
    pub open spec fn wf(&self) -> bool {
        &&& self.generations@.no_duplicates()
        &&& self.phase is Draining ==> self.lost is Some
    }

    /// A reader that manages no checkpoints has none, and never waits for the
    /// manifest to be written.
    pub open spec fn fits_mode(&self, mode: DbReaderMode) -> bool {
        mode != DbReaderMode::ManagedCheckpoint ==> {
            &&& self.generations@.len() == 0
            &&& self.phase is Idle || self.phase is Following
        }
    }

    /// The same checkpoints are kept track of.
    pub open spec fn same_generations(&self, other: &Self) -> bool {
        self.generations@ == other.generations@
    }

    /// Starts to poll. The checkpoint of a managed reader's current generation is
    /// the first one to be kept track of.
    pub fn new(inner: &DbReaderInner) -> (poller: ManifestPoller)
        requires
            inner.wf(),
        ensures
            poller.wf(),
            poller.fits_mode(inner.mode),
            poller.phase is Idle,
            poller.generations@ == if inner.mode == DbReaderMode::ManagedCheckpoint {
                seq![inner.state.generation.checkpoint_id->0]
            } else {
                Seq::empty()
            },
    {
        let mut generations: Vec<Uuid> = Vec::new();
        if matches!(inner.mode, DbReaderMode::ManagedCheckpoint) {
            if let Some(id) = inner.state.generation.checkpoint_id {
                generations.push(id);
            }
        }
        proof {
            assert(generations@ =~= if inner.mode == DbReaderMode::ManagedCheckpoint {
                seq![inner.state.generation.checkpoint_id->0]
            } else {
                Seq::empty()
            });
        }
        ManifestPoller { generations, phase: PollPhase::Idle, released: Vec::new(), lost: None }
    }

    /// The number of checkpoints that are managed.
    pub fn active_checkpoints(&self) -> (count: usize)
        ensures
            count == self.generations@.len(),
    {
        self.generations.len()
    }

    /// Keeps track of the current generation's checkpoint.
    fn register_current_generation(&mut self, inner: &DbReaderInner)
        requires
            old(self).generations@.no_duplicates(),
            inner.state.generation.checkpoint_id is Some,
        ensures
            final(self).generations@.no_duplicates(),
            final(self).phase == old(self).phase,
            final(self).released == old(self).released,
            final(self).lost == old(self).lost,
            ({
                let id = inner.state.generation.checkpoint_id->0;
                final(self).generations@ == if listed(old(self).generations@, id) {
                    old(self).generations@
                } else {
                    old(self).generations@.push(id)
                }
            }),
    {
        if let Some(id) = inner.state.generation.checkpoint_id {
            if !is_listed(&self.generations, &id) {
                self.generations.push(id);
            }
        }
    }

    /// Ends the poll.
    fn finish(&mut self, result: Result<(), SlateDBError>, counted: bool) -> (action: PollAction)
        ensures
            final(self).phase is Idle,
            final(self).generations == old(self).generations,
            action == (PollAction::Done { result, counted }),
    {
        self.phase = PollPhase::Idle;
        PollAction::Done { result, counted }
    }

    /// Begins a poll.
    pub fn handle(&mut self, inner: &DbReaderInner) -> (action: PollAction)
        requires
            old(self).wf(),
            old(self).phase is Idle,
        ensures
            final(self).wf(),
            old(self).fits_mode(inner.mode) ==> final(self).fits_mode(inner.mode),
            inner.mode != DbReaderMode::ManagedCheckpoint ==> !writes_manifest(action),
            final(self).same_generations(old(self)),
            match inner.mode {
                DbReaderMode::ManagedCheckpoint => {
                    &&& action == PollAction::LoadManifest
                    &&& final(self).phase is Loading
                },
                DbReaderMode::FollowLatest => {
                    &&& action == PollAction::FollowLatest
                    &&& final(self).phase is Following
                },
                DbReaderMode::Checkpoint(_) => {
                    &&& action == (PollAction::Done { result: Ok(()), counted: false })
                    &&& final(self).phase is Idle
                },
            },
    {
        match inner.mode {
            DbReaderMode::ManagedCheckpoint => {
                self.phase = PollPhase::Loading;
                PollAction::LoadManifest
            },
            DbReaderMode::FollowLatest => {
                self.phase = PollPhase::Following;
                PollAction::FollowLatest
            },
            // A pinned checkpoint needs no polling.
            DbReaderMode::Checkpoint(_) => self.finish(Ok(()), false),
        }
    }

    /// Either a checkpoint of the latest manifest is created or new WAL is replayed.
    fn follow_manifest(&mut self, inner: &DbReaderInner, latest: &ManifestCore) -> (action: PollAction)
        ensures
            final(self).generations == old(self).generations,
            if latest.tables_differ(&inner.state.generation.manifest.core) {
                &&& action == (PollAction::CreateCheckpoint {
                    lifetime: inner.options.checkpoint_lifetime,
                })
                &&& final(self).phase is Creating
            } else {
                &&& action == PollAction::ReplayNewWals
                &&& final(self).phase is Replaying
            },
    {
        if inner.should_reestablish_checkpoint(latest) {
            self.phase = PollPhase::Creating;
            PollAction::CreateCheckpoint { lifetime: inner.options.checkpoint_lifetime }
        } else {
            self.phase = PollPhase::Replaying;
            PollAction::ReplayNewWals
        }
    }

    /// Takes up the loaded manifest: checkpoints whose generations are no longer
    /// in use are deleted first. `live` lists the checkpoints whose generations
    /// still are.
    pub fn on_manifest_loaded(
        &mut self,
        loaded: Result<&ManifestCore, SlateDBError>,
        live: &Vec<Uuid>,
        inner: &DbReaderInner,
    ) -> (action: PollAction)
        requires
            old(self).wf(),
            old(self).phase is Loading,
        ensures
            final(self).wf(),
            final(self).same_generations(old(self)),
            match loaded {
                Err(error) => {
                    &&& action == (PollAction::Done { result: Err(error), counted: false })
                    &&& final(self).phase is Idle
                },
                Ok(latest) => {
                    let released = selected(
                        old(self).generations@,
                        |id: Uuid| !listed(live@, id),
                    );
                    if released.len() > 0 {
                        &&& action matches PollAction::DeleteCheckpoints(ids) && ids@ == released
                        &&& final(self).phase is Deleting
                        &&& final(self).released@ == released
                    } else if latest.tables_differ(&inner.state.generation.manifest.core) {
                        &&& action == (PollAction::CreateCheckpoint {
                            lifetime: inner.options.checkpoint_lifetime,
                        })
                        &&& final(self).phase is Creating
                    } else {
                        &&& action == PollAction::ReplayNewWals
                        &&& final(self).phase is Replaying
                    }
                },
            },
    {
        let latest: &ManifestCore = match loaded {
            Ok(latest) => latest,
            Err(error) => {
                return self.finish(Err(error), false);
            },
        };
        let (_, released) = partition(&self.generations, live);
        if released.len() == 0 {
            return self.follow_manifest(inner, latest);
        }
        self.released = copy_ids(&released);
        self.phase = PollPhase::Deleting;
        PollAction::DeleteCheckpoints(released)
    }

    /// Takes up the deletion of released checkpoints, which are then no longer
    /// kept track of.
    pub fn on_checkpoints_deleted(
        &mut self,
        result: Result<(), SlateDBError>,
        latest: &ManifestCore,
        inner: &DbReaderInner,
    ) -> (action: PollAction)
        requires
            old(self).wf(),
            old(self).phase is Deleting,
        ensures
            final(self).wf(),
            match result {
                Err(error) => {
                    &&& action == (PollAction::Done { result: Err(error), counted: false })
                    &&& final(self).phase is Idle
                    &&& final(self).same_generations(old(self))
                },
                Ok(()) => {
                    &&& final(self).generations@ == selected(
                        old(self).generations@,
                        |id: Uuid| !listed(old(self).released@, id),
                    )
                    &&& if latest.tables_differ(&inner.state.generation.manifest.core) {
                        &&& action == (PollAction::CreateCheckpoint {
                            lifetime: inner.options.checkpoint_lifetime,
                        })
                        &&& final(self).phase is Creating
                    } else {
                        &&& action == PollAction::ReplayNewWals
                        &&& final(self).phase is Replaying
                    }
                },
            },
    {
        match result {
            Err(error) => self.finish(Err(error), false),
            Ok(()) => {
                proof {
                    lemma_selected(
                        self.generations@,
                        |id: Uuid| !listed(self.released@, id),
                    );
                }
                let (_, kept) = partition(&self.generations, &self.released);
                self.generations = kept;
                self.follow_manifest(inner, latest)
            },
        }
    }

    /// Takes up the new checkpoint: the state is rebuilt on its manifest.
    pub fn on_checkpoint_created(&mut self, created: Result<Checkpoint, SlateDBError>) -> (action:
        PollAction)
        requires
            old(self).wf(),
            old(self).phase is Creating,
        ensures
            final(self).wf(),
            final(self).same_generations(old(self)),
            match created {
                Err(error) => {
                    &&& action == (PollAction::Done { result: Err(error), counted: false })
                    &&& final(self).phase is Idle
                },
                Ok(checkpoint) => {
                    &&& action == PollAction::Reestablish(checkpoint)
                    &&& final(self).phase is Reestablishing
                },
            },
    {
        match created {
            Err(error) => self.finish(Err(error), false),
            Ok(checkpoint) => {
                self.phase = PollPhase::Reestablishing;
                PollAction::Reestablish(checkpoint)
            },
        }
    }

    /// Takes up the installation of the rebuilt state, whose checkpoint is kept
    /// track of from now on.
    pub fn on_reestablished(&mut self, result: Result<(), SlateDBError>, inner: &DbReaderInner) -> (action:
        PollAction)
        requires
            old(self).wf(),
            old(self).phase is Reestablishing,
            inner.wf(),
            inner.state.generation.checkpoint_id is Some,
        ensures
            final(self).wf(),
            match result {
                Err(error) => {
                    &&& action == (PollAction::Done { result: Err(error), counted: false })
                    &&& final(self).phase is Idle
                    &&& final(self).same_generations(old(self))
                },
                Ok(()) => {
                    let id = inner.state.generation.checkpoint_id->0;
                    &&& action == PollAction::ReportLeases
                    &&& final(self).phase is Leases
                    &&& final(self).generations@ == if listed(old(self).generations@, id) {
                        old(self).generations@
                    } else {
                        old(self).generations@.push(id)
                    }
                },
            },
    {
        match result {
            Err(error) => self.finish(Err(error), false),
            Ok(()) => {
                self.register_current_generation(inner);
                self.phase = PollPhase::Leases;
                PollAction::ReportLeases
            },
        }
    }

    /// Takes up the replay of new WAL.
    pub fn on_replayed(&mut self, result: Result<(), SlateDBError>) -> (action: PollAction)
        requires
            old(self).wf(),
            old(self).phase is Replaying,
        ensures
            final(self).wf(),
            final(self).same_generations(old(self)),
            match result {
                Err(error) => {
                    &&& action == (PollAction::Done { result: Err(error), counted: false })
                    &&& final(self).phase is Idle
                },
                Ok(()) => {
                    &&& action == PollAction::ReportLeases
                    &&& final(self).phase is Leases
                },
            },
    {
        match result {
            Err(error) => self.finish(Err(error), false),
            Ok(()) => {
                self.phase = PollPhase::Leases;
                PollAction::ReportLeases
            },
        }
    }

    /// Takes up the leases of the generations that are still in use. As soon as
    /// one is due, all of them are refreshed together.
    pub fn refresh_live_checkpoints(
        &mut self,
        now: Timestamp,
        live: &Vec<LiveLease>,
        inner: &DbReaderInner,
    ) -> (action: PollAction)
        requires
            old(self).wf(),
            old(self).phase is Leases,
            now.wf(),
            leases_wf(live@),
            inner.wf(),
        ensures
            final(self).wf(),
            final(self).same_generations(old(self)),
            if refresh_due(live@, now, inner.options.checkpoint_lifetime) {
                &&& action matches PollAction::RefreshCheckpoints { ids, lifetime }
                &&& ids@ == lease_ids(live@)
                &&& lifetime == inner.options.checkpoint_lifetime
                &&& final(self).phase is Refreshing
            } else {
                &&& action == (PollAction::Done { result: Ok(()), counted: true })
                &&& final(self).phase is Idle
            },
            ({
                let lifetime = inner.options.checkpoint_lifetime;
                let half = (lifetime.secs * 1_000_000_000 + lifetime.nanos) / 2;
                let due = exists|i: int|
                    0 <= i < live@.len() && (#[trigger] live@[i]).expire_time is Some && (now.secs
                        * 1_000_000_000 + now.nanos) > (live@[i].expire_time->0.secs * 1_000_000_000
                        + live@[i].expire_time->0.nanos) - half;
                &&& due <==> action is RefreshCheckpoints
                &&& !due <==> action is Done
                &&& action matches PollAction::RefreshCheckpoints { ids, lifetime: granted } ==> {
                    &&& granted == lifetime
                    &&& ids@.len() == live@.len()
                    &&& forall|i: int| 0 <= i < live@.len() ==> #[trigger] ids@[i] == live@[i].id
                }
            }),
    {
        proof {
            law_a_lease_is_due_past_half_its_lifetime(live@, now, inner.options.checkpoint_lifetime);
        }
        let lifetime: TimeSpan = inner.options.checkpoint_lifetime;
        let mut due: bool = false;
        let mut ids: Vec<Uuid> = Vec::new();
        let mut i: usize = 0;
        while i < live.len()
            invariant
                i <= live@.len(),
                now.wf(),
                lifetime.wf(),
                leases_wf(live@),
                ids@ == lease_ids(live@.take(i as int)),
                due == refresh_due(live@.take(i as int), now, lifetime),
            decreases live@.len() - i,
        {
            let lease: LiveLease = live[i];
            let this_due: bool = is_due(lease.expire_time, now, lifetime);
            let ghost shorter = live@.take(i as int);
            let ghost longer = live@.take(i + 1);
            proof {
                assert(longer =~= shorter.push(lease));
                if due {
                    let k = choose|k: int|
                        0 <= k < shorter.len() && lease_due(
                            (#[trigger] shorter[k]).expire_time,
                            now,
                            lifetime,
                        );
                    assert(lease_due(longer[k].expire_time, now, lifetime));
                }
                if this_due {
                    assert(lease_due(longer[i as int].expire_time, now, lifetime));
                }
                if refresh_due(longer, now, lifetime) {
                    let k = choose|k: int|
                        0 <= k < longer.len() && lease_due(
                            (#[trigger] longer[k]).expire_time,
                            now,
                            lifetime,
                        );
                    if k < i {
                        assert(lease_due(shorter[k].expire_time, now, lifetime));
                    }
                }
                assert(lease_ids(longer) =~= lease_ids(shorter).push(lease.id));
            }
            due = due || this_due;
            ids.push(lease.id);
            i = i + 1;
        }
        assert(live@.take(live@.len() as int) =~= live@);
        if !due {
            return self.finish(Ok(()), true);
        }
        self.phase = PollPhase::Refreshing;
        PollAction::RefreshCheckpoints { ids, lifetime }
    }

    /// Takes up the refreshed checkpoints. A checkpoint that is missing has lost
    /// its lease: its generation is drained, and the others are tried again right
    /// away so that one lost checkpoint cannot make their refresh a poll late.
    pub fn on_refreshed(&mut self, result: Result<Vec<Checkpoint>, SlateDBError>) -> (action:
        PollAction)
        requires
            old(self).wf(),
            old(self).phase is Refreshing,
        ensures
            final(self).wf(),
            match result {
                Ok(refreshed) => {
                    &&& action == PollAction::Renew(refreshed)
                    &&& final(self).phase is Idle
                    &&& final(self).same_generations(old(self))
                },
                Err(SlateDBError::CheckpointMissing(id)) => {
                    &&& action == PollAction::Drain(id)
                    &&& final(self).phase is Draining
                    &&& final(self).lost == Some(id)
                    &&& final(self).generations@ == selected(
                        old(self).generations@,
                        |other: Uuid| other != id,
                    )
                },
                Err(error) => {
                    &&& action == (PollAction::Done { result: Err(error), counted: false })
                    &&& final(self).phase is Idle
                    &&& final(self).same_generations(old(self))
                },
            },
    {
        match result {
            Ok(refreshed) => {
                self.phase = PollPhase::Idle;
                PollAction::Renew(refreshed)
            },
            Err(error) => {
                if let SlateDBError::CheckpointMissing(id) = error {
                    let mut gone: Vec<Uuid> = Vec::new();
                    gone.push(id);
                    let (_, kept) = partition(&self.generations, &gone);
                    proof {
                        let not_gone = |other: Uuid| !listed(gone@, other);
                        let others = |other: Uuid| other != id;
                        assert forall|other: Uuid| #[trigger] not_gone(other) == others(other) by {
                            if other == id {
                                assert(gone@[0] == id);
                            }
                        }
                        assert(not_gone =~= others);
                        lemma_selected(self.generations@, others);
                    }
                    self.generations = kept;
                    self.lost = Some(id);
                    self.phase = PollPhase::Draining;
                    return PollAction::Drain(id);
                }
                self.finish(Err(error), false)
            },
        }
    }

    /// Takes up that the generation of a lost checkpoint is drained. Where it is
    /// the current one, a new checkpoint takes its place.
    pub fn on_drained(&mut self, inner: &DbReaderInner) -> (action: PollAction)
        requires
            old(self).wf(),
            old(self).phase is Draining,
        ensures
            final(self).wf(),
            final(self).same_generations(old(self)),
            if inner.state.generation.checkpoint_id == old(self).lost {
                &&& action == (PollAction::CreateCheckpoint {
                    lifetime: inner.options.checkpoint_lifetime,
                })
                &&& final(self).phase is Creating
            } else {
                &&& action == PollAction::ReportLeases
                &&& final(self).phase is Leases
            },
    {
        let is_current: bool = match (inner.state.generation.checkpoint_id, self.lost) {
            (Some(current), Some(lost)) => same_uuid(&current, &lost),
            (None, None) => true,
            _ => false,
        };
        if is_current {
            self.phase = PollPhase::Creating;
            PollAction::CreateCheckpoint { lifetime: inner.options.checkpoint_lifetime }
        } else {
            self.phase = PollPhase::Leases;
            PollAction::ReportLeases
        }
    }

    /// Takes up the outcome of following the latest manifest. A failure is not
    /// passed on, and the poll is not counted.
    pub fn on_followed(&mut self, result: Result<(), SlateDBError>) -> (action: PollAction)
        requires
            old(self).wf(),
            old(self).phase is Following,
        ensures
            final(self).wf(),
            forall|mode: DbReaderMode|
                old(self).fits_mode(mode) ==> #[trigger] final(self).fits_mode(mode),
            final(self).same_generations(old(self)),
            final(self).phase is Idle,
            action == (PollAction::Done { result: Ok(()), counted: result is Ok }),
    {
        match result {
            Ok(()) => self.finish(Ok(()), true),
            Err(_) => self.finish(Ok(()), false),
        }
    }

    /// Begins the cleanup after the last poll.
    pub fn cleanup(&mut self, inner: &DbReaderInner) -> (action: PollAction)
        requires
            old(self).wf(),
        ensures
            final(self).wf(),
            old(self).fits_mode(inner.mode) ==> final(self).fits_mode(inner.mode),
            inner.mode != DbReaderMode::ManagedCheckpoint ==> !writes_manifest(action),
            final(self).same_generations(old(self)),
            if inner.mode == DbReaderMode::ManagedCheckpoint {
                &&& action == PollAction::LoadManifest
                &&& final(self).phase is CleanupLoading
            } else {
                &&& action == (PollAction::Done { result: Ok(()), counted: false })
                &&& final(self).phase is Idle
            },
    {
        if matches!(inner.mode, DbReaderMode::ManagedCheckpoint) {
            self.phase = PollPhase::CleanupLoading;
            PollAction::LoadManifest
        } else {
            self.finish(Ok(()), false)
        }
    }

    /// Takes up the manifest loaded for the cleanup. Every generation is
    /// invalidated before any is waited for, otherwise operations could go on
    /// beginning on a later one while an earlier one is drained.
    pub fn on_cleanup_loaded(&mut self, result: Result<(), SlateDBError>) -> (action: PollAction)
        requires
            old(self).wf(),
            old(self).phase is CleanupLoading,
        ensures
            final(self).wf(),
            final(self).same_generations(old(self)),
            match result {
                Err(error) => {
                    &&& action == (PollAction::Done { result: Err(error), counted: false })
                    &&& final(self).phase is Idle
                },
                Ok(()) => if old(self).generations@.len() > 0 {
                    &&& action matches PollAction::InvalidateAll(ids) && ids@ == old(
                        self,
                    ).generations@
                    &&& final(self).phase is CleanupInvalidating
                } else {
                    &&& action == (PollAction::Done { result: Ok(()), counted: false })
                    &&& final(self).phase is Idle
                },
            },
    {
        match result {
            Err(error) => self.finish(Err(error), false),
            Ok(()) => {
                if self.generations.len() == 0 {
                    return self.finish(Ok(()), false);
                }
                self.phase = PollPhase::CleanupInvalidating;
                PollAction::InvalidateAll(copy_ids(&self.generations))
            },
        }
    }

    /// Takes up that all generations are invalid: the operations still in flight
    /// are waited for.
    pub fn on_cleanup_invalidated(&mut self) -> (action: PollAction)
        requires
            old(self).wf(),
            old(self).phase is CleanupInvalidating,
        ensures
            final(self).wf(),
            final(self).same_generations(old(self)),
            final(self).phase is CleanupDraining,
            action matches PollAction::DrainAll(ids) && ids@ == old(self).generations@,
    {
        self.phase = PollPhase::CleanupDraining;
        PollAction::DrainAll(copy_ids(&self.generations))
    }

    /// Takes up that all generations are drained: every checkpoint is deleted.
    pub fn on_cleanup_drained(&mut self) -> (action: PollAction)
        requires
            old(self).wf(),
            old(self).phase is CleanupDraining,
        ensures
            final(self).wf(),
            final(self).same_generations(old(self)),
            final(self).phase is CleanupDeleting,
            action matches PollAction::DeleteCheckpoints(ids) && ids@ == old(self).generations@,
    {
        self.phase = PollPhase::CleanupDeleting;
        PollAction::DeleteCheckpoints(copy_ids(&self.generations))
    }

    /// Takes up the deletion of all checkpoints, which ends the cleanup.
    pub fn on_cleanup_deleted(&mut self, result: Result<(), SlateDBError>) -> (action: PollAction)
        requires
            old(self).wf(),
            old(self).phase is CleanupDeleting,
        ensures
            final(self).wf(),
            final(self).phase is Idle,
            action == (PollAction::Done { result, counted: false }),
            final(self).generations@ == if result is Ok {
                Seq::empty()
            } else {
                old(self).generations@
            },
    {
        if result.is_ok() {
            self.generations = Vec::new();
            assert(self.generations@ =~= Seq::<Uuid>::empty());
        }
        self.finish(result, false)
    }
}

/// How the refresh of one checkpoint goes on.
#[derive(Debug)]
pub enum RefreshStep {
    /// The refreshed checkpoint was taken over, if nothing else replaced it.
    Refreshed,
    /// The checkpoint is missing: create one and rebuild the state on it.
    Reestablish,
    /// The refresh fails.
    Failed(SlateDBError),
}

/// The current generation's checkpoint, where it is due to be refreshed.
pub fn maybe_refresh_checkpoint(
    generation: &ReaderGeneration,
    now: Timestamp,
    lifetime: TimeSpan,
) -> (due: Option<Checkpoint>)
    requires
        now.wf(),
        lifetime.wf(),
        generation.checkpoint matches Some(checkpoint) && checkpoint.expire_time matches Some(
            expiry,
        ) && expiry.wf(),
    ensures
        due == if lease_due(generation.checkpoint->0.expire_time, now, lifetime) {
            generation.checkpoint
        } else {
            None
        },
{
    match &generation.checkpoint {
        Some(checkpoint) => {
            if is_due(checkpoint.expire_time, now, lifetime) {
                Some(checkpoint.clone())
            } else {
                None
            }
        },
        None => None,
    }
}

/// Takes up the refresh of a checkpoint. The refreshed copy is only kept where
/// the generation still has the checkpoint as it was before. A checkpoint that
/// lapsed and was collected is replaced instead of failing the reader for good.
pub fn on_checkpoint_refreshed(
    generation: &mut ReaderGeneration,
    before: &Checkpoint,
    result: Result<Checkpoint, SlateDBError>,
) -> (step: RefreshStep)
    requires
        old(generation).wf(),
        result matches Ok(refreshed) ==> refreshed.id == before.id,
    ensures
        final(generation).wf(),
        match result {
            Ok(refreshed) => {
                let same = old(generation).checkpoint matches Some(current) && current.id
                    == before.id && current.expire_time == before.expire_time;
                &&& step == RefreshStep::Refreshed
                &&& *final(generation) == if same {
                    ReaderGeneration { checkpoint: Some(refreshed), ..*old(generation) }
                } else {
                    *old(generation)
                }
            },
            Err(SlateDBError::CheckpointMissing(_)) => {
                &&& step == RefreshStep::Reestablish
                &&& *final(generation) == *old(generation)
            },
            Err(error) => {
                &&& step == RefreshStep::Failed(error)
                &&& *final(generation) == *old(generation)
            },
        },
{
    match result {
        Ok(refreshed) => {
            let same: bool = match &generation.checkpoint {
                Some(current) => same_uuid(&current.id, &before.id) && same_time(
                    current.expire_time,
                    before.expire_time,
                ),
                None => false,
            };
            if same {
                generation.renew(refreshed);
            }
            RefreshStep::Refreshed
        },
        Err(error) => {
            if matches!(error, SlateDBError::CheckpointMissing(_)) {
                RefreshStep::Reestablish
            } else {
                RefreshStep::Failed(error)
            }
        },
    }
}

/// Whether two optional times are the same.
fn same_time(a: Option<Timestamp>, b: Option<Timestamp>) -> (same: bool)
    ensures
        same == (a == b),
{
    match (a, b) {
        (Some(a), Some(b)) => a == b,
        (None, None) => true,
        _ => false,
    }
}

/// A checkpoint is only deleted once nothing uses its generation any more, and
/// then always.
pub proof fn law_checkpoints_are_kept_while_in_use(generations: Seq<Uuid>, live: Seq<Uuid>, id: Uuid)
    requires
        listed(generations, id),
    ensures
        listed(selected(generations, |other: Uuid| !listed(live, other)), id) <==> !listed(
            live,
            id,
        ),
{
    lemma_selected(generations, |other: Uuid| !listed(live, other));
}

/// Deleting the released checkpoints keeps track of exactly those still in use.
pub proof fn law_live_checkpoints_stay_tracked(generations: Seq<Uuid>, live: Seq<Uuid>, id: Uuid)
    ensures
        ({
            let released = selected(generations, |other: Uuid| !listed(live, other));
            let kept = selected(generations, |other: Uuid| !listed(released, other));
            listed(kept, id) <==> listed(generations, id) && listed(live, id)
        }),
{
    let released = selected(generations, |other: Uuid| !listed(live, other));
    lemma_selected(generations, |other: Uuid| !listed(live, other));
    lemma_selected(generations, |other: Uuid| !listed(released, other));
}

/// A lost checkpoint is no longer kept track of, and every other one still is.
pub proof fn law_only_the_lost_checkpoint_is_dropped(generations: Seq<Uuid>, lost: Uuid, id: Uuid)
    ensures
        listed(selected(generations, |other: Uuid| other != lost), id) <==> listed(
            generations,
            id,
        ) && id != lost,
{
    lemma_selected(generations, |other: Uuid| other != lost);
}

/// A lease that is refreshed for a lifetime is not due again before half of that
/// lifetime has passed.
pub proof fn law_refreshed_lease_is_not_due_for_half_its_lifetime(
    refreshed_at: Timestamp,
    expiry: Timestamp,
    now: Timestamp,
    lifetime: TimeSpan,
)
    requires
        expiry.total_nanos() == refreshed_at.total_nanos() + lifetime.total_nanos(),
        now.total_nanos() <= refreshed_at.total_nanos() + lifetime.total_nanos() / 2,
        lifetime.wf(),
    ensures
        !lease_due(Some(expiry), now, lifetime),
{
}

} // verus!
