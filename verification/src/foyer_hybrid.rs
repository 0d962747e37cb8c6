//! Accounting of a hybrid (in-memory and on-disk) block cache.
//!
//! The cache reports the states of its disk blocks through gauges. The gauges
//! that matter are kept here, and how full the disk tier is follows from them.
use crate::db_cache::{CacheUsageSnapshot, DbCacheUsageSnapshot};
use crate::text::text_is;
use vstd::prelude::*;

verus! {

/// The family of gauges that count disk blocks by state.
pub const FOYER_BLOCK_GAUGE: &'static str = "foyer_storage_block_engine_block";

/// The family of gauges that hold the size of a disk block.
pub const FOYER_BLOCK_SIZE_GAUGE: &'static str = "foyer_storage_block_engine_block_size_bytes";

/// The values of the gauges.
#[derive(Clone, Copy, PartialEq, Eq, Structural, Debug)]
pub struct FoyerHybridCacheMetricValues {
    pub clean_blocks: u64,
    pub writing_blocks: u64,
    pub evictable_blocks: u64,
    pub reclaiming_blocks: u64,
    pub block_size_bytes: u64,
}

/// What a family of gauges measures.
#[derive(Clone, Copy, PartialEq, Eq, Structural, Debug)]
pub enum TrackedGaugeKind {
    BlockState,
    BlockSize,
}

/// What one gauge measures.
#[derive(Clone, Copy, PartialEq, Eq, Structural, Debug)]
pub enum AtomicGaugeField {
    Clean,
    Writing,
    Evictable,
    Reclaiming,
    BlockSize,
}

impl FoyerHybridCacheMetricValues {
    /// The value of a gauge.
    pub open spec fn field(self, field: AtomicGaugeField) -> u64 {
        match field {
            AtomicGaugeField::Clean => self.clean_blocks,
            AtomicGaugeField::Writing => self.writing_blocks,
            AtomicGaugeField::Evictable => self.evictable_blocks,
            AtomicGaugeField::Reclaiming => self.reclaiming_blocks,
            AtomicGaugeField::BlockSize => self.block_size_bytes,
        }
    }
}

/// A sum that stops at the greatest number.
pub open spec fn capped_sum(a: int, b: int) -> int {
    if a + b > u64::MAX {
        u64::MAX as int
    } else {
        a + b
    }
}

/// A product that stops at the greatest number.
pub open spec fn capped_product(a: int, b: int) -> int {
    if a * b > u64::MAX {
        u64::MAX as int
    } else {
        a * b
    }
}

/// A product that stops at the greatest number.
fn saturating_product(a: u64, b: u64) -> (product: u64)
    ensures
        product == capped_product(a as int, b as int),
{
    match a.checked_mul(b) {
        Some(product) => product,
        None => u64::MAX,
    }
}

/// Retained Foyer block-engine gauges used for synchronous cache accounting.
#[derive(PartialEq, Eq, Structural, Debug)]
pub struct FoyerHybridCacheMetrics {
    pub values: FoyerHybridCacheMetricValues,
}

/// The family that a name of gauges stands for, where it is a tracked one.
pub open spec fn tracked_kind(name: Seq<char>) -> Option<TrackedGaugeKind> {
    if name == FOYER_BLOCK_GAUGE@ {
        Some(TrackedGaugeKind::BlockState)
    } else if name == FOYER_BLOCK_SIZE_GAUGE@ {
        Some(TrackedGaugeKind::BlockSize)
    } else {
        None
    }
}

/// The gauge that labels stand for: the second label names a block's state.
pub open spec fn tracked_field(kind: TrackedGaugeKind, labels: Seq<Seq<char>>) -> Option<
    AtomicGaugeField,
> {
    match kind {
        TrackedGaugeKind::BlockSize => Some(AtomicGaugeField::BlockSize),
        TrackedGaugeKind::BlockState => if labels.len() < 2 {
            None
        } else if labels[1] == "clean"@ {
            Some(AtomicGaugeField::Clean)
        } else if labels[1] == "writing"@ {
            Some(AtomicGaugeField::Writing)
        } else if labels[1] == "evictable"@ {
            Some(AtomicGaugeField::Evictable)
        } else if labels[1] == "reclaiming"@ {
            Some(AtomicGaugeField::Reclaiming)
        } else {
            None
        },
    }
}

/// The family that gauges of this name belong to. Other gauges are not kept.
pub fn register_gauge_vec(name: &str) -> (kind: Option<TrackedGaugeKind>)
    ensures
        kind == tracked_kind(name@),
        kind == Some(TrackedGaugeKind::BlockState) <==> name@
            == "foyer_storage_block_engine_block"@,
        kind == Some(TrackedGaugeKind::BlockSize) <==> name@
            == "foyer_storage_block_engine_block_size_bytes"@,
{
    proof {
        reveal_strlit("foyer_storage_block_engine_block");
        reveal_strlit("foyer_storage_block_engine_block_size_bytes");
        assert("foyer_storage_block_engine_block"@.len()
            != "foyer_storage_block_engine_block_size_bytes"@.len());
    }
    if text_is(name, FOYER_BLOCK_GAUGE) {
        Some(TrackedGaugeKind::BlockState)
    } else if text_is(name, FOYER_BLOCK_SIZE_GAUGE) {
        Some(TrackedGaugeKind::BlockSize)
    } else {
        None
    }
}

/// The gauge of a family that has these labels. Other gauges are not kept.
pub fn gauge(kind: TrackedGaugeKind, labels: &Vec<String>) -> (field: Option<AtomicGaugeField>)
    ensures
        field == tracked_field(kind, labels@.map_values(|label: String| label@)),
        field == Some(AtomicGaugeField::BlockSize) <==> kind == TrackedGaugeKind::BlockSize,
        kind == TrackedGaugeKind::BlockState ==> {
            let state = labels@[1]@;
            &&& field is Some ==> labels@.len() >= 2
            &&& field == Some(AtomicGaugeField::Clean) <==> labels@.len() >= 2 && state == "clean"@
            &&& field == Some(AtomicGaugeField::Writing) <==> labels@.len() >= 2 && state
                == "writing"@
            &&& field == Some(AtomicGaugeField::Evictable) <==> labels@.len() >= 2 && state
                == "evictable"@
            &&& field == Some(AtomicGaugeField::Reclaiming) <==> labels@.len() >= 2 && state
                == "reclaiming"@
        },
{
    match kind {
        TrackedGaugeKind::BlockSize => Some(AtomicGaugeField::BlockSize),
        TrackedGaugeKind::BlockState => {
            if labels.len() < 2 {
                return None;
            }
            let state: &str = labels[1].as_str();
            proof {
                reveal_strlit("clean");
                reveal_strlit("writing");
                reveal_strlit("evictable");
                reveal_strlit("reclaiming");
                assert("clean"@.len() == 5);
                assert("writing"@.len() == 7);
                assert("evictable"@.len() == 9);
                assert("reclaiming"@.len() == 10);
            }
            if text_is(state, "clean") {
                Some(AtomicGaugeField::Clean)
            } else if text_is(state, "writing") {
                Some(AtomicGaugeField::Writing)
            } else if text_is(state, "evictable") {
                Some(AtomicGaugeField::Evictable)
            } else if text_is(state, "reclaiming") {
                Some(AtomicGaugeField::Reclaiming)
            } else {
                None
            }
        },
    }
}

impl FoyerHybridCacheMetrics {
    /// Build an empty metrics handle.
    pub fn new() -> (metrics: Self)
        ensures
            forall|field: AtomicGaugeField| #[trigger] metrics.values.field(field) == 0,
            metrics.values == (FoyerHybridCacheMetricValues {
                clean_blocks: 0,
                writing_blocks: 0,
                evictable_blocks: 0,
                reclaiming_blocks: 0,
                block_size_bytes: 0,
            }),
    {
        FoyerHybridCacheMetrics {
            values: FoyerHybridCacheMetricValues {
                clean_blocks: 0,
                writing_blocks: 0,
                evictable_blocks: 0,
                reclaiming_blocks: 0,
                block_size_bytes: 0,
            },
        }
    }

    /// The value of a gauge, to be changed.
    fn atomic(&mut self, field: AtomicGaugeField) -> (value: &mut u64)
        ensures
            *value == old(self).values.field(field),
            final(self).values.field(field) == *final(value),
            forall|other: AtomicGaugeField|
                other != field ==> #[trigger] final(self).values.field(other) == old(
                    self,
                ).values.field(other),
    {
        match field {
            AtomicGaugeField::Clean => &mut self.values.clean_blocks,
            AtomicGaugeField::Writing => &mut self.values.writing_blocks,
            AtomicGaugeField::Evictable => &mut self.values.evictable_blocks,
            AtomicGaugeField::Reclaiming => &mut self.values.reclaiming_blocks,
            AtomicGaugeField::BlockSize => &mut self.values.block_size_bytes,
        }
    }

    /// Raises a gauge, at most to the greatest number.
    pub fn increase(&mut self, field: AtomicGaugeField, value: u64)
        ensures
            final(self).values.field(field) == capped_sum(
                old(self).values.field(field) as int,
                value as int,
            ),
            forall|other: AtomicGaugeField|
                other != field ==> #[trigger] final(self).values.field(other) == old(
                    self,
                ).values.field(other),
    {
        let current = self.atomic(field);
        *current = current.saturating_add(value);
    }

    /// Lowers a gauge, at most to zero.
    pub fn decrease(&mut self, field: AtomicGaugeField, value: u64)
        ensures
            final(self).values.field(field) == if old(self).values.field(field) < value {
                0
            } else {
                old(self).values.field(field) - value
            },
            forall|other: AtomicGaugeField|
                other != field ==> #[trigger] final(self).values.field(other) == old(
                    self,
                ).values.field(other),
    {
        let current = self.atomic(field);
        *current = current.saturating_sub(value);
    }

    /// Sets a gauge.
    pub fn absolute(&mut self, field: AtomicGaugeField, value: u64)
        ensures
            final(self).values.field(field) == value,
            forall|other: AtomicGaugeField|
                other != field ==> #[trigger] final(self).values.field(other) == old(
                    self,
                ).values.field(other),
    {
        let current = self.atomic(field);
        *current = value;
    }

    /// The disk blocks that hold or are about to hold data.
    pub open spec fn used_blocks(self) -> int {
        capped_sum(
            capped_sum(self.values.writing_blocks as int, self.values.evictable_blocks as int),
            self.values.reclaiming_blocks as int,
        )
    }

    /// How full the disk tier is.
    pub open spec fn disk_usage(self) -> CacheUsageSnapshot {
        let size = self.values.block_size_bytes as int;
        if size == 0 {
            CacheUsageSnapshot::Unavailable
        } else {
            CacheUsageSnapshot::Ready {
                used_bytes: capped_product(self.used_blocks(), size) as u64,
                capacity_bytes: Some(
                    capped_product(
                        capped_sum(self.values.clean_blocks as int, self.used_blocks()),
                        size,
                    ) as u64,
                ),
            }
        }
    }

    /// How full the disk tier is: not known before the size of a block is.
    pub fn disk_usage_snapshot(&self) -> (usage: CacheUsageSnapshot)
        ensures
            usage == self.disk_usage(),
            self.values.block_size_bytes == 0 <==> usage == CacheUsageSnapshot::Unavailable,
            usage is Ready || usage is Unavailable,
            usage matches CacheUsageSnapshot::Ready { used_bytes, capacity_bytes } ==> {
                let values = self.values;
                let used = values.writing_blocks + values.evictable_blocks
                    + values.reclaiming_blocks;
                let all = values.clean_blocks + used;
                let size = values.block_size_bytes as int;
                &&& used * size <= u64::MAX ==> used_bytes == used * size
                &&& used * size > u64::MAX ==> used_bytes == u64::MAX
                &&& all * size <= u64::MAX ==> capacity_bytes == Some((all * size) as u64)
                &&& all * size > u64::MAX ==> capacity_bytes == Some(u64::MAX)
            },
    {
        proof {
            law_disk_usage_is_blocks_times_their_size(*self);
        }
        let block_size_bytes: u64 = self.values.block_size_bytes;
        if block_size_bytes == 0 {
            return CacheUsageSnapshot::Unavailable;
        }
        let used_blocks: u64 = self.values.writing_blocks.saturating_add(
            self.values.evictable_blocks,
        ).saturating_add(self.values.reclaiming_blocks);
        let total_blocks: u64 = self.values.clean_blocks.saturating_add(used_blocks);
        CacheUsageSnapshot::Ready {
            used_bytes: saturating_product(used_blocks, block_size_bytes),
            capacity_bytes: Some(saturating_product(total_blocks, block_size_bytes)),
        }
    }
}

/// A `foyer::HybridCache` of blocks: a table's identifier and a block's offset
/// lead to the encoded block. What it holds is not modelled.
#[verifier::external_body]
pub struct HybridBlocks {
    pub cache: foyer::HybridCache<(u128, u64), Vec<u8>>,
}

/// `HybridCache::memory` and `Cache::usage`: the bytes that the memory tier holds
/// at this moment. They change with every other use of the cache, so nothing is
/// claimed of them.
#[verifier::external_body]
fn memory_usage(blocks: &HybridBlocks) -> (bytes: usize) {
    blocks.cache.memory().usage()
}

/// The bytes that the memory tier of a cache was made to hold.
pub uninterp spec fn memory_limit(blocks: HybridBlocks) -> usize;

/// `HybridCache::memory` and `Cache::capacity`: the bytes that the memory tier was
/// made to hold. The cache keeps that number from when it is built.
#[verifier::external_body]
fn memory_capacity(blocks: &HybridBlocks) -> (bytes: usize)
    ensures
        bytes == memory_limit(*blocks),
{
    blocks.cache.memory().capacity()
}

/// A block cache that stores data across memory and local disk.
pub struct FoyerHybridCache {
    pub inner: HybridBlocks,
    pub metrics: Option<FoyerHybridCacheMetrics>,
}

/// How full the disk tier is, where its gauges are kept.
pub open spec fn disk_usage_of(metrics: Option<FoyerHybridCacheMetrics>) -> CacheUsageSnapshot {
    match metrics {
        Some(metrics) => metrics.disk_usage(),
        None => CacheUsageSnapshot::Unavailable,
    }
}

impl FoyerHybridCache {
    /// Build a hybrid cache without accounting of its disk tier.
    pub fn new_with_cache(cache: HybridBlocks) -> (hybrid: Self)
        ensures
            hybrid == (FoyerHybridCache { inner: cache, metrics: None }),
    {
        FoyerHybridCache { inner: cache, metrics: None }
    }

    /// Build a hybrid cache with retained block-engine accounting.
    pub fn new_with_cache_and_metrics(cache: HybridBlocks, metrics: FoyerHybridCacheMetrics) -> (hybrid:
        Self)
        ensures
            hybrid == (FoyerHybridCache { inner: cache, metrics: Some(metrics) }),
    {
        FoyerHybridCache { inner: cache, metrics: Some(metrics) }
    }

    /// The cache offers no estimate of its entries.
    pub fn entry_count(&self) -> (count: u64)
        ensures
            count == 0,
    {
        0
    }

    /// How full the cache is. The bytes in use in the memory tier vary from moment
    /// to moment; how they are presented is that of [`usage_snapshot`].
    pub fn usage_snapshot(&self) -> (usage: DbCacheUsageSnapshot)
        ensures
            usage.memory matches CacheUsageSnapshot::Ready { capacity_bytes, .. }
                && capacity_bytes == Some(memory_limit(self.inner) as u64),
            usage.disk == disk_usage_of(self.metrics),
            self.metrics is None ==> usage.disk == CacheUsageSnapshot::Unavailable,
            self.metrics matches Some(metrics) ==> usage.disk == metrics.disk_usage(),
    {
        usage_snapshot(memory_usage(&self.inner), memory_capacity(&self.inner), &self.metrics)
    }
}

/// How full a hybrid cache is, given what its memory tier reports and the gauges
/// of its disk tier, where they are kept.
pub fn usage_snapshot(
    memory_used: usize,
    memory_capacity: usize,
    metrics: &Option<FoyerHybridCacheMetrics>,
) -> (usage: DbCacheUsageSnapshot)
    ensures
        usage.memory == (CacheUsageSnapshot::Ready {
            used_bytes: memory_used as u64,
            capacity_bytes: Some(memory_capacity as u64),
        }),
        usage.disk == disk_usage_of(*metrics),
        metrics is None ==> usage.disk == CacheUsageSnapshot::Unavailable,
        metrics matches Some(metrics) ==> usage.disk == metrics.disk_usage(),
{
    DbCacheUsageSnapshot {
        memory: CacheUsageSnapshot::Ready {
            used_bytes: memory_used as u64,
            capacity_bytes: Some(memory_capacity as u64),
        },
        disk: match metrics {
            Some(metrics) => metrics.disk_usage_snapshot(),
            None => CacheUsageSnapshot::Unavailable,
        },
    }
}

/// Every gauge has a value of its own.
pub proof fn law_each_gauge_has_its_own_value(values: FoyerHybridCacheMetricValues)
    ensures
        values.field(AtomicGaugeField::Clean) == values.clean_blocks,
        values.field(AtomicGaugeField::Writing) == values.writing_blocks,
        values.field(AtomicGaugeField::Evictable) == values.evictable_blocks,
        values.field(AtomicGaugeField::Reclaiming) == values.reclaiming_blocks,
        values.field(AtomicGaugeField::BlockSize) == values.block_size_bytes,
{
}

/// Sums are exact up to the greatest number, where they stop.
pub proof fn law_a_capped_sum_is_exact_up_to_the_cap(a: u64, b: u64)
    ensures
        a + b <= u64::MAX ==> capped_sum(a as int, b as int) == a + b,
        a + b > u64::MAX ==> capped_sum(a as int, b as int) == u64::MAX,
        a * b <= u64::MAX ==> capped_product(a as int, b as int) == a * b,
        a * b > u64::MAX ==> capped_product(a as int, b as int) == u64::MAX,
{
}

/// How full the disk tier is follows from the gauges: the blocks being written,
/// evictable or being reclaimed are in use, those and the clean ones are all
/// there are, each of the size of a block, and no number goes past the greatest.
/// Without the size of a block nothing is known.
pub proof fn law_disk_usage_is_blocks_times_their_size(metrics: FoyerHybridCacheMetrics)
    ensures
        metrics.values.block_size_bytes == 0 <==> metrics.disk_usage()
            == CacheUsageSnapshot::Unavailable,
        metrics.values.block_size_bytes > 0 ==> {
            let values = metrics.values;
            let used = values.writing_blocks + values.evictable_blocks + values.reclaiming_blocks;
            let all = values.clean_blocks + used;
            let size = values.block_size_bytes as int;
            &&& metrics.disk_usage() matches CacheUsageSnapshot::Ready {
                used_bytes,
                capacity_bytes,
            }
            &&& used * size <= u64::MAX ==> used_bytes == used * size
            &&& used * size > u64::MAX ==> used_bytes == u64::MAX
            &&& all * size <= u64::MAX ==> capacity_bytes == Some((all * size) as u64)
            &&& all * size > u64::MAX ==> capacity_bytes == Some(u64::MAX)
        },
{
    let values = metrics.values;
    let used = values.writing_blocks + values.evictable_blocks + values.reclaiming_blocks;
    let all = values.clean_blocks + used;
    let size = values.block_size_bytes as int;
    if size > 0 {
        lemma_capped_blocks(used, size);
        lemma_capped_blocks(all, size);
        assert(capped_sum(values.clean_blocks as int, metrics.used_blocks()) == if all > u64::MAX {
            u64::MAX as int
        } else {
            all
        });
    }
}

/// Capping the number of blocks makes no difference to their capped size.
proof fn lemma_capped_blocks(blocks: int, size: int)
    requires
        blocks >= 0,
        size > 0,
    ensures
        blocks * size >= 0,
        blocks > u64::MAX ==> blocks * size > u64::MAX && u64::MAX * size >= u64::MAX,
{
    assert(blocks * size >= blocks) by (nonlinear_arith)
        requires
            blocks >= 0,
            size > 0,
    ;
    assert(u64::MAX * size >= u64::MAX) by (nonlinear_arith)
        requires
            size > 0,
    ;
}

/// A cache never reports more bytes in use than there are.
pub proof fn law_disk_usage_is_within_capacity(metrics: FoyerHybridCacheMetrics)
    ensures
        metrics.disk_usage() matches CacheUsageSnapshot::Ready { used_bytes, capacity_bytes }
            ==> capacity_bytes matches Some(capacity) && used_bytes <= capacity,
{
    let used = metrics.used_blocks();
    let total = capped_sum(metrics.values.clean_blocks as int, used);
    let size = metrics.values.block_size_bytes as int;
    assert(used * size <= total * size) by (nonlinear_arith)
        requires
            0 <= used <= total,
            0 <= size,
    ;
    assert(0 <= used * size) by (nonlinear_arith)
        requires
            0 <= used,
            0 <= size,
    ;
}

} // verus!
