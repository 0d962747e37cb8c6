//! Generations: the manifests that a reader reads from, and the operations on
//! them that are in flight.
use crate::error::SlateDBError;
use crate::manifest::{Checkpoint, Manifest};
use crate::shared::share;
use std::sync::Arc;
use uuid::Uuid;
use vstd::prelude::*;

verus! {

/// The greatest number of operations that can be in flight on one generation.
pub const GENERATION_OPERATION_COUNT: usize = usize::MAX / 2;

/// What identifies a generation, as the states built from it share it.
#[derive(Debug)]
pub struct GenerationRef {
    pub manifest_id: u64,
    pub checkpoint_id: Option<Uuid>,
    pub manifest: Arc<Manifest>,
}

impl Clone for GenerationRef {
    fn clone(&self) -> (copy: Self)
        ensures
            copy == *self,
    {
        GenerationRef {
            manifest_id: self.manifest_id,
            checkpoint_id: self.checkpoint_id,
            manifest: share(&self.manifest),
        }
    }
}

/// A manifest with the checkpoint that protects it, and the operations on it
/// that are in flight. A generation whose checkpoint was lost is invalid: no
/// further operation may begin.
pub struct ReaderGeneration {
    pub manifest_id: u64,
    pub checkpoint: Option<Checkpoint>,
    pub manifest: Arc<Manifest>,
    pub invalid: bool,
    pub operations: usize,
}

impl ReaderGeneration {
    /// Only generations with a checkpoint are invalidated, and the operations in
    /// flight can be counted.
    pub open spec fn wf(&self) -> bool {
        &&& self.invalid ==> self.checkpoint is Some
        &&& self.operations <= GENERATION_OPERATION_COUNT
    }

    /// The identity of the generation.
    pub open spec fn identity(&self) -> GenerationRef {
        GenerationRef {
            manifest_id: self.manifest_id,
            checkpoint_id: match self.checkpoint {
                Some(checkpoint) => Some(checkpoint.id),
                None => None,
            },
            manifest: self.manifest,
        }
    }

    /// A generation with no operation in flight.
    pub fn new(manifest_id: u64, checkpoint: Option<Checkpoint>, manifest: Arc<Manifest>) -> (generation:
        ReaderGeneration)
        ensures
            generation.wf(),
            generation == (ReaderGeneration {
                manifest_id,
                checkpoint,
                manifest,
                invalid: false,
                operations: 0,
            }),
    {
        ReaderGeneration { manifest_id, checkpoint, manifest, invalid: false, operations: 0 }
    }

    /// The identity of the generation.
    pub fn reference(&self) -> (reference: GenerationRef)
        ensures
            reference == self.identity(),
    {
        GenerationRef {
            manifest_id: self.manifest_id,
            checkpoint_id: match &self.checkpoint {
                Some(checkpoint) => Some(checkpoint.id),
                None => None,
            },
            manifest: share(&self.manifest),
        }
    }

    /// The checkpoint that protects the manifest.
    pub fn checkpoint(&self) -> (checkpoint: Option<Checkpoint>)
        ensures
            checkpoint == self.checkpoint,
    {
        match &self.checkpoint {
            Some(checkpoint) => Some(checkpoint.clone()),
            None => None,
        }
    }

    /// Replaces the checkpoint by its refreshed copy.
    pub fn renew(&mut self, refreshed: Checkpoint)
        requires
            old(self).wf(),
            old(self).checkpoint matches Some(checkpoint) && checkpoint.id == refreshed.id,
        ensures
            final(self).wf(),
            *final(self) == (ReaderGeneration { checkpoint: Some(refreshed), ..*old(self) }),
            final(self).identity() == old(self).identity(),
    {
        self.checkpoint = Some(refreshed);
    }

    /// Lets no further operation begin.
    pub fn invalidate(&mut self)
        requires
            old(self).wf(),
            old(self).checkpoint is Some,
        ensures
            final(self).wf(),
            *final(self) == (ReaderGeneration { invalid: true, ..*old(self) }),
            access_step(*old(self), AccessStep::Invalidate) == Some(*final(self)),
    {
        self.invalid = true;
    }

    /// An operation may begin, and it can be counted.
    pub open spec fn can_count(&self) -> bool {
        self.operations < GENERATION_OPERATION_COUNT
    }

    /// Begins an operation, unless the generation is invalid.
    pub fn enter_operation(&mut self) -> (result: Result<(), SlateDBError>)
        requires
            old(self).wf(),
            !old(self).invalid ==> old(self).can_count(),
        ensures
            final(self).wf(),
            if old(self).invalid {
                &&& result == Err::<(), SlateDBError>(
                    SlateDBError::CheckpointLeaseLost(old(self).checkpoint->0.id),
                )
                &&& *final(self) == *old(self)
            } else {
                &&& result is Ok
                &&& *final(self) == (ReaderGeneration {
                    operations: (old(self).operations + 1) as usize,
                    ..*old(self)
                })
            },
            access_step(*old(self), AccessStep::Enter) == Some(*final(self)),
    {
        if self.invalid {
            if let Some(checkpoint) = &self.checkpoint {
                return Err(SlateDBError::CheckpointLeaseLost(checkpoint.id));
            }
        }
        self.operations = self.operations + 1;
        Ok(())
    }

    /// Ends an operation. Tells whether it was the last one in flight.
    pub fn exit_operation(&mut self) -> (drained: bool)
        requires
            old(self).wf(),
            old(self).operations > 0,
        ensures
            final(self).wf(),
            *final(self) == (ReaderGeneration {
                operations: (old(self).operations - 1) as usize,
                ..*old(self)
            }),
            access_step(*old(self), AccessStep::Exit) == Some(*final(self)),
            drained == (final(self).operations == 0),
    {
        self.operations = self.operations - 1;
        self.operations == 0
    }

    /// Whether no operation is in flight.
    pub fn is_drained(&self) -> (drained: bool)
        ensures
            drained == (self.operations == 0),
    {
        self.operations == 0
    }
}

/// What can happen to a generation.
pub enum AccessStep {
    Enter,
    Exit,
    Invalidate,
}

/// A generation after a step, where the step is possible.
pub open spec fn access_step(generation: ReaderGeneration, step: AccessStep) -> Option<
    ReaderGeneration,
> {
    match step {
        AccessStep::Enter => if generation.invalid {
            Some(generation)
        } else if generation.can_count() {
            Some(
                ReaderGeneration { operations: (generation.operations + 1) as usize, ..generation },
            )
        } else {
            None
        },
        AccessStep::Exit => if generation.operations > 0 {
            Some(
                ReaderGeneration { operations: (generation.operations - 1) as usize, ..generation },
            )
        } else {
            None
        },
        AccessStep::Invalidate => Some(ReaderGeneration { invalid: true, ..generation }),
    }
}

/// A generation after several steps, where they are possible.
pub open spec fn access_steps(generation: ReaderGeneration, steps: Seq<AccessStep>) -> Option<
    ReaderGeneration,
>
    decreases steps.len(),
{
    if steps.len() == 0 {
        Some(generation)
    } else {
        match access_steps(generation, steps.drop_last()) {
            Some(before) => access_step(before, steps.last()),
            None => None,
        }
    }
}

/// Once a generation is invalid it stays so, and the operations in flight on it
/// only get fewer: when it is drained, no operation uses it ever again.
pub proof fn law_invalid_generation_only_drains(
    generation: ReaderGeneration,
    steps: Seq<AccessStep>,
)
    requires
        generation.invalid,
        access_steps(generation, steps) is Some,
    ensures
        access_steps(generation, steps)->0.invalid,
        access_steps(generation, steps)->0.operations <= generation.operations,
    decreases steps.len(),
{
    if steps.len() > 0 {
        law_invalid_generation_only_drains(generation, steps.drop_last());
    }
}

/// The operations in flight are those begun and not ended.
pub open spec fn begun(generation: ReaderGeneration, steps: Seq<AccessStep>) -> int
    decreases steps.len(),
{
    if steps.len() == 0 {
        0
    } else {
        let before = access_steps(generation, steps.drop_last());
        begun(generation, steps.drop_last()) + match (before, steps.last()) {
            (Some(before), AccessStep::Enter) => if before.invalid {
                0int
            } else {
                1int
            },
            (_, AccessStep::Exit) => -1int,
            _ => 0int,
        }
    }
}

/// A generation counts exactly the operations that began and did not end.
pub proof fn law_operations_are_counted(generation: ReaderGeneration, steps: Seq<AccessStep>)
    requires
        access_steps(generation, steps) is Some,
        generation.wf(),
    ensures
        access_steps(generation, steps)->0.operations == generation.operations + begun(
            generation,
            steps,
        ),
        access_steps(generation, steps)->0.operations <= GENERATION_OPERATION_COUNT,
    decreases steps.len(),
{
    if steps.len() > 0 {
        law_operations_are_counted(generation, steps.drop_last());
    }
}

} // verus!
