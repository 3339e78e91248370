//! The durable write protocol: write a same-directory temporary file and
//! sync it, replace the target with it, then make the replacement durable
//! by syncing the parent directory. The file operations are performed by
//! the caller; this decides the order, the hook points, and what is
//! cleaned up when a step fails.

use vstd::prelude::*;

verus! {

/// The boundaries a durable write exposes to its hook.
#[derive(Debug, Clone, Copy, PartialEq, Eq)]
pub enum DurableWriteStage {
    BeforeTempWrite,
    BeforeRename,
    /// The target name has switched; the parent directory is not synced yet.
    BeforeParentFsync,
}

/// A step of the protocol, performed by the caller.
#[derive(Debug, Clone, Copy, PartialEq, Eq)]
pub enum DurableStep {
    /// Call the hook at this stage.
    Hook(DurableWriteStage),
    /// Create the temporary file, write the bytes and sync it.
    WriteTemp,
    /// Check that the temporary file and the target share a directory.
    CheckSameDirectory,
    /// Replace the target with the temporary file.
    Replace,
    /// Sync the parent directory (when there is one).
    SyncParent,
}

/// What follows a step.
#[derive(Debug, Clone, Copy, PartialEq, Eq)]
pub enum DurableNext {
    Step(DurableStep),
    /// The write is durable.
    Done,
    /// Fail with the step's error, after removing the temporary file when
    /// `remove_temp` says so (a failure to remove it is ignored).
    Fail(bool),
}

/// The protocol's first step.
pub open spec fn spec_first_step() -> DurableStep {
    DurableStep::Hook(DurableWriteStage::BeforeTempWrite)
}

pub fn first_step() -> (r: DurableStep)
    ensures
        r == spec_first_step(),
{
    DurableStep::Hook(DurableWriteStage::BeforeTempWrite)
}

/// The step after `step`, which succeeded (`ok`) or failed. The temporary
/// file is removed when the hook before the rename, or the rename itself,
/// fails; every other failure is returned as it is.
pub open spec fn spec_next(step: DurableStep, ok: bool) -> DurableNext {
    match step {
        DurableStep::Hook(DurableWriteStage::BeforeTempWrite) => if ok {
            DurableNext::Step(DurableStep::WriteTemp)
        } else {
            DurableNext::Fail(false)
        },
        DurableStep::WriteTemp => if ok {
            DurableNext::Step(DurableStep::Hook(DurableWriteStage::BeforeRename))
        } else {
            DurableNext::Fail(false)
        },
        DurableStep::Hook(DurableWriteStage::BeforeRename) => if ok {
            DurableNext::Step(DurableStep::CheckSameDirectory)
        } else {
            DurableNext::Fail(true)
        },
        DurableStep::CheckSameDirectory => if ok {
            DurableNext::Step(DurableStep::Replace)
        } else {
            DurableNext::Fail(false)
        },
        DurableStep::Replace => if ok {
            DurableNext::Step(DurableStep::Hook(DurableWriteStage::BeforeParentFsync))
        } else {
            DurableNext::Fail(true)
        },
        DurableStep::Hook(DurableWriteStage::BeforeParentFsync) => if ok {
            DurableNext::Step(DurableStep::SyncParent)
        } else {
            DurableNext::Fail(false)
        },
        DurableStep::SyncParent => if ok {
            DurableNext::Done
        } else {
            DurableNext::Fail(false)
        },
    }
}

pub fn next_step(step: DurableStep, ok: bool) -> (r: DurableNext)
    ensures
        r == spec_next(step, ok),
{
    match step {
        DurableStep::Hook(DurableWriteStage::BeforeTempWrite) => if ok {
            DurableNext::Step(DurableStep::WriteTemp)
        } else {
            DurableNext::Fail(false)
        },
        DurableStep::WriteTemp => if ok {
            DurableNext::Step(DurableStep::Hook(DurableWriteStage::BeforeRename))
        } else {
            DurableNext::Fail(false)
        },
        DurableStep::Hook(DurableWriteStage::BeforeRename) => if ok {
            DurableNext::Step(DurableStep::CheckSameDirectory)
        } else {
            DurableNext::Fail(true)
        },
        DurableStep::CheckSameDirectory => if ok {
            DurableNext::Step(DurableStep::Replace)
        } else {
            DurableNext::Fail(false)
        },
        DurableStep::Replace => if ok {
            DurableNext::Step(DurableStep::Hook(DurableWriteStage::BeforeParentFsync))
        } else {
            DurableNext::Fail(true)
        },
        DurableStep::Hook(DurableWriteStage::BeforeParentFsync) => if ok {
            DurableNext::Step(DurableStep::SyncParent)
        } else {
            DurableNext::Fail(false)
        },
        DurableStep::SyncParent => if ok {
            DurableNext::Done
        } else {
            DurableNext::Fail(false)
        },
    }
}

/// The steps a run takes when every step succeeds, from `step` on.
pub open spec fn happy_path(step: DurableStep, fuel: nat) -> Seq<DurableStep>
    decreases fuel,
{
    if fuel == 0 {
        Seq::empty()
    } else {
        seq![step] + match spec_next(step, true) {
            DurableNext::Step(s) => happy_path(s, (fuel - 1) as nat),
            _ => Seq::empty(),
        }
    }
}

/// When nothing fails, the target is replaced only after the temporary
/// file was written and synced and both hooks before it ran, and the
/// parent directory is synced last; the write is then done.
pub proof fn lemma_durable_order()
    ensures
        happy_path(spec_first_step(), 7) == seq![
            DurableStep::Hook(DurableWriteStage::BeforeTempWrite),
            DurableStep::WriteTemp,
            DurableStep::Hook(DurableWriteStage::BeforeRename),
            DurableStep::CheckSameDirectory,
            DurableStep::Replace,
            DurableStep::Hook(DurableWriteStage::BeforeParentFsync),
            DurableStep::SyncParent,
        ],
        spec_next(DurableStep::SyncParent, true) == DurableNext::Done,
{
    reveal_with_fuel(happy_path, 8);
}

/// A failed step removes the temporary file exactly when it is the hook
/// before the rename or the rename itself.
pub proof fn lemma_cleanup_on_failure(step: DurableStep)
    ensures
        spec_next(step, false) == DurableNext::Fail(
            step == DurableStep::Hook(DurableWriteStage::BeforeRename) || step == DurableStep::Replace,
        ),
{
}

} // verus!
