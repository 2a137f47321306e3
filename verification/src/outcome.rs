//! What the scheduler reports to the code that drives it.

use vstd::prelude::*;
use crate::injector::SyscallRequest;

verus! {

/// Address of a system-call instruction, as the engine delivers it to the
/// hook that runs before the instruction.
#[derive(Clone, Copy, Debug, PartialEq, Eq, Structural)]
pub struct SyscallPc {
    pub pc: u64,
}

impl SyscallPc {
    /// Wraps the address of a system-call instruction.
    pub fn new(pc: u64) -> (at: SyscallPc)
        ensures
            at.pc == pc,
    {
        SyscallPc { pc }
    }

    /// The address of the instruction.
    pub fn pc(&self) -> (pc: u64)
        ensures
            pc == self.pc,
    {
        self.pc
    }
}

/// A violation of the contract between a computation and the scheduler.
#[derive(Clone, Copy, Debug, PartialEq, Eq, Structural)]
pub enum InjectError {
    /// A computation was to be resumed that is not in the task table any
    /// more.
    AlreadyFinished,
    /// Duplication was asked for on behalf of a thread for which no
    /// snapshot is filed, so there are no registers to hand over.
    ForkOutsideInjector,
    /// Duplication was asked for while an earlier handoff is still waiting
    /// for its new context.
    ForkPending,
}

/// How polling a thread's queue ended.
#[derive(Clone, Copy, Debug, PartialEq, Eq, Structural)]
pub enum PollOutcome {
    /// The thread has nothing queued any more.
    Finished,
    /// The computation at the head belongs to an address space other than
    /// the live one; nothing was run.
    WrongAddressSpace,
    /// The computation at the head asked for this call; the guest's
    /// registers are set up to issue it.
    Armed(SyscallRequest),
    /// The computation at the head is suspended on a call whose result has
    /// not been reported; nothing was run.
    AwaitingResult,
    /// The head could not be run, or misused the duplication primitive; it
    /// was taken out of the queue.
    Fault(InjectError),
}

impl PollOutcome {
    /// Whether every computation queued for the thread has been processed.
    pub open spec fn finished(self) -> bool {
        self == PollOutcome::Finished
    }

    /// Returns whether every computation queued for the thread has been
    /// processed.
    pub fn is_finished(&self) -> (done: bool)
        ensures
            done == self.finished(),
    {
        match self {
            PollOutcome::Finished => true,
            _ => false,
        }
    }
}

/// What an operation did to the hooks of the thread it ran for.
#[derive(Clone, Copy, Debug, PartialEq, Eq, Structural)]
pub enum HookChange {
    /// The hooks are as they were.
    Unchanged,
    /// The thread got its first queued computation: its hooks are to be
    /// installed.
    Installed,
    /// The thread's queue ran empty: its hooks are to be removed.
    Removed,
}

impl HookChange {
    /// The change that takes a thread from `before` to `after`, each saying
    /// whether its hooks are installed.
    pub open spec fn between(before: bool, after: bool) -> HookChange {
        if before == after {
            HookChange::Unchanged
        } else if after {
            HookChange::Installed
        } else {
            HookChange::Removed
        }
    }

    /// Computes the change that takes a thread from `before` to `after`.
    pub fn of(before: bool, after: bool) -> (change: HookChange)
        ensures
            change == HookChange::between(before, after),
    {
        if before == after {
            HookChange::Unchanged
        } else if after {
            HookChange::Installed
        } else {
            HookChange::Removed
        }
    }
}

/// Result of queueing a computation.
#[derive(Clone, Copy, Debug, PartialEq, Eq, Structural)]
pub struct RunOutcome {
    /// What happened to the thread's hooks.
    pub hooks: HookChange,
    /// How the first poll ended, when the computation was the thread's
    /// first and was therefore polled at once.
    pub poll: Option<PollOutcome>,
}

/// Result of the hook that runs before a system-call instruction.
#[derive(Clone, Copy, Debug, PartialEq, Eq, Structural)]
pub struct EnterOutcome {
    /// How polling the thread's queue ended.
    pub poll: PollOutcome,
    /// What happened to the thread's hooks.
    pub hooks: HookChange,
    /// Whether the engine must abandon the current step and re-enter at
    /// the program counter now in the CPU.
    pub reenter: bool,
}

/// What the hook that runs after a system-call instruction recognised.
#[derive(Clone, Copy, Debug, PartialEq, Eq, Structural)]
pub enum ReturnEvent {
    /// The call was none that the scheduler is waiting for.
    Unrelated,
    /// The call is the one the thread's head computation is suspended on;
    /// the carried value is its result.
    Delivered(u64),
    /// The call is the duplication call returning in the new context; the
    /// handed-over computation was queued for it.
    ChildScheduled,
}

/// Result of the hook that runs after a system-call instruction.
#[derive(Clone, Copy, Debug, PartialEq, Eq, Structural)]
pub struct ReturnOutcome {
    /// What the hook recognised.
    pub event: ReturnEvent,
    /// What happened to the thread's hooks.
    pub hooks: HookChange,
    /// Whether the engine must abandon the current step and re-enter at
    /// the program counter now in the CPU.
    pub reenter: bool,
}

} // verus!
