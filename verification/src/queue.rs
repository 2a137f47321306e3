//! Entries of the per-thread injector queues and of the fork handoff slot.

use vstd::prelude::*;
use crate::syscall_regs::SyscallRegs;

verus! {

/// How far a queued computation has come.
#[derive(Clone, Copy, Debug, PartialEq, Eq, Structural)]
pub enum Phase {
    /// It has not run yet.
    NotStarted,
    /// It is suspended on a system call whose result the engine has not
    /// reported yet.
    Awaiting,
    /// It is suspended on a system call that returned the carried value,
    /// and can be resumed with it.
    Delivered(u64),
}

impl Phase {
    /// The value a computation in this phase is resumed with.
    pub open spec fn delivery(self) -> Option<u64> {
        match self {
            Phase::Delivered(value) => Some(value),
            _ => None,
        }
    }

    /// Returns the value a computation in this phase is resumed with.
    pub fn get_delivery(&self) -> (value: Option<u64>)
        ensures
            value == self.delivery(),
    {
        match self {
            Phase::Delivered(value) => Some(*value),
            _ => None,
        }
    }
}

/// One entry of a thread's queue.
#[derive(Clone, Copy, Debug)]
pub struct QueuedInjector {
    /// Address space that was live when the computation was queued; the
    /// computation runs only while this address space is live again.
    pub asid: u64,
    /// Address of the system-call instruction at which it was queued.
    pub pc: u64,
    /// Where the computation is kept in the scheduler's task table.
    pub ticket: usize,
    /// How far it has come.
    pub phase: Phase,
    /// For a computation handed to a freshly duplicated context, the
    /// registers of the context that duplicated itself; `None` for a
    /// computation that takes its own snapshot when it starts.
    pub inherited: Option<SyscallRegs>,
}

impl QueuedInjector {
    /// This entry in another phase.
    pub open spec fn in_phase(self, phase: Phase) -> QueuedInjector {
        QueuedInjector { phase, ..self }
    }

    /// An entry for a computation that has not run and takes its own
    /// register snapshot.
    pub open spec fn fresh(asid: u64, pc: u64, ticket: usize) -> QueuedInjector {
        QueuedInjector { asid, pc, ticket, phase: Phase::NotStarted, inherited: None }
    }

    /// An entry for the computation that `child` hands to a duplicated
    /// context running in address space `asid`.
    pub open spec fn adopted(asid: u64, child: ChildInjector) -> QueuedInjector {
        QueuedInjector {
            asid,
            pc: child.pc,
            ticket: child.ticket,
            phase: Phase::NotStarted,
            inherited: Some(child.regs),
        }
    }
}

/// Content of the fork handoff slot: a computation that has not started,
/// waiting for the context that the guest's duplication call creates.
#[derive(Clone, Copy, Debug)]
pub struct ChildInjector {
    /// Registers of the duplicating context, captured when its computation
    /// started; they are written into the new context when the handed-over
    /// computation ends.
    pub regs: SyscallRegs,
    /// Address of the system-call instruction to re-enter in the new context.
    pub pc: u64,
    /// Where the computation is kept in the scheduler's task table.
    pub ticket: usize,
}

} // verus!
