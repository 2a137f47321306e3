//! The scheduler as a state machine over mathematical values.
//!
//! Every operation of the executable scheduler is specified as a function
//! from a `SchedulerState` to the next one; the laws of the scheduler are
//! proved about these functions.

use vstd::prelude::*;
use crate::injector::{Injector, Step, SyscallRequest, FORK, FORK_CHILD_RESULT};
use crate::outcome::{
    EnterOutcome, HookChange, InjectError, PollOutcome, ReturnEvent, ReturnOutcome, RunOutcome,
};
use crate::queue::{ChildInjector, Phase, QueuedInjector};
use crate::registry::vacant;
use crate::regs::GuestCpu;
use crate::syscall_regs::SyscallRegs;
use crate::thread::ThreadKey;

verus! {

/// A task table without the empty places at its end.
pub open spec fn trimmed<C>(tasks: Seq<Option<C>>) -> Seq<Option<C>>
    decreases tasks.len(),
{
    if tasks.len() > 0 && tasks.last().is_none() {
        trimmed(tasks.drop_last())
    } else {
        tasks
    }
}

/// Everything the scheduler remembers between two hook invocations.
pub struct SchedulerState<C> {
    /// The queue of each thread that has computations pending, oldest
    /// first. A thread's hooks are installed exactly while it has a queue.
    pub queues: Map<ThreadKey, Seq<QueuedInjector>>,
    /// The register snapshot of each thread whose head computation has
    /// started and not finished.
    pub backups: Map<ThreadKey, SyscallRegs>,
    /// The fork handoff slot.
    pub handoff: Option<ChildInjector>,
    /// The computations, each at the place its ticket names; a place is
    /// emptied when its computation ends, and the table ends with a place
    /// that is taken.
    pub tasks: Seq<Option<C>>,
    /// Tickets of the computations that wait for the next system call of
    /// any thread, oldest first.
    pub deferred: Seq<usize>,
    /// Whether the last poll left a computation suspended on a system call.
    pub waiting_for_syscall: bool,
    /// Whether the engine is to re-enter at the system-call instruction
    /// the next time the hook before it runs.
    pub should_loop_again: bool,
    /// Number of the call that was armed last.
    pub last_injected_syscall: u64,
}

impl<C: Injector> SchedulerState<C> {
    /// The state of a scheduler that has been given nothing to do.
    pub open spec fn idle() -> Self {
        SchedulerState {
            queues: Map::empty(),
            backups: Map::empty(),
            handoff: None,
            tasks: Seq::empty(),
            deferred: Seq::empty(),
            waiting_for_syscall: false,
            should_loop_again: false,
            last_injected_syscall: 0,
        }
    }

    /// Whether the hooks of `thread` are installed.
    pub open spec fn hooked(self, thread: ThreadKey) -> bool {
        self.queues.contains_key(thread)
    }

    /// Whether nothing is pending anywhere: no queue, no handoff, nothing
    /// deferred.
    pub open spec fn is_idle(self) -> bool {
        &&& vacant(self.queues)
        &&& self.handoff.is_none()
        &&& self.deferred.len() == 0
    }

    /// The snapshot filed for `thread`, if one is.
    pub open spec fn backup_of(self, thread: ThreadKey) -> Option<SyscallRegs> {
        if self.backups.contains_key(thread) {
            Some(self.backups[thread])
        } else {
            None
        }
    }

    /// The computation kept under `ticket`, if one is.
    pub open spec fn task(self, ticket: usize) -> Option<C> {
        if ticket < self.tasks.len() {
            self.tasks[ticket as int]
        } else {
            None
        }
    }

    /// This state with `task` kept under `ticket`; a ticket that names no
    /// place changes nothing.
    pub open spec fn with_task(self, ticket: usize, task: Option<C>) -> Self {
        if ticket < self.tasks.len() {
            SchedulerState { tasks: self.tasks.update(ticket as int, task), ..self }
        } else {
            self
        }
    }

    /// This state with `queue` filed for `thread`; an empty queue is not
    /// filed at all.
    pub open spec fn with_queue(self, thread: ThreadKey, queue: Seq<QueuedInjector>) -> Self {
        if queue.len() == 0 {
            SchedulerState { queues: self.queues.remove(thread), ..self }
        } else {
            SchedulerState { queues: self.queues.insert(thread, queue), ..self }
        }
    }

    /// This state with `entry` appended to the queue of `thread`.
    pub open spec fn enqueued(self, thread: ThreadKey, entry: QueuedInjector) -> Self {
        let queue = if self.queues.contains_key(thread) {
            self.queues[thread].push(entry)
        } else {
            seq![entry]
        };
        SchedulerState { queues: self.queues.insert(thread, queue), ..self }
    }

    /// One step of the computation kept under `ticket`, resumed with
    /// `delivered`: the computation afterwards, and what the step asks for.
    pub open spec fn step_of(self, ticket: usize, delivered: Option<u64>) -> (C, Step<C>)
        recommends
            self.task(ticket).is_some(),
    {
        self.task(ticket).unwrap().next(delivered)
    }

    /// The duplication primitive, invoked by the computation running for
    /// `thread` at the system-call instruction `pc`: files `child` with the
    /// thread's register snapshot in the handoff slot and asks for the
    /// duplication call. It fails, changing nothing, when the thread has no
    /// snapshot or the slot is taken.
    pub open spec fn fork(self, thread: ThreadKey, pc: u64, child: C) -> (
        Self,
        Result<SyscallRequest, InjectError>,
    ) {
        if !self.backups.contains_key(thread) {
            (self, Err(InjectError::ForkOutsideInjector))
        } else if self.handoff.is_some() {
            (self, Err(InjectError::ForkPending))
        } else {
            (
                SchedulerState {
                    tasks: self.tasks.push(Some(child)),
                    handoff: Some(
                        ChildInjector {
                            regs: self.backups[thread],
                            pc,
                            ticket: self.tasks.len() as usize,
                        },
                    ),
                    ..self
                },
                Ok(SyscallRequest::duplication()),
            )
        }
    }

    /// This state once the head of `queue` is about to run for `thread`: a
    /// computation that has not started gets its snapshot filed, its own
    /// or the one it inherited.
    pub open spec fn started(self, thread: ThreadKey, head: QueuedInjector, cpu: GuestCpu) -> Self {
        if head.phase == Phase::NotStarted {
            let regs = match head.inherited {
                Some(parent) => parent,
                None => SyscallRegs::captured(cpu),
            };
            SchedulerState { backups: self.backups.insert(thread, regs), ..self }
        } else {
            self
        }
    }

    /// The CPU after the snapshot of `thread` has been written back.
    pub open spec fn rewound(self, thread: ThreadKey, cpu: GuestCpu) -> GuestCpu {
        match self.backup_of(thread) {
            Some(regs) => regs.restored(cpu),
            None => cpu,
        }
    }

    /// This state once the computation under `ticket`, which ran for
    /// `thread`, is over: its place is emptied, the empty places at the end
    /// of the task table are given back, and the snapshot is dropped.
    pub open spec fn retired(self, thread: ThreadKey, ticket: usize) -> Self {
        let emptied = self.with_task(ticket, None);
        SchedulerState {
            tasks: trimmed(emptied.tasks),
            backups: emptied.backups.remove(thread),
            ..emptied
        }
    }

    /// This state once the head of `queue` has asked for `request`: the
    /// queue is filed with its head awaiting the result.
    pub open spec fn suspended(
        self,
        thread: ThreadKey,
        queue: Seq<QueuedInjector>,
        request: SyscallRequest,
    ) -> Self
        recommends
            queue.len() > 0,
    {
        SchedulerState {
            queues: self.queues.insert(thread, queue.update(0, queue[0].in_phase(Phase::Awaiting))),
            waiting_for_syscall: true,
            last_injected_syscall: request.number,
            ..self
        }
    }

    /// Polls `queue`, which belongs to `thread` and is not filed while it
    /// is polled.
    ///
    /// The head is the only entry looked at. A head from another address
    /// space, or one whose call has not returned, stops the poll. A head
    /// whose computation is not in the task table any more is a fault: it
    /// leaves the queue, a snapshot filed for the thread is written back,
    /// and the poll stops. Otherwise the head runs one step. If it ends,
    /// its snapshot is written back, it leaves the queue and the next head
    /// is polled. If it asks for a call, the registers are armed and the
    /// poll stops. If it asks for a duplication that cannot be had, it is
    /// aborted like a head that is gone.
    pub open spec fn poll_from(self, thread: ThreadKey, queue: Seq<QueuedInjector>, cpu: GuestCpu) -> (
        Self,
        GuestCpu,
        PollOutcome,
    )
        decreases queue.len(),
    {
        if queue.len() == 0 {
            (self.with_queue(thread, queue), cpu, PollOutcome::Finished)
        } else if queue[0].asid != cpu.asid {
            (self.with_queue(thread, queue), cpu, PollOutcome::WrongAddressSpace)
        } else if queue[0].phase == Phase::Awaiting {
            (
                SchedulerState { waiting_for_syscall: true, ..self.with_queue(thread, queue) },
                cpu,
                PollOutcome::AwaitingResult,
            )
        } else if self.task(queue[0].ticket).is_none() {
            (
                self.retired(thread, queue[0].ticket).with_queue(thread, queue.drop_first()),
                self.rewound(thread, cpu),
                PollOutcome::Fault(InjectError::AlreadyFinished),
            )
        } else {
            let head = queue[0];
            let started = self.started(thread, head, cpu);
            let (task, step) = started.step_of(head.ticket, head.phase.delivery());
            let stepped = started.with_task(head.ticket, Some(task));
            match step {
                Step::Finished => stepped.retired(thread, head.ticket).poll_from(
                    thread,
                    queue.drop_first(),
                    stepped.rewound(thread, cpu),
                ),
                Step::Syscall(request) => (
                    stepped.suspended(thread, queue, request),
                    request.armed(cpu),
                    PollOutcome::Armed(request),
                ),
                Step::Fork(child) => match stepped.fork(thread, head.pc, child) {
                    (forked, Ok(request)) => (
                        forked.suspended(thread, queue, request),
                        request.armed(cpu),
                        PollOutcome::Armed(request),
                    ),
                    (_, Err(error)) => (
                        stepped.retired(thread, head.ticket).with_queue(thread, queue.drop_first()),
                        stepped.rewound(thread, cpu),
                        PollOutcome::Fault(error),
                    ),
                },
            }
        }
    }

    /// Polls the queue of `thread`. A thread without a queue is finished at
    /// once; only the flag that a computation waits for a system call is
    /// reset.
    pub open spec fn poll(self, thread: ThreadKey, cpu: GuestCpu) -> (Self, GuestCpu, PollOutcome) {
        let reset = SchedulerState { waiting_for_syscall: false, ..self };
        if self.queues.contains_key(thread) {
            SchedulerState { queues: self.queues.remove(thread), ..reset }.poll_from(
                thread,
                self.queues[thread],
                cpu,
            )
        } else {
            (reset, cpu, PollOutcome::Finished)
        }
    }

    /// Queues `injector` for `thread` at the system-call instruction `pc`,
    /// bound to the address space that is live. The thread's first
    /// computation is polled at once.
    pub open spec fn run(self, thread: ThreadKey, pc: u64, cpu: GuestCpu, injector: C) -> (
        Self,
        GuestCpu,
        RunOutcome,
    ) {
        let entry = QueuedInjector::fresh(cpu.asid, pc, self.tasks.len() as usize);
        let queued = SchedulerState { tasks: self.tasks.push(Some(injector)), ..self }.enqueued(
            thread,
            entry,
        );
        if self.hooked(thread) {
            (queued, cpu, RunOutcome { hooks: HookChange::Unchanged, poll: None })
        } else {
            let (polled, after, outcome) = queued.poll(thread, cpu);
            (
                polled,
                after,
                RunOutcome {
                    hooks: HookChange::between(false, polled.hooked(thread)),
                    poll: Some(outcome),
                },
            )
        }
    }

    /// This state with `injector` waiting for the next system call of any
    /// thread.
    pub open spec fn deferring(self, injector: C) -> Self {
        SchedulerState {
            tasks: self.tasks.push(Some(injector)),
            deferred: self.deferred.push(self.tasks.len() as usize),
            ..self
        }
    }

    /// This state with the computations under `tickets` appended, in
    /// order, to the queue of `thread`.
    pub open spec fn admitting(self, thread: ThreadKey, pc: u64, asid: u64, tickets: Seq<usize>) -> Self
        decreases tickets.len(),
    {
        if tickets.len() == 0 {
            self
        } else {
            self.enqueued(thread, QueuedInjector::fresh(asid, pc, tickets[0])).admitting(
                thread,
                pc,
                asid,
                tickets.drop_first(),
            )
        }
    }

    /// The hook before a system-call instruction at `pc`, run for `thread`:
    /// the deferred computations join the thread's queue, the queue is
    /// polled, and a pending request to loop again is consumed by moving
    /// the program counter back to `pc`.
    pub open spec fn sys_enter(self, thread: ThreadKey, pc: u64, cpu: GuestCpu) -> (
        Self,
        GuestCpu,
        EnterOutcome,
    ) {
        let admitted = SchedulerState { deferred: Seq::empty(), ..self }.admitting(
            thread,
            pc,
            cpu.asid,
            self.deferred,
        );
        let (polled, after, outcome) = admitted.poll(thread, cpu);
        (
            SchedulerState { should_loop_again: false, ..polled },
            if polled.should_loop_again {
                after.with_pc(pc)
            } else {
                after
            },
            EnterOutcome {
                poll: outcome,
                hooks: HookChange::between(self.hooked(thread), polled.hooked(thread)),
                reenter: polled.should_loop_again,
            },
        )
    }

    /// Whether a system call returning for `thread` in address space `asid`
    /// is the one the thread's head computation is suspended on.
    pub open spec fn serviced(self, thread: ThreadKey, asid: u64) -> bool {
        &&& self.queues.contains_key(thread)
        &&& self.queues[thread].len() > 0
        &&& self.queues[thread][0].asid == asid
        &&& self.queues[thread][0].phase == Phase::Awaiting
    }

    /// Whether a system call returning with the registers of `cpu` is the
    /// duplication call returning in the context it created: the call
    /// armed last is the duplication call, its result is the one a new
    /// context sees, and a handoff is waiting.
    pub open spec fn reveals_child(self, cpu: GuestCpu) -> bool {
        &&& self.last_injected_syscall == FORK
        &&& cpu.rax == FORK_CHILD_RESULT
        &&& self.handoff.is_some()
    }

    /// The hook after a system-call instruction, run for `thread`; the
    /// call's result is in `rax`.
    ///
    /// A call the thread's head is suspended on has its result recorded
    /// for the head. Otherwise, the duplication call returning in the
    /// context it created has the handed-over computation queued for
    /// `thread`. In both cases the engine is sent back to the system-call
    /// instruction. Any other call changes nothing.
    pub open spec fn sys_return(self, thread: ThreadKey, cpu: GuestCpu) -> (
        Self,
        GuestCpu,
        ReturnOutcome,
    ) {
        if self.serviced(thread, cpu.asid) {
            let queue = self.queues[thread];
            (
                SchedulerState {
                    queues: self.queues.insert(
                        thread,
                        queue.update(0, queue[0].in_phase(Phase::Delivered(cpu.rax))),
                    ),
                    should_loop_again: true,
                    ..self
                },
                cpu.with_pc(queue[0].pc),
                ReturnOutcome {
                    event: ReturnEvent::Delivered(cpu.rax),
                    hooks: HookChange::Unchanged,
                    reenter: true,
                },
            )
        } else if self.reveals_child(cpu) {
            let child = self.handoff.unwrap();
            (
                SchedulerState { handoff: None, should_loop_again: true, ..self }.enqueued(
                    thread,
                    QueuedInjector::adopted(cpu.asid, child),
                ),
                cpu.with_pc(child.pc),
                ReturnOutcome {
                    event: ReturnEvent::ChildScheduled,
                    hooks: HookChange::between(self.hooked(thread), true),
                    reenter: true,
                },
            )
        } else {
            (
                self,
                cpu,
                ReturnOutcome {
                    event: ReturnEvent::Unrelated,
                    hooks: HookChange::Unchanged,
                    reenter: false,
                },
            )
        }
    }

    /// Whether `queue`, filed for a thread, is in order: only its head can
    /// have started.
    pub open spec fn orderly(queue: Seq<QueuedInjector>) -> bool {
        forall|i: int| 1 <= i < queue.len() ==> (#[trigger] queue[i]).phase == Phase::NotStarted
    }

    /// Whether a computation is running for `thread`: its queue's head has
    /// started and not finished.
    pub open spec fn running(self, thread: ThreadKey) -> bool {
        &&& self.queues.contains_key(thread)
        &&& self.queues[thread].len() > 0
        &&& self.queues[thread][0].phase != Phase::NotStarted
    }

    /// The invariant of the scheduler.
    ///
    /// A thread has a queue, and with it its hooks, only while something is
    /// queued for it; only the head of a queue can have started; and a
    /// register snapshot is filed for a thread exactly while a computation
    /// is running for it.
    pub open spec fn wf(self) -> bool {
        &&& forall|thread: ThreadKey| #[trigger]
            self.queues.contains_key(thread) ==> self.queues[thread].len() > 0
        &&& forall|thread: ThreadKey| #[trigger]
            self.queues.contains_key(thread) ==> Self::orderly(self.queues[thread])
        &&& forall|thread: ThreadKey| #[trigger]
            self.backups.contains_key(thread) <==> self.running(thread)
    }
}

} // verus!
