//! The injection scheduler: per-thread queues of computations, advanced
//! from the hooks around the guest's system-call instruction.

use vstd::prelude::*;
use dashmap::DashMap;
use parking_lot::Mutex;
use crate::injector::{Injector, Step, SyscallRequest, FORK, FORK_CHILD_RESULT};
use crate::model::{trimmed, SchedulerState};
use crate::outcome::{
    EnterOutcome, HookChange, InjectError, PollOutcome, ReturnEvent, ReturnOutcome, RunOutcome,
    SyscallPc,
};
use crate::queue::{ChildInjector, Phase, QueuedInjector};
use crate::registry::{
    backups_get, backups_insert, backups_new, backups_remove, injector_queues, queues_contains,
    queues_insert, queues_is_empty, queues_new, queues_remove, register_backups, slot_content,
    slot_new, slot_peek, slot_swap,
};
use crate::regs::{current_asid, GuestCpu};
use crate::syscall_regs::SyscallRegs;
use crate::thread::{ThreadId, ThreadKey};

verus! {

/// The scheduler's state: the queue and the register backup of every
/// thread, the fork handoff slot, the computations themselves, and the
/// flags that the two hooks pass to each other.
pub struct Scheduler<C> {
    injectors: DashMap<ThreadKey, Vec<QueuedInjector>>,
    current_regs_backup: DashMap<ThreadKey, SyscallRegs>,
    child_injector: Mutex<Option<ChildInjector>>,
    tasks: Vec<Option<C>>,
    deferred: Vec<usize>,
    waiting_for_syscall: bool,
    should_loop_again: bool,
    last_injected_syscall: u64,
}

impl<C: Injector> View for Scheduler<C> {
    type V = SchedulerState<C>;

    closed spec fn view(&self) -> SchedulerState<C> {
        SchedulerState {
            queues: injector_queues(self.injectors),
            backups: register_backups(self.current_regs_backup),
            handoff: slot_content(self.child_injector),
            tasks: self.tasks@,
            deferred: self.deferred@,
            waiting_for_syscall: self.waiting_for_syscall,
            should_loop_again: self.should_loop_again,
            last_injected_syscall: self.last_injected_syscall,
        }
    }
}

impl<C: Injector> Scheduler<C> {
    /// A scheduler that has been given nothing to do.
    pub fn new() -> (scheduler: Scheduler<C>)
        ensures
            scheduler@ == SchedulerState::<C>::idle(),
    {
        let scheduler = Scheduler {
            injectors: queues_new(),
            current_regs_backup: backups_new(),
            child_injector: slot_new(),
            tasks: Vec::new(),
            deferred: Vec::new(),
            waiting_for_syscall: false,
            should_loop_again: false,
            last_injected_syscall: 0,
        };
        proof {
            let idle = SchedulerState::<C>::idle();
            assert(scheduler@.queues =~= idle.queues);
            assert(scheduler@.backups =~= idle.backups);
            assert(scheduler@.tasks =~= idle.tasks);
            assert(scheduler@.deferred =~= idle.deferred);
        }
        scheduler
    }

    /// Whether the last poll left a computation suspended on a system call.
    pub fn waiting_for_syscall(&self) -> (waiting: bool)
        ensures
            waiting == self@.waiting_for_syscall,
    {
        self.waiting_for_syscall
    }

    /// Number of the call that was armed last.
    pub fn last_injected_syscall(&self) -> (number: u64)
        ensures
            number == self@.last_injected_syscall,
    {
        self.last_injected_syscall
    }

    /// Whether the hooks of `thread` are installed, that is, whether the
    /// thread has computations queued.
    pub fn hooks_installed(&self, thread: ThreadId) -> (installed: bool)
        ensures
            installed == self@.hooked(thread.key()),
    {
        queues_contains(&self.injectors, thread.to_key())
    }

    /// Number of places in the task table, taken or empty.
    pub fn task_places(&self) -> (places: usize)
        ensures
            places == self@.tasks.len(),
    {
        self.tasks.len()
    }

    /// Whether nothing is pending anywhere, so that the engine needs to
    /// deliver no event.
    pub fn is_idle(&self) -> (idle: bool)
        ensures
            idle == self@.is_idle(),
    {
        let content = slot_peek(&self.child_injector);
        let unqueued = queues_is_empty(&self.injectors);
        unqueued && content.is_none() && self.deferred.len() == 0
    }

    /// The register snapshot of the computation running for `thread`, or
    /// `None` when none is running.
    pub fn get_backed_up_regs(&self, thread: ThreadId) -> (regs: Option<SyscallRegs>)
        ensures
            regs == self@.backup_of(thread.key()),
    {
        backups_get(&self.current_regs_backup, thread.to_key())
    }

    fn set_backed_up_regs(&mut self, thread: ThreadId, regs: SyscallRegs)
        ensures
            final(self)@ == (SchedulerState {
                backups: old(self)@.backups.insert(thread.key(), regs),
                ..old(self)@
            }),
    {
        backups_insert(&mut self.current_regs_backup, thread.to_key(), regs);
    }

    fn unset_backed_up_regs(&mut self, thread: ThreadId)
        ensures
            final(self)@ == (SchedulerState {
                backups: old(self)@.backups.remove(thread.key()),
                ..old(self)@
            }),
    {
        backups_remove(&mut self.current_regs_backup, thread.to_key());
    }

    /// Takes the handed-over computation out of the fork handoff slot,
    /// which must hold one.
    fn get_child_injector(&mut self) -> (child: ChildInjector)
        requires
            old(self)@.handoff.is_some(),
        ensures
            Some(child) == old(self)@.handoff,
            final(self)@ == (SchedulerState { handoff: None, ..old(self)@ }),
    {
        match slot_swap(&mut self.child_injector, None) {
            Some(child) => child,
            None => vstd::pervasive::unreached(),
        }
    }

    /// The duplication primitive. The computation running for `thread`,
    /// queued at the system-call instruction `pc`, hands `child_injector`
    /// over to the context that the guest's duplication call will create,
    /// together with the thread's register snapshot; what is returned is
    /// the call to issue.
    ///
    /// A computation must be running for `thread`: outside one there is no
    /// snapshot to hand over. Fails, changing nothing, with `ForkPending`
    /// when an earlier handoff has not been taken up.
    pub fn fork(&mut self, thread: ThreadId, pc: SyscallPc, child_injector: C) -> (issued: Result<
        SyscallRequest,
        InjectError,
    >)
        requires
            old(self)@.backups.contains_key(thread.key()),
        ensures
            (final(self)@, issued) == old(self)@.fork(thread.key(), pc.pc, child_injector),
            issued.is_ok() <==> old(self)@.handoff.is_none(),
            issued.is_err() ==> issued == Err::<SyscallRequest, InjectError>(InjectError::ForkPending),
    {
        if slot_peek(&self.child_injector).is_some() {
            return Err(InjectError::ForkPending);
        }
        let backed_up_regs = match self.get_backed_up_regs(thread) {
            Some(regs) => regs,
            None => vstd::pervasive::unreached(),
        };
        let ticket = self.tasks.len();
        self.tasks.push(Some(child_injector));
        let _ = slot_swap(
            &mut self.child_injector,
            Some(ChildInjector { regs: backed_up_regs, pc: pc.pc(), ticket }),
        );
        Ok(SyscallRequest::fork_call())
    }

    /// Writes the snapshot of `thread` back into `cpu`, empties the place
    /// of the computation that has ended, gives back the empty places at
    /// the end of the task table and drops the snapshot.
    fn retire(&mut self, thread: ThreadId, ticket: usize, cpu: &mut GuestCpu)
        ensures
            final(self)@ == old(self)@.retired(thread.key(), ticket),
            *final(cpu) == old(self)@.rewound(thread.key(), *old(cpu)),
    {
        match self.get_backed_up_regs(thread) {
            Some(regs) => {
                regs.restore(cpu);
            },
            None => {},
        }
        if ticket < self.tasks.len() {
            self.tasks[ticket] = None;
        }
        self.unset_backed_up_regs(thread);
        let ghost emptied = self.tasks@;
        assert(emptied =~= old(self)@.with_task(ticket, None).tasks);
        loop
            invariant
                trimmed(self.tasks@) == trimmed(emptied),
                self@ == (SchedulerState {
                    tasks: self.tasks@,
                    ..old(self)@.retired(thread.key(), ticket)
                }),
            ensures
                self.tasks@ == trimmed(emptied),
            decreases self.tasks.len(),
        {
            let places = self.tasks.len();
            if places == 0 {
                break;
            }
            if self.tasks[places - 1].is_some() {
                break;
            }
            let ghost longer = self.tasks@;
            let _ = self.tasks.pop();
            assert(self.tasks@ =~= longer.drop_last());
        }
    }

    /// Whether a computation is kept under `ticket`.
    fn keeps(&self, ticket: usize) -> (kept: bool)
        ensures
            kept == self@.task(ticket).is_some(),
    {
        ticket < self.tasks.len() && self.tasks[ticket].is_some()
    }

    /// Runs the computation kept under `ticket` for one step.
    fn step(&mut self, ticket: usize, delivered: Option<u64>) -> (step: Step<C>)
        requires
            old(self)@.task(ticket).is_some(),
        ensures
            step == old(self)@.step_of(ticket, delivered).1,
            final(self)@ == old(self)@.with_task(
                ticket,
                Some(old(self)@.step_of(ticket, delivered).0),
            ),
    {
        match self.tasks[ticket].take() {
            Some(mut computation) => {
                let step = computation.advance(delivered);
                self.tasks[ticket] = Some(computation);
                proof {
                    assert(self@.tasks =~= old(self)@.with_task(
                        ticket,
                        Some(old(self)@.step_of(ticket, delivered).0),
                    ).tasks);
                }
                step
            },
            None => vstd::pervasive::unreached(),
        }
    }

    /// Files `queue` for `thread` with its head awaiting the result of
    /// `request`, and sets the guest's registers up to issue the call.
    fn suspend(
        &mut self,
        thread: ThreadId,
        queue: Vec<QueuedInjector>,
        request: SyscallRequest,
        cpu: &mut GuestCpu,
    )
        requires
            queue@.len() > 0,
        ensures
            final(self)@ == old(self)@.suspended(thread.key(), queue@, request),
            *final(cpu) == request.armed(*old(cpu)),
    {
        let mut queue = queue;
        let head = queue[0];
        queue[0] = QueuedInjector { phase: Phase::Awaiting, ..head };
        queues_insert(&mut self.injectors, thread.to_key(), queue);
        self.waiting_for_syscall = true;
        self.last_injected_syscall = request.number;
        request.arm(cpu);
    }

    /// Files `queue` for `thread`, or nothing when the queue is empty.
    fn file(&mut self, thread: ThreadId, queue: Vec<QueuedInjector>)
        requires
            !old(self)@.queues.contains_key(thread.key()),
        ensures
            final(self)@ == old(self)@.with_queue(thread.key(), queue@),
    {
        if queue.len() > 0 {
            queues_insert(&mut self.injectors, thread.to_key(), queue);
        } else {
            proof {
                assert(self@.queues.remove(thread.key()) =~= self@.queues);
            }
        }
    }

    /// Advances the queue of `thread` as far as it goes: computations run
    /// from the head of the queue until one asks for a system call, one
    /// cannot run, one is aborted, or none is left.
    ///
    /// Reports `Finished` when the queue has run empty; a thread that had
    /// nothing queued is finished at once and nothing but the waiting flag
    /// changes.
    pub fn poll_injectors(&mut self, thread: ThreadId, cpu: &mut GuestCpu) -> (outcome: PollOutcome)
        ensures
            (final(self)@, *final(cpu), outcome) == old(self)@.poll(thread.key(), *old(cpu)),
    {
        let ghost goal = old(self)@.poll(thread.key(), *old(cpu));
        // reset the flag that a computation waits for a system call
        self.waiting_for_syscall = false;
        let mut queue = match queues_remove(&mut self.injectors, thread.to_key()) {
            Some(queue) => queue,
            None => {
                proof {
                    assert(self@.queues =~= old(self)@.queues);
                }
                return PollOutcome::Finished;
            },
        };
        loop
            invariant
                goal == old(self)@.poll(thread.key(), *old(cpu)),
                !self@.queues.contains_key(thread.key()),
                self@.poll_from(thread.key(), queue@, *cpu) == goal,
            decreases queue.len(),
        {
            let ghost entered = self@;
            let ghost pending = queue@;
            if queue.len() == 0 {
                self.file(thread, queue);
                return PollOutcome::Finished;
            }
            let head = queue[0];
            // only poll from the address space the computation was queued in
            if head.asid != current_asid(cpu) {
                self.file(thread, queue);
                return PollOutcome::WrongAddressSpace;
            }
            match head.phase {
                Phase::Awaiting => {
                    self.file(thread, queue);
                    self.waiting_for_syscall = true;
                    return PollOutcome::AwaitingResult;
                },
                _ => {},
            }
            // a computation that is gone cannot be resumed
            if !self.keeps(head.ticket) {
                self.retire(thread, head.ticket, cpu);
                let _ = queue.remove(0);
                proof {
                    assert(queue@ =~= pending.drop_first());
                }
                self.file(thread, queue);
                return PollOutcome::Fault(InjectError::AlreadyFinished);
            }
            // a computation that has not run yet gets its snapshot filed
            match head.phase {
                Phase::NotStarted => {
                    let regs = match head.inherited {
                        Some(parent) => parent,
                        None => SyscallRegs::backup(cpu),
                    };
                    self.set_backed_up_regs(thread, regs);
                },
                _ => {},
            }
            assert(self@ == entered.started(thread.key(), head, *cpu));
            match self.step(head.ticket, head.phase.get_delivery()) {
                // the head has run to its end: go on with the next one
                Step::Finished => {
                    self.retire(thread, head.ticket, cpu);
                    let _ = queue.remove(0);
                    proof {
                        assert(queue@ =~= pending.drop_first());
                    }
                },
                // the head waits for a system call: let the guest run it
                Step::Syscall(request) => {
                    self.suspend(thread, queue, request, cpu);
                    return PollOutcome::Armed(request);
                },
                Step::Fork(child) => {
                    // duplication needs the snapshot of a running computation
                    let issued = if self.get_backed_up_regs(thread).is_some() {
                        self.fork(thread, SyscallPc::new(head.pc), child)
                    } else {
                        Err(InjectError::ForkOutsideInjector)
                    };
                    match issued {
                        Ok(request) => {
                            self.suspend(thread, queue, request, cpu);
                            return PollOutcome::Armed(request);
                        },
                        Err(error) => {
                            self.retire(thread, head.ticket, cpu);
                            let _ = queue.remove(0);
                            proof {
                                assert(queue@ =~= pending.drop_first());
                            }
                            self.file(thread, queue);
                            return PollOutcome::Fault(error);
                        },
                    }
                },
            }
        }
    }

    /// Appends `entry` to the queue of `thread`, making the queue if the
    /// thread has none.
    fn enqueue(&mut self, thread: ThreadId, entry: QueuedInjector)
        ensures
            final(self)@ == old(self)@.enqueued(thread.key(), entry),
    {
        let mut queue = match queues_remove(&mut self.injectors, thread.to_key()) {
            Some(queue) => queue,
            None => Vec::new(),
        };
        queue.push(entry);
        queues_insert(&mut self.injectors, thread.to_key(), queue);
        proof {
            let filed = old(self)@.enqueued(thread.key(), entry).queues;
            assert(self@.queues =~= filed) by {
                if !old(self)@.queues.contains_key(thread.key()) {
                    assert(queue@ =~= seq![entry]);
                }
            }
        }
    }

    /// Queues `injector` to run for `thread`, which is about to execute the
    /// system-call instruction at `pc`. The computation is bound to the
    /// address space that is live. If the thread has others queued it runs
    /// after all of them; if it is the thread's first, the thread's hooks
    /// are to be installed and the computation is polled at once.
    pub fn run_injector(&mut self, thread: ThreadId, pc: SyscallPc, cpu: &mut GuestCpu, injector: C) -> (outcome:
        RunOutcome)
        ensures
            (final(self)@, *final(cpu), outcome) == old(self)@.run(
                thread.key(),
                pc.pc,
                *old(cpu),
                injector,
            ),
    {
        let is_first = !self.hooks_installed(thread);
        let ticket = self.tasks.len();
        self.tasks.push(Some(injector));
        self.enqueue(
            thread,
            QueuedInjector {
                asid: current_asid(cpu),
                pc: pc.pc(),
                ticket,
                phase: Phase::NotStarted,
                inherited: None,
            },
        );
        // a thread whose hooks are not installed yet is polled here
        if is_first {
            let poll = self.poll_injectors(thread, cpu);
            let installed = self.hooks_installed(thread);
            RunOutcome { hooks: HookChange::of(false, installed), poll: Some(poll) }
        } else {
            RunOutcome { hooks: HookChange::Unchanged, poll: None }
        }
    }

    /// Queues `injector` to run for whichever thread executes a system
    /// call next.
    pub fn run_injector_next_syscall(&mut self, injector: C)
        ensures
            final(self)@ == old(self)@.deferring(injector),
    {
        let ticket = self.tasks.len();
        self.tasks.push(Some(injector));
        self.deferred.push(ticket);
    }

    /// Moves the computations that wait for the next system call into the
    /// queue of `thread`, in the order in which they were deferred.
    fn admit_deferred(&mut self, thread: ThreadId, pc: SyscallPc, asid: u64)
        ensures
            final(self)@ == (SchedulerState { deferred: Seq::empty(), ..old(self)@ }).admitting(
                thread.key(),
                pc.pc,
                asid,
                old(self)@.deferred,
            ),
    {
        let mut deferred: Vec<usize> = Vec::new();
        std::mem::swap(&mut self.deferred, &mut deferred);
        let ghost goal = (SchedulerState { deferred: Seq::empty(), ..old(self)@ }).admitting(
            thread.key(),
            pc.pc,
            asid,
            old(self)@.deferred,
        );
        assert(deferred@.skip(0) =~= deferred@);
        assert(self@.deferred =~= Seq::empty());
        let mut i: usize = 0;
        while i < deferred.len()
            invariant
                i <= deferred.len(),
                self@.admitting(thread.key(), pc.pc, asid, deferred@.skip(i as int)) == goal,
            decreases deferred.len() - i,
        {
            let ticket = deferred[i];
            proof {
                assert(deferred@.skip(i as int).drop_first() =~= deferred@.skip(i + 1));
            }
            self.enqueue(
                thread,
                QueuedInjector {
                    asid,
                    pc: pc.pc(),
                    ticket,
                    phase: Phase::NotStarted,
                    inherited: None,
                },
            );
            i += 1;
        }
    }

    /// The hook that runs before `thread` executes the system-call
    /// instruction at `pc`.
    ///
    /// Computations deferred to the next system call join the thread's
    /// queue; the queue is polled; the thread's hooks are to be removed if
    /// that left nothing queued. Independently, if a request to loop again
    /// is pending it is consumed: the program counter goes back to `pc` and
    /// the engine must re-enter there.
    pub fn on_sys_enter(&mut self, thread: ThreadId, pc: SyscallPc, cpu: &mut GuestCpu) -> (outcome:
        EnterOutcome)
        ensures
            (final(self)@, *final(cpu), outcome) == old(self)@.sys_enter(
                thread.key(),
                pc.pc,
                *old(cpu),
            ),
    {
        let before = self.hooks_installed(thread);
        self.admit_deferred(thread, pc, current_asid(cpu));
        let poll = self.poll_injectors(thread, cpu);
        let after = self.hooks_installed(thread);
        let reenter = self.should_loop_again;
        self.should_loop_again = false;
        if reenter {
            cpu.set_pc(pc.pc());
        }
        EnterOutcome { poll, hooks: HookChange::of(before, after), reenter }
    }

    /// The hook that runs after `thread` has executed a system-call
    /// instruction; the call's result is in `rax`.
    ///
    /// If the thread's head computation is suspended on a call in the live
    /// address space, the result is recorded for it. Otherwise, if the
    /// call armed last is the duplication call, the result is the one that
    /// call returns in a new context, and a handoff is waiting, the
    /// handed-over computation is queued for `thread`, whose hooks are to
    /// be installed if it had none. In both cases a request to loop again
    /// is left for the next hook and the engine must re-enter at the
    /// instruction at which the computation was queued. Any other call
    /// changes nothing: a handoff waits until the duplication call itself
    /// returns zero.
    pub fn on_sys_return(&mut self, thread: ThreadId, cpu: &mut GuestCpu) -> (outcome: ReturnOutcome)
        ensures
            (final(self)@, *final(cpu), outcome) == old(self)@.sys_return(thread.key(), *old(cpu)),
    {
        let result = cpu.rax;
        let filed = queues_remove(&mut self.injectors, thread.to_key());
        let before = filed.is_some();
        match filed {
            Some(mut queue) => {
                if queue.len() > 0 {
                    let head = queue[0];
                    let awaited = match head.phase {
                        Phase::Awaiting => true,
                        _ => false,
                    };
                    if head.asid == current_asid(cpu) && awaited {
                        queue[0] = QueuedInjector { phase: Phase::Delivered(result), ..head };
                        queues_insert(&mut self.injectors, thread.to_key(), queue);
                        self.should_loop_again = true;
                        cpu.set_pc(head.pc);
                        proof {
                            assert(self@.queues =~= old(self)@.sys_return(
                                thread.key(),
                                *old(cpu),
                            ).0.queues);
                        }
                        return ReturnOutcome {
                            event: ReturnEvent::Delivered(result),
                            hooks: HookChange::Unchanged,
                            reenter: true,
                        };
                    }
                }
                queues_insert(&mut self.injectors, thread.to_key(), queue);
                proof {
                    assert(self@.queues =~= old(self)@.queues);
                }
            },
            None => {
                proof {
                    assert(self@.queues =~= old(self)@.queues);
                }
            },
        }
        // the duplication call returns zero in the context it created
        let is_fork_child = self.last_injected_syscall == FORK && result == FORK_CHILD_RESULT;
        if is_fork_child && slot_peek(&self.child_injector).is_some() {
            let child = self.get_child_injector();
            self.should_loop_again = true;
            self.enqueue(
                thread,
                QueuedInjector {
                    asid: current_asid(cpu),
                    pc: child.pc,
                    ticket: child.ticket,
                    phase: Phase::NotStarted,
                    inherited: Some(child.regs),
                },
            );
            cpu.set_pc(child.pc);
            return ReturnOutcome {
                event: ReturnEvent::ChildScheduled,
                hooks: HookChange::of(before, true),
                reenter: true,
            };
        }
        ReturnOutcome { event: ReturnEvent::Unrelated, hooks: HookChange::Unchanged, reenter: false }
    }
}

} // verus!
