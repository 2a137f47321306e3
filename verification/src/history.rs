//! Every state a scheduler can be in: what holds after any sequence of
//! operations on a scheduler that started with nothing to do.

use vstd::prelude::*;
use crate::injector::Injector;
use crate::laws::lemma_poll_from_keeps_places;
use crate::model::SchedulerState;
use crate::outcome::{InjectError, PollOutcome};
use crate::ownership::{holds, kept, ticket_at, Place};
use crate::queue::QueuedInjector;
use crate::registry::vacant;
use crate::regs::GuestCpu;
use crate::thread::ThreadKey;

verus! {

/// One operation on the scheduler, with what it is given.
pub enum Event<C> {
    /// A computation is queued for a thread.
    Run { thread: ThreadKey, pc: u64, cpu: GuestCpu, injector: C },
    /// A computation is deferred to the next system call.
    Defer { injector: C },
    /// The hook before a system call runs.
    Enter { thread: ThreadKey, pc: u64, cpu: GuestCpu },
    /// The hook after a system call runs.
    Return { thread: ThreadKey, cpu: GuestCpu },
    /// A thread's queue is polled.
    Poll { thread: ThreadKey, cpu: GuestCpu },
    /// The duplication primitive is invoked.
    Fork { thread: ThreadKey, pc: u64, child: C },
}

/// The state after one operation.
pub open spec fn after<C: Injector>(s: SchedulerState<C>, event: Event<C>) -> SchedulerState<C> {
    match event {
        Event::Run { thread, pc, cpu, injector } => s.run(thread, pc, cpu, injector).0,
        Event::Defer { injector } => s.deferring(injector),
        Event::Enter { thread, pc, cpu } => s.sys_enter(thread, pc, cpu).0,
        Event::Return { thread, cpu } => s.sys_return(thread, cpu).0,
        Event::Poll { thread, cpu } => s.poll(thread, cpu).0,
        Event::Fork { thread, pc, child } => s.fork(thread, pc, child).0,
    }
}

/// The state of a scheduler that started with nothing to do and went
/// through `events`, in order.
pub open spec fn reached<C: Injector>(events: Seq<Event<C>>) -> SchedulerState<C>
    decreases events.len(),
{
    if events.len() == 0 {
        SchedulerState::idle()
    } else {
        after(reached(events.drop_last()), events.last())
    }
}

/// An operation adds at most two computations to the task table.
pub proof fn lemma_event_adds_at_most_two<C: Injector>(s: SchedulerState<C>, event: Event<C>)
    ensures
        after(s, event).tasks.len() <= s.tasks.len() + 2,
{
    match event {
        Event::Run { thread, pc, cpu, injector } => {
            let entry = QueuedInjector::fresh(cpu.asid, pc, s.tasks.len() as usize);
            let grown = SchedulerState { tasks: s.tasks.push(Some(injector)), ..s };
            let queued = grown.enqueued(thread, entry);
            if !s.hooked(thread) {
                lemma_poll_from_keeps_places(
                    SchedulerState {
                        queues: queued.queues.remove(thread),
                        waiting_for_syscall: false,
                        ..queued
                    },
                    thread,
                    queued.queues[thread],
                    cpu,
                );
            }
        },
        Event::Enter { thread, pc, cpu } => {
            let cleared = SchedulerState { deferred: Seq::empty(), ..s };
            let admitted = cleared.admitting(thread, pc, cpu.asid, s.deferred);
            crate::laws::lemma_admitting_appends(cleared, thread, pc, cpu.asid, s.deferred);
            if admitted.queues.contains_key(thread) {
                lemma_poll_from_keeps_places(
                    SchedulerState {
                        queues: admitted.queues.remove(thread),
                        waiting_for_syscall: false,
                        ..admitted
                    },
                    thread,
                    admitted.queues[thread],
                    cpu,
                );
            }
        },
        Event::Poll { thread, cpu } => {
            if s.queues.contains_key(thread) {
                lemma_poll_from_keeps_places(
                    SchedulerState {
                        queues: s.queues.remove(thread),
                        waiting_for_syscall: false,
                        ..s
                    },
                    thread,
                    s.queues[thread],
                    cpu,
                );
            }
        },
        _ => {},
    }
}

/// Whatever is done to a scheduler, in whatever order, it keeps its
/// invariant and its books, as long as the task table cannot outgrow the
/// machine's word.
pub proof fn lemma_every_state_is_in_order<C: Injector>(events: Seq<Event<C>>)
    requires
        2 * events.len() + 2 < usize::MAX,
    ensures
        reached(events).wf(),
        kept(reached(events)),
        reached(events).tasks.len() <= 2 * events.len(),
    decreases events.len(),
{
    if events.len() == 0 {
        crate::laws::lemma_idle_state::<C>();
        crate::ownership::lemma_idle_is_owned::<C>();
        crate::ownership::lemma_idle_is_accounted::<C>();
    } else {
        let earlier = reached(events.drop_last());
        lemma_every_state_is_in_order(events.drop_last());
        lemma_event_adds_at_most_two(earlier, events.last());
        match events.last() {
            Event::Run { thread, pc, cpu, injector } => {
                crate::laws::lemma_run_keeps_invariant(earlier, thread, pc, cpu, injector);
                crate::ownership::lemma_run_keeps_owned(earlier, thread, pc, cpu, injector);
                crate::ownership::lemma_run_keeps_accounted(earlier, thread, pc, cpu, injector);
            },
            Event::Defer { injector } => {
                crate::laws::lemma_deferring_keeps_invariant(earlier, injector);
                crate::ownership::lemma_deferring_keeps_owned(earlier, injector);
                crate::ownership::lemma_deferring_keeps_accounted(earlier, injector);
            },
            Event::Enter { thread, pc, cpu } => {
                crate::laws::lemma_sys_enter_keeps_invariant(earlier, thread, pc, cpu);
                crate::ownership::lemma_sys_enter_keeps_owned(earlier, thread, pc, cpu);
                crate::ownership::lemma_sys_enter_keeps_accounted(earlier, thread, pc, cpu);
            },
            Event::Return { thread, cpu } => {
                crate::laws::lemma_sys_return_keeps_invariant(earlier, thread, cpu);
                crate::ownership::lemma_sys_return_keeps_owned(earlier, thread, cpu);
                crate::ownership::lemma_sys_return_keeps_accounted(earlier, thread, cpu);
            },
            Event::Poll { thread, cpu } => {
                crate::laws::lemma_poll_keeps_invariant(earlier, thread, cpu);
                crate::ownership::lemma_poll_keeps_owned(earlier, thread, cpu);
                crate::ownership::lemma_poll_keeps_accounted(earlier, thread, cpu);
            },
            Event::Fork { thread, pc, child } => {
                crate::laws::lemma_fork_keeps_invariant(earlier, thread, pc, child);
                crate::ownership::lemma_fork_keeps_owned(earlier, thread, pc, child);
                crate::ownership::lemma_fork_keeps_accounted(earlier, thread, pc, child);
            },
        }
    }
}

/// After any sequence of operations that leaves no computation in the
/// task table, nothing is left at all: no thread has a queue, so no hook
/// is installed; no snapshot is filed; the handoff slot is empty; nothing
/// is deferred; and the table has no place.
pub proof fn lemma_nothing_outlives_the_computations<C: Injector>(events: Seq<Event<C>>)
    requires
        2 * events.len() + 2 < usize::MAX,
        forall|k: int|
            0 <= k < reached(events).tasks.len() ==> (#[trigger] reached(events).tasks[k]).is_none(),
    ensures
        forall|thread: ThreadKey| !reached(events).hooked(thread),
        vacant(reached(events).queues),
        vacant(reached(events).backups),
        reached(events).handoff.is_none(),
        reached(events).deferred.len() == 0,
        reached(events).tasks.len() == 0,
        reached(events).is_idle(),
{
    let s = reached(events);
    lemma_every_state_is_in_order(events);
    assert forall|p: Place| !holds(s, p) by {
        if holds(s, p) {
            assert(s.task(ticket_at(s, p)).is_some());
        }
    }
    assert forall|thread: ThreadKey| !s.queues.contains_key(thread) by {
        if s.queues.contains_key(thread) {
            assert(s.queues[thread].len() > 0);
            assert(holds(s, Place::Queue(thread, 0)));
        }
    }
    assert forall|thread: ThreadKey| !s.backups.contains_key(thread) by {
        assert(s.backups.contains_key(thread) <==> s.running(thread));
    }
    assert(!holds(s, Place::Handoff));
    if s.deferred.len() > 0 {
        assert(holds(s, Place::Deferred(0)));
    }
}

/// While any computation is pending for a thread, the thread's hooks are
/// installed; and in every state a scheduler can be in, hooks are
/// installed for a thread only while a computation is queued for it.
pub proof fn lemma_hooks_last_as_long_as_the_queue<C: Injector>(
    events: Seq<Event<C>>,
    thread: ThreadKey,
)
    requires
        2 * events.len() + 2 < usize::MAX,
    ensures
        reached(events).hooked(thread) <==> reached(events).queues.contains_key(thread)
            && reached(events).queues[thread].len() > 0,
        reached(events).hooked(thread) ==> reached(events).task(
            reached(events).queues[thread][0].ticket,
        ).is_some(),
        reached(events).backups.contains_key(thread) ==> reached(events).hooked(thread),
{
    let s = reached(events);
    lemma_every_state_is_in_order(events);
    if s.hooked(thread) {
        assert(holds(s, Place::Queue(thread, 0)));
    }
    assert(s.backups.contains_key(thread) <==> s.running(thread));
}


/// In every state a scheduler can be in, the only fault that a poll or
/// the hook before a system call can report is a second duplication
/// while the first has not been taken up: no computation is ever resumed
/// after its end, and none duplicates itself without a snapshot.
pub proof fn lemma_faults_are_second_forks<C: Injector>(
    events: Seq<Event<C>>,
    thread: ThreadKey,
    pc: u64,
    cpu: GuestCpu,
)
    requires
        2 * events.len() + 2 < usize::MAX,
    ensures
        reached(events).poll(thread, cpu).2 matches PollOutcome::Fault(error) ==> error
            == InjectError::ForkPending,
        reached(events).sys_enter(thread, pc, cpu).2.poll matches PollOutcome::Fault(error)
            ==> error == InjectError::ForkPending,
{
    let s = reached(events);
    lemma_every_state_is_in_order(events);
    crate::ownership::lemma_poll_faults_only_on_second_fork(s, thread, cpu);
    let cleared = SchedulerState { deferred: Seq::empty(), ..s };
    let admitted = cleared.admitting(thread, pc, cpu.asid, s.deferred);
    crate::laws::lemma_invariant_reads_queues_and_backups(s, cleared);
    crate::laws::lemma_admitting_keeps_invariant(cleared, thread, pc, cpu.asid, s.deferred);
    crate::ownership::lemma_admission_keeps_owned(s, thread, pc, cpu);
    crate::ownership::lemma_poll_faults_only_on_second_fork(admitted, thread, cpu);
}

} // verus!
