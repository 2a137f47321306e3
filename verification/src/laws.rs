//! Laws of the scheduler, proved about its state machine.

use vstd::prelude::*;
use crate::injector::{Injector, Step};
use crate::model::{trimmed, SchedulerState};
use crate::outcome::{HookChange, PollOutcome};
use crate::queue::{Phase, QueuedInjector};
use crate::regs::GuestCpu;
use crate::thread::ThreadKey;

verus! {

/// A scheduler that has been given nothing to do satisfies the invariant,
/// has no hook installed and is idle.
pub proof fn lemma_idle_state<C: Injector>()
    ensures
        SchedulerState::<C>::idle().wf(),
        SchedulerState::<C>::idle().is_idle(),
        forall|thread: ThreadKey| !SchedulerState::<C>::idle().hooked(thread),
{
}

/// Giving back the empty places at the end of a task table loses no
/// computation: the table gets no longer, what stays is unchanged, and
/// what goes was empty.
pub proof fn lemma_trimmed_keeps_computations<C>(tasks: Seq<Option<C>>)
    ensures
        trimmed(tasks).len() <= tasks.len(),
        forall|k: int| 0 <= k < trimmed(tasks).len() ==> trimmed(tasks)[k] == tasks[k],
        forall|k: int| trimmed(tasks).len() <= k < tasks.len() ==> (#[trigger] tasks[k]).is_none(),
        trimmed(tasks).len() > 0 ==> trimmed(tasks).last().is_some(),
    decreases tasks.len(),
{
    if tasks.len() > 0 && tasks.last().is_none() {
        let shorter = tasks.drop_last();
        lemma_trimmed_keeps_computations(shorter);
        assert forall|k: int| 0 <= k < trimmed(tasks).len() implies trimmed(tasks)[k]
            == tasks[k] by {
            assert(shorter[k] == tasks[k]);
        }
        assert forall|k: int| trimmed(tasks).len() <= k < tasks.len() implies (
        #[trigger] tasks[k]).is_none() by {
            if k < shorter.len() {
                assert(shorter[k] == tasks[k]);
            }
        }
    }
}

/// Retiring a computation empties its place and leaves every other
/// computation where it is.
pub proof fn lemma_retired_keeps_other_tasks<C: Injector>(
    s: SchedulerState<C>,
    thread: ThreadKey,
    ticket: usize,
)
    ensures
        s.retired(thread, ticket).task(ticket).is_none(),
        s.retired(thread, ticket).tasks.len() <= s.tasks.len(),
        forall|other: usize|
            other != ticket ==> #[trigger] s.retired(thread, ticket).task(other) == s.task(other),
{
    let emptied = s.with_task(ticket, None);
    let after = s.retired(thread, ticket);
    lemma_trimmed_keeps_computations(emptied.tasks);
    assert(after.tasks == trimmed(emptied.tasks));
    assert(emptied.task(ticket).is_none());
    assert(after.task(ticket).is_none()) by {
        if ticket < after.tasks.len() {
            assert(after.tasks[ticket as int] == emptied.tasks[ticket as int]);
        }
    }
    assert forall|other: usize| other != ticket implies #[trigger] after.task(other) == s.task(
        other,
    ) by {
        assert(emptied.task(other) == s.task(other));
        if other < after.tasks.len() {
            assert(after.tasks[other as int] == emptied.tasks[other as int]);
        } else if other < emptied.tasks.len() {
            assert(emptied.tasks[other as int].is_none());
        }
    }
}

/// Polling a queue keeps the invariant.
pub proof fn lemma_poll_from_keeps_invariant<C: Injector>(
    s: SchedulerState<C>,
    thread: ThreadKey,
    queue: Seq<QueuedInjector>,
    cpu: GuestCpu,
)
    requires
        s.with_queue(thread, queue).wf(),
    ensures
        s.poll_from(thread, queue, cpu).0.wf(),
    decreases queue.len(),
{
    let filed = s.with_queue(thread, queue);
    if queue.len() == 0 {
    } else if queue[0].asid != cpu.asid {
    } else if queue[0].phase == Phase::Awaiting {
    } else {
        let head = queue[0];
        assert(filed.queues.contains_key(thread));
        assert(filed.queues[thread] == queue);
        assert(filed.backups.contains_key(thread) <==> filed.running(thread));
        let started = s.started(thread, head, cpu);
        let (task, step) = started.step_of(head.ticket, head.phase.delivery());
        let stepped = started.with_task(head.ticket, Some(task));
        assert(started.backups.contains_key(thread));
        let rest = queue.drop_first();
        assert(SchedulerState::<C>::orderly(queue));
        assert(SchedulerState::<C>::orderly(rest)) by {
            assert forall|i: int| 1 <= i < rest.len() implies (#[trigger] rest[i]).phase
                == Phase::NotStarted by {
                assert(rest[i] == queue[i + 1]);
            }
        }
        if rest.len() > 0 {
            assert(rest[0] == queue[1]);
            assert(rest[0].phase == Phase::NotStarted);
        }
        let retired = stepped.retired(thread, head.ticket);
        let after = retired.with_queue(thread, rest);
        assert(after.wf()) by {
            assert forall|other: ThreadKey| #[trigger]
                after.queues.contains_key(other) implies after.queues[other].len() > 0
                && SchedulerState::<C>::orderly(after.queues[other]) by {
                if other != thread {
                    assert(filed.queues.contains_key(other));
                }
            }
            assert forall|other: ThreadKey| #[trigger]
                after.backups.contains_key(other) <==> after.running(other) by {
                if other != thread {
                    assert(filed.backups.contains_key(other) <==> filed.running(other));
                }
            }
        }
        match step {
            Step::Finished => {
                lemma_poll_from_keeps_invariant(
                    retired,
                    thread,
                    rest,
                    stepped.rewound(thread, cpu),
                );
            },
            Step::Syscall(request) => {
                lemma_suspended_keeps_invariant(s, stepped, thread, queue, request);
            },
            Step::Fork(child) => {
                match stepped.fork(thread, head.pc, child) {
                    (forked, Ok(request)) => {
                        lemma_suspended_keeps_invariant(s, forked, thread, queue, request);
                    },
                    (_, Err(error)) => {},
                }
            },
        }
    }
}

/// Filing a queue with its head suspended keeps the invariant, provided
/// the thread's snapshot is filed.
proof fn lemma_suspended_keeps_invariant<C: Injector>(
    s: SchedulerState<C>,
    stepped: SchedulerState<C>,
    thread: ThreadKey,
    queue: Seq<QueuedInjector>,
    request: crate::injector::SyscallRequest,
)
    requires
        queue.len() > 0,
        s.with_queue(thread, queue).wf(),
        stepped.queues == s.queues,
        stepped.backups.contains_key(thread),
        forall|other: ThreadKey|
            other != thread ==> (#[trigger] stepped.backups.contains_key(other)
                <==> s.backups.contains_key(other)),
    ensures
        stepped.suspended(thread, queue, request).wf(),
{
    let filed = s.with_queue(thread, queue);
    let parked = stepped.suspended(thread, queue, request);
    let waiting = queue.update(0, queue[0].in_phase(Phase::Awaiting));
    assert(filed.queues.contains_key(thread));
    assert(filed.queues[thread] == queue);
    assert(SchedulerState::<C>::orderly(queue));
    assert(SchedulerState::<C>::orderly(waiting)) by {
        assert forall|i: int| 1 <= i < waiting.len() implies (#[trigger] waiting[i]).phase
            == Phase::NotStarted by {
            assert(waiting[i] == queue[i]);
        }
    }
    assert forall|other: ThreadKey| #[trigger]
        parked.queues.contains_key(other) implies parked.queues[other].len() > 0
        && SchedulerState::<C>::orderly(parked.queues[other]) by {
        if other != thread {
            assert(filed.queues.contains_key(other));
        }
    }
    assert forall|other: ThreadKey| #[trigger]
        parked.backups.contains_key(other) <==> parked.running(other) by {
        if other != thread {
            assert(filed.backups.contains_key(other) <==> filed.running(other));
        }
    }
}


/// Polling a thread keeps the invariant.
pub proof fn lemma_poll_keeps_invariant<C: Injector>(
    s: SchedulerState<C>,
    thread: ThreadKey,
    cpu: GuestCpu,
)
    requires
        s.wf(),
    ensures
        s.poll(thread, cpu).0.wf(),
{
    if s.queues.contains_key(thread) {
        let taken = SchedulerState {
            queues: s.queues.remove(thread),
            waiting_for_syscall: false,
            ..s
        };
        let queue = s.queues[thread];
        let filed = taken.with_queue(thread, queue);
        assert(filed.queues =~= s.queues);
        assert(filed.wf()) by {
            assert forall|other: ThreadKey| #[trigger]
                filed.backups.contains_key(other) <==> filed.running(other) by {
                assert(s.backups.contains_key(other) <==> s.running(other));
            }
        }
        lemma_poll_from_keeps_invariant(taken, thread, queue, cpu);
    } else {
        let reset = SchedulerState { waiting_for_syscall: false, ..s };
        assert forall|other: ThreadKey| #[trigger]
            reset.backups.contains_key(other) <==> reset.running(other) by {
            assert(s.backups.contains_key(other) <==> s.running(other));
        }
    }
}

/// Appending a computation that has not started to a thread's queue keeps
/// the invariant.
pub proof fn lemma_enqueue_keeps_invariant<C: Injector>(
    s: SchedulerState<C>,
    thread: ThreadKey,
    entry: QueuedInjector,
)
    requires
        s.wf(),
        entry.phase == Phase::NotStarted,
    ensures
        s.enqueued(thread, entry).wf(),
{
    let after = s.enqueued(thread, entry);
    let queue = after.queues[thread];
    assert(SchedulerState::<C>::orderly(queue)) by {
        if s.queues.contains_key(thread) {
            let before = s.queues[thread];
            assert(SchedulerState::<C>::orderly(before));
            assert forall|i: int| 1 <= i < queue.len() implies (#[trigger] queue[i]).phase
                == Phase::NotStarted by {
                if i < before.len() {
                    assert(queue[i] == before[i]);
                }
            }
        }
    }
    assert forall|other: ThreadKey| #[trigger]
        after.queues.contains_key(other) implies after.queues[other].len() > 0
        && SchedulerState::<C>::orderly(after.queues[other]) by {
        if other != thread {
            assert(s.queues.contains_key(other));
        }
    }
    assert forall|other: ThreadKey| #[trigger]
        after.backups.contains_key(other) <==> after.running(other) by {
        assert(s.backups.contains_key(other) <==> s.running(other));
        if other == thread && s.queues.contains_key(thread) {
            assert(s.queues[thread].len() > 0);
            assert(queue[0] == s.queues[thread][0]);
        }
    }
}

/// A change that touches neither the queues nor the snapshots keeps the
/// invariant.
pub proof fn lemma_invariant_reads_queues_and_backups<C: Injector>(
    s: SchedulerState<C>,
    other: SchedulerState<C>,
)
    requires
        s.wf(),
        other.queues == s.queues,
        other.backups == s.backups,
    ensures
        other.wf(),
{
    assert forall|thread: ThreadKey| #[trigger]
        other.backups.contains_key(thread) <==> other.running(thread) by {
        assert(s.backups.contains_key(thread) <==> s.running(thread));
    }
}

/// Queueing a computation keeps the invariant.
pub proof fn lemma_run_keeps_invariant<C: Injector>(
    s: SchedulerState<C>,
    thread: ThreadKey,
    pc: u64,
    cpu: GuestCpu,
    injector: C,
)
    requires
        s.wf(),
    ensures
        s.run(thread, pc, cpu, injector).0.wf(),
{
    let entry = QueuedInjector::fresh(cpu.asid, pc, s.tasks.len() as usize);
    let grown = SchedulerState { tasks: s.tasks.push(Some(injector)), ..s };
    lemma_invariant_reads_queues_and_backups(s, grown);
    lemma_enqueue_keeps_invariant(grown, thread, entry);
    lemma_poll_keeps_invariant(grown.enqueued(thread, entry), thread, cpu);
}

/// Deferring a computation to the next system call keeps the invariant.
pub proof fn lemma_deferring_keeps_invariant<C: Injector>(s: SchedulerState<C>, injector: C)
    requires
        s.wf(),
    ensures
        s.deferring(injector).wf(),
{
    lemma_invariant_reads_queues_and_backups(s, s.deferring(injector));
}

/// Admitting deferred computations to a thread's queue keeps the invariant.
pub proof fn lemma_admitting_keeps_invariant<C: Injector>(
    s: SchedulerState<C>,
    thread: ThreadKey,
    pc: u64,
    asid: u64,
    tickets: Seq<usize>,
)
    requires
        s.wf(),
    ensures
        s.admitting(thread, pc, asid, tickets).wf(),
    decreases tickets.len(),
{
    if tickets.len() > 0 {
        let entry = QueuedInjector::fresh(asid, pc, tickets[0]);
        lemma_enqueue_keeps_invariant(s, thread, entry);
        lemma_admitting_keeps_invariant(
            s.enqueued(thread, entry),
            thread,
            pc,
            asid,
            tickets.drop_first(),
        );
    }
}

/// The hook before a system call keeps the invariant.
pub proof fn lemma_sys_enter_keeps_invariant<C: Injector>(
    s: SchedulerState<C>,
    thread: ThreadKey,
    pc: u64,
    cpu: GuestCpu,
)
    requires
        s.wf(),
    ensures
        s.sys_enter(thread, pc, cpu).0.wf(),
{
    let cleared = SchedulerState { deferred: Seq::empty(), ..s };
    lemma_invariant_reads_queues_and_backups(s, cleared);
    lemma_admitting_keeps_invariant(cleared, thread, pc, cpu.asid, s.deferred);
    let admitted = cleared.admitting(thread, pc, cpu.asid, s.deferred);
    lemma_poll_keeps_invariant(admitted, thread, cpu);
    let polled = admitted.poll(thread, cpu).0;
    lemma_invariant_reads_queues_and_backups(
        polled,
        SchedulerState { should_loop_again: false, ..polled },
    );
}

/// The hook after a system call keeps the invariant.
pub proof fn lemma_sys_return_keeps_invariant<C: Injector>(
    s: SchedulerState<C>,
    thread: ThreadKey,
    cpu: GuestCpu,
)
    requires
        s.wf(),
    ensures
        s.sys_return(thread, cpu).0.wf(),
{
    let after = s.sys_return(thread, cpu).0;
    if s.serviced(thread, cpu.asid) {
        let queue = s.queues[thread];
        let resumed = queue.update(0, queue[0].in_phase(Phase::Delivered(cpu.rax)));
        assert(SchedulerState::<C>::orderly(queue));
        assert(SchedulerState::<C>::orderly(resumed)) by {
            assert forall|i: int| 1 <= i < resumed.len() implies (#[trigger] resumed[i]).phase
                == Phase::NotStarted by {
                assert(resumed[i] == queue[i]);
            }
        }
        assert forall|other: ThreadKey| #[trigger]
            after.queues.contains_key(other) implies after.queues[other].len() > 0
            && SchedulerState::<C>::orderly(after.queues[other]) by {
            if other != thread {
                assert(s.queues.contains_key(other));
            }
        }
        assert forall|other: ThreadKey| #[trigger]
            after.backups.contains_key(other) <==> after.running(other) by {
            assert(s.backups.contains_key(other) <==> s.running(other));
        }
    } else if s.reveals_child(cpu) {
        let emptied = SchedulerState { handoff: None, should_loop_again: true, ..s };
        lemma_invariant_reads_queues_and_backups(s, emptied);
        lemma_enqueue_keeps_invariant(
            emptied,
            thread,
            QueuedInjector::adopted(cpu.asid, s.handoff.unwrap()),
        );
    }
}

/// The duplication primitive keeps the invariant.
pub proof fn lemma_fork_keeps_invariant<C: Injector>(
    s: SchedulerState<C>,
    thread: ThreadKey,
    pc: u64,
    child: C,
)
    requires
        s.wf(),
    ensures
        s.fork(thread, pc, child).0.wf(),
{
    lemma_invariant_reads_queues_and_backups(s, s.fork(thread, pc, child).0);
}


/// Polling a thread that has nothing queued reports at once that it is
/// finished. No hook is installed, the registers stay as they are, and of
/// the state only the waiting flag is reset.
pub proof fn lemma_poll_without_queue<C: Injector>(
    s: SchedulerState<C>,
    thread: ThreadKey,
    cpu: GuestCpu,
)
    requires
        !s.hooked(thread),
    ensures
        s.poll(thread, cpu) == (
            SchedulerState { waiting_for_syscall: false, ..s },
            cpu,
            PollOutcome::Finished,
        ),
        forall|other: ThreadKey| s.poll(thread, cpu).0.hooked(other) == s.hooked(other),
{
}

/// The hook before a system call, run for a thread that has nothing
/// queued while nothing is deferred, polls nothing and installs no hook.
pub proof fn lemma_sys_enter_without_queue<C: Injector>(
    s: SchedulerState<C>,
    thread: ThreadKey,
    pc: u64,
    cpu: GuestCpu,
)
    requires
        !s.hooked(thread),
        s.deferred.len() == 0,
    ensures
        s.sys_enter(thread, pc, cpu).2.poll == PollOutcome::Finished,
        s.sys_enter(thread, pc, cpu).2.hooks == HookChange::Unchanged,
        s.sys_enter(thread, pc, cpu).0.queues == s.queues,
        s.sys_enter(thread, pc, cpu).0.tasks == s.tasks,
        s.sys_enter(thread, pc, cpu).0.backups == s.backups,
{
    let cleared = SchedulerState { deferred: Seq::empty(), ..s };
    assert(cleared.admitting(thread, pc, cpu.asid, s.deferred) == cleared);
}

/// While the invariant holds, a thread's hooks are installed exactly when
/// a computation is queued for it: no hook outlives the last computation.
pub proof fn lemma_hooks_follow_queue<C: Injector>(s: SchedulerState<C>, thread: ThreadKey)
    requires
        s.wf(),
    ensures
        s.hooked(thread) <==> s.queues.contains_key(thread) && s.queues[thread].len() > 0,
{
}

/// How a poll ends tells whether the thread's hooks stay: they are gone
/// when the poll reports that the thread is finished, and they stay when
/// the head was deferred, is waiting, or has asked for a call.
pub proof fn lemma_poll_from_settles_hooks<C: Injector>(
    s: SchedulerState<C>,
    thread: ThreadKey,
    queue: Seq<QueuedInjector>,
    cpu: GuestCpu,
)
    ensures
        s.poll_from(thread, queue, cpu).2.finished() ==> !s.poll_from(thread, queue, cpu).0.hooked(
            thread,
        ),
        !(s.poll_from(thread, queue, cpu).2 is Finished) && !(s.poll_from(thread, queue, cpu).2
            is Fault) ==> s.poll_from(thread, queue, cpu).0.hooked(thread),
        forall|other: ThreadKey|
            other != thread ==> s.poll_from(thread, queue, cpu).0.queues.contains_key(other)
                == #[trigger] s.queues.contains_key(other),
    decreases queue.len(),
{
    if queue.len() == 0 {
    } else if queue[0].asid != cpu.asid {
    } else if queue[0].phase == Phase::Awaiting {
    } else {
        let head = queue[0];
        let started = s.started(thread, head, cpu);
        let (task, step) = started.step_of(head.ticket, head.phase.delivery());
        let stepped = started.with_task(head.ticket, Some(task));
        match step {
            Step::Finished => {
                let retired = stepped.retired(thread, head.ticket);
                lemma_poll_from_settles_hooks(
                    retired,
                    thread,
                    queue.drop_first(),
                    stepped.rewound(thread, cpu),
                );
                assert forall|other: ThreadKey| other != thread implies s.poll_from(
                    thread,
                    queue,
                    cpu,
                ).0.queues.contains_key(other) == #[trigger] s.queues.contains_key(other) by {
                    assert(retired.queues.contains_key(other) == s.queues.contains_key(other));
                }
            },
            _ => {},
        }
    }
}

/// The hooks of a thread are to be installed by the operation that files
/// its first computation and removed by the one that leaves it without a
/// queue: the change that queueing and the hook before a system call
/// report is the change in whether the thread has a queue.
pub proof fn lemma_hook_changes_are_reported<C: Injector>(
    s: SchedulerState<C>,
    thread: ThreadKey,
    pc: u64,
    cpu: GuestCpu,
    injector: C,
)
    ensures
        s.run(thread, pc, cpu, injector).2.hooks == HookChange::between(
            s.hooked(thread),
            s.run(thread, pc, cpu, injector).0.hooked(thread),
        ),
        s.sys_enter(thread, pc, cpu).2.hooks == HookChange::between(
            s.hooked(thread),
            s.sys_enter(thread, pc, cpu).0.hooked(thread),
        ),
        s.sys_return(thread, cpu).2.hooks == HookChange::between(
            s.hooked(thread),
            s.sys_return(thread, cpu).0.hooked(thread),
        ),
        s.sys_enter(thread, pc, cpu).2.poll.finished() ==> !s.sys_enter(thread, pc, cpu).0.hooked(
            thread,
        ),
{
    let cleared = SchedulerState { deferred: Seq::empty(), ..s };
    let admitted = cleared.admitting(thread, pc, cpu.asid, s.deferred);
    if admitted.queues.contains_key(thread) {
        lemma_poll_from_settles_hooks(
            SchedulerState {
                queues: admitted.queues.remove(thread),
                waiting_for_syscall: false,
                ..admitted
            },
            thread,
            admitted.queues[thread],
            cpu,
        );
    }
}

/// A computation is advanced only while the address space it was queued
/// in is live: a computation that a poll changes or removes belongs to an
/// entry of the polled queue whose address space is the live one.
pub proof fn lemma_poll_from_guards_address_space<C: Injector>(
    s: SchedulerState<C>,
    thread: ThreadKey,
    queue: Seq<QueuedInjector>,
    cpu: GuestCpu,
    ticket: usize,
)
    requires
        s.task(ticket).is_some(),
        s.poll_from(thread, queue, cpu).0.task(ticket) != s.task(ticket),
    ensures
        exists|i: int|
            0 <= i < queue.len() && (#[trigger] queue[i]).ticket == ticket && queue[i].asid
                == cpu.asid,
    decreases queue.len(),
{
    lemma_poll_from_keeps_places(s, thread, queue, cpu);
    if queue.len() == 0 {
    } else if queue[0].asid != cpu.asid {
    } else if queue[0].phase == Phase::Awaiting {
    } else if s.task(queue[0].ticket).is_none() {
        let retired = s.retired(thread, queue[0].ticket);
        lemma_retired_keeps_other_tasks(s, thread, queue[0].ticket);
        assert(retired.task(ticket) == s.task(ticket));
        assert(retired.with_queue(thread, queue.drop_first()).task(ticket) == retired.task(ticket));
    } else {
        let head = queue[0];
        let started = s.started(thread, head, cpu);
        let (task, step) = started.step_of(head.ticket, head.phase.delivery());
        let stepped = started.with_task(head.ticket, Some(task));
        if ticket == head.ticket {
            assert(queue[0].ticket == ticket && queue[0].asid == cpu.asid);
        } else {
            assert(stepped.task(ticket) == s.task(ticket));
            let retired = stepped.retired(thread, head.ticket);
            lemma_retired_keeps_other_tasks(stepped, thread, head.ticket);
            assert(retired.task(ticket) == s.task(ticket));
            match step {
                Step::Finished => {
                    let rest = queue.drop_first();
                    let rewound = stepped.rewound(thread, cpu);
                    assert(rewound.asid == cpu.asid);
                    lemma_poll_from_guards_address_space(retired, thread, rest, rewound, ticket);
                    let i = choose|i: int|
                        0 <= i < rest.len() && (#[trigger] rest[i]).ticket == ticket && rest[i].asid
                            == rewound.asid;
                    assert(queue[i + 1] == rest[i]);
                },
                Step::Syscall(request) => {},
                Step::Fork(child) => {},
            }
        }
    }
}

/// A poll adds at most one place to the task table, and leaves the CPU
/// in the address space in which it found it.
pub proof fn lemma_poll_from_keeps_places<C: Injector>(
    s: SchedulerState<C>,
    thread: ThreadKey,
    queue: Seq<QueuedInjector>,
    cpu: GuestCpu,
)
    ensures
        s.poll_from(thread, queue, cpu).0.tasks.len() <= s.tasks.len() + 1,
        s.poll_from(thread, queue, cpu).1.asid == cpu.asid,
    decreases queue.len(),
{
    if queue.len() == 0 {
    } else if queue[0].asid != cpu.asid {
    } else if queue[0].phase == Phase::Awaiting {
    } else if s.task(queue[0].ticket).is_none() {
        lemma_retired_keeps_other_tasks(s, thread, queue[0].ticket);
    } else {
        let head = queue[0];
        let started = s.started(thread, head, cpu);
        let (task, step) = started.step_of(head.ticket, head.phase.delivery());
        let stepped = started.with_task(head.ticket, Some(task));
        lemma_retired_keeps_other_tasks(stepped, thread, head.ticket);
        match step {
            Step::Finished => {
                lemma_poll_from_keeps_places(
                    stepped.retired(thread, head.ticket),
                    thread,
                    queue.drop_first(),
                    stepped.rewound(thread, cpu),
                );
            },
            _ => {},
        }
    }
}

/// Address-space isolation of a poll: a computation that the poll
/// changed or removed was queued for the polled thread in the address
/// space that is live.
pub proof fn lemma_poll_guards_address_space<C: Injector>(
    s: SchedulerState<C>,
    thread: ThreadKey,
    cpu: GuestCpu,
    ticket: usize,
)
    requires
        s.task(ticket).is_some(),
        s.poll(thread, cpu).0.task(ticket) != s.task(ticket),
    ensures
        s.hooked(thread),
        exists|i: int|
            0 <= i < s.queues[thread].len() && (#[trigger] s.queues[thread][i]).ticket == ticket
                && s.queues[thread][i].asid == cpu.asid,
{
    if s.queues.contains_key(thread) {
        lemma_poll_from_guards_address_space(
            SchedulerState {
                queues: s.queues.remove(thread),
                waiting_for_syscall: false,
                ..s
            },
            thread,
            s.queues[thread],
            cpu,
            ticket,
        );
    }
}

/// A head that was queued in another address space than the live one
/// stops the poll before anything runs: no computation, no register and
/// no snapshot changes.
pub proof fn lemma_poll_defers_foreign_head<C: Injector>(
    s: SchedulerState<C>,
    thread: ThreadKey,
    cpu: GuestCpu,
)
    requires
        s.hooked(thread),
        s.queues[thread].len() > 0,
        s.queues[thread][0].asid != cpu.asid,
    ensures
        s.poll(thread, cpu) == (
            SchedulerState { waiting_for_syscall: false, ..s },
            cpu,
            PollOutcome::WrongAddressSpace,
        ),
{
    assert(s.queues.remove(thread).insert(thread, s.queues[thread]) =~= s.queues);
}

/// Only polling advances computations: the hook after a system call, the
/// duplication primitive and deferring leave every computation in the
/// task table as it is.
pub proof fn lemma_only_polling_advances<C: Injector>(
    s: SchedulerState<C>,
    thread: ThreadKey,
    pc: u64,
    cpu: GuestCpu,
    injector: C,
    ticket: usize,
)
    requires
        s.task(ticket).is_some(),
    ensures
        s.sys_return(thread, cpu).0.task(ticket) == s.task(ticket),
        s.fork(thread, pc, injector).0.task(ticket) == s.task(ticket),
        s.deferring(injector).task(ticket) == s.task(ticket),
{
}


/// The queue of `thread`, or the empty queue when it has none.
pub open spec fn queue_of<C: Injector>(s: SchedulerState<C>, thread: ThreadKey) -> Seq<
    QueuedInjector,
> {
    if s.queues.contains_key(thread) {
        s.queues[thread]
    } else {
        Seq::empty()
    }
}

/// Admitting deferred computations appends one entry for each, in the
/// order in which they were deferred and bound to the given address
/// space, to the queue of the thread; nothing else changes.
pub proof fn lemma_admitting_appends<C: Injector>(
    s: SchedulerState<C>,
    thread: ThreadKey,
    pc: u64,
    asid: u64,
    tickets: Seq<usize>,
)
    ensures
        ({
            let admitted = s.admitting(thread, pc, asid, tickets);
            &&& queue_of(admitted, thread) == queue_of(s, thread) + Seq::new(
                tickets.len(),
                |i: int| QueuedInjector::fresh(asid, pc, tickets[i]),
            )
            &&& admitted.hooked(thread) == (s.hooked(thread) || tickets.len() > 0)
            &&& forall|other: ThreadKey|
                other != thread ==> admitted.queues.contains_key(other)
                    == #[trigger] s.queues.contains_key(other) && queue_of(admitted, other)
                    == queue_of(s, other)
            &&& admitted.tasks == s.tasks
            &&& admitted.backups == s.backups
            &&& admitted.handoff == s.handoff
            &&& admitted.deferred == s.deferred
            &&& admitted.should_loop_again == s.should_loop_again
            &&& admitted.waiting_for_syscall == s.waiting_for_syscall
            &&& admitted.last_injected_syscall == s.last_injected_syscall
        }),
    decreases tickets.len(),
{
    let appended = Seq::new(tickets.len(), |i: int| QueuedInjector::fresh(asid, pc, tickets[i]));
    if tickets.len() == 0 {
        assert(queue_of(s, thread) + appended =~= queue_of(s, thread));
    } else {
        let entry = QueuedInjector::fresh(asid, pc, tickets[0]);
        let first = s.enqueued(thread, entry);
        let rest = tickets.drop_first();
        lemma_admitting_appends(first, thread, pc, asid, rest);
        let later = Seq::new(rest.len(), |i: int| QueuedInjector::fresh(asid, pc, rest[i]));
        assert(queue_of(first, thread) =~= queue_of(s, thread).push(entry));
        assert(queue_of(first, thread) + later =~= queue_of(s, thread) + appended);
        let admitted = s.admitting(thread, pc, asid, tickets);
        assert forall|other: ThreadKey| other != thread implies admitted.queues.contains_key(other)
            == #[trigger] s.queues.contains_key(other) && queue_of(admitted, other) == queue_of(
            s,
            other,
        ) by {
            assert(first.queues.contains_key(other) == s.queues.contains_key(other));
            assert(queue_of(first, other) == queue_of(s, other));
        }
    }
}

/// Address-space isolation of the hook before a system call: a
/// computation that the hook changed or removed was either queued for the
/// thread in the address space that is live, or deferred to this system
/// call, which binds it to the live address space.
pub proof fn lemma_sys_enter_guards_address_space<C: Injector>(
    s: SchedulerState<C>,
    thread: ThreadKey,
    pc: u64,
    cpu: GuestCpu,
    ticket: usize,
)
    requires
        s.task(ticket).is_some(),
        s.sys_enter(thread, pc, cpu).0.task(ticket) != s.task(ticket),
    ensures
        s.deferred.contains(ticket) || exists|i: int|
            0 <= i < queue_of(s, thread).len() && (#[trigger] queue_of(s, thread)[i]).ticket
                == ticket && queue_of(s, thread)[i].asid == cpu.asid,
{
    let cleared = SchedulerState { deferred: Seq::empty(), ..s };
    let admitted = cleared.admitting(thread, pc, cpu.asid, s.deferred);
    lemma_admitting_appends(cleared, thread, pc, cpu.asid, s.deferred);
    assert(queue_of(cleared, thread) == queue_of(s, thread));
    lemma_poll_guards_address_space(admitted, thread, cpu, ticket);
    let queue = admitted.queues[thread];
    let i = choose|i: int|
        0 <= i < queue.len() && (#[trigger] queue[i]).ticket == ticket && queue[i].asid == cpu.asid;
    let before = queue_of(s, thread);
    if i < before.len() {
        assert(queue[i] == before[i]);
    } else {
        assert(queue[i] == QueuedInjector::fresh(cpu.asid, pc, s.deferred[i - before.len()]));
        assert(s.deferred[i - before.len()] == ticket);
    }
}

/// Queueing a computation advances none that was there before: a thread
/// that has a queue is not polled, and a thread that has none gets a
/// queue of the new computation alone.
pub proof fn lemma_run_advances_only_the_newcomer<C: Injector>(
    s: SchedulerState<C>,
    thread: ThreadKey,
    pc: u64,
    cpu: GuestCpu,
    injector: C,
    ticket: usize,
)
    requires
        s.task(ticket).is_some(),
        s.tasks.len() <= usize::MAX,
    ensures
        s.run(thread, pc, cpu, injector).0.task(ticket) == s.task(ticket),
{
    let entry = QueuedInjector::fresh(cpu.asid, pc, s.tasks.len() as usize);
    let grown = SchedulerState { tasks: s.tasks.push(Some(injector)), ..s };
    let queued = grown.enqueued(thread, entry);
    assert(queued.task(ticket) == s.task(ticket));
    if !s.hooked(thread) && queued.poll(thread, cpu).0.task(ticket) != queued.task(ticket) {
        lemma_poll_guards_address_space(queued, thread, cpu, ticket);
        assert(queued.queues[thread] =~= seq![entry]);
    }
}


/// Every operation keeps the invariant. It holds of a scheduler that has
/// been given nothing to do, so it holds of every scheduler that was made
/// idle and driven through its operations.
pub proof fn lemma_operations_keep_invariant<C: Injector>(
    s: SchedulerState<C>,
    thread: ThreadKey,
    pc: u64,
    cpu: GuestCpu,
    injector: C,
)
    requires
        s.wf(),
    ensures
        SchedulerState::<C>::idle().wf(),
        s.poll(thread, cpu).0.wf(),
        s.run(thread, pc, cpu, injector).0.wf(),
        s.deferring(injector).wf(),
        s.fork(thread, pc, injector).0.wf(),
        s.sys_enter(thread, pc, cpu).0.wf(),
        s.sys_return(thread, cpu).0.wf(),
{
    lemma_poll_keeps_invariant(s, thread, cpu);
    lemma_run_keeps_invariant(s, thread, pc, cpu, injector);
    lemma_deferring_keeps_invariant(s, injector);
    lemma_fork_keeps_invariant(s, thread, pc, injector);
    lemma_sys_enter_keeps_invariant(s, thread, pc, cpu);
    lemma_sys_return_keeps_invariant(s, thread, cpu);
}


/// When the head of a queue has run and is retired, what is left keeps
/// the invariant.
pub proof fn lemma_retired_head_keeps_invariant<C: Injector>(
    s: SchedulerState<C>,
    thread: ThreadKey,
    queue: Seq<QueuedInjector>,
    cpu: GuestCpu,
)
    requires
        s.with_queue(thread, queue).wf(),
        queue.len() > 0,
    ensures
        ({
            let head = queue[0];
            let started = s.started(thread, head, cpu);
            let task = started.step_of(head.ticket, head.phase.delivery()).0;
            let stepped = started.with_task(head.ticket, Some(task));
            stepped.retired(thread, head.ticket).with_queue(thread, queue.drop_first()).wf()
        }),
{
    let filed = s.with_queue(thread, queue);
    let head = queue[0];
    assert(filed.queues.contains_key(thread));
    assert(filed.queues[thread] == queue);
    let started = s.started(thread, head, cpu);
    let task = started.step_of(head.ticket, head.phase.delivery()).0;
    let stepped = started.with_task(head.ticket, Some(task));
    let rest = queue.drop_first();
    assert(SchedulerState::<C>::orderly(queue));
    assert(SchedulerState::<C>::orderly(rest)) by {
        assert forall|i: int| 1 <= i < rest.len() implies (#[trigger] rest[i]).phase
            == Phase::NotStarted by {
            assert(rest[i] == queue[i + 1]);
        }
    }
    if rest.len() > 0 {
        assert(rest[0] == queue[1]);
        assert(rest[0].phase == Phase::NotStarted);
    }
    let after = stepped.retired(thread, head.ticket).with_queue(thread, rest);
    assert forall|other: ThreadKey| #[trigger]
        after.queues.contains_key(other) implies after.queues[other].len() > 0
        && SchedulerState::<C>::orderly(after.queues[other]) by {
        if other != thread {
            assert(filed.queues.contains_key(other));
        }
    }
    assert forall|other: ThreadKey| #[trigger]
        after.backups.contains_key(other) <==> after.running(other) by {
        if other != thread {
            assert(filed.backups.contains_key(other) <==> filed.running(other));
        }
    }
}

/// While a handoff waits, only the duplication call returning zero takes
/// it up: an event with another result, or one that comes when the call
/// armed last is not the duplication call, leaves the slot as it is and
/// queues nothing.
pub proof fn lemma_handoff_waits_for_the_duplication_call<C: Injector>(
    s: SchedulerState<C>,
    thread: ThreadKey,
    cpu: GuestCpu,
)
    requires
        cpu.rax != crate::injector::FORK_CHILD_RESULT || s.last_injected_syscall
            != crate::injector::FORK,
    ensures
        s.sys_return(thread, cpu).0.handoff == s.handoff,
        s.sys_return(thread, cpu).0.tasks == s.tasks,
        !(s.sys_return(thread, cpu).2.event is ChildScheduled),
        forall|other: ThreadKey|
            s.sys_return(thread, cpu).0.queues.contains_key(other) == #[trigger] s.queues.contains_key(
                other,
            ),
        forall|other: ThreadKey| #[trigger]
            s.queues.contains_key(other) ==> s.sys_return(thread, cpu).0.queues[other].len()
                == s.queues[other].len(),
{
}

} // verus!
