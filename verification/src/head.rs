//! The life of a computation at the head of its thread's queue, whatever
//! is queued behind it and whatever is deferred: how it starts, how each
//! result reaches it, and how the registers are handed on when it ends.

use vstd::prelude::*;
use crate::injector::{Injector, Step, SyscallRequest};
use crate::laws::{lemma_admitting_appends, lemma_retired_keeps_other_tasks, queue_of};
use crate::model::SchedulerState;
use crate::outcome::{EnterOutcome, HookChange, PollOutcome, ReturnEvent};
use crate::queue::{Phase, QueuedInjector};
use crate::regs::{GuestCpu, Reg};
use crate::syscall_regs::SyscallRegs;
use crate::thread::ThreadKey;
use crate::ownership::{holds, owned, ticket_at, Place};
use crate::trace::{
    armed_with, avoids, lemma_poll_from_spares_others, results_in, round, rounds,
};

verus! {

/// The head of the queue of `thread` is suspended on a call:
/// `computation` is what is kept for it and `regs` the snapshot filed for
/// the thread. Nothing is said of what is queued behind it.
pub open spec fn suspended_head<C: Injector>(
    s: SchedulerState<C>,
    thread: ThreadKey,
    entry: QueuedInjector,
    computation: C,
    regs: SyscallRegs,
) -> bool {
    &&& s.queues.contains_key(thread)
    &&& s.queues[thread].len() > 0
    &&& s.queues[thread][0] == entry.in_phase(Phase::Awaiting)
    &&& s.task(entry.ticket) == Some(computation)
    &&& s.backup_of(thread) == Some(regs)
}

/// The snapshot with which an entry runs: the one it inherited, or the
/// one taken of `cpu` when it starts.
pub open spec fn snapshot_for(entry: QueuedInjector, cpu: GuestCpu) -> SyscallRegs {
    match entry.inherited {
        Some(parent) => parent,
        None => SyscallRegs::captured(cpu),
    }
}

/// The entries that join a queue for the deferred computations under
/// `tickets`.
pub open spec fn admitted_entries(asid: u64, pc: u64, tickets: Seq<usize>) -> Seq<QueuedInjector> {
    Seq::new(tickets.len(), |i: int| QueuedInjector::fresh(asid, pc, tickets[i]))
}

/// A poll does not touch the request to loop again.
pub proof fn lemma_poll_from_keeps_loop_request<C: Injector>(
    s: SchedulerState<C>,
    thread: ThreadKey,
    queue: Seq<QueuedInjector>,
    cpu: GuestCpu,
)
    ensures
        s.poll_from(thread, queue, cpu).0.should_loop_again == s.should_loop_again,
        s.poll_from(thread, queue, cpu).0.deferred == s.deferred,
    decreases queue.len(),
{
    if queue.len() == 0 {
    } else if queue[0].asid != cpu.asid {
    } else if queue[0].phase == Phase::Awaiting {
    } else if s.task(queue[0].ticket).is_none() {
    } else {
        let head = queue[0];
        let started = s.started(thread, head, cpu);
        let (task, step) = started.step_of(head.ticket, head.phase.delivery());
        let stepped = started.with_task(head.ticket, Some(task));
        match step {
            Step::Finished => {
                lemma_poll_from_keeps_loop_request(
                    stepped.retired(thread, head.ticket),
                    thread,
                    queue.drop_first(),
                    stepped.rewound(thread, cpu),
                );
            },
            _ => {},
        }
    }
}

/// How a computation starts when it comes to the head of its queue.
///
/// The snapshot filed for its thread is taken of the CPU as it is at that
/// moment, or is the snapshot the computation inherited. If its first
/// step asks for a call, the call is armed and the computation is
/// suspended at the head. If it ends at once, the snapshot is written
/// back and the rest of the queue is polled with the CPU so restored; a
/// snapshot of its own leaves the CPU as it was.
pub proof fn lemma_head_starts<C: Injector>(
    s: SchedulerState<C>,
    thread: ThreadKey,
    queue: Seq<QueuedInjector>,
    cpu: GuestCpu,
)
    requires
        queue.len() > 0,
        queue[0].asid == cpu.asid,
        queue[0].phase == Phase::NotStarted,
        s.task(queue[0].ticket).is_some(),
    ensures
        ({
            let head = queue[0];
            let regs = snapshot_for(head, cpu);
            let (after, step) = s.task(head.ticket).unwrap().next(None);
            let (next, armed, outcome) = s.poll_from(thread, queue, cpu);
            let ended = s.started(thread, head, cpu).with_task(head.ticket, Some(after)).retired(
                thread,
                head.ticket,
            );
            &&& step matches Step::Syscall(request) ==> {
                &&& suspended_head(next, thread, head, after, regs)
                &&& next.queues[thread].drop_first() == queue.drop_first()
                &&& outcome == PollOutcome::Armed(request)
                &&& armed == request.armed(cpu)
            }
            &&& step is Finished ==> {
                &&& (next, armed, outcome) == ended.poll_from(
                    thread,
                    queue.drop_first(),
                    regs.restored(cpu),
                )
                &&& ended.task(head.ticket).is_none()
                &&& ended.backup_of(thread).is_none()
                &&& head.inherited.is_none() ==> regs.restored(cpu) == cpu
            }
        }),
{
    let head = queue[0];
    let started = s.started(thread, head, cpu);
    let (after, step) = s.task(head.ticket).unwrap().next(None);
    assert(started.step_of(head.ticket, head.phase.delivery()) == (after, step));
    let stepped = started.with_task(head.ticket, Some(after));
    lemma_retired_keeps_other_tasks(stepped, thread, head.ticket);
    match step {
        Step::Syscall(request) => {
            let parked = stepped.suspended(thread, queue, request);
            assert(parked.queues[thread].drop_first() =~= queue.drop_first());
        },
        _ => {},
    }
}

/// The state in which the head of a thread's queue has just ended on the
/// result that the engine reports in `at_return`: the result has been
/// delivered, the deferred computations have joined the queue, and the
/// head, which became `ended`, is retired.
pub open spec fn head_retired<C: Injector>(
    s: SchedulerState<C>,
    thread: ThreadKey,
    entry: QueuedInjector,
    ended: C,
    at_return: GuestCpu,
) -> SchedulerState<C> {
    let returned = s.sys_return(thread, at_return).0;
    let admitted = (SchedulerState { deferred: Seq::empty(), ..returned }).admitting(
        thread,
        entry.pc,
        at_return.asid,
        returned.deferred,
    );
    let taken = SchedulerState {
        queues: admitted.queues.remove(thread),
        waiting_for_syscall: false,
        ..admitted
    };
    taken.with_task(entry.ticket, Some(ended)).retired(thread, entry.ticket)
}

/// One round around the call on which the head of a queue is suspended,
/// whatever is queued behind it and whatever is deferred.
///
/// The result that the engine reports is the value with which the
/// computation is resumed. If it asks for another call, that call is
/// armed, the computation stays suspended at the head with the snapshot
/// it had, and what joined or stood behind it has not run. If it ends,
/// the snapshot is written back over whatever the guest left in the
/// registers, the computation and the snapshot are dropped, and only
/// then is the rest of the queue polled, with the restored CPU.
pub proof fn lemma_head_resumes_with_result<C: Injector>(
    s: SchedulerState<C>,
    thread: ThreadKey,
    entry: QueuedInjector,
    computation: C,
    regs: SyscallRegs,
    at_return: GuestCpu,
)
    requires
        suspended_head(s, thread, entry, computation, regs),
        at_return.asid == entry.asid,
    ensures
        ({
            let (after, step) = computation.next(Some(at_return.rax));
            let (returned, back, reported) = s.sys_return(thread, at_return);
            let (entered, cpu, outcome) = returned.sys_enter(thread, entry.pc, back);
            let behind = s.queues[thread].drop_first() + admitted_entries(
                at_return.asid,
                entry.pc,
                s.deferred,
            );
            &&& reported.event == ReturnEvent::Delivered(at_return.rax)
            &&& back == at_return.with_pc(entry.pc)
            &&& step matches Step::Syscall(request) ==> {
                let (next, settled, _) = round(s, thread, entry.pc, at_return);
                &&& suspended_head(next, thread, entry, after, regs)
                &&& next.queues[thread].drop_first() == behind
                &&& next.deferred.len() == 0
                &&& outcome == armed_with(request)
                &&& settled == request.armed(at_return).with_pc(entry.pc)
            }
            &&& step is Finished ==> {
                let ended = head_retired(s, thread, entry, after, at_return);
                let handed = ended.poll_from(thread, behind, regs.restored(back));
                &&& ended.task(entry.ticket).is_none()
                &&& ended.backup_of(thread).is_none()
                &&& entered == (SchedulerState { should_loop_again: false, ..handed.0 })
                &&& cpu == handed.1.with_pc(entry.pc)
                &&& outcome == EnterOutcome {
                    poll: handed.2,
                    hooks: HookChange::between(true, handed.0.hooked(thread)),
                    reenter: true,
                }
                &&& forall|reg: Reg|
                    SyscallRegs::saves(reg) ==> regs.restored(back).reg(reg) == regs.restored(
                        at_return,
                    ).reg(reg)
            }
        }),
{
    let pc = entry.pc;
    let result = at_return.rax;
    let (after, step) = computation.next(Some(result));
    let waiting = entry.in_phase(Phase::Awaiting);
    let resumable = entry.in_phase(Phase::Delivered(result));
    let queue = s.queues[thread];
    assert(queue[0] == waiting);
    assert(s.serviced(thread, at_return.asid));
    let (returned, back, reported) = s.sys_return(thread, at_return);
    let delivered = queue.update(0, resumable);
    assert(returned.queues[thread] == delivered);
    let cleared = SchedulerState { deferred: Seq::empty(), ..returned };
    let admitted = cleared.admitting(thread, pc, back.asid, returned.deferred);
    lemma_admitting_appends(cleared, thread, pc, back.asid, returned.deferred);
    let joined = admitted_entries(at_return.asid, pc, s.deferred);
    assert(queue_of(cleared, thread) == delivered);
    assert(admitted.hooked(thread));
    let polled = admitted.queues[thread];
    assert(polled == delivered + joined);
    assert(polled[0] == resumable);
    let behind = queue.drop_first() + joined;
    assert(polled.drop_first() =~= behind);
    let taken = SchedulerState {
        queues: admitted.queues.remove(thread),
        waiting_for_syscall: false,
        ..admitted
    };
    assert(admitted.poll(thread, back) == taken.poll_from(thread, polled, back));
    assert(taken.started(thread, resumable, back) == taken);
    assert(taken.task(entry.ticket) == Some(computation));
    assert(taken.step_of(entry.ticket, Some(result)) == (after, step));
    let stepped = taken.with_task(entry.ticket, Some(after));
    assert(stepped.backup_of(thread) == Some(regs));
    lemma_retired_keeps_other_tasks(stepped, thread, entry.ticket);
    match step {
        Step::Syscall(request) => {
            let parked = stepped.suspended(thread, polled, request);
            assert(taken.poll_from(thread, polled, back) == (
                parked,
                request.armed(back),
                PollOutcome::Armed(request),
            ));
            let parked_queue = polled.update(0, waiting);
            assert(parked.queues[thread] == parked_queue);
            assert(parked_queue.drop_first() =~= behind);
            let entered = SchedulerState { should_loop_again: false, ..parked };
            let cpu = request.armed(back).with_pc(pc);
            assert(returned.sys_enter(thread, pc, back) == (entered, cpu, armed_with(request)));
            // the engine re-enters, and the hook finds the head waiting
            assert(entered.deferred =~= Seq::<usize>::empty());
            let recleared = SchedulerState { deferred: Seq::empty(), ..entered };
            assert(recleared == entered);
            assert(recleared.admitting(thread, pc, cpu.asid, entered.deferred) == entered);
            let retaken = SchedulerState {
                queues: entered.queues.remove(thread),
                waiting_for_syscall: false,
                ..entered
            };
            let refiled = retaken.with_queue(thread, parked_queue);
            assert(refiled.queues =~= entered.queues);
            let again = entered.sys_enter(thread, pc, cpu).0;
            assert(again.queues == entered.queues);
            assert(again.tasks == entered.tasks);
            assert(again.backups == entered.backups);
            assert(again.deferred == entered.deferred);
            assert(entered.sys_enter(thread, pc, cpu).1 == cpu);
            assert(cpu == request.armed(at_return).with_pc(pc));
        },
        Step::Finished => {
            let ended = stepped.retired(thread, entry.ticket);
            assert(ended == head_retired(s, thread, entry, after, at_return));
            let rewound = stepped.rewound(thread, back);
            assert(rewound == regs.restored(back));
            let handed = ended.poll_from(thread, behind, rewound);
            assert(taken.poll_from(thread, polled, back) == handed);
            lemma_poll_from_keeps_loop_request(ended, thread, behind, rewound);
            assert(handed.0.should_loop_again);
        },
        Step::Fork(_) => {},
    }
}

/// What a computation asks for while it is answered: the calls it asks
/// for when it is resumed with each of `results` in turn, and the
/// computation after the last, provided every step asks for a call.
/// `None` for a computation that ends or duplicates itself on the way.
pub open spec fn answers<C: Injector>(computation: C, results: Seq<u64>) -> Option<
    (Seq<SyscallRequest>, C),
>
    decreases results.len(),
{
    if results.len() == 0 {
        Some((Seq::empty(), computation))
    } else {
        match computation.next(Some(results[0])) {
            (after, Step::Syscall(request)) => match answers(after, results.drop_first()) {
                Some((later, last)) => Some((seq![request] + later, last)),
                None => None,
            },
            _ => None,
        }
    }
}

/// The rounds of a computation at the head of its queue, for as long as
/// it goes on asking for calls, whatever is queued behind it and whatever
/// is deferred.
///
/// Each result that the engine reports is delivered to the computation,
/// in order; the call it asks for in return is the one that is armed, one
/// per round and in the order in which it asks. The computation stays at
/// the head with the snapshot it had, so nothing behind it runs before
/// it ends.
pub proof fn lemma_head_is_served_in_order<C: Injector>(
    s: SchedulerState<C>,
    thread: ThreadKey,
    entry: QueuedInjector,
    computation: C,
    regs: SyscallRegs,
    cpu: GuestCpu,
    reports: Seq<GuestCpu>,
)
    requires
        suspended_head(s, thread, entry, computation, regs),
        forall|i: int| 0 <= i < reports.len() ==> (#[trigger] reports[i]).asid == entry.asid,
        answers(computation, results_in(reports)).is_some(),
    ensures
        ({
            let (calls, last) = answers(computation, results_in(reports)).unwrap();
            let (next, left, outcomes) = rounds(s, thread, entry.pc, cpu, reports);
            &&& calls.len() == reports.len()
            &&& outcomes == Seq::new(reports.len(), |i: int| armed_with(calls[i]))
            &&& suspended_head(next, thread, entry, last, regs)
            &&& reports.len() > 0 ==> left == calls.last().armed(reports.last()).with_pc(entry.pc)
            &&& reports.len() == 0 ==> left == cpu && next == s
        }),
    decreases reports.len(),
{
    if reports.len() > 0 {
        let results = results_in(reports);
        let later_reports = reports.drop_first();
        assert(results[0] == reports[0].rax);
        assert(results_in(later_reports) =~= results.drop_first());
        let (after, step) = computation.next(Some(reports[0].rax));
        lemma_head_resumes_with_result(s, thread, entry, computation, regs, reports[0]);
        let (next, settled, outcome) = round(s, thread, entry.pc, reports[0]);
        match step {
            Step::Syscall(request) => {
                let (later, last) = answers(after, results.drop_first()).unwrap();
                let (calls, end) = answers(computation, results).unwrap();
                assert(calls == seq![request] + later);
                assert(end == last);
                assert forall|i: int| 0 <= i < later_reports.len() implies (
                #[trigger] later_reports[i]).asid == entry.asid by {
                    assert(later_reports[i] == reports[i + 1]);
                }
                lemma_head_is_served_in_order(
                    next,
                    thread,
                    entry,
                    after,
                    regs,
                    settled,
                    later_reports,
                );
                let (end_state, left, outcomes) = rounds(
                    next,
                    thread,
                    entry.pc,
                    settled,
                    later_reports,
                );
                let whole = seq![outcome] + outcomes;
                assert(whole =~= Seq::new(reports.len(), |i: int| armed_with(calls[i]))) by {
                    assert forall|i: int| 0 <= i < reports.len() implies whole[i] == armed_with(
                        calls[i],
                    ) by {
                        if i > 0 {
                            assert(whole[i] == outcomes[i - 1]);
                            assert(calls[i] == later[i - 1]);
                        }
                    }
                }
                if later_reports.len() > 0 {
                    assert(later_reports.last() == reports.last());
                    assert(calls.last() == later.last());
                } else {
                    assert(calls.last() == request);
                    assert(reports.last() == reports[0]);
                }
            },
            _ => {},
        }
    } else {
        let (calls, last) = answers(computation, results_in(reports)).unwrap();
        assert(rounds(s, thread, entry.pc, cpu, reports).2 =~= Seq::new(
            reports.len(),
            |i: int| armed_with(calls[i]),
        ));
    }
}


/// The duplication call returning in the context it created, on a thread
/// that may have computations queued already: the handed-over
/// computation joins the end of the thread's queue with the parent's
/// snapshot as the one it inherits, and the slot is emptied. When it
/// comes to the head it starts on that snapshot and takes none of its
/// own, and when it ends that snapshot is written into the thread's CPU.
pub proof fn lemma_child_joins_the_queue<C: Injector>(
    s: SchedulerState<C>,
    thread: ThreadKey,
    cpu: GuestCpu,
)
    requires
        s.reveals_child(cpu),
        !s.serviced(thread, cpu.asid),
    ensures
        ({
            let handed = s.handoff.unwrap();
            let adopted = QueuedInjector::adopted(cpu.asid, handed);
            let (next, back, outcome) = s.sys_return(thread, cpu);
            &&& outcome.event == ReturnEvent::ChildScheduled
            &&& outcome.hooks == HookChange::between(s.hooked(thread), true)
            &&& queue_of(next, thread) == queue_of(s, thread).push(adopted)
            &&& next.handoff.is_none()
            &&& next.tasks == s.tasks
            &&& next.backups == s.backups
            &&& back == cpu.with_pc(handed.pc)
            &&& forall|at_start: GuestCpu| #[trigger] snapshot_for(adopted, at_start) == handed.regs
        }),
{
}

/// The hook before a system call, run for one thread, does not disturb a
/// computation that is suspended at the head of another thread's queue:
/// it stays suspended there, with the snapshot it had.
pub proof fn lemma_sys_enter_spares_head<C: Injector>(
    s: SchedulerState<C>,
    thread: ThreadKey,
    pc: u64,
    cpu: GuestCpu,
    other: ThreadKey,
    entry: QueuedInjector,
    computation: C,
    regs: SyscallRegs,
)
    requires
        owned(s),
        s.tasks.len() < usize::MAX,
        suspended_head(s, other, entry, computation, regs),
        thread != other,
    ensures
        suspended_head(s.sys_enter(thread, pc, cpu).0, other, entry, computation, regs),
        owned(s.sys_enter(thread, pc, cpu).0),
        s.sys_enter(thread, pc, cpu).0.tasks.len() <= s.tasks.len() + 1,
{
    let cleared = SchedulerState { deferred: Seq::empty(), ..s };
    let admitted = cleared.admitting(thread, pc, cpu.asid, s.deferred);
    lemma_admitting_appends(cleared, thread, pc, cpu.asid, s.deferred);
    crate::ownership::lemma_admission_keeps_owned(s, thread, pc, cpu);
    crate::ownership::lemma_sys_enter_keeps_owned(s, thread, pc, cpu);
    assert(cleared.queues.contains_key(other));
    assert(admitted.queues.contains_key(other));
    assert(queue_of(admitted, other) == queue_of(cleared, other));
    assert(admitted.queues[other] == s.queues[other]);
    let first = Place::Queue(other, 0);
    assert(holds(admitted, first));
    assert(ticket_at(admitted, first) == entry.ticket);
    if admitted.queues.contains_key(thread) {
        let queue = admitted.queues[thread];
        let taken = SchedulerState {
            queues: admitted.queues.remove(thread),
            waiting_for_syscall: false,
            ..admitted
        };
        assert(avoids(queue, entry.ticket)) by {
            assert forall|i: int| 0 <= i < queue.len() implies (#[trigger] queue[i]).ticket
                != entry.ticket by {
                assert(holds(admitted, Place::Queue(thread, i)));
            }
        }
        if admitted.handoff.is_some() {
            assert(holds(admitted, Place::Handoff));
        }
        lemma_poll_from_spares_others(taken, thread, queue, cpu, other, entry.ticket);
    }
}

/// A round of one thread does not disturb a computation that is
/// suspended at the head of another thread's queue, whatever else is
/// queued, handed over or deferred: the snapshot filed for a computation
/// stays as it is until the computation itself ends.
pub proof fn lemma_other_threads_spare_the_head<C: Injector>(
    s: SchedulerState<C>,
    thread: ThreadKey,
    pc: u64,
    at_return: GuestCpu,
    other: ThreadKey,
    entry: QueuedInjector,
    computation: C,
    regs: SyscallRegs,
)
    requires
        owned(s),
        s.tasks.len() + 1 < usize::MAX,
        suspended_head(s, other, entry, computation, regs),
        thread != other,
    ensures
        suspended_head(round(s, thread, pc, at_return).0, other, entry, computation, regs),
        owned(round(s, thread, pc, at_return).0),
{
    let (returned, back, _) = s.sys_return(thread, at_return);
    crate::ownership::lemma_sys_return_keeps_owned(s, thread, at_return);
    assert(returned.queues.contains_key(other));
    assert(returned.queues[other] == s.queues[other]);
    assert(returned.tasks == s.tasks);
    assert(returned.backups == s.backups);
    lemma_sys_enter_spares_head(returned, thread, pc, back, other, entry, computation, regs);
    let (entered, cpu, outcome) = returned.sys_enter(thread, pc, back);
    if outcome.reenter {
        lemma_sys_enter_spares_head(entered, thread, pc, cpu, other, entry, computation, regs);
    }
}

} // verus!
