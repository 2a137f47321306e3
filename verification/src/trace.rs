//! The scheduler driven by an engine: what a whole computation looks like
//! from the outside, from the moment it is queued to the moment its
//! thread's hooks are removed.

use vstd::prelude::*;
use crate::injector::{Injector, Step, SyscallRequest, FORK, FORK_CHILD_RESULT};
use crate::laws::lemma_retired_keeps_other_tasks;
use crate::model::SchedulerState;
use crate::outcome::{
    EnterOutcome, HookChange, InjectError, PollOutcome, ReturnEvent, ReturnOutcome, RunOutcome,
};
use crate::queue::{ChildInjector, Phase, QueuedInjector};
use crate::regs::GuestCpu;
use crate::syscall_regs::SyscallRegs;
use crate::thread::ThreadKey;

verus! {

/// The calls that `computation` asks for, in order, when it is resumed
/// with `delivered` and then with each of `results` in turn, provided it
/// asks for exactly one call per result, never duplicates itself, and ends
/// when the last result has been delivered. `None` for a computation that
/// does anything else.
pub open spec fn calls_of<C: Injector>(
    computation: C,
    delivered: Option<u64>,
    results: Seq<u64>,
) -> Option<Seq<SyscallRequest>>
    decreases results.len(),
{
    match computation.next(delivered).1 {
        Step::Finished => if results.len() == 0 {
            Some(Seq::empty())
        } else {
            None
        },
        Step::Fork(_) => None,
        Step::Syscall(request) => if results.len() == 0 {
            None
        } else {
            match calls_of(computation.next(delivered).0, Some(results[0]), results.drop_first()) {
                Some(later) => Some(seq![request] + later),
                None => None,
            }
        },
    }
}

/// The results that the engine reports, one per return event: what `rax`
/// holds in each.
pub open spec fn results_in(reports: Seq<GuestCpu>) -> Seq<u64> {
    Seq::new(reports.len(), |i: int| reports[i].rax)
}

/// One round of the engine around an armed call. The guest performs the
/// call; `at_return` is its CPU when the call comes back. The engine runs the
/// hook after the call, goes where it is sent and runs the hook before
/// the call; when that hook sends it back once more, the hook runs again.
/// The outcome is that of the first run of the hook before the call.
pub open spec fn round<C: Injector>(
    s: SchedulerState<C>,
    thread: ThreadKey,
    pc: u64,
    at_return: GuestCpu,
) -> (SchedulerState<C>, GuestCpu, EnterOutcome) {
    let (returned, back, _) = s.sys_return(thread, at_return);
    let (entered, cpu, outcome) = returned.sys_enter(thread, pc, back);
    if outcome.reenter {
        let (again, settled, _) = entered.sys_enter(thread, pc, cpu);
        (again, settled, outcome)
    } else {
        (entered, cpu, outcome)
    }
}

/// As many rounds of the engine as there are return events, in order.
pub open spec fn rounds<C: Injector>(
    s: SchedulerState<C>,
    thread: ThreadKey,
    pc: u64,
    cpu: GuestCpu,
    reports: Seq<GuestCpu>,
) -> (SchedulerState<C>, GuestCpu, Seq<EnterOutcome>)
    decreases reports.len(),
{
    if reports.len() == 0 {
        (s, cpu, Seq::empty())
    } else {
        let (next, after, outcome) = round(s, thread, pc, reports[0]);
        let (last, left, later) = rounds(next, thread, pc, after, reports.drop_first());
        (last, left, seq![outcome] + later)
    }
}

/// What the hook before a system call reports when the head computation
/// asks for `request`.
pub open spec fn armed_with(request: SyscallRequest) -> EnterOutcome {
    EnterOutcome { poll: PollOutcome::Armed(request), hooks: HookChange::Unchanged, reenter: true }
}

/// What the hook before a system call reports when the thread's last
/// computation has ended.
pub open spec fn wound_up() -> EnterOutcome {
    EnterOutcome { poll: PollOutcome::Finished, hooks: HookChange::Removed, reenter: true }
}

/// The outcomes of the rounds of a computation that asks for `calls`
/// after its first call: each call is armed in its turn, and the last
/// round ends the computation and removes the hooks.
pub open spec fn expected_rounds(calls: Seq<SyscallRequest>) -> Seq<EnterOutcome> {
    Seq::new(
        calls.len() + 1,
        |i: int|
            if i < calls.len() {
                armed_with(calls[i])
            } else {
                wound_up()
            },
    )
}

/// A thread whose only queued computation is suspended on a call:
/// `computation` is what is kept for it, `regs` the snapshot filed for the
/// thread; nothing is deferred.
pub open spec fn in_flight<C: Injector>(
    s: SchedulerState<C>,
    thread: ThreadKey,
    entry: QueuedInjector,
    computation: C,
    regs: SyscallRegs,
) -> bool {
    &&& s.queues.contains_key(thread)
    &&& s.queues[thread] == seq![entry.in_phase(Phase::Awaiting)]
    &&& s.task(entry.ticket) == Some(computation)
    &&& s.backup_of(thread) == Some(regs)
    &&& s.deferred.len() == 0
}

/// A thread for which nothing is left: no queue, no snapshot, and the
/// place of its computation emptied.
pub open spec fn wound_down<C: Injector>(
    s: SchedulerState<C>,
    thread: ThreadKey,
    ticket: usize,
) -> bool {
    &&& !s.hooked(thread)
    &&& s.backup_of(thread).is_none()
    &&& s.task(ticket).is_none()
    &&& s.deferred.len() == 0
}

/// One round around the call a computation is suspended on: the result
/// that the engine reports is the value the computation is resumed with.
/// If the computation then asks for another call, that call is armed and
/// the computation is suspended on it; if it ends, the snapshot is written
/// back, the hooks are removed and nothing of the computation is left.
/// If it duplicates itself, the child and the snapshot are filed in the
/// handoff slot and the duplication call is armed, unless the slot is
/// taken: then the computation is aborted, with the snapshot written back.
pub proof fn lemma_round_resumes_with_result<C: Injector>(
    s: SchedulerState<C>,
    thread: ThreadKey,
    entry: QueuedInjector,
    computation: C,
    regs: SyscallRegs,
    at_return: GuestCpu,
)
    requires
        in_flight(s, thread, entry, computation, regs),
        at_return.asid == entry.asid,
    ensures
        ({
            let (after, step) = computation.next(Some(at_return.rax));
            let (next, cpu, outcome) = round(s, thread, entry.pc, at_return);
            match step {
                Step::Syscall(request) => {
                    &&& in_flight(next, thread, entry, after, regs)
                    &&& outcome == armed_with(request)
                    &&& cpu == request.armed(at_return).with_pc(entry.pc)
                },
                Step::Finished => {
                    &&& wound_down(next, thread, entry.ticket)
                    &&& outcome == wound_up()
                    &&& cpu == regs.restored(at_return).with_pc(entry.pc)
                },
                Step::Fork(child) => if s.handoff.is_none() {
                    &&& in_flight(next, thread, entry, after, regs)
                    &&& outcome == armed_with(SyscallRequest::duplication())
                    &&& cpu == SyscallRequest::duplication().armed(at_return).with_pc(entry.pc)
                    &&& next.handoff == Some(
                        ChildInjector { regs, pc: entry.pc, ticket: s.tasks.len() as usize },
                    )
                    &&& next.tasks == s.with_task(entry.ticket, Some(after)).tasks.push(Some(child))
                } else {
                    &&& wound_down(next, thread, entry.ticket)
                    &&& outcome == EnterOutcome {
                        poll: PollOutcome::Fault(InjectError::ForkPending),
                        hooks: HookChange::Removed,
                        reenter: true,
                    }
                    &&& cpu == regs.restored(at_return).with_pc(entry.pc)
                    &&& next.handoff == s.handoff
                },
            }
        }),
{
    let pc = entry.pc;
    let result = at_return.rax;
    let (after, step) = computation.next(Some(result));
    let waiting = entry.in_phase(Phase::Awaiting);
    let resumable = entry.in_phase(Phase::Delivered(result));
    assert(s.queues[thread][0] == waiting);
    assert(s.serviced(thread, at_return.asid));
    let (returned, back, _) = s.sys_return(thread, at_return);
    assert(back == at_return.with_pc(pc));
    let queue = returned.queues[thread];
    assert(queue =~= seq![resumable]);
    assert(returned.deferred =~= Seq::<usize>::empty());
    let cleared = SchedulerState { deferred: Seq::empty(), ..returned };
    assert(cleared == returned);
    assert(cleared.admitting(thread, pc, back.asid, returned.deferred) == returned);
    let taken = SchedulerState {
        queues: returned.queues.remove(thread),
        waiting_for_syscall: false,
        ..returned
    };
    assert(returned.poll(thread, back) == taken.poll_from(thread, queue, back));
    let started = taken.started(thread, resumable, back);
    assert(started == taken);
    assert(taken.step_of(entry.ticket, Some(result)) == (after, step));
    let stepped = taken.with_task(entry.ticket, Some(after));
    match step {
        Step::Syscall(request) => {
            let parked = stepped.suspended(thread, queue, request);
            assert(taken.poll_from(thread, queue, back) == (
                parked,
                request.armed(back),
                PollOutcome::Armed(request),
            ));
            assert(parked.queues[thread] =~= seq![waiting]);
            let entered = SchedulerState { should_loop_again: false, ..parked };
            let cpu = request.armed(back).with_pc(pc);
            assert(returned.sys_enter(thread, pc, back) == (entered, cpu, armed_with(request)));
            // the engine re-enters, and the hook finds the head waiting
            assert(entered.deferred =~= Seq::<usize>::empty());
            let recleared = SchedulerState { deferred: Seq::empty(), ..entered };
            assert(recleared == entered);
            assert(recleared.admitting(thread, pc, cpu.asid, entered.deferred) == entered);
            let retaken = SchedulerState {
                queues: entered.queues.remove(thread),
                waiting_for_syscall: false,
                ..entered
            };
            let refiled = retaken.with_queue(thread, entered.queues[thread]);
            assert(refiled.queues =~= entered.queues);
            let again = entered.sys_enter(thread, pc, cpu).0;
            assert(again.queues == entered.queues);
            assert(again.tasks == entered.tasks);
            assert(again.backups == entered.backups);
            assert(entered.sys_enter(thread, pc, cpu).1 == cpu);
            assert(cpu == request.armed(at_return).with_pc(pc));
        },
        Step::Finished => {
            let retired = stepped.retired(thread, entry.ticket);
            lemma_retired_keeps_other_tasks(stepped, thread, entry.ticket);
            let rewound = stepped.rewound(thread, back);
            assert(rewound == regs.restored(back));
            let rest = queue.drop_first();
            assert(rest.len() == 0);
            assert(retired.poll_from(thread, rest, rewound) == (
                retired.with_queue(thread, rest),
                rewound,
                PollOutcome::Finished,
            ));
            let emptied = retired.with_queue(thread, rest);
            assert(taken.poll_from(thread, queue, back) == (
                emptied,
                rewound,
                PollOutcome::Finished,
            ));
            assert(!emptied.queues.contains_key(thread));
            let entered = SchedulerState { should_loop_again: false, ..emptied };
            let cpu = rewound.with_pc(pc);
            assert(returned.sys_enter(thread, pc, back) == (entered, cpu, wound_up()));
            assert(entered.deferred =~= Seq::<usize>::empty());
            let recleared = SchedulerState { deferred: Seq::empty(), ..entered };
            assert(recleared == entered);
            assert(recleared.admitting(thread, pc, cpu.asid, entered.deferred) == entered);
            assert(cpu == regs.restored(at_return).with_pc(pc));
        },
        Step::Fork(child) => {
            assert(stepped.backups.contains_key(thread));
            if s.handoff.is_none() {
                let request = SyscallRequest::duplication();
                let forked = stepped.fork(thread, pc, child).0;
                assert(stepped.fork(thread, pc, child).1 == Ok::<SyscallRequest, InjectError>(request));
                let parked = forked.suspended(thread, queue, request);
                assert(taken.poll_from(thread, queue, back) == (
                    parked,
                    request.armed(back),
                    PollOutcome::Armed(request),
                ));
                assert(parked.queues[thread] =~= seq![waiting]);
                let entered = SchedulerState { should_loop_again: false, ..parked };
                let cpu = request.armed(back).with_pc(pc);
                assert(returned.sys_enter(thread, pc, back) == (entered, cpu, armed_with(request)));
                assert(entered.deferred =~= Seq::<usize>::empty());
                let recleared = SchedulerState { deferred: Seq::empty(), ..entered };
                assert(recleared == entered);
                assert(recleared.admitting(thread, pc, cpu.asid, entered.deferred) == entered);
                let retaken = SchedulerState {
                    queues: entered.queues.remove(thread),
                    waiting_for_syscall: false,
                    ..entered
                };
                let refiled = retaken.with_queue(thread, entered.queues[thread]);
                assert(refiled.queues =~= entered.queues);
                let again = entered.sys_enter(thread, pc, cpu).0;
                assert(again.queues == entered.queues);
                assert(again.tasks == entered.tasks);
                assert(again.backups == entered.backups);
                assert(again.handoff == entered.handoff);
                assert(entered.sys_enter(thread, pc, cpu).1 == cpu);
                assert(cpu == request.armed(at_return).with_pc(pc));
                assert(entered.task(entry.ticket) == Some(after));
            } else {
                assert(stepped.fork(thread, pc, child) == (
                    stepped,
                    Err::<SyscallRequest, InjectError>(InjectError::ForkPending),
                ));
                let retired = stepped.retired(thread, entry.ticket);
                lemma_retired_keeps_other_tasks(stepped, thread, entry.ticket);
                let rewound = stepped.rewound(thread, back);
                assert(rewound == regs.restored(back));
                let rest = queue.drop_first();
                assert(rest.len() == 0);
                let emptied = retired.with_queue(thread, rest);
                assert(taken.poll_from(thread, queue, back) == (
                    emptied,
                    rewound,
                    PollOutcome::Fault(InjectError::ForkPending),
                ));
                assert(!emptied.queues.contains_key(thread));
                let entered = SchedulerState { should_loop_again: false, ..emptied };
                let cpu = rewound.with_pc(pc);
                assert(entered.deferred =~= Seq::<usize>::empty());
                let recleared = SchedulerState { deferred: Seq::empty(), ..entered };
                assert(recleared == entered);
                assert(recleared.admitting(thread, pc, cpu.asid, entered.deferred) == entered);
                assert(cpu == regs.restored(at_return).with_pc(pc));
            }
        },
    }
}


/// The rounds of a computation that is suspended on its first call.
///
/// Every result that the engine reports is delivered to the computation,
/// in order, and the calls the computation asks for in return are armed
/// in the order in which it asks for them: one call per round and nothing
/// else, until the round of the last result ends the computation, writes
/// the snapshot back and removes the hooks.
pub proof fn lemma_rounds_deliver_in_order<C: Injector>(
    s: SchedulerState<C>,
    thread: ThreadKey,
    entry: QueuedInjector,
    computation: C,
    regs: SyscallRegs,
    cpu: GuestCpu,
    reports: Seq<GuestCpu>,
)
    requires
        in_flight(s, thread, entry, computation, regs),
        reports.len() > 0,
        forall|i: int| 0 <= i < reports.len() ==> (#[trigger] reports[i]).asid == entry.asid,
        calls_of(computation, Some(reports[0].rax), results_in(reports).drop_first()).is_some(),
    ensures
        ({
            let calls = calls_of(
                computation,
                Some(reports[0].rax),
                results_in(reports).drop_first(),
            ).unwrap();
            let (last, left, outcomes) = rounds(s, thread, entry.pc, cpu, reports);
            &&& calls.len() + 1 == reports.len()
            &&& outcomes == expected_rounds(calls)
            &&& wound_down(last, thread, entry.ticket)
            &&& left == regs.restored(reports.last()).with_pc(entry.pc)
        }),
    decreases reports.len(),
{
    let results = results_in(reports);
    let later_reports = reports.drop_first();
    let later_results = results.drop_first();
    assert(results[0] == reports[0].rax);
    assert(results_in(later_reports) =~= later_results);
    let (after, step) = computation.next(Some(reports[0].rax));
    lemma_round_resumes_with_result(s, thread, entry, computation, regs, reports[0]);
    let (next, armed, outcome) = round(s, thread, entry.pc, reports[0]);
    let calls = calls_of(computation, Some(reports[0].rax), later_results).unwrap();
    match step {
        Step::Finished => {
            assert(later_results.len() == 0);
            assert(later_reports.len() == 0);
            assert(calls =~= Seq::empty());
            assert(rounds(next, thread, entry.pc, armed, later_reports) == (
                next,
                armed,
                Seq::<EnterOutcome>::empty(),
            ));
            assert(seq![outcome] + Seq::<EnterOutcome>::empty() =~= expected_rounds(calls));
            assert(reports.last() == reports[0]);
        },
        Step::Syscall(request) => {
            assert(later_results.len() > 0);
            assert(later_results[0] == later_reports[0].rax);
            assert(results_in(later_reports).drop_first() =~= later_results.drop_first());
            let later = calls_of(after, Some(later_results[0]), later_results.drop_first()).unwrap();
            assert(calls == seq![request] + later);
            assert forall|i: int| 0 <= i < later_reports.len() implies (
            #[trigger] later_reports[i]).asid == entry.asid by {
                assert(later_reports[i] == reports[i + 1]);
            }
            lemma_rounds_deliver_in_order(next, thread, entry, after, regs, armed, later_reports);
            let (last, left, outcomes) = rounds(next, thread, entry.pc, armed, later_reports);
            assert(seq![outcome] + outcomes =~= expected_rounds(calls)) by {
                assert(outcomes == expected_rounds(later));
                assert forall|i: int| 0 <= i < calls.len() + 1 implies (seq![outcome] + outcomes)[i]
                    == expected_rounds(calls)[i] by {
                    if i > 0 {
                        assert((seq![outcome] + outcomes)[i] == outcomes[i - 1]);
                        if i - 1 < later.len() {
                            assert(calls[i] == later[i - 1]);
                        }
                    }
                }
            }
            assert(later_reports.last() == reports.last());
        },
        Step::Fork(_) => {},
    }
}

/// A computation that asks for N system calls in sequence, queued for a
/// thread that has nothing queued.
///
/// The engine sees exactly those N calls, armed in the order in which the
/// computation asks for them, and each call's result, as the engine
/// reports it, is the value with which the computation is resumed. The
/// thread's hooks are installed when the computation is queued and removed
/// in the round that delivers the last result, not before. When they are
/// removed nothing of the computation is left, and every register of the
/// snapshot holds what it held when the computation was queued, whatever
/// the guest did to the registers during the calls.
pub proof fn lemma_sequential_calls<C: Injector>(
    s: SchedulerState<C>,
    thread: ThreadKey,
    pc: u64,
    cpu: GuestCpu,
    injector: C,
    reports: Seq<GuestCpu>,
)
    requires
        !s.hooked(thread),
        s.deferred.len() == 0,
        s.tasks.len() <= usize::MAX,
        forall|i: int| 0 <= i < reports.len() ==> (#[trigger] reports[i]).asid == cpu.asid,
        calls_of(injector, None, results_in(reports)).is_some(),
    ensures
        ({
            let calls = calls_of(injector, None, results_in(reports)).unwrap();
            let (queued, armed, first) = s.run(thread, pc, cpu, injector);
            let (last, left, outcomes) = rounds(queued, thread, pc, armed, reports);
            &&& calls.len() == reports.len()
            &&& wound_down(last, thread, s.tasks.len() as usize)
            &&& forall|reg: crate::regs::Reg| SyscallRegs::saves(reg) ==> left.reg(reg) == cpu.reg(reg)
            &&& if reports.len() == 0 {
                &&& first == RunOutcome {
                    hooks: HookChange::Unchanged,
                    poll: Some(PollOutcome::Finished),
                }
                &&& left == cpu
            } else {
                &&& first == RunOutcome {
                    hooks: HookChange::Installed,
                    poll: Some(PollOutcome::Armed(calls[0])),
                }
                &&& armed == calls[0].armed(cpu)
                &&& outcomes == expected_rounds(calls.drop_first())
                &&& left == SyscallRegs::captured(cpu).restored(reports.last()).with_pc(pc)
            }
        }),
{
    let results = results_in(reports);
    let ticket = s.tasks.len() as usize;
    let entry = QueuedInjector::fresh(cpu.asid, pc, ticket);
    let regs = SyscallRegs::captured(cpu);
    let grown = SchedulerState { tasks: s.tasks.push(Some(injector)), ..s };
    let queued = grown.enqueued(thread, entry);
    let queue = queued.queues[thread];
    assert(queue =~= seq![entry]);
    let taken = SchedulerState {
        queues: queued.queues.remove(thread),
        waiting_for_syscall: false,
        ..queued
    };
    assert(queued.poll(thread, cpu) == taken.poll_from(thread, queue, cpu));
    let started = taken.started(thread, entry, cpu);
    assert(started.backup_of(thread) == Some(regs));
    let (after, step) = injector.next(None);
    assert(started.task(ticket) == Some(injector));
    assert(started.step_of(ticket, None) == (after, step));
    let stepped = started.with_task(ticket, Some(after));
    match step {
        Step::Finished => {
            assert(results.len() == 0);
            let retired = stepped.retired(thread, ticket);
            lemma_retired_keeps_other_tasks(stepped, thread, ticket);
            let rewound = stepped.rewound(thread, cpu);
            assert(rewound == cpu);
            let rest = queue.drop_first();
            assert(rest.len() == 0);
            assert(retired.poll_from(thread, rest, rewound) == (
                retired.with_queue(thread, rest),
                rewound,
                PollOutcome::Finished,
            ));
            let emptied = retired.with_queue(thread, rest);
            assert(taken.poll_from(thread, queue, cpu) == (emptied, cpu, PollOutcome::Finished));
            assert(!emptied.queues.contains_key(thread));
            assert(emptied.deferred.len() == 0);
        },
        Step::Syscall(request) => {
            assert(results.len() > 0);
            assert(results[0] == reports[0].rax);
            let parked = stepped.suspended(thread, queue, request);
            assert(taken.poll_from(thread, queue, cpu) == (
                parked,
                request.armed(cpu),
                PollOutcome::Armed(request),
            ));
            assert(parked.queues[thread] =~= seq![entry.in_phase(Phase::Awaiting)]);
            assert(in_flight(parked, thread, entry, after, regs));
            lemma_rounds_deliver_in_order(
                parked,
                thread,
                entry,
                after,
                regs,
                request.armed(cpu),
                reports,
            );
            let later = calls_of(after, Some(results[0]), results.drop_first()).unwrap();
            let calls = calls_of(injector, None, results).unwrap();
            assert(calls == seq![request] + later);
            assert(calls.drop_first() =~= later);
        },
        Step::Fork(_) => {},
    }
}


/// What the hook after a system call reports for a call that is none the
/// scheduler waits for.
pub open spec fn unrelated() -> ReturnOutcome {
    ReturnOutcome { event: ReturnEvent::Unrelated, hooks: HookChange::Unchanged, reenter: false }
}

/// The duplication call, still the call armed last, returning zero in
/// the context it created.
///
/// The handed-over computation is queued for the new thread, bound to the
/// address space that is live there, and the thread's hooks are to be
/// installed; the engine is sent to the instruction at which the parent
/// was queued. The slot is empty afterwards, so the computation is queued
/// once: a later event that no computation waits for changes nothing,
/// whatever its result. No other thread's queue is touched.
pub proof fn lemma_child_is_scheduled_once<C: Injector>(
    s: SchedulerState<C>,
    child_thread: ThreadKey,
    cpu: GuestCpu,
)
    requires
        s.handoff.is_some(),
        s.last_injected_syscall == FORK,
        !s.hooked(child_thread),
        cpu.rax == FORK_CHILD_RESULT,
    ensures
        ({
            let handed = s.handoff.unwrap();
            let (next, back, outcome) = s.sys_return(child_thread, cpu);
            &&& outcome == ReturnOutcome {
                event: ReturnEvent::ChildScheduled,
                hooks: HookChange::Installed,
                reenter: true,
            }
            &&& next.hooked(child_thread)
            &&& next.queues[child_thread] == seq![QueuedInjector::adopted(cpu.asid, handed)]
            &&& next.handoff.is_none()
            &&& next.tasks == s.tasks
            &&& next.backups == s.backups
            &&& back == cpu.with_pc(handed.pc)
            &&& forall|other: ThreadKey|
                other != child_thread ==> next.queues.contains_key(other) == #[trigger] s.queues.contains_key(
                    other,
                ) && (s.queues.contains_key(other) ==> next.queues[other] == s.queues[other])
            &&& forall|again: ThreadKey, later: GuestCpu|
                !next.serviced(again, later.asid) ==> #[trigger] next.sys_return(again, later) == (
                    next,
                    later,
                    unrelated(),
                )
        }),
{
}

/// The life of a computation handed to a duplicated context, from the
/// event that reveals the new thread to the removal of its hooks.
///
/// The first round takes the computation out of the handoff slot and
/// starts it; it takes no snapshot of its own. Its calls are armed in
/// order and its results delivered as for any computation. When it ends,
/// the registers that the parent had backed up are written into the new
/// thread's CPU, and the engine is sent to the instruction at which the
/// parent was queued.
pub proof fn lemma_child_runs_on_parent_snapshot<C: Injector>(
    s: SchedulerState<C>,
    child_thread: ThreadKey,
    child: C,
    revealed: GuestCpu,
    reports: Seq<GuestCpu>,
)
    requires
        s.handoff.is_some(),
        s.task(s.handoff.unwrap().ticket) == Some(child),
        s.last_injected_syscall == FORK,
        !s.hooked(child_thread),
        s.deferred.len() == 0,
        revealed.rax == FORK_CHILD_RESULT,
        forall|i: int| 0 <= i < reports.len() ==> (#[trigger] reports[i]).asid == revealed.asid,
        calls_of(child, None, results_in(reports)).is_some(),
    ensures
        ({
            let handed = s.handoff.unwrap();
            let calls = calls_of(child, None, results_in(reports)).unwrap();
            let (last, left, outcomes) = rounds(
                s,
                child_thread,
                handed.pc,
                revealed,
                seq![revealed] + reports,
            );
            &&& calls.len() == reports.len()
            &&& wound_down(last, child_thread, handed.ticket)
            &&& last.handoff.is_none()
            &&& left == handed.regs.restored((seq![revealed] + reports).last()).with_pc(handed.pc)
            &&& outcomes == expected_rounds(calls)
        }),
{
    let handed = s.handoff.unwrap();
    let pc = handed.pc;
    let thread = child_thread;
    let ticket = handed.ticket;
    let regs = handed.regs;
    let results = results_in(reports);
    let events = seq![revealed] + reports;
    assert(events[0] == revealed);
    assert(events.drop_first() =~= reports);
    lemma_child_is_scheduled_once(s, thread, revealed);
    let entry = QueuedInjector::adopted(revealed.asid, handed);
    let (scheduled, back, _) = s.sys_return(thread, revealed);
    let queue = scheduled.queues[thread];
    assert(scheduled.deferred =~= Seq::<usize>::empty());
    let cleared = SchedulerState { deferred: Seq::empty(), ..scheduled };
    assert(cleared == scheduled);
    assert(cleared.admitting(thread, pc, back.asid, scheduled.deferred) == scheduled);
    let taken = SchedulerState {
        queues: scheduled.queues.remove(thread),
        waiting_for_syscall: false,
        ..scheduled
    };
    assert(scheduled.poll(thread, back) == taken.poll_from(thread, queue, back));
    let started = taken.started(thread, entry, back);
    assert(started.backup_of(thread) == Some(regs));
    let (after, step) = child.next(None);
    assert(started.step_of(ticket, None) == (after, step));
    let stepped = started.with_task(ticket, Some(after));
    match step {
        Step::Finished => {
            assert(results.len() == 0);
            let retired = stepped.retired(thread, ticket);
            lemma_retired_keeps_other_tasks(stepped, thread, ticket);
            let rewound = stepped.rewound(thread, back);
            assert(rewound == regs.restored(back));
            let rest = queue.drop_first();
            assert(rest.len() == 0);
            assert(retired.poll_from(thread, rest, rewound) == (
                retired.with_queue(thread, rest),
                rewound,
                PollOutcome::Finished,
            ));
            let emptied = retired.with_queue(thread, rest);
            assert(taken.poll_from(thread, queue, back) == (
                emptied,
                rewound,
                PollOutcome::Finished,
            ));
            assert(!emptied.queues.contains_key(thread));
            let entered = SchedulerState { should_loop_again: false, ..emptied };
            let cpu = rewound.with_pc(pc);
            assert(entered.deferred =~= Seq::<usize>::empty());
            let recleared = SchedulerState { deferred: Seq::empty(), ..entered };
            assert(recleared == entered);
            assert(recleared.admitting(thread, pc, cpu.asid, entered.deferred) == entered);
            let (next, settled, outcome) = round(s, thread, pc, revealed);
            assert(settled == cpu);
            assert(rounds(next, thread, pc, settled, reports) == (
                next,
                settled,
                Seq::<EnterOutcome>::empty(),
            ));
            assert(events.last() == revealed);
            let (last, left, outcomes) = rounds(s, thread, pc, revealed, events);
            assert(outcomes =~= seq![outcome]);
            assert(last == next);
            assert(left == settled);
            assert(outcome == wound_up());
            assert(outcomes =~= expected_rounds(calls_of(child, None, results).unwrap()));
        },
        Step::Syscall(request) => {
            assert(results.len() > 0);
            assert(results[0] == reports[0].rax);
            let parked = stepped.suspended(thread, queue, request);
            assert(taken.poll_from(thread, queue, back) == (
                parked,
                request.armed(back),
                PollOutcome::Armed(request),
            ));
            assert(parked.queues[thread] =~= seq![entry.in_phase(Phase::Awaiting)]);
            let entered = SchedulerState { should_loop_again: false, ..parked };
            let cpu = request.armed(back).with_pc(pc);
            assert(entered.deferred =~= Seq::<usize>::empty());
            let recleared = SchedulerState { deferred: Seq::empty(), ..entered };
            assert(recleared == entered);
            assert(recleared.admitting(thread, pc, cpu.asid, entered.deferred) == entered);
            let retaken = SchedulerState {
                queues: entered.queues.remove(thread),
                waiting_for_syscall: false,
                ..entered
            };
            let refiled = retaken.with_queue(thread, entered.queues[thread]);
            assert(refiled.queues =~= entered.queues);
            let (next, settled, outcome) = round(s, thread, pc, revealed);
            assert(next.queues == entered.queues);
            assert(next.tasks == entered.tasks);
            assert(next.backups == entered.backups);
            assert(in_flight(next, thread, entry, after, regs));
            lemma_rounds_deliver_in_order(next, thread, entry, after, regs, settled, reports);
            let later = calls_of(after, Some(results[0]), results.drop_first()).unwrap();
            let calls = calls_of(child, None, results).unwrap();
            assert(calls == seq![request] + later);
            assert(calls.drop_first() =~= later);
            let (last, left, outcomes) = rounds(next, thread, pc, settled, reports);
            assert((seq![outcome] + outcomes).drop_first() =~= outcomes);
            assert(events.last() == reports.last());
            lemma_rounds_spare_handoff(next, thread, entry, after, regs, settled, reports);
            let (whole_last, whole_left, whole) = rounds(s, thread, pc, revealed, events);
            assert(whole =~= seq![outcome] + outcomes);
            assert(whole_last == last);
            assert(whole_left == left);
            assert(outcome == armed_with(request));
            assert(whole =~= expected_rounds(calls)) by {
                assert(outcomes == expected_rounds(later));
                assert forall|i: int| 0 <= i < calls.len() + 1 implies whole[i] == expected_rounds(
                    calls,
                )[i] by {
                    if i > 0 {
                        assert(whole[i] == outcomes[i - 1]);
                        if i - 1 < later.len() {
                            assert(calls[i] == later[i - 1]);
                        }
                    }
                }
            }
        },
        Step::Fork(_) => {},
    }
}

/// The rounds of a computation that never duplicates itself leave the
/// handoff slot as it is.
pub proof fn lemma_rounds_spare_handoff<C: Injector>(
    s: SchedulerState<C>,
    thread: ThreadKey,
    entry: QueuedInjector,
    computation: C,
    regs: SyscallRegs,
    cpu: GuestCpu,
    reports: Seq<GuestCpu>,
)
    requires
        in_flight(s, thread, entry, computation, regs),
        reports.len() > 0,
        forall|i: int| 0 <= i < reports.len() ==> (#[trigger] reports[i]).asid == entry.asid,
        calls_of(computation, Some(reports[0].rax), results_in(reports).drop_first()).is_some(),
    ensures
        rounds(s, thread, entry.pc, cpu, reports).0.handoff == s.handoff,
    decreases reports.len(),
{
    let results = results_in(reports);
    let later_reports = reports.drop_first();
    let later_results = results.drop_first();
    assert(results[0] == reports[0].rax);
    assert(results_in(later_reports) =~= later_results);
    let (after, step) = computation.next(Some(reports[0].rax));
    lemma_round_resumes_with_result(s, thread, entry, computation, regs, reports[0]);
    lemma_round_spares_handoff(s, thread, entry, computation, regs, reports[0]);
    let (next, armed, outcome) = round(s, thread, entry.pc, reports[0]);
    match step {
        Step::Finished => {
            assert(later_reports.len() == 0);
        },
        Step::Syscall(request) => {
            assert(later_results.len() > 0);
            assert(later_results[0] == later_reports[0].rax);
            assert(results_in(later_reports).drop_first() =~= later_results.drop_first());
            assert forall|i: int| 0 <= i < later_reports.len() implies (
            #[trigger] later_reports[i]).asid == entry.asid by {
                assert(later_reports[i] == reports[i + 1]);
            }
            lemma_rounds_spare_handoff(next, thread, entry, after, regs, armed, later_reports);
        },
        Step::Fork(_) => {},
    }
}

/// A round in which the computation does not duplicate itself leaves the
/// handoff slot as it is.
pub proof fn lemma_round_spares_handoff<C: Injector>(
    s: SchedulerState<C>,
    thread: ThreadKey,
    entry: QueuedInjector,
    computation: C,
    regs: SyscallRegs,
    at_return: GuestCpu,
)
    requires
        in_flight(s, thread, entry, computation, regs),
        at_return.asid == entry.asid,
        !(computation.next(Some(at_return.rax)).1 is Fork),
    ensures
        round(s, thread, entry.pc, at_return).0.handoff == s.handoff,
{
    let pc = entry.pc;
    let result = at_return.rax;
    let (after, step) = computation.next(Some(result));
    let waiting = entry.in_phase(Phase::Awaiting);
    let resumable = entry.in_phase(Phase::Delivered(result));
    assert(s.queues[thread][0] == waiting);
    assert(s.serviced(thread, at_return.asid));
    let (returned, back, _) = s.sys_return(thread, at_return);
    let queue = returned.queues[thread];
    assert(queue =~= seq![resumable]);
    assert(returned.deferred =~= Seq::<usize>::empty());
    let cleared = SchedulerState { deferred: Seq::empty(), ..returned };
    assert(cleared == returned);
    assert(cleared.admitting(thread, pc, back.asid, returned.deferred) == returned);
    let taken = SchedulerState {
        queues: returned.queues.remove(thread),
        waiting_for_syscall: false,
        ..returned
    };
    assert(returned.poll(thread, back) == taken.poll_from(thread, queue, back));
    assert(taken.step_of(entry.ticket, Some(result)) == (after, step));
    let stepped = taken.with_task(entry.ticket, Some(after));
    lemma_round_resumes_with_result(s, thread, entry, computation, regs, at_return);
    match step {
        Step::Syscall(request) => {
            let parked = stepped.suspended(thread, queue, request);
            assert(parked.queues[thread] =~= seq![waiting]);
            let entered = SchedulerState { should_loop_again: false, ..parked };
            let cpu = request.armed(back).with_pc(pc);
            assert(returned.sys_enter(thread, pc, back) == (entered, cpu, armed_with(request)));
            assert(entered.deferred =~= Seq::<usize>::empty());
            let recleared = SchedulerState { deferred: Seq::empty(), ..entered };
            assert(recleared == entered);
            assert(recleared.admitting(thread, pc, cpu.asid, entered.deferred) == entered);
            let retaken = SchedulerState {
                queues: entered.queues.remove(thread),
                waiting_for_syscall: false,
                ..entered
            };
            let refiled = retaken.with_queue(thread, entered.queues[thread]);
            assert(refiled.queues =~= entered.queues);
            assert(entered.sys_enter(thread, pc, cpu).0.handoff == entered.handoff);
        },
        Step::Finished => {
            let retired = stepped.retired(thread, entry.ticket);
            lemma_retired_keeps_other_tasks(stepped, thread, entry.ticket);
            let rewound = stepped.rewound(thread, back);
            let rest = queue.drop_first();
            assert(rest.len() == 0);
            assert(retired.poll_from(thread, rest, rewound) == (
                retired.with_queue(thread, rest),
                rewound,
                PollOutcome::Finished,
            ));
            let emptied = retired.with_queue(thread, rest);
            assert(taken.poll_from(thread, queue, back) == (
                emptied,
                rewound,
                PollOutcome::Finished,
            ));
            assert(!emptied.queues.contains_key(thread));
            let entered = SchedulerState { should_loop_again: false, ..emptied };
            let cpu = rewound.with_pc(pc);
            assert(returned.sys_enter(thread, pc, back) == (entered, cpu, wound_up()));
            assert(entered.deferred =~= Seq::<usize>::empty());
            let recleared = SchedulerState { deferred: Seq::empty(), ..entered };
            assert(recleared == entered);
            assert(recleared.admitting(thread, pc, cpu.asid, entered.deferred) == entered);
        },
        Step::Fork(_) => {},
    }
}


/// Whether no entry of `queue` keeps its computation under `ticket`.
pub open spec fn avoids(queue: Seq<QueuedInjector>, ticket: usize) -> bool {
    forall|i: int| 0 <= i < queue.len() ==> (#[trigger] queue[i]).ticket != ticket
}

/// What a poll of one thread's queue leaves alone: every other thread's
/// queue and snapshot, every computation that is not in the polled queue,
/// what is deferred, and the request to loop again. What stays of the
/// polled queue holds no ticket that it did not hold before, and neither
/// does the handoff slot.
pub proof fn lemma_poll_from_spares_others<C: Injector>(
    s: SchedulerState<C>,
    thread: ThreadKey,
    queue: Seq<QueuedInjector>,
    cpu: GuestCpu,
    other: ThreadKey,
    ticket: usize,
)
    requires
        other != thread,
        s.task(ticket).is_some(),
        s.tasks.len() <= usize::MAX,
        avoids(queue, ticket),
        s.handoff matches Some(handed) ==> handed.ticket != ticket,
    ensures
        ({
            let next = s.poll_from(thread, queue, cpu).0;
            &&& next.queues.contains_key(other) == s.queues.contains_key(other)
            &&& next.queues.contains_key(other) ==> next.queues[other] == s.queues[other]
            &&& next.backup_of(other) == s.backup_of(other)
            &&& next.task(ticket) == s.task(ticket)
            &&& next.deferred == s.deferred
            &&& next.should_loop_again == s.should_loop_again
            &&& next.queues.contains_key(thread) ==> avoids(next.queues[thread], ticket)
            &&& next.handoff matches Some(handed) ==> handed.ticket != ticket
            &&& next.tasks.len() <= s.tasks.len() + 1
        }),
    decreases queue.len(),
{
    if queue.len() == 0 {
    } else if queue[0].asid != cpu.asid {
    } else if queue[0].phase == Phase::Awaiting {
    } else if s.task(queue[0].ticket).is_none() {
        let rest = queue.drop_first();
        let retired = s.retired(thread, queue[0].ticket);
        lemma_retired_keeps_other_tasks(s, thread, queue[0].ticket);
        assert(retired.task(ticket) == s.task(ticket));
        assert(retired.with_queue(thread, rest).task(ticket) == retired.task(ticket));
        assert(avoids(rest, ticket)) by {
            assert forall|i: int| 0 <= i < rest.len() implies (#[trigger] rest[i]).ticket
                != ticket by {
                assert(rest[i] == queue[i + 1]);
            }
        }
    } else {
        let head = queue[0];
        assert(head.ticket != ticket);
        let started = s.started(thread, head, cpu);
        let (task, step) = started.step_of(head.ticket, head.phase.delivery());
        let stepped = started.with_task(head.ticket, Some(task));
        let rest = queue.drop_first();
        assert(avoids(rest, ticket)) by {
            assert forall|i: int| 0 <= i < rest.len() implies (#[trigger] rest[i]).ticket
                != ticket by {
                assert(rest[i] == queue[i + 1]);
            }
        }
        let waiting = queue.update(0, head.in_phase(Phase::Awaiting));
        assert(avoids(waiting, ticket)) by {
            assert forall|i: int| 0 <= i < waiting.len() implies (#[trigger] waiting[i]).ticket
                != ticket by {
                if i > 0 {
                    assert(waiting[i] == queue[i]);
                }
            }
        }
        lemma_retired_keeps_other_tasks(stepped, thread, head.ticket);
        match step {
            Step::Finished => {
                lemma_poll_from_spares_others(
                    stepped.retired(thread, head.ticket),
                    thread,
                    rest,
                    stepped.rewound(thread, cpu),
                    other,
                    ticket,
                );
            },
            Step::Syscall(request) => {},
            Step::Fork(child) => {},
        }
    }
}

/// A round of one thread does not disturb a computation that is
/// suspended on a call for another thread: it stays suspended, with the
/// same snapshot, and will be resumed with the result of its own call.
pub proof fn lemma_round_spares_other_thread<C: Injector>(
    s: SchedulerState<C>,
    thread: ThreadKey,
    pc: u64,
    at_return: GuestCpu,
    parent: ThreadKey,
    entry: QueuedInjector,
    computation: C,
    regs: SyscallRegs,
)
    requires
        in_flight(s, parent, entry, computation, regs),
        thread != parent,
        s.tasks.len() < usize::MAX,
        s.hooked(thread) ==> avoids(s.queues[thread], entry.ticket),
        s.handoff matches Some(handed) ==> handed.ticket != entry.ticket,
    ensures
        ({
            let next = round(s, thread, pc, at_return).0;
            &&& in_flight(next, parent, entry, computation, regs)
            &&& next.hooked(thread) ==> avoids(next.queues[thread], entry.ticket)
            &&& next.handoff matches Some(handed) ==> handed.ticket != entry.ticket
        }),
{
    let ticket = entry.ticket;
    let (returned, back, _) = s.sys_return(thread, at_return);
    assert(returned.queues.contains_key(parent));
    assert(returned.queues[parent] == s.queues[parent]);
    assert(returned.hooked(thread) ==> avoids(returned.queues[thread], ticket)) by {
        if s.serviced(thread, at_return.asid) {
            let queue = s.queues[thread];
            let resumed = returned.queues[thread];
            assert forall|i: int| 0 <= i < resumed.len() implies (#[trigger] resumed[i]).ticket
                != ticket by {
                assert(resumed[i].ticket == queue[i].ticket);
            }
        } else if s.reveals_child(at_return) {
            let resumed = returned.queues[thread];
            assert forall|i: int| 0 <= i < resumed.len() implies (#[trigger] resumed[i]).ticket
                != ticket by {
                if s.queues.contains_key(thread) && i < s.queues[thread].len() {
                    assert(resumed[i] == s.queues[thread][i]);
                }
            }
        }
    }
    lemma_sys_enter_spares_other_thread(returned, thread, pc, back, parent, ticket);
    let (entered, cpu, outcome) = returned.sys_enter(thread, pc, back);
    if outcome.reenter {
        lemma_sys_enter_spares_other_thread(entered, thread, pc, cpu, parent, ticket);
    }
}

/// The hook before a system call, run for one thread while nothing is
/// deferred, leaves alone every other thread's queue and snapshot and
/// every computation that is not in the polled queue.
pub proof fn lemma_sys_enter_spares_other_thread<C: Injector>(
    s: SchedulerState<C>,
    thread: ThreadKey,
    pc: u64,
    cpu: GuestCpu,
    other: ThreadKey,
    ticket: usize,
)
    requires
        other != thread,
        s.task(ticket).is_some(),
        s.tasks.len() <= usize::MAX,
        s.deferred.len() == 0,
        s.hooked(thread) ==> avoids(s.queues[thread], ticket),
        s.handoff matches Some(handed) ==> handed.ticket != ticket,
    ensures
        ({
            let next = s.sys_enter(thread, pc, cpu).0;
            &&& next.queues.contains_key(other) == s.queues.contains_key(other)
            &&& next.queues.contains_key(other) ==> next.queues[other] == s.queues[other]
            &&& next.backup_of(other) == s.backup_of(other)
            &&& next.task(ticket) == s.task(ticket)
            &&& next.deferred.len() == 0
            &&& !next.should_loop_again
            &&& next.hooked(thread) ==> avoids(next.queues[thread], ticket)
            &&& next.handoff matches Some(handed) ==> handed.ticket != ticket
            &&& next.tasks.len() <= s.tasks.len() + 1
        }),
{
    assert(s.deferred =~= Seq::<usize>::empty());
    let cleared = SchedulerState { deferred: Seq::empty(), ..s };
    assert(cleared == s);
    assert(cleared.admitting(thread, pc, cpu.asid, s.deferred) == s);
    if s.queues.contains_key(thread) {
        let taken = SchedulerState {
            queues: s.queues.remove(thread),
            waiting_for_syscall: false,
            ..s
        };
        lemma_poll_from_spares_others(taken, thread, s.queues[thread], cpu, other, ticket);
        crate::laws::lemma_poll_from_keeps_places(taken, thread, s.queues[thread], cpu);
    }
}

/// The parent of a duplication is resumed with the result that the
/// engine reports for its own call, whether the new context is revealed
/// before or after: the rounds of the child leave the parent suspended as
/// it was, and the parent's round delivers what the parent's call
/// returned.
pub proof fn lemma_parent_resumes_after_child<C: Injector>(
    s: SchedulerState<C>,
    parent: ThreadKey,
    entry: QueuedInjector,
    computation: C,
    regs: SyscallRegs,
    child_thread: ThreadKey,
    revealed: GuestCpu,
    at_return: GuestCpu,
)
    requires
        in_flight(s, parent, entry, computation, regs),
        s.tasks.len() < usize::MAX,
        s.handoff matches Some(handed) && handed.ticket != entry.ticket,
        child_thread != parent,
        !s.hooked(child_thread),
        at_return.asid == entry.asid,
    ensures
        ({
            let handed = s.handoff.unwrap();
            let after_child = round(s, child_thread, handed.pc, revealed).0;
            let (after, step) = computation.next(Some(at_return.rax));
            let (next, cpu, outcome) = round(after_child, parent, entry.pc, at_return);
            &&& in_flight(after_child, parent, entry, computation, regs)
            &&& step matches Step::Syscall(request) ==> {
                &&& in_flight(next, parent, entry, after, regs)
                &&& outcome == armed_with(request)
            }
            &&& step is Finished ==> {
                &&& wound_down(next, parent, entry.ticket)
                &&& outcome == wound_up()
                &&& cpu == regs.restored(at_return).with_pc(entry.pc)
            }
        }),
{
    let handed = s.handoff.unwrap();
    lemma_round_spares_other_thread(
        s,
        child_thread,
        handed.pc,
        revealed,
        parent,
        entry,
        computation,
        regs,
    );
    let after_child = round(s, child_thread, handed.pc, revealed).0;
    lemma_round_resumes_with_result(after_child, parent, entry, computation, regs, at_return);
}

} // verus!
