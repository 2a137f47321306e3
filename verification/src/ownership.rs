//! Who keeps a computation: every pending computation is named by exactly
//! one ticket, and that ticket stands in exactly one place.
//!
//! Computations live in the task table and are referred to by ticket from
//! the thread queues, the handoff slot and the list of deferred
//! computations. The laws here show that these references behave like
//! owners: none dangles and no two of them share a computation.

use vstd::prelude::*;
use crate::injector::{Injector, Step};
use crate::laws::{
    lemma_admitting_appends, lemma_retired_head_keeps_invariant, lemma_retired_keeps_other_tasks,
    queue_of,
};
use crate::outcome::{InjectError, PollOutcome};
use crate::model::SchedulerState;
use crate::queue::{Phase, QueuedInjector};
use crate::regs::GuestCpu;
use crate::thread::ThreadKey;

verus! {

/// A place in which a ticket can stand.
pub enum Place {
    /// A position in a thread's queue.
    Queue(ThreadKey, int),
    /// The handoff slot.
    Handoff,
    /// A position in the list of deferred computations.
    Deferred(int),
}

/// Whether `place` exists in `s`.
pub open spec fn holds<C: Injector>(s: SchedulerState<C>, place: Place) -> bool {
    match place {
        Place::Queue(thread, i) => s.queues.contains_key(thread) && 0 <= i
            < s.queues[thread].len(),
        Place::Handoff => s.handoff.is_some(),
        Place::Deferred(i) => 0 <= i < s.deferred.len(),
    }
}

/// The ticket that stands in `place`.
pub open spec fn ticket_at<C: Injector>(s: SchedulerState<C>, place: Place) -> usize {
    match place {
        Place::Queue(thread, i) => s.queues[thread][i].ticket,
        Place::Handoff => s.handoff.unwrap().ticket,
        Place::Deferred(i) => s.deferred[i],
    }
}

/// Every ticket that stands somewhere names a computation in the task
/// table, and no ticket stands in two places.
pub open spec fn owned<C: Injector>(s: SchedulerState<C>) -> bool {
    &&& s.tasks.len() <= usize::MAX
    &&& forall|p: Place| #[trigger] holds(s, p) ==> s.task(ticket_at(s, p)).is_some()
    &&& forall|p: Place, q: Place|
        #[trigger] holds(s, p) && #[trigger] holds(s, q) && p != q ==> ticket_at(s, p)
            != ticket_at(s, q)
}

/// Ownership carries over from one state to another when every place of
/// the new state either takes over the ticket of a place of the old one,
/// different places from different places, or holds a ticket that the old
/// task table did not reach, and when the tickets still name computations.
pub proof fn lemma_owned_carries_over<C: Injector>(
    old_state: SchedulerState<C>,
    new_state: SchedulerState<C>,
    origin: spec_fn(Place) -> Place,
    newcomer: Option<Place>,
)
    requires
        owned(old_state),
        new_state.tasks.len() <= usize::MAX,
        forall|p: Place| #[trigger]
            holds(new_state, p) ==> new_state.task(ticket_at(new_state, p)).is_some(),
        forall|p: Place| #[trigger]
            holds(new_state, p) && newcomer != Some(p) ==> holds(old_state, origin(p))
                && ticket_at(old_state, origin(p)) == ticket_at(new_state, p),
        forall|p: Place, q: Place|
            #[trigger] holds(new_state, p) && #[trigger] holds(new_state, q) && p != q
                && newcomer != Some(p) && newcomer != Some(q) ==> origin(p) != origin(q),
        newcomer matches Some(p) ==> holds(new_state, p) ==> ticket_at(new_state, p)
            >= old_state.tasks.len(),
    ensures
        owned(new_state),
{
    assert forall|p: Place, q: Place|
        #[trigger] holds(new_state, p) && #[trigger] holds(new_state, q) && p != q implies ticket_at(
        new_state,
        p,
    ) != ticket_at(new_state, q) by {
        if newcomer != Some(p) && newcomer != Some(q) {
            assert(holds(old_state, origin(p)));
            assert(holds(old_state, origin(q)));
        } else if newcomer == Some(p) {
            assert(holds(old_state, origin(q)));
            assert(old_state.task(ticket_at(old_state, origin(q))).is_some());
        } else {
            assert(holds(old_state, origin(p)));
            assert(old_state.task(ticket_at(old_state, origin(p))).is_some());
        }
    }
}

/// A scheduler that has been given nothing to do keeps nothing.
pub proof fn lemma_idle_is_owned<C: Injector>()
    ensures
        owned(SchedulerState::<C>::idle()),
{
}


/// Ownership is a matter of the queues, the handoff slot, the deferred
/// list and the task table alone.
pub proof fn lemma_owned_reads_places<C: Injector>(a: SchedulerState<C>, b: SchedulerState<C>)
    requires
        owned(a),
        b.queues =~= a.queues,
        b.handoff == a.handoff,
        b.deferred =~= a.deferred,
        b.tasks =~= a.tasks,
    ensures
        owned(b),
{
    assert forall|p: Place| #[trigger] holds(b, p) implies b.task(ticket_at(b, p)).is_some() by {
        assert(holds(a, p));
    }
    assert forall|p: Place, q: Place|
        #[trigger] holds(b, p) && #[trigger] holds(b, q) && p != q implies ticket_at(b, p)
        != ticket_at(b, q) by {
        assert(holds(a, p));
        assert(holds(a, q));
    }
}

/// The place itself: where a ticket came from when it did not move.
pub open spec fn unmoved() -> spec_fn(Place) -> Place {
    |p: Place| p
}

/// Where the tickets of a thread's queue came from when the head left it:
/// each stood one position further back.
pub open spec fn moved_up(thread: ThreadKey) -> spec_fn(Place) -> Place {
    |p: Place|
        match p {
            Place::Queue(other, i) => if other == thread {
                Place::Queue(other, i + 1)
            } else {
                p
            },
            _ => p,
        }
}

/// Polling a queue keeps ownership, and adds at most one computation to
/// the task table.
pub proof fn lemma_poll_from_keeps_owned<C: Injector>(
    s: SchedulerState<C>,
    thread: ThreadKey,
    queue: Seq<QueuedInjector>,
    cpu: GuestCpu,
)
    requires
        owned(s.with_queue(thread, queue)),
        s.tasks.len() < usize::MAX,
    ensures
        owned(s.poll_from(thread, queue, cpu).0),
        s.poll_from(thread, queue, cpu).0.tasks.len() <= s.tasks.len() + 1,
    decreases queue.len(),
{
    let filed = s.with_queue(thread, queue);
    if queue.len() == 0 {
    } else if queue[0].asid != cpu.asid {
    } else if queue[0].phase == Phase::Awaiting {
        let result = s.poll_from(thread, queue, cpu).0;
        assert forall|p: Place| #[trigger] holds(result, p) implies holds(filed, p) && ticket_at(
            filed,
            p,
        ) == ticket_at(result, p) by {}
        lemma_owned_carries_over(filed, result, unmoved(), None);
    } else {
        let head = queue[0];
        let first = Place::Queue(thread, 0);
        assert(holds(filed, first));
        assert(ticket_at(filed, first) == head.ticket);
        assert(filed.task(head.ticket).is_some());
        let started = s.started(thread, head, cpu);
        let (task, step) = started.step_of(head.ticket, head.phase.delivery());
        let stepped = started.with_task(head.ticket, Some(task));
        let rest = queue.drop_first();
        let retired = stepped.retired(thread, head.ticket);
        let after = retired.with_queue(thread, rest);
        lemma_retired_head_keeps_owned(s, thread, queue, cpu);
        lemma_retired_keeps_other_tasks(stepped, thread, head.ticket);
        match step {
            Step::Finished => {
                lemma_poll_from_keeps_owned(retired, thread, rest, stepped.rewound(thread, cpu));
            },
            Step::Syscall(request) => {
                let parked = stepped.suspended(thread, queue, request);
                assert forall|p: Place| #[trigger] holds(parked, p) implies holds(filed, p)
                    && ticket_at(filed, p) == ticket_at(parked, p) && parked.task(
                    ticket_at(parked, p),
                ).is_some() by {
                    assert(holds(filed, p));
                    assert(filed.task(ticket_at(filed, p)).is_some());
                }
                lemma_owned_carries_over(filed, parked, unmoved(), None);
            },
            Step::Fork(child) => {
                match stepped.fork(thread, head.pc, child) {
                    (forked, Ok(request)) => {
                        let parked = forked.suspended(thread, queue, request);
                        assert(filed.handoff.is_none());
                        assert forall|p: Place| #[trigger] holds(parked, p) implies parked.task(
                            ticket_at(parked, p),
                        ).is_some() && (p != Place::Handoff ==> holds(filed, p) && ticket_at(
                            filed,
                            p,
                        ) == ticket_at(parked, p)) by {
                            if p != Place::Handoff {
                                assert(holds(filed, p));
                                assert(filed.task(ticket_at(filed, p)).is_some());
                            }
                        }
                        lemma_owned_carries_over(filed, parked, unmoved(), Some(Place::Handoff));
                    },
                    (_, Err(error)) => {},
                }
            },
        }
    }
}

/// Polling a thread keeps ownership.
pub proof fn lemma_poll_keeps_owned<C: Injector>(
    s: SchedulerState<C>,
    thread: ThreadKey,
    cpu: GuestCpu,
)
    requires
        owned(s),
        s.tasks.len() < usize::MAX,
    ensures
        owned(s.poll(thread, cpu).0),
        s.poll(thread, cpu).0.tasks.len() <= s.tasks.len() + 1,
{
    if s.queues.contains_key(thread) {
        let taken = SchedulerState {
            queues: s.queues.remove(thread),
            waiting_for_syscall: false,
            ..s
        };
        let queue = s.queues[thread];
        let filed = taken.with_queue(thread, queue);
        if queue.len() == 0 {
            assert forall|p: Place| #[trigger] holds(filed, p) implies holds(s, p) && ticket_at(
                s,
                p,
            ) == ticket_at(filed, p) && filed.task(ticket_at(filed, p)).is_some() by {
                assert(holds(s, p));
            }
            lemma_owned_carries_over(s, filed, unmoved(), None);
        } else {
            lemma_owned_reads_places(s, filed);
        }
        lemma_poll_from_keeps_owned(taken, thread, queue, cpu);
    } else {
        lemma_owned_reads_places(s, s.poll(thread, cpu).0);
    }
}


/// Queueing a computation keeps ownership: the newcomer gets a ticket
/// that stood nowhere before.
pub proof fn lemma_run_keeps_owned<C: Injector>(
    s: SchedulerState<C>,
    thread: ThreadKey,
    pc: u64,
    cpu: GuestCpu,
    injector: C,
)
    requires
        owned(s),
        s.tasks.len() + 1 < usize::MAX,
    ensures
        owned(s.run(thread, pc, cpu, injector).0),
{
    let entry = QueuedInjector::fresh(cpu.asid, pc, s.tasks.len() as usize);
    let grown = SchedulerState { tasks: s.tasks.push(Some(injector)), ..s };
    let queued = grown.enqueued(thread, entry);
    let last = Place::Queue(thread, queue_of(s, thread).len() as int);
    assert forall|p: Place| #[trigger] holds(queued, p) implies queued.task(
        ticket_at(queued, p),
    ).is_some() && (p != last ==> holds(s, p) && ticket_at(s, p) == ticket_at(queued, p)) by {
        if p != last {
            assert(holds(s, p));
            assert(s.task(ticket_at(s, p)).is_some());
        }
    }
    lemma_owned_carries_over(s, queued, unmoved(), Some(last));
    if !s.hooked(thread) {
        lemma_poll_keeps_owned(queued, thread, cpu);
    }
}

/// Deferring a computation keeps ownership.
pub proof fn lemma_deferring_keeps_owned<C: Injector>(s: SchedulerState<C>, injector: C)
    requires
        owned(s),
        s.tasks.len() < usize::MAX,
    ensures
        owned(s.deferring(injector)),
{
    let deferred = s.deferring(injector);
    let last = Place::Deferred(s.deferred.len() as int);
    assert forall|p: Place| #[trigger] holds(deferred, p) implies deferred.task(
        ticket_at(deferred, p),
    ).is_some() && (p != last ==> holds(s, p) && ticket_at(s, p) == ticket_at(deferred, p)) by {
        if p != last {
            assert(holds(s, p));
            assert(s.task(ticket_at(s, p)).is_some());
        }
    }
    lemma_owned_carries_over(s, deferred, unmoved(), Some(last));
}

/// The duplication primitive keeps ownership: the child is kept by the
/// handoff slot alone.
pub proof fn lemma_fork_keeps_owned<C: Injector>(
    s: SchedulerState<C>,
    thread: ThreadKey,
    pc: u64,
    child: C,
)
    requires
        owned(s),
        s.tasks.len() < usize::MAX,
    ensures
        owned(s.fork(thread, pc, child).0),
{
    let forked = s.fork(thread, pc, child).0;
    if s.fork(thread, pc, child).1.is_ok() {
        assert forall|p: Place| #[trigger] holds(forked, p) implies forked.task(
            ticket_at(forked, p),
        ).is_some() && (p != Place::Handoff ==> holds(s, p) && ticket_at(s, p) == ticket_at(
            forked,
            p,
        )) by {
            if p != Place::Handoff {
                assert(holds(s, p));
                assert(s.task(ticket_at(s, p)).is_some());
            }
        }
        lemma_owned_carries_over(s, forked, unmoved(), Some(Place::Handoff));
    }
}

/// Where the tickets of a thread's queue came from when the handed-over
/// computation joined it: the last from the handoff slot, the others from
/// where they stand.
pub open spec fn taken_from_handoff(thread: ThreadKey, behind: int) -> spec_fn(Place) -> Place {
    |p: Place|
        match p {
            Place::Queue(other, i) => if other == thread && i == behind {
                Place::Handoff
            } else {
                p
            },
            _ => p,
        }
}

/// The hook after a system call keeps ownership: a handed-over
/// computation passes from the handoff slot to the new thread's queue.
pub proof fn lemma_sys_return_keeps_owned<C: Injector>(
    s: SchedulerState<C>,
    thread: ThreadKey,
    cpu: GuestCpu,
)
    requires
        owned(s),
    ensures
        owned(s.sys_return(thread, cpu).0),
{
    let after = s.sys_return(thread, cpu).0;
    if s.serviced(thread, cpu.asid) {
        assert forall|p: Place| #[trigger] holds(after, p) implies holds(s, p) && ticket_at(s, p)
            == ticket_at(after, p) && after.task(ticket_at(after, p)).is_some() by {
            assert(holds(s, p));
        }
        lemma_owned_carries_over(s, after, unmoved(), None);
    } else if s.reveals_child(cpu) {
        let behind = queue_of(s, thread).len() as int;
        let origin = taken_from_handoff(thread, behind);
        assert forall|p: Place| #[trigger] holds(after, p) implies holds(s, origin(p))
            && ticket_at(s, origin(p)) == ticket_at(after, p) && after.task(
            ticket_at(after, p),
        ).is_some() by {
            assert(holds(s, origin(p)));
        }
        lemma_owned_carries_over(s, after, origin, None);
    }
}

/// Where the tickets of a thread's queue came from when the deferred
/// computations joined it behind the `behind` entries that were there:
/// from the deferred list, in order.
pub open spec fn taken_from_deferred(thread: ThreadKey, behind: int) -> spec_fn(Place) -> Place {
    |p: Place|
        match p {
            Place::Queue(other, i) => if other == thread && i >= behind {
                Place::Deferred(i - behind)
            } else {
                p
            },
            _ => p,
        }
}

/// Admitting the deferred computations to a thread's queue keeps
/// ownership: each passes from the deferred list to the queue.
pub proof fn lemma_admission_keeps_owned<C: Injector>(
    s: SchedulerState<C>,
    thread: ThreadKey,
    pc: u64,
    cpu: GuestCpu,
)
    requires
        owned(s),
    ensures
        owned(
            (SchedulerState { deferred: Seq::empty(), ..s }).admitting(
                thread,
                pc,
                cpu.asid,
                s.deferred,
            ),
        ),
{
    let cleared = SchedulerState { deferred: Seq::empty(), ..s };
    let admitted = cleared.admitting(thread, pc, cpu.asid, s.deferred);
    lemma_admitting_appends(cleared, thread, pc, cpu.asid, s.deferred);
    let behind = queue_of(s, thread).len() as int;
    let origin = taken_from_deferred(thread, behind);
    assert(queue_of(cleared, thread) == queue_of(s, thread));
    assert forall|p: Place| #[trigger] holds(admitted, p) implies holds(s, origin(p))
        && ticket_at(s, origin(p)) == ticket_at(admitted, p) && admitted.task(
        ticket_at(admitted, p),
    ).is_some() by {
        match p {
            Place::Queue(other, i) => {
                if other == thread {
                    assert(admitted.queues[thread] == queue_of(admitted, thread));
                    if i < behind {
                        assert(admitted.queues[thread][i] == queue_of(s, thread)[i]);
                    } else {
                        assert(admitted.queues[thread][i] == QueuedInjector::fresh(
                            cpu.asid,
                            pc,
                            s.deferred[i - behind],
                        ));
                    }
                } else {
                    assert(cleared.queues.contains_key(other));
                    assert(queue_of(admitted, other) == queue_of(cleared, other));
                }
            },
            _ => {},
        }
        assert(holds(s, origin(p)));
    }
    lemma_owned_carries_over(s, admitted, origin, None);
}

/// The hook before a system call keeps ownership: deferred computations
/// pass from the deferred list to the thread's queue, and the poll keeps
/// what it finds.
pub proof fn lemma_sys_enter_keeps_owned<C: Injector>(
    s: SchedulerState<C>,
    thread: ThreadKey,
    pc: u64,
    cpu: GuestCpu,
)
    requires
        owned(s),
        s.tasks.len() < usize::MAX,
    ensures
        owned(s.sys_enter(thread, pc, cpu).0),
{
    let cleared = SchedulerState { deferred: Seq::empty(), ..s };
    let admitted = cleared.admitting(thread, pc, cpu.asid, s.deferred);
    lemma_admission_keeps_owned(s, thread, pc, cpu);
    lemma_admitting_appends(cleared, thread, pc, cpu.asid, s.deferred);
    lemma_poll_keeps_owned(admitted, thread, cpu);
    let polled = admitted.poll(thread, cpu).0;
    lemma_owned_reads_places(polled, SchedulerState { should_loop_again: false, ..polled });
}

/// A ticket names one entry: while ownership holds, two entries with the
/// same ticket are the same entry of the same queue.
pub proof fn lemma_ticket_names_one_entry<C: Injector>(
    s: SchedulerState<C>,
    thread: ThreadKey,
    i: int,
    other: ThreadKey,
    j: int,
)
    requires
        owned(s),
        s.queues.contains_key(thread),
        0 <= i < s.queues[thread].len(),
        s.queues.contains_key(other),
        0 <= j < s.queues[other].len(),
        s.queues[thread][i].ticket == s.queues[other][j].ticket,
    ensures
        thread == other,
        i == j,
{
    assert(holds(s, Place::Queue(thread, i)));
    assert(holds(s, Place::Queue(other, j)));
}


/// Every computation in the task table is pending somewhere, and the
/// table ends with a place that is taken.
pub open spec fn accounted<C: Injector>(s: SchedulerState<C>) -> bool {
    &&& forall|k: int|
        0 <= k < s.tasks.len() && (#[trigger] s.tasks[k]).is_some() ==> exists|p: Place|
            #[trigger] holds(s, p) && ticket_at(s, p) == k
    &&& s.tasks.len() > 0 ==> s.tasks.last().is_some()
}

/// A scheduler for which nothing is pending keeps no computation and no
/// place for one, provided every computation in its table is accounted
/// for.
pub proof fn lemma_idle_keeps_nothing<C: Injector>(s: SchedulerState<C>)
    requires
        accounted(s),
        s.is_idle(),
    ensures
        s.tasks.len() == 0,
{
    if s.tasks.len() > 0 {
        let k = s.tasks.len() - 1;
        assert(s.tasks[k].is_some());
        let p = choose|p: Place| #[trigger] holds(s, p) && ticket_at(s, p) == k;
        assert(holds(s, p));
    }
}

/// A scheduler that has been given nothing to do accounts for all it
/// keeps, which is nothing.
pub proof fn lemma_idle_is_accounted<C: Injector>()
    ensures
        accounted(SchedulerState::<C>::idle()),
{
}

/// Accounts carry over from one state to another when every computation
/// of the new table was in the old one or is where `newcomer` points,
/// when every place of the old state whose computation is still there has
/// a place in the new state to which its ticket went, and when the new
/// table ends with a place that is taken.
pub proof fn lemma_accounted_carries_over<C: Injector>(
    old_state: SchedulerState<C>,
    new_state: SchedulerState<C>,
    destination: spec_fn(Place) -> Place,
    newcomer: Option<Place>,
)
    requires
        accounted(old_state),
        new_state.tasks.len() > 0 ==> new_state.tasks.last().is_some(),
        forall|k: int|
            0 <= k < new_state.tasks.len() && (#[trigger] new_state.tasks[k]).is_some() ==> (k
                < old_state.tasks.len() && old_state.tasks[k].is_some()) || (newcomer matches Some(
                p,
            ) && holds(new_state, p) && ticket_at(new_state, p) == k),
        forall|p: Place| #[trigger]
            holds(old_state, p) && new_state.task(ticket_at(old_state, p)).is_some() ==> holds(
                new_state,
                destination(p),
            ) && ticket_at(new_state, destination(p)) == ticket_at(old_state, p),
    ensures
        accounted(new_state),
{
    assert forall|k: int|
        0 <= k < new_state.tasks.len() && (#[trigger] new_state.tasks[k]).is_some() implies exists|
        p: Place,
    | #[trigger] holds(new_state, p) && ticket_at(new_state, p) == k by {
        if k < old_state.tasks.len() && old_state.tasks[k].is_some() {
            let p = choose|p: Place| #[trigger] holds(old_state, p) && ticket_at(old_state, p) == k;
            assert(holds(old_state, p));
            assert(new_state.task(ticket_at(old_state, p)).is_some());
            assert(holds(new_state, destination(p)));
        } else {
            let p = newcomer.unwrap();
            assert(holds(new_state, p));
        }
    }
}

/// Accounts are a matter of the queues, the handoff slot, the deferred
/// list and the task table alone.
pub proof fn lemma_accounted_reads_places<C: Injector>(a: SchedulerState<C>, b: SchedulerState<C>)
    requires
        accounted(a),
        b.queues =~= a.queues,
        b.handoff == a.handoff,
        b.deferred =~= a.deferred,
        b.tasks =~= a.tasks,
    ensures
        accounted(b),
{
    assert forall|p: Place| #[trigger]
        holds(a, p) && b.task(ticket_at(a, p)).is_some() implies holds(b, unmoved()(p))
        && ticket_at(b, unmoved()(p)) == ticket_at(a, p) by {}
    lemma_accounted_carries_over(a, b, unmoved(), None);
}

/// Where the tickets of a thread's queue went when the head left it: each
/// moved one position forward.
pub open spec fn moved_down(thread: ThreadKey) -> spec_fn(Place) -> Place {
    |p: Place|
        match p {
            Place::Queue(other, i) => if other == thread {
                Place::Queue(other, i - 1)
            } else {
                p
            },
            _ => p,
        }
}

/// Polling a queue keeps the accounts.
pub proof fn lemma_poll_from_keeps_accounted<C: Injector>(
    s: SchedulerState<C>,
    thread: ThreadKey,
    queue: Seq<QueuedInjector>,
    cpu: GuestCpu,
)
    requires
        owned(s.with_queue(thread, queue)),
        accounted(s.with_queue(thread, queue)),
        s.tasks.len() < usize::MAX,
    ensures
        accounted(s.poll_from(thread, queue, cpu).0),
    decreases queue.len(),
{
    let filed = s.with_queue(thread, queue);
    if queue.len() == 0 {
    } else if queue[0].asid != cpu.asid {
    } else if queue[0].phase == Phase::Awaiting {
        lemma_accounted_reads_places(filed, s.poll_from(thread, queue, cpu).0);
    } else {
        let head = queue[0];
        let first = Place::Queue(thread, 0);
        assert(holds(filed, first));
        assert(ticket_at(filed, first) == head.ticket);
        assert(filed.task(head.ticket).is_some());
        let started = s.started(thread, head, cpu);
        let (task, step) = started.step_of(head.ticket, head.phase.delivery());
        let stepped = started.with_task(head.ticket, Some(task));
        let rest = queue.drop_first();
        let retired = stepped.retired(thread, head.ticket);
        let after = retired.with_queue(thread, rest);
        lemma_retired_keeps_other_tasks(stepped, thread, head.ticket);
        crate::laws::lemma_trimmed_keeps_computations(stepped.with_task(head.ticket, None).tasks);
        assert(accounted(after) && owned(after)) by {
            let destination = moved_down(thread);
            assert forall|k: int|
                0 <= k < after.tasks.len() && (#[trigger] after.tasks[k]).is_some() implies k
                < filed.tasks.len() && filed.tasks[k].is_some() by {
                let ticket = k as usize;
                assert(after.task(ticket) == after.tasks[k]);
                assert(ticket != head.ticket);
                assert(retired.task(ticket) == stepped.task(ticket));
                assert(after.task(ticket) == retired.task(ticket));
                assert(stepped.task(ticket) == filed.task(ticket));
            }
            assert forall|p: Place| #[trigger]
                holds(filed, p) && after.task(ticket_at(filed, p)).is_some() implies holds(
                after,
                destination(p),
            ) && ticket_at(after, destination(p)) == ticket_at(filed, p) by {
                if p == first {
                    assert(after.task(head.ticket).is_none());
                } else {
                    match p {
                        Place::Queue(other, i) => {
                            if other == thread {
                                assert(rest[i - 1] == queue[i]);
                            }
                        },
                        _ => {},
                    }
                }
            }
            lemma_accounted_carries_over(filed, after, destination, None);
            lemma_retired_head_keeps_owned(s, thread, queue, cpu);
        }
        match step {
            Step::Finished => {
                lemma_poll_from_keeps_accounted(retired, thread, rest, stepped.rewound(thread, cpu));
            },
            Step::Syscall(request) => {
                let parked = stepped.suspended(thread, queue, request);
                assert forall|p: Place| #[trigger]
                    holds(filed, p) && parked.task(ticket_at(filed, p)).is_some() implies holds(
                    parked,
                    p,
                ) && ticket_at(parked, p) == ticket_at(filed, p) by {}
                lemma_accounted_carries_over(filed, parked, unmoved(), None);
            },
            Step::Fork(child) => {
                match stepped.fork(thread, head.pc, child) {
                    (forked, Ok(request)) => {
                        let parked = forked.suspended(thread, queue, request);
                        assert(filed.handoff.is_none());
                        assert forall|p: Place| #[trigger]
                            holds(filed, p) && parked.task(
                                ticket_at(filed, p),
                            ).is_some() implies holds(parked, p) && ticket_at(parked, p)
                            == ticket_at(filed, p) by {}
                        assert(holds(parked, Place::Handoff));
                        assert(ticket_at(parked, Place::Handoff) == filed.tasks.len());
                        lemma_accounted_carries_over(
                            filed,
                            parked,
                            unmoved(),
                            Some(Place::Handoff),
                        );
                    },
                    (_, Err(error)) => {},
                }
            },
        }
    }
}

/// When the head of a queue is retired, what is left is owned.
pub proof fn lemma_retired_head_keeps_owned<C: Injector>(
    s: SchedulerState<C>,
    thread: ThreadKey,
    queue: Seq<QueuedInjector>,
    cpu: GuestCpu,
)
    requires
        owned(s.with_queue(thread, queue)),
        queue.len() > 0,
    ensures
        ({
            let head = queue[0];
            let started = s.started(thread, head, cpu);
            let task = started.step_of(head.ticket, head.phase.delivery()).0;
            let stepped = started.with_task(head.ticket, Some(task));
            owned(stepped.retired(thread, head.ticket).with_queue(thread, queue.drop_first()))
        }),
{
    let filed = s.with_queue(thread, queue);
    let head = queue[0];
    let first = Place::Queue(thread, 0);
    assert(holds(filed, first));
    assert(ticket_at(filed, first) == head.ticket);
    let started = s.started(thread, head, cpu);
    let (task, step) = started.step_of(head.ticket, head.phase.delivery());
    let stepped = started.with_task(head.ticket, Some(task));
    let rest = queue.drop_first();
    let retired = stepped.retired(thread, head.ticket);
    let after = retired.with_queue(thread, rest);
    lemma_retired_keeps_other_tasks(stepped, thread, head.ticket);
    let origin = moved_up(thread);
    assert forall|p: Place| #[trigger] holds(after, p) implies holds(filed, origin(p))
        && ticket_at(filed, origin(p)) == ticket_at(after, p) && after.task(
        ticket_at(after, p),
    ).is_some() by {
        match p {
            Place::Queue(other, i) => {
                if other == thread {
                    assert(rest[i] == queue[i + 1]);
                }
            },
            _ => {},
        }
        assert(origin(p) != first);
        assert(holds(filed, origin(p)));
        let kept = ticket_at(filed, origin(p));
        assert(kept != head.ticket);
        assert(filed.task(kept).is_some());
        assert(stepped.task(kept) == filed.task(kept));
        assert(retired.task(kept) == stepped.task(kept));
    }
    lemma_owned_carries_over(filed, after, origin, None);
}


/// Polling a thread keeps the accounts.
pub proof fn lemma_poll_keeps_accounted<C: Injector>(
    s: SchedulerState<C>,
    thread: ThreadKey,
    cpu: GuestCpu,
)
    requires
        owned(s),
        accounted(s),
        s.tasks.len() < usize::MAX,
    ensures
        accounted(s.poll(thread, cpu).0),
{
    if s.queues.contains_key(thread) {
        let taken = SchedulerState {
            queues: s.queues.remove(thread),
            waiting_for_syscall: false,
            ..s
        };
        let queue = s.queues[thread];
        let filed = taken.with_queue(thread, queue);
        if queue.len() == 0 {
            assert forall|p: Place| #[trigger] holds(filed, p) implies holds(s, p) && ticket_at(
                s,
                p,
            ) == ticket_at(filed, p) && filed.task(ticket_at(filed, p)).is_some() by {
                assert(holds(s, p));
            }
            lemma_owned_carries_over(s, filed, unmoved(), None);
            assert forall|p: Place| #[trigger]
                holds(s, p) && filed.task(ticket_at(s, p)).is_some() implies holds(filed, p)
                && ticket_at(filed, p) == ticket_at(s, p) by {}
            lemma_accounted_carries_over(s, filed, unmoved(), None);
        } else {
            lemma_owned_reads_places(s, filed);
            lemma_accounted_reads_places(s, filed);
        }
        lemma_poll_from_keeps_accounted(taken, thread, queue, cpu);
    } else {
        lemma_accounted_reads_places(s, s.poll(thread, cpu).0);
    }
}

/// Queueing a computation keeps the accounts.
pub proof fn lemma_run_keeps_accounted<C: Injector>(
    s: SchedulerState<C>,
    thread: ThreadKey,
    pc: u64,
    cpu: GuestCpu,
    injector: C,
)
    requires
        owned(s),
        accounted(s),
        s.tasks.len() + 1 < usize::MAX,
    ensures
        accounted(s.run(thread, pc, cpu, injector).0),
{
    let entry = QueuedInjector::fresh(cpu.asid, pc, s.tasks.len() as usize);
    let grown = SchedulerState { tasks: s.tasks.push(Some(injector)), ..s };
    let queued = grown.enqueued(thread, entry);
    let last = Place::Queue(thread, queue_of(s, thread).len() as int);
    assert(holds(queued, last));
    assert(ticket_at(queued, last) == s.tasks.len());
    assert forall|p: Place| #[trigger]
        holds(s, p) && queued.task(ticket_at(s, p)).is_some() implies holds(queued, p)
        && ticket_at(queued, p) == ticket_at(s, p) by {}
    lemma_accounted_carries_over(s, queued, unmoved(), Some(last));
    assert forall|p: Place| #[trigger] holds(queued, p) implies queued.task(
        ticket_at(queued, p),
    ).is_some() && (p != last ==> holds(s, p) && ticket_at(s, p) == ticket_at(queued, p)) by {
        if p != last {
            assert(holds(s, p));
            assert(s.task(ticket_at(s, p)).is_some());
        }
    }
    lemma_owned_carries_over(s, queued, unmoved(), Some(last));
    if !s.hooked(thread) {
        lemma_poll_keeps_accounted(queued, thread, cpu);
    }
}

/// Deferring a computation keeps the accounts.
pub proof fn lemma_deferring_keeps_accounted<C: Injector>(s: SchedulerState<C>, injector: C)
    requires
        accounted(s),
        s.tasks.len() < usize::MAX,
    ensures
        accounted(s.deferring(injector)),
{
    let deferred = s.deferring(injector);
    let last = Place::Deferred(s.deferred.len() as int);
    assert(holds(deferred, last));
    assert(ticket_at(deferred, last) == s.tasks.len());
    assert forall|p: Place| #[trigger]
        holds(s, p) && deferred.task(ticket_at(s, p)).is_some() implies holds(deferred, p)
        && ticket_at(deferred, p) == ticket_at(s, p) by {}
    lemma_accounted_carries_over(s, deferred, unmoved(), Some(last));
}

/// The duplication primitive keeps the accounts.
pub proof fn lemma_fork_keeps_accounted<C: Injector>(
    s: SchedulerState<C>,
    thread: ThreadKey,
    pc: u64,
    child: C,
)
    requires
        accounted(s),
        s.tasks.len() < usize::MAX,
    ensures
        accounted(s.fork(thread, pc, child).0),
{
    let forked = s.fork(thread, pc, child).0;
    if s.fork(thread, pc, child).1.is_ok() {
        assert(holds(forked, Place::Handoff));
        assert(ticket_at(forked, Place::Handoff) == s.tasks.len());
        assert forall|p: Place| #[trigger]
            holds(s, p) && forked.task(ticket_at(s, p)).is_some() implies holds(forked, p)
            && ticket_at(forked, p) == ticket_at(s, p) by {}
        lemma_accounted_carries_over(s, forked, unmoved(), Some(Place::Handoff));
    }
}

/// Where the handed-over ticket went: behind the `behind` entries of the
/// new thread's queue.
pub open spec fn given_to_queue(thread: ThreadKey, behind: int) -> spec_fn(Place) -> Place {
    |p: Place|
        match p {
            Place::Handoff => Place::Queue(thread, behind),
            _ => p,
        }
}

/// The hook after a system call keeps the accounts.
pub proof fn lemma_sys_return_keeps_accounted<C: Injector>(
    s: SchedulerState<C>,
    thread: ThreadKey,
    cpu: GuestCpu,
)
    requires
        accounted(s),
    ensures
        accounted(s.sys_return(thread, cpu).0),
{
    let after = s.sys_return(thread, cpu).0;
    if s.serviced(thread, cpu.asid) {
        assert forall|p: Place| #[trigger]
            holds(s, p) && after.task(ticket_at(s, p)).is_some() implies holds(after, p)
            && ticket_at(after, p) == ticket_at(s, p) by {}
        lemma_accounted_carries_over(s, after, unmoved(), None);
    } else if s.reveals_child(cpu) {
        let behind = queue_of(s, thread).len() as int;
        let destination = given_to_queue(thread, behind);
        assert forall|p: Place| #[trigger]
            holds(s, p) && after.task(ticket_at(s, p)).is_some() implies holds(
            after,
            destination(p),
        ) && ticket_at(after, destination(p)) == ticket_at(s, p) by {}
        lemma_accounted_carries_over(s, after, destination, None);
    }
}

/// Where the deferred tickets went: behind the `behind` entries of the
/// thread's queue, in order.
pub open spec fn admitted_to_queue(thread: ThreadKey, behind: int) -> spec_fn(Place) -> Place {
    |p: Place|
        match p {
            Place::Deferred(i) => Place::Queue(thread, behind + i),
            _ => p,
        }
}

/// The hook before a system call keeps the accounts.
pub proof fn lemma_sys_enter_keeps_accounted<C: Injector>(
    s: SchedulerState<C>,
    thread: ThreadKey,
    pc: u64,
    cpu: GuestCpu,
)
    requires
        owned(s),
        accounted(s),
        s.tasks.len() < usize::MAX,
    ensures
        accounted(s.sys_enter(thread, pc, cpu).0),
{
    let cleared = SchedulerState { deferred: Seq::empty(), ..s };
    let admitted = cleared.admitting(thread, pc, cpu.asid, s.deferred);
    lemma_admitting_appends(cleared, thread, pc, cpu.asid, s.deferred);
    let behind = queue_of(s, thread).len() as int;
    assert(queue_of(cleared, thread) == queue_of(s, thread));
    let destination = admitted_to_queue(thread, behind);
    assert forall|p: Place| #[trigger]
        holds(s, p) && admitted.task(ticket_at(s, p)).is_some() implies holds(
        admitted,
        destination(p),
    ) && ticket_at(admitted, destination(p)) == ticket_at(s, p) by {
        match p {
            Place::Queue(other, i) => {
                if other == thread {
                    assert(admitted.queues[thread] == queue_of(admitted, thread));
                    assert(admitted.queues[thread][i] == queue_of(s, thread)[i]);
                } else {
                    assert(queue_of(admitted, other) == queue_of(cleared, other));
                }
            },
            Place::Deferred(i) => {
                assert(admitted.queues[thread] == queue_of(admitted, thread));
                assert(admitted.queues[thread][behind + i] == QueuedInjector::fresh(
                    cpu.asid,
                    pc,
                    s.deferred[i],
                ));
            },
            Place::Handoff => {},
        }
    }
    lemma_accounted_carries_over(s, admitted, destination, None);
    lemma_admission_keeps_owned(s, thread, pc, cpu);
    lemma_poll_keeps_accounted(admitted, thread, cpu);
    let polled = admitted.poll(thread, cpu).0;
    lemma_accounted_reads_places(polled, SchedulerState { should_loop_again: false, ..polled });
}

/// The books of the scheduler: it keeps a computation exactly while that
/// computation is pending, under one ticket that stands in one place.
pub open spec fn kept<C: Injector>(s: SchedulerState<C>) -> bool {
    owned(s) && accounted(s)
}

/// Every operation keeps the books, as long as the task table has room
/// for the computations that the operation can add. They hold of a
/// scheduler that has been given nothing to do, so they hold of every
/// scheduler that was made idle and driven through its operations.
pub proof fn lemma_operations_keep_books<C: Injector>(
    s: SchedulerState<C>,
    thread: ThreadKey,
    pc: u64,
    cpu: GuestCpu,
    injector: C,
)
    requires
        kept(s),
        s.tasks.len() + 1 < usize::MAX,
    ensures
        kept(SchedulerState::<C>::idle()),
        kept(s.poll(thread, cpu).0),
        kept(s.run(thread, pc, cpu, injector).0),
        kept(s.deferring(injector)),
        kept(s.fork(thread, pc, injector).0),
        kept(s.sys_enter(thread, pc, cpu).0),
        kept(s.sys_return(thread, cpu).0),
{
    lemma_idle_is_owned::<C>();
    lemma_idle_is_accounted::<C>();
    lemma_poll_keeps_owned(s, thread, cpu);
    lemma_poll_keeps_accounted(s, thread, cpu);
    lemma_run_keeps_owned(s, thread, pc, cpu, injector);
    lemma_run_keeps_accounted(s, thread, pc, cpu, injector);
    lemma_deferring_keeps_owned(s, injector);
    lemma_deferring_keeps_accounted(s, injector);
    lemma_fork_keeps_owned(s, thread, pc, injector);
    lemma_fork_keeps_accounted(s, thread, pc, injector);
    lemma_sys_enter_keeps_owned(s, thread, pc, cpu);
    lemma_sys_enter_keeps_accounted(s, thread, pc, cpu);
    lemma_sys_return_keeps_owned(s, thread, cpu);
    lemma_sys_return_keeps_accounted(s, thread, cpu);
}


/// The one fault a poll can report of a scheduler that keeps its
/// invariant and its books is a second duplication while the first has
/// not been taken up: no computation is resumed after its end, and none
/// duplicates itself without a snapshot.
pub proof fn lemma_poll_from_faults_only_on_second_fork<C: Injector>(
    s: SchedulerState<C>,
    thread: ThreadKey,
    queue: Seq<QueuedInjector>,
    cpu: GuestCpu,
)
    requires
        s.with_queue(thread, queue).wf(),
        owned(s.with_queue(thread, queue)),
    ensures
        s.poll_from(thread, queue, cpu).2 matches PollOutcome::Fault(error) ==> error
            == InjectError::ForkPending,
    decreases queue.len(),
{
    let filed = s.with_queue(thread, queue);
    if queue.len() == 0 {
    } else if queue[0].asid != cpu.asid {
    } else if queue[0].phase == Phase::Awaiting {
    } else {
        let head = queue[0];
        let first = Place::Queue(thread, 0);
        assert(holds(filed, first));
        assert(ticket_at(filed, first) == head.ticket);
        assert(filed.task(head.ticket).is_some());
        assert(filed.queues[thread] == queue);
        assert(filed.backups.contains_key(thread) <==> filed.running(thread));
        let started = s.started(thread, head, cpu);
        assert(started.backups.contains_key(thread));
        let (task, step) = started.step_of(head.ticket, head.phase.delivery());
        let stepped = started.with_task(head.ticket, Some(task));
        match step {
            Step::Finished => {
                lemma_retired_head_keeps_invariant(s, thread, queue, cpu);
                lemma_retired_head_keeps_owned(s, thread, queue, cpu);
                lemma_poll_from_faults_only_on_second_fork(
                    stepped.retired(thread, head.ticket),
                    thread,
                    queue.drop_first(),
                    stepped.rewound(thread, cpu),
                );
            },
            _ => {},
        }
    }
}

/// A poll of a thread faults only on a second duplication, as long as the
/// scheduler keeps its invariant and its books.
pub proof fn lemma_poll_faults_only_on_second_fork<C: Injector>(
    s: SchedulerState<C>,
    thread: ThreadKey,
    cpu: GuestCpu,
)
    requires
        s.wf(),
        owned(s),
    ensures
        s.poll(thread, cpu).2 matches PollOutcome::Fault(error) ==> error
            == InjectError::ForkPending,
{
    if s.queues.contains_key(thread) {
        let taken = SchedulerState {
            queues: s.queues.remove(thread),
            waiting_for_syscall: false,
            ..s
        };
        let queue = s.queues[thread];
        let filed = taken.with_queue(thread, queue);
        assert(queue.len() > 0);
        assert(filed.queues =~= s.queues);
        lemma_owned_reads_places(s, filed);
        crate::laws::lemma_invariant_reads_queues_and_backups(s, filed);
        lemma_poll_from_faults_only_on_second_fork(taken, thread, queue, cpu);
    }
}

} // verus!
