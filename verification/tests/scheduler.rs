use std::cell::RefCell;
use std::rc::Rc;

use syscall_injection::injector::{syscall, Injector, Step, Syscall, SyscallRequest, FORK};
use syscall_injection::outcome::{
    EnterOutcome, HookChange, InjectError, PollOutcome, ReturnEvent, ReturnOutcome, RunOutcome,
    SyscallPc,
};
use syscall_injection::regs::GuestCpu;
use syscall_injection::scheduler::Scheduler;
use syscall_injection::syscall_regs::SyscallRegs;
use syscall_injection::thread::ThreadId;

const GETPID: u64 = 39;
const GETUID: u64 = 102;
const WRITE: u64 = 1;

/// What a scripted computation does at one step.
enum Act {
    Call(u64, Vec<u64>),
    Fork(Vec<Act>),
}

/// A computation that follows a script and logs every value it is resumed with.
struct Script {
    name: &'static str,
    acts: Vec<Act>,
    log: Rc<RefCell<Vec<String>>>,
}

impl Script {
    fn new(name: &'static str, acts: Vec<Act>, log: &Rc<RefCell<Vec<String>>>) -> Script {
        Script { name, acts, log: log.clone() }
    }
}

impl Injector for Script {
    fn next(self, _delivered: Option<u64>) -> (Self, Step<Self>) {
        unreachable!()
    }

    fn advance(&mut self, delivered: Option<u64>) -> Step<Self> {
        match delivered {
            Some(value) => self.log.borrow_mut().push(format!("{} got {}", self.name, value)),
            None => self.log.borrow_mut().push(format!("{} started", self.name)),
        }
        if self.acts.is_empty() {
            self.log.borrow_mut().push(format!("{} finished", self.name));
            return Step::Finished;
        }
        match self.acts.remove(0) {
            Act::Call(number, args) => {
                self.log.borrow_mut().push(format!("{} calls {}", self.name, number));
                Step::Syscall(SyscallRequest::new(number, &args).unwrap())
            }
            Act::Fork(acts) => {
                self.log.borrow_mut().push(format!("{} forks", self.name));
                Step::Fork(Script { name: "child", acts, log: self.log.clone() })
            }
        }
    }
}

fn new_log() -> Rc<RefCell<Vec<String>>> {
    Rc::new(RefCell::new(Vec::new()))
}

fn thread(pid: u64, tid: u64) -> ThreadId {
    ThreadId { pid, tid }
}

/// A CPU about to execute a system call `number` in address space `asid`.
fn cpu_at_syscall(asid: u64, pc: u64, number: u64) -> GuestCpu {
    let mut cpu = GuestCpu::new(asid);
    cpu.pc = pc;
    cpu.rax = number;
    cpu.rdi = 0x11;
    cpu.rsi = 0x22;
    cpu.rdx = 0x33;
    cpu.r10 = 0x44;
    cpu.r8 = 0x55;
    cpu.r9 = 0x66;
    cpu.rbx = 0x77;
    cpu
}

fn armed(number: u64) -> PollOutcome {
    PollOutcome::Armed(SyscallRequest::new(number, &[]).unwrap())
}

#[test]
fn polling_a_thread_without_queue_is_finished_at_once() {
    let mut scheduler: Scheduler<Script> = Scheduler::new();
    let mut cpu = cpu_at_syscall(7, 0x4000, 60);
    let before = cpu;
    let me = thread(10, 11);
    assert_eq!(scheduler.poll_injectors(me, &mut cpu), PollOutcome::Finished);
    assert_eq!(cpu, before);
    assert!(!scheduler.hooks_installed(me));
    assert!(scheduler.is_idle());
    assert!(!scheduler.waiting_for_syscall());
}

#[test]
fn sys_enter_without_queue_changes_nothing() {
    let mut scheduler: Scheduler<Script> = Scheduler::new();
    let mut cpu = cpu_at_syscall(7, 0x4000, 60);
    let before = cpu;
    let outcome = scheduler.on_sys_enter(thread(1, 1), SyscallPc::new(0x4000), &mut cpu);
    assert_eq!(
        outcome,
        EnterOutcome { poll: PollOutcome::Finished, hooks: HookChange::Unchanged, reenter: false }
    );
    assert_eq!(cpu, before);
    assert!(scheduler.is_idle());
}

#[test]
fn sys_return_without_anything_pending_is_unrelated() {
    let mut scheduler: Scheduler<Script> = Scheduler::new();
    let mut cpu = cpu_at_syscall(7, 0x4000, 0);
    let before = cpu;
    let outcome = scheduler.on_sys_return(thread(1, 1), &mut cpu);
    assert_eq!(
        outcome,
        ReturnOutcome {
            event: ReturnEvent::Unrelated,
            hooks: HookChange::Unchanged,
            reenter: false
        }
    );
    assert_eq!(cpu, before);
}

#[test]
fn two_calls_are_issued_and_answered_in_order() {
    let log = new_log();
    let mut scheduler: Scheduler<Script> = Scheduler::new();
    let me = thread(100, 100);
    let pc = SyscallPc::new(0x4000);
    let mut cpu = cpu_at_syscall(7, 0x4000, 60);
    let pristine = cpu;

    let script = Script::new(
        "injector",
        vec![Act::Call(GETPID, vec![]), Act::Call(GETUID, vec![])],
        &log,
    );
    let queued = scheduler.run_injector(me, pc, &mut cpu, script);
    assert_eq!(queued, RunOutcome { hooks: HookChange::Installed, poll: Some(armed(GETPID)) });
    assert_eq!(cpu.rax, GETPID);
    assert!(scheduler.hooks_installed(me));
    assert!(scheduler.waiting_for_syscall());
    assert_eq!(scheduler.last_injected_syscall(), GETPID);

    // the guest performs the first call, which returns 5
    cpu.rax = 5;
    cpu.pc = 0x4002;
    let returned = scheduler.on_sys_return(me, &mut cpu);
    assert_eq!(
        returned,
        ReturnOutcome {
            event: ReturnEvent::Delivered(5),
            hooks: HookChange::Unchanged,
            reenter: true
        }
    );
    assert_eq!(cpu.pc, 0x4000);
    let entered = scheduler.on_sys_enter(me, pc, &mut cpu);
    assert_eq!(
        entered,
        EnterOutcome { poll: armed(GETUID), hooks: HookChange::Unchanged, reenter: true }
    );
    assert_eq!(cpu.rax, GETUID);
    // the engine re-enters: the hook finds the computation waiting
    let again = scheduler.on_sys_enter(me, pc, &mut cpu);
    assert_eq!(
        again,
        EnterOutcome {
            poll: PollOutcome::AwaitingResult,
            hooks: HookChange::Unchanged,
            reenter: false
        }
    );
    assert_eq!(cpu.rax, GETUID);

    // the guest performs the second call, which returns 9
    cpu.rax = 9;
    cpu.pc = 0x4002;
    let returned = scheduler.on_sys_return(me, &mut cpu);
    assert_eq!(returned.event, ReturnEvent::Delivered(9));
    let entered = scheduler.on_sys_enter(me, pc, &mut cpu);
    assert_eq!(
        entered,
        EnterOutcome { poll: PollOutcome::Finished, hooks: HookChange::Removed, reenter: true }
    );
    assert!(!scheduler.hooks_installed(me));
    assert!(scheduler.is_idle());
    assert_eq!(cpu, pristine);

    assert_eq!(
        *log.borrow(),
        vec![
            "injector started",
            "injector calls 39",
            "injector got 5",
            "injector calls 102",
            "injector got 9",
            "injector finished",
        ]
    );
}

#[test]
fn computation_without_calls_finishes_when_queued() {
    let log = new_log();
    let mut scheduler: Scheduler<Script> = Scheduler::new();
    let me = thread(1, 2);
    let mut cpu = cpu_at_syscall(7, 0x4000, 60);
    let pristine = cpu;
    let queued =
        scheduler.run_injector(me, SyscallPc::new(0x4000), &mut cpu, Script::new("idle", vec![], &log));
    assert_eq!(
        queued,
        RunOutcome { hooks: HookChange::Unchanged, poll: Some(PollOutcome::Finished) }
    );
    assert!(!scheduler.hooks_installed(me));
    assert_eq!(scheduler.get_backed_up_regs(me), None);
    assert_eq!(cpu, pristine);
    assert_eq!(*log.borrow(), vec!["idle started", "idle finished"]);
}

#[test]
fn arguments_are_loaded_in_calling_convention_order() {
    let log = new_log();
    let mut scheduler: Scheduler<Script> = Scheduler::new();
    let me = thread(1, 2);
    let mut cpu = cpu_at_syscall(7, 0x4000, 60);
    let script = Script::new("writer", vec![Act::Call(WRITE, vec![1, 0x7000, 12])], &log);
    let queued = scheduler.run_injector(me, SyscallPc::new(0x4000), &mut cpu, script);
    assert_eq!(
        queued.poll,
        Some(PollOutcome::Armed(SyscallRequest {
            number: WRITE,
            arg0: 1,
            arg1: 0x7000,
            arg2: 12,
            arg3: 0,
            arg4: 0,
            arg5: 0
        }))
    );
    assert_eq!(
        (cpu.rax, cpu.rdi, cpu.rsi, cpu.rdx, cpu.r10, cpu.r8, cpu.r9),
        (WRITE, 1, 0x7000, 12, 0, 0, 0)
    );
    assert_eq!(cpu.rbx, 0x77);
    assert_eq!(cpu.pc, 0x4000);
}

#[test]
fn registers_are_restored_whatever_the_guest_did_to_them() {
    let log = new_log();
    let mut scheduler: Scheduler<Script> = Scheduler::new();
    let me = thread(3, 3);
    let pc = SyscallPc::new(0x4000);
    let mut cpu = cpu_at_syscall(7, 0x4000, 60);
    let pristine = cpu;
    scheduler.run_injector(me, pc, &mut cpu, Script::new("one", vec![Act::Call(GETPID, vec![])], &log));
    assert_eq!(scheduler.get_backed_up_regs(me), Some(SyscallRegs::backup(&pristine)));

    // the call clobbers what it likes
    cpu.rax = 1234;
    cpu.rdi = 0xdead;
    cpu.r9 = 0xbeef;
    cpu.rcx = 0x4002;
    cpu.r11 = 0x246;
    cpu.pc = 0x4002;
    scheduler.on_sys_return(me, &mut cpu);
    let entered = scheduler.on_sys_enter(me, pc, &mut cpu);
    assert_eq!(entered.poll, PollOutcome::Finished);

    assert_eq!(cpu.rax, pristine.rax);
    assert_eq!(cpu.rdi, pristine.rdi);
    assert_eq!(cpu.rsi, pristine.rsi);
    assert_eq!(cpu.rdx, pristine.rdx);
    assert_eq!(cpu.r10, pristine.r10);
    assert_eq!(cpu.r8, pristine.r8);
    assert_eq!(cpu.r9, pristine.r9);
    assert_eq!(cpu.pc, pristine.pc);
    // registers outside the snapshot keep what the guest left in them
    assert_eq!(cpu.rcx, 0x4002);
    assert_eq!(cpu.r11, 0x246);
    assert_eq!(scheduler.get_backed_up_regs(me), None);
}

#[test]
fn computation_waits_for_its_own_address_space() {
    let log = new_log();
    let mut scheduler: Scheduler<Script> = Scheduler::new();
    let me = thread(5, 5);
    let pc = SyscallPc::new(0x4000);
    let mut home = cpu_at_syscall(7, 0x4000, 60);
    scheduler.run_injector(me, pc, &mut home, Script::new("first", vec![Act::Call(GETPID, vec![])], &log));
    home.rax = 1;
    scheduler.on_sys_return(me, &mut home);
    let lines = log.borrow().len();

    // the same thread is seen in another address space
    let mut foreign = cpu_at_syscall(8, 0x4000, 60);
    let before = foreign;
    assert_eq!(scheduler.poll_injectors(me, &mut foreign), PollOutcome::WrongAddressSpace);
    assert_eq!(foreign, before);
    assert_eq!(log.borrow().len(), lines);
    assert!(scheduler.hooks_installed(me));
    assert!(!scheduler.waiting_for_syscall());

    // a call returning there is none of the computation's
    let mut call = cpu_at_syscall(8, 0x4002, 3);
    assert_eq!(scheduler.on_sys_return(me, &mut call).event, ReturnEvent::Unrelated);

    // back home it goes on
    assert_eq!(scheduler.poll_injectors(me, &mut home), PollOutcome::Finished);
    assert_eq!(log.borrow().last().unwrap(), "first finished");
}

#[test]
fn queued_computations_run_one_after_the_other() {
    let log = new_log();
    let mut scheduler: Scheduler<Script> = Scheduler::new();
    let me = thread(6, 6);
    let pc = SyscallPc::new(0x4000);
    let mut cpu = cpu_at_syscall(7, 0x4000, 60);
    let pristine = cpu;
    let first = scheduler.run_injector(me, pc, &mut cpu, Script::new("a", vec![Act::Call(GETPID, vec![])], &log));
    assert_eq!(first.hooks, HookChange::Installed);
    let second = scheduler.run_injector(me, pc, &mut cpu, Script::new("b", vec![Act::Call(GETUID, vec![])], &log));
    assert_eq!(second, RunOutcome { hooks: HookChange::Unchanged, poll: None });
    assert_eq!(cpu.rax, GETPID);

    cpu.rax = 41;
    scheduler.on_sys_return(me, &mut cpu);
    // "a" ends, its snapshot is written back, and "b" starts in the same poll
    let entered = scheduler.on_sys_enter(me, pc, &mut cpu);
    assert_eq!(
        entered,
        EnterOutcome { poll: armed(GETUID), hooks: HookChange::Unchanged, reenter: true }
    );
    assert_eq!(scheduler.get_backed_up_regs(me), Some(SyscallRegs::backup(&pristine)));

    cpu.rax = 42;
    scheduler.on_sys_return(me, &mut cpu);
    let entered = scheduler.on_sys_enter(me, pc, &mut cpu);
    assert_eq!(
        entered,
        EnterOutcome { poll: PollOutcome::Finished, hooks: HookChange::Removed, reenter: true }
    );
    assert_eq!(cpu, pristine);
    assert_eq!(
        *log.borrow(),
        vec![
            "a started",
            "a calls 39",
            "a got 41",
            "a finished",
            "b started",
            "b calls 102",
            "b got 42",
            "b finished",
        ]
    );
}

#[test]
fn threads_have_queues_of_their_own() {
    let log = new_log();
    let mut scheduler: Scheduler<Script> = Scheduler::new();
    let one = thread(1, 1);
    let two = thread(2, 2);
    let pc = SyscallPc::new(0x4000);
    let mut cpu_one = cpu_at_syscall(7, 0x4000, 60);
    let mut cpu_two = cpu_at_syscall(9, 0x4000, 61);
    let pristine_two = cpu_two;
    scheduler.run_injector(one, pc, &mut cpu_one, Script::new("one", vec![Act::Call(GETPID, vec![])], &log));
    scheduler.run_injector(two, pc, &mut cpu_two, Script::new("two", vec![Act::Call(GETUID, vec![])], &log));
    assert_eq!(scheduler.last_injected_syscall(), GETUID);

    cpu_two.rax = 200;
    assert_eq!(scheduler.on_sys_return(two, &mut cpu_two).event, ReturnEvent::Delivered(200));
    let entered = scheduler.on_sys_enter(two, pc, &mut cpu_two);
    assert_eq!(entered.hooks, HookChange::Removed);
    assert_eq!(cpu_two, pristine_two);
    assert!(scheduler.hooks_installed(one));
    assert!(!scheduler.hooks_installed(two));
    assert!(!scheduler.is_idle());

    cpu_one.rax = 100;
    assert_eq!(scheduler.on_sys_return(one, &mut cpu_one).event, ReturnEvent::Delivered(100));
    assert_eq!(scheduler.on_sys_enter(one, pc, &mut cpu_one).hooks, HookChange::Removed);
    assert!(scheduler.is_idle());
    assert!(log.borrow().contains(&"one got 100".to_string()));
    assert!(log.borrow().contains(&"two got 200".to_string()));
}

#[test]
fn deferred_computation_runs_at_the_next_system_call() {
    let log = new_log();
    let mut scheduler: Scheduler<Script> = Scheduler::new();
    scheduler.run_injector_next_syscall(Script::new("later", vec![Act::Call(GETPID, vec![])], &log));
    assert!(!scheduler.is_idle());
    assert!(log.borrow().is_empty());

    let me = thread(8, 9);
    let pc = SyscallPc::new(0x5000);
    let mut cpu = cpu_at_syscall(7, 0x5000, 60);
    let pristine = cpu;
    let entered = scheduler.on_sys_enter(me, pc, &mut cpu);
    assert_eq!(
        entered,
        EnterOutcome { poll: armed(GETPID), hooks: HookChange::Installed, reenter: false }
    );
    cpu.rax = 77;
    let returned = scheduler.on_sys_return(me, &mut cpu);
    assert!(returned.reenter);
    assert_eq!(cpu.pc, 0x5000);
    let entered = scheduler.on_sys_enter(me, pc, &mut cpu);
    assert_eq!(entered.hooks, HookChange::Removed);
    assert_eq!(cpu, pristine);
    assert!(scheduler.is_idle());
    assert_eq!(
        *log.borrow(),
        vec!["later started", "later calls 39", "later got 77", "later finished"]
    );
}

#[test]
fn fork_hands_the_child_to_the_new_thread() {
    let log = new_log();
    let mut scheduler: Scheduler<Script> = Scheduler::new();
    let parent = thread(100, 100);
    let child = thread(101, 101);
    let pc = SyscallPc::new(0x4000);
    let mut cpu = cpu_at_syscall(7, 0x4000, 60);
    let pristine = cpu;

    let script = Script::new(
        "parent",
        vec![Act::Fork(vec![Act::Call(GETPID, vec![])]), Act::Call(GETUID, vec![])],
        &log,
    );
    let queued = scheduler.run_injector(parent, pc, &mut cpu, script);
    assert_eq!(queued.poll, Some(armed(FORK)));
    assert_eq!(cpu.rax, FORK);
    assert_eq!(scheduler.last_injected_syscall(), FORK);

    // the new context is seen first: the call returns zero there
    let mut child_cpu = cpu;
    child_cpu.asid = 8;
    child_cpu.rax = 0;
    child_cpu.pc = 0x4002;
    let seen = scheduler.on_sys_return(child, &mut child_cpu);
    assert_eq!(
        seen,
        ReturnOutcome {
            event: ReturnEvent::ChildScheduled,
            hooks: HookChange::Installed,
            reenter: true
        }
    );
    assert_eq!(child_cpu.pc, 0x4000);
    assert!(scheduler.hooks_installed(child));

    // a second zero result anywhere schedules nothing more
    let stranger = thread(55, 55);
    let mut other_cpu = cpu_at_syscall(3, 0x9000, 0);
    assert_eq!(scheduler.on_sys_return(stranger, &mut other_cpu).event, ReturnEvent::Unrelated);
    assert!(!scheduler.hooks_installed(stranger));

    // the child starts without a snapshot of its own
    let entered = scheduler.on_sys_enter(child, pc, &mut child_cpu);
    assert_eq!(
        entered,
        EnterOutcome { poll: armed(GETPID), hooks: HookChange::Unchanged, reenter: true }
    );
    assert_eq!(scheduler.get_backed_up_regs(child), Some(SyscallRegs::backup(&pristine)));

    // the parent gets the child's pid
    cpu.rax = 101;
    assert_eq!(scheduler.on_sys_return(parent, &mut cpu).event, ReturnEvent::Delivered(101));
    assert_eq!(scheduler.on_sys_enter(parent, pc, &mut cpu).poll, armed(GETUID));

    // the child ends: the parent's registers appear in the new thread
    child_cpu.rax = 101;
    child_cpu.rdi = 0xffff;
    scheduler.on_sys_return(child, &mut child_cpu);
    let entered = scheduler.on_sys_enter(child, pc, &mut child_cpu);
    assert_eq!(
        entered,
        EnterOutcome { poll: PollOutcome::Finished, hooks: HookChange::Removed, reenter: true }
    );
    let mut expected = pristine;
    expected.asid = 8;
    assert_eq!(child_cpu, expected);

    cpu.rax = 1000;
    scheduler.on_sys_return(parent, &mut cpu);
    assert_eq!(scheduler.on_sys_enter(parent, pc, &mut cpu).hooks, HookChange::Removed);
    assert_eq!(cpu, pristine);
    assert!(scheduler.is_idle());

    assert_eq!(
        *log.borrow(),
        vec![
            "parent started",
            "parent forks",
            "child started",
            "child calls 39",
            "parent got 101",
            "parent calls 102",
            "child got 101",
            "child finished",
            "parent got 1000",
            "parent finished",
        ]
    );
}

#[test]
fn handoff_waits_for_the_duplication_call_to_return_zero() {
    let log = new_log();
    let mut scheduler: Scheduler<Script> = Scheduler::new();
    let parent = thread(100, 100);
    let second = thread(200, 200);
    let third = thread(300, 300);
    let pc = SyscallPc::new(0x4000);
    let mut cpu = cpu_at_syscall(7, 0x4000, 60);
    let script = Script::new("parent", vec![Act::Fork(vec![])], &log);
    assert_eq!(scheduler.run_injector(parent, pc, &mut cpu, script).poll, Some(armed(FORK)));

    // a call of another thread returns nonzero: not the child
    let mut other_cpu = cpu_at_syscall(3, 0x9000, 17);
    assert_eq!(scheduler.on_sys_return(third, &mut other_cpu).event, ReturnEvent::Unrelated);
    assert!(!scheduler.hooks_installed(third));

    // a second thread arms a call of its own
    let mut second_cpu = cpu_at_syscall(9, 0x5000, 60);
    let busy = Script::new("second", vec![Act::Call(GETPID, vec![])], &log);
    assert_eq!(
        scheduler.run_injector(second, SyscallPc::new(0x5000), &mut second_cpu, busy).poll,
        Some(armed(GETPID))
    );
    assert_eq!(scheduler.last_injected_syscall(), GETPID);

    // a third thread's own call returns zero: the call armed last is not
    // the duplication call, so the handoff stays where it is
    let mut third_cpu = cpu_at_syscall(3, 0x9000, 0);
    let before = third_cpu;
    assert_eq!(
        scheduler.on_sys_return(third, &mut third_cpu),
        ReturnOutcome {
            event: ReturnEvent::Unrelated,
            hooks: HookChange::Unchanged,
            reenter: false
        }
    );
    assert_eq!(third_cpu, before);
    assert!(!scheduler.hooks_installed(third));
    assert_eq!(scheduler.task_places(), 3);
    assert!(!log.borrow().contains(&"child started".to_string()));

    // the slot is still taken: a further duplication is refused
    assert_eq!(
        scheduler.fork(parent, pc, Script::new("late", vec![], &log)),
        Err(InjectError::ForkPending)
    );
}

#[test]
fn no_snapshot_is_filed_outside_a_running_computation() {
    let log = new_log();
    let mut scheduler: Scheduler<Script> = Scheduler::new();
    let me = thread(1, 1);
    assert_eq!(scheduler.get_backed_up_regs(me), None);
    let mut cpu = cpu_at_syscall(7, 0x4000, 60);
    scheduler.run_injector(
        me,
        SyscallPc::new(0x4000),
        &mut cpu,
        Script::new("runner", vec![Act::Call(GETPID, vec![])], &log),
    );
    assert!(scheduler.get_backed_up_regs(me).is_some());
    assert_eq!(scheduler.get_backed_up_regs(thread(1, 2)), None);
}

#[test]
fn fork_inside_a_running_computation_fills_the_slot() {
    let log = new_log();
    let mut scheduler: Scheduler<Script> = Scheduler::new();
    let me = thread(1, 1);
    let pc = SyscallPc::new(0x4000);
    let mut cpu = cpu_at_syscall(7, 0x4000, 60);
    scheduler.run_injector(me, pc, &mut cpu, Script::new("runner", vec![Act::Call(GETPID, vec![])], &log));
    let issued = scheduler.fork(me, pc, Script::new("child", vec![], &log));
    assert_eq!(issued, Ok(SyscallRequest::new(FORK, &[]).unwrap()));
    // the slot holds one child at a time
    let again = scheduler.fork(me, pc, Script::new("child", vec![], &log));
    assert_eq!(again, Err(InjectError::ForkPending));
}

#[test]
fn second_fork_before_the_first_is_taken_up_aborts_the_computation() {
    let log = new_log();
    let mut scheduler: Scheduler<Script> = Scheduler::new();
    let me = thread(1, 1);
    let pc = SyscallPc::new(0x4000);
    let mut cpu = cpu_at_syscall(7, 0x4000, 60);
    let pristine = cpu;
    let script = Script::new("greedy", vec![Act::Fork(vec![]), Act::Fork(vec![])], &log);
    assert_eq!(scheduler.run_injector(me, pc, &mut cpu, script).poll, Some(armed(FORK)));
    cpu.rax = 500;
    scheduler.on_sys_return(me, &mut cpu);
    let entered = scheduler.on_sys_enter(me, pc, &mut cpu);
    assert_eq!(
        entered,
        EnterOutcome {
            poll: PollOutcome::Fault(InjectError::ForkPending),
            hooks: HookChange::Removed,
            reenter: true
        }
    );
    assert_eq!(cpu, pristine);
    assert_eq!(scheduler.get_backed_up_regs(me), None);
    // the first child still waits for its context
    assert!(!scheduler.is_idle());
}

#[test]
fn library_primitive_performs_one_call() {
    let mut scheduler: Scheduler<Syscall> = Scheduler::new();
    let me = thread(1, 1);
    let pc = SyscallPc::new(0x4000);
    let mut cpu = cpu_at_syscall(7, 0x4000, 60);
    let pristine = cpu;
    let call = syscall(GETPID, &[]).unwrap();
    assert_eq!(scheduler.run_injector(me, pc, &mut cpu, call).poll, Some(armed(GETPID)));
    cpu.rax = 4321;
    scheduler.on_sys_return(me, &mut cpu);
    assert_eq!(scheduler.on_sys_enter(me, pc, &mut cpu).poll, PollOutcome::Finished);
    assert_eq!(cpu, pristine);
}

#[test]
fn task_table_gives_back_the_places_of_finished_computations() {
    let log = new_log();
    let mut scheduler: Scheduler<Script> = Scheduler::new();
    let one = thread(1, 1);
    let two = thread(2, 2);
    let pc = SyscallPc::new(0x4000);
    let mut cpu_one = cpu_at_syscall(7, 0x4000, 60);
    let mut cpu_two = cpu_at_syscall(9, 0x4000, 61);
    assert_eq!(scheduler.task_places(), 0);
    scheduler.run_injector(one, pc, &mut cpu_one, Script::new("one", vec![Act::Call(GETPID, vec![])], &log));
    scheduler.run_injector(two, pc, &mut cpu_two, Script::new("two", vec![Act::Call(GETUID, vec![])], &log));
    assert_eq!(scheduler.task_places(), 2);

    // the first place is emptied, but the second is still taken
    cpu_one.rax = 1;
    scheduler.on_sys_return(one, &mut cpu_one);
    scheduler.on_sys_enter(one, pc, &mut cpu_one);
    assert_eq!(scheduler.task_places(), 2);

    // the last taken place goes, and the empty one before it with it
    cpu_two.rax = 2;
    scheduler.on_sys_return(two, &mut cpu_two);
    scheduler.on_sys_enter(two, pc, &mut cpu_two);
    assert_eq!(scheduler.task_places(), 0);
    assert!(scheduler.is_idle());

    // a computation that ends when it is queued leaves nothing either
    scheduler.run_injector(one, pc, &mut cpu_one, Script::new("idle", vec![], &log));
    assert_eq!(scheduler.task_places(), 0);
}

#[test]
fn deferred_computations_join_the_queue_in_order() {
    let log = new_log();
    let mut scheduler: Scheduler<Script> = Scheduler::new();
    let me = thread(4, 4);
    let pc = SyscallPc::new(0x4000);
    let mut cpu = cpu_at_syscall(7, 0x4000, 60);
    scheduler.run_injector_next_syscall(Script::new("x", vec![], &log));
    scheduler.run_injector_next_syscall(Script::new("y", vec![Act::Call(GETPID, vec![])], &log));
    scheduler.run_injector_next_syscall(Script::new("z", vec![], &log));
    assert_eq!(scheduler.task_places(), 3);
    let entered = scheduler.on_sys_enter(me, pc, &mut cpu);
    assert_eq!(entered.poll, armed(GETPID));
    assert_eq!(entered.hooks, HookChange::Installed);
    cpu.rax = 1;
    scheduler.on_sys_return(me, &mut cpu);
    let entered = scheduler.on_sys_enter(me, pc, &mut cpu);
    assert_eq!(entered.poll, PollOutcome::Finished);
    assert_eq!(
        *log.borrow(),
        vec![
            "x started",
            "x finished",
            "y started",
            "y calls 39",
            "y got 1",
            "y finished",
            "z started",
            "z finished",
        ]
    );
    assert_eq!(scheduler.task_places(), 0);
}
