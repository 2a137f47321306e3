use syscall_injection::injector::{
    syscall, CallState, Injector, Step, Syscall, SyscallRequest, FORK, FORK_CHILD_RESULT,
    MAX_SYSCALL_ARGS,
};
use syscall_injection::outcome::{HookChange, InjectError, PollOutcome, SyscallPc};
use syscall_injection::queue::Phase;
use syscall_injection::regs::{
    current_asid, get_reg, reg_ret_addr, reg_ret_val, reg_sp, set_reg, GuestCpu, Reg, REG_COUNT,
};
use syscall_injection::syscall_regs::SyscallRegs;
use syscall_injection::thread::{OsiThread, ThreadId};

const ALL: [Reg; 16] = [
    Reg::RAX,
    Reg::RCX,
    Reg::RDX,
    Reg::RBX,
    Reg::RSP,
    Reg::RBP,
    Reg::RSI,
    Reg::RDI,
    Reg::R8,
    Reg::R9,
    Reg::R10,
    Reg::R11,
    Reg::R12,
    Reg::R13,
    Reg::R14,
    Reg::R15,
];

#[test]
fn registers_are_numbered_in_encoding_order() {
    for (slot, reg) in ALL.iter().enumerate() {
        assert_eq!(reg.index(), slot);
        assert_eq!(Reg::from_index(slot), Some(*reg));
    }
    assert_eq!(REG_COUNT, 16);
    assert_eq!(Reg::from_index(16), None);
    assert_eq!(Reg::from_index(usize::MAX), None);
}

#[test]
fn convention_registers() {
    assert_eq!(reg_sp(), Reg::RSP);
    assert_eq!(reg_ret_val(), Reg::RAX);
    assert_eq!(reg_ret_addr(), None);
}

#[test]
fn set_reg_changes_one_register() {
    for written in ALL.iter() {
        let mut cpu = GuestCpu::new(3);
        cpu.pc = 0x1000;
        set_reg(&mut cpu, *written, 0xabcd);
        for read in ALL.iter() {
            let expected = if read == written { 0xabcd } else { 0 };
            assert_eq!(get_reg(&cpu, *read), expected);
        }
        assert_eq!(cpu.pc, 0x1000);
        assert_eq!(cpu.asid, 3);
    }
}

#[test]
fn get_reg_reads_the_named_field() {
    let mut cpu = GuestCpu::new(0);
    cpu.rsp = 0x7fff_0000;
    cpu.r15 = 15;
    assert_eq!(get_reg(&cpu, Reg::RSP), 0x7fff_0000);
    assert_eq!(get_reg(&cpu, Reg::R15), 15);
    assert_eq!(get_reg(&cpu, reg_sp()), cpu.rsp);
}

#[test]
fn set_pc_moves_only_the_program_counter() {
    let mut cpu = GuestCpu::new(4);
    cpu.rax = 9;
    cpu.set_pc(0x4000);
    let mut expected = GuestCpu::new(4);
    expected.rax = 9;
    expected.pc = 0x4000;
    assert_eq!(cpu, expected);
}

#[test]
fn thread_ids_are_sign_extended() {
    let id = ThreadId::current(&OsiThread { pid: 1234, tid: 1235 });
    assert_eq!(id, ThreadId { pid: 1234, tid: 1235 });
    assert_eq!(id.to_key(), (1234, 1235));
    let kernel = ThreadId::current(&OsiThread { pid: -1, tid: i32::MIN });
    assert_eq!(kernel.pid, u64::MAX);
    assert_eq!(kernel.tid, 0xffff_ffff_8000_0000);
    let zero = ThreadId::current(&OsiThread { pid: 0, tid: i32::MAX });
    assert_eq!(zero, ThreadId { pid: 0, tid: 0x7fff_ffff });
}

#[test]
fn request_pads_missing_arguments_with_zero() {
    assert_eq!(
        SyscallRequest::new(1, &[10, 20, 30]),
        Some(SyscallRequest { number: 1, arg0: 10, arg1: 20, arg2: 30, arg3: 0, arg4: 0, arg5: 0 })
    );
    assert_eq!(
        SyscallRequest::new(9, &[1, 2, 3, 4, 5, 6]),
        Some(SyscallRequest { number: 9, arg0: 1, arg1: 2, arg2: 3, arg3: 4, arg4: 5, arg5: 6 })
    );
    assert_eq!(
        SyscallRequest::new(FORK, &[]),
        Some(SyscallRequest { number: 57, arg0: 0, arg1: 0, arg2: 0, arg3: 0, arg4: 0, arg5: 0 })
    );
}

#[test]
fn request_refuses_a_seventh_argument() {
    assert_eq!(MAX_SYSCALL_ARGS, 6);
    assert_eq!(SyscallRequest::new(9, &[1, 2, 3, 4, 5, 6, 7]), None);
    assert!(syscall(9, &[0; 7]).is_none());
}

#[test]
fn arm_loads_number_and_arguments() {
    let mut cpu = GuestCpu::new(2);
    cpu.rbx = 1;
    cpu.rcx = 2;
    cpu.pc = 0x4000;
    let request = SyscallRequest::new(9, &[1, 2, 3, 4, 5, 6]).unwrap();
    request.arm(&mut cpu);
    assert_eq!(
        (cpu.rax, cpu.rdi, cpu.rsi, cpu.rdx, cpu.r10, cpu.r8, cpu.r9),
        (9, 1, 2, 3, 4, 5, 6)
    );
    assert_eq!((cpu.rbx, cpu.rcx, cpu.pc, cpu.asid), (1, 2, 0x4000, 2));
}

#[test]
fn snapshot_round_trip() {
    let mut cpu = GuestCpu::new(2);
    cpu.rax = 60;
    cpu.rdi = 1;
    cpu.rsi = 2;
    cpu.rdx = 3;
    cpu.r10 = 4;
    cpu.r8 = 5;
    cpu.r9 = 6;
    cpu.rbp = 7;
    cpu.pc = 0x4000;
    let regs = SyscallRegs::backup(&cpu);
    assert_eq!(
        regs,
        SyscallRegs { rax: 60, rdi: 1, rsi: 2, rdx: 3, r10: 4, r8: 5, r9: 6, pc: 0x4000 }
    );
    let mut clobbered = GuestCpu::new(5);
    clobbered.rbp = 99;
    regs.restore(&mut clobbered);
    let mut expected = cpu;
    expected.rbp = 99;
    expected.asid = 5;
    assert_eq!(clobbered, expected);
    let mut same = cpu;
    regs.restore(&mut same);
    assert_eq!(same, cpu);
}

#[test]
fn single_call_steps() {
    let mut call = syscall(39, &[]).unwrap();
    assert_eq!(call.state, CallState::Ready);
    assert_eq!(call.result(), None);
    let request = call.request;
    assert!(matches!(call.advance(None), Step::Syscall(asked) if asked == request));
    assert_eq!(call.state, CallState::Issued);
    // without a result it keeps asking
    assert!(matches!(call.advance(None), Step::Syscall(asked) if asked == request));
    assert_eq!(call.result(), None);
    assert!(matches!(call.advance(Some(77)), Step::Finished));
    assert_eq!(call.result(), Some(77));
    assert!(matches!(call.advance(Some(78)), Step::Finished));
    assert_eq!(call, Syscall { request, state: CallState::Returned(77) });
}

#[test]
fn hook_changes() {
    assert_eq!(HookChange::of(false, false), HookChange::Unchanged);
    assert_eq!(HookChange::of(true, true), HookChange::Unchanged);
    assert_eq!(HookChange::of(false, true), HookChange::Installed);
    assert_eq!(HookChange::of(true, false), HookChange::Removed);
}

#[test]
fn only_finished_is_finished() {
    assert!(PollOutcome::Finished.is_finished());
    assert!(!PollOutcome::WrongAddressSpace.is_finished());
    assert!(!PollOutcome::AwaitingResult.is_finished());
    assert!(!PollOutcome::Armed(SyscallRequest::new(1, &[]).unwrap()).is_finished());
    assert!(!PollOutcome::Fault(InjectError::ForkPending).is_finished());
    assert!(!PollOutcome::Fault(InjectError::ForkOutsideInjector).is_finished());
    assert!(!PollOutcome::Fault(InjectError::AlreadyFinished).is_finished());
}

#[test]
fn phases_deliver_only_reported_results() {
    assert_eq!(Phase::NotStarted.get_delivery(), None);
    assert_eq!(Phase::Awaiting.get_delivery(), None);
    assert_eq!(Phase::Delivered(0).get_delivery(), Some(0));
    assert_eq!(Phase::Delivered(FORK_CHILD_RESULT + 9).get_delivery(), Some(9));
}

#[test]
fn syscall_pc_keeps_its_address() {
    assert_eq!(SyscallPc::new(0x4000).pc(), 0x4000);
    assert_eq!(SyscallPc::new(0x4000), SyscallPc { pc: 0x4000 });
}

#[test]
fn current_asid_reads_the_live_address_space() {
    assert_eq!(current_asid(&GuestCpu::new(0x1234_5000)), 0x1234_5000);
    let mut cpu = GuestCpu::new(1);
    cpu.rax = 99;
    assert_eq!(current_asid(&cpu), 1);
}

#[test]
fn fork_call_is_the_duplication_request() {
    assert_eq!(Some(SyscallRequest::fork_call()), SyscallRequest::new(FORK, &[]));
    assert_eq!(SyscallRequest::fork_call().number, 57);
}
