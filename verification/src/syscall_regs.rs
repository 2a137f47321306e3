//! Snapshot of the registers that a system call reads and writes, taken
//! before injected calls run and written back after the last one.

use vstd::prelude::*;
use crate::regs::{GuestCpu, Reg};

verus! {

/// The registers of the x86-64 system-call convention as they were when the
/// snapshot was taken: the call number and result register, the six
/// argument registers, and the program counter.
#[derive(Clone, Copy, Debug, PartialEq, Eq, Structural)]
pub struct SyscallRegs {
    pub rax: u64,
    pub rdi: u64,
    pub rsi: u64,
    pub rdx: u64,
    pub r10: u64,
    pub r8: u64,
    pub r9: u64,
    pub pc: u64,
}

impl SyscallRegs {
    /// Whether a snapshot records `reg`.
    pub open spec fn saves(reg: Reg) -> bool {
        reg == Reg::RAX || reg == Reg::RDI || reg == Reg::RSI || reg == Reg::RDX || reg == Reg::R10
            || reg == Reg::R8 || reg == Reg::R9
    }

    /// The snapshot of `cpu`.
    pub open spec fn captured(cpu: GuestCpu) -> SyscallRegs {
        SyscallRegs {
            rax: cpu.rax,
            rdi: cpu.rdi,
            rsi: cpu.rsi,
            rdx: cpu.rdx,
            r10: cpu.r10,
            r8: cpu.r8,
            r9: cpu.r9,
            pc: cpu.pc,
        }
    }

    /// `cpu` after this snapshot has been written back into it.
    pub open spec fn restored(self, cpu: GuestCpu) -> GuestCpu {
        GuestCpu {
            rax: self.rax,
            rdi: self.rdi,
            rsi: self.rsi,
            rdx: self.rdx,
            r10: self.r10,
            r8: self.r8,
            r9: self.r9,
            pc: self.pc,
            ..cpu
        }
    }

    /// Captures the registers of `cpu`.
    pub fn backup(cpu: &GuestCpu) -> (regs: SyscallRegs)
        ensures
            regs == SyscallRegs::captured(*cpu),
    {
        SyscallRegs {
            rax: cpu.rax,
            rdi: cpu.rdi,
            rsi: cpu.rsi,
            rdx: cpu.rdx,
            r10: cpu.r10,
            r8: cpu.r8,
            r9: cpu.r9,
            pc: cpu.pc,
        }
    }

    /// Writes the snapshot back into `cpu`. Registers that the snapshot does
    /// not record, and the address space, keep their values.
    pub fn restore(&self, cpu: &mut GuestCpu)
        ensures
            *final(cpu) == self.restored(*old(cpu)),
    {
        cpu.rax = self.rax;
        cpu.rdi = self.rdi;
        cpu.rsi = self.rsi;
        cpu.rdx = self.rdx;
        cpu.r10 = self.r10;
        cpu.r8 = self.r8;
        cpu.r9 = self.r9;
        cpu.pc = self.pc;
    }
}

/// Restoring a snapshot reproduces, in every register it records and in the
/// program counter, the state it was taken from, whatever happened to the
/// CPU in between; every other register keeps what it held at the restore.
pub proof fn lemma_restore_after_backup(before: GuestCpu, clobbered: GuestCpu, reg: Reg)
    ensures
        SyscallRegs::saves(reg) ==> SyscallRegs::captured(before).restored(clobbered).reg(reg)
            == before.reg(reg),
        !SyscallRegs::saves(reg) ==> SyscallRegs::captured(before).restored(clobbered).reg(reg)
            == clobbered.reg(reg),
        SyscallRegs::captured(before).restored(clobbered).pc == before.pc,
        SyscallRegs::captured(before).restored(clobbered).asid == clobbered.asid,
{
}

/// Restoring a snapshot into the CPU it was taken from changes nothing.
pub proof fn lemma_restore_is_identity_on_source(cpu: GuestCpu)
    ensures
        SyscallRegs::captured(cpu).restored(cpu) == cpu,
{
}

} // verus!
