//! The guest's general-purpose registers and the register conventions of
//! the x86-64 system-call interface.

use vstd::prelude::*;

verus! {

/// A general-purpose register of an x86-64 guest, in hardware encoding order.
#[derive(Clone, Copy, Debug, PartialEq, Eq, Structural)]
pub enum Reg {
    RAX,
    RCX,
    RDX,
    RBX,
    RSP,
    RBP,
    RSI,
    RDI,
    R8,
    R9,
    R10,
    R11,
    R12,
    R13,
    R14,
    R15,
}

/// Number of general-purpose registers.
pub const REG_COUNT: usize = 16;

impl Reg {
    /// The register's slot in the hardware register file.
    pub open spec fn slot(self) -> int {
        match self {
            Reg::RAX => 0,
            Reg::RCX => 1,
            Reg::RDX => 2,
            Reg::RBX => 3,
            Reg::RSP => 4,
            Reg::RBP => 5,
            Reg::RSI => 6,
            Reg::RDI => 7,
            Reg::R8 => 8,
            Reg::R9 => 9,
            Reg::R10 => 10,
            Reg::R11 => 11,
            Reg::R12 => 12,
            Reg::R13 => 13,
            Reg::R14 => 14,
            Reg::R15 => 15,
        }
    }

    /// The register that occupies a slot, if the slot exists.
    pub open spec fn at_slot(slot: int) -> Option<Reg> {
        if slot == 0 {
            Some(Reg::RAX)
        } else if slot == 1 {
            Some(Reg::RCX)
        } else if slot == 2 {
            Some(Reg::RDX)
        } else if slot == 3 {
            Some(Reg::RBX)
        } else if slot == 4 {
            Some(Reg::RSP)
        } else if slot == 5 {
            Some(Reg::RBP)
        } else if slot == 6 {
            Some(Reg::RSI)
        } else if slot == 7 {
            Some(Reg::RDI)
        } else if slot == 8 {
            Some(Reg::R8)
        } else if slot == 9 {
            Some(Reg::R9)
        } else if slot == 10 {
            Some(Reg::R10)
        } else if slot == 11 {
            Some(Reg::R11)
        } else if slot == 12 {
            Some(Reg::R12)
        } else if slot == 13 {
            Some(Reg::R13)
        } else if slot == 14 {
            Some(Reg::R14)
        } else if slot == 15 {
            Some(Reg::R15)
        } else {
            None
        }
    }

    /// Returns the register's slot in the hardware register file.
    pub fn index(self) -> (i: usize)
        ensures
            i == self.slot(),
            i < REG_COUNT,
    {
        match self {
            Reg::RAX => 0,
            Reg::RCX => 1,
            Reg::RDX => 2,
            Reg::RBX => 3,
            Reg::RSP => 4,
            Reg::RBP => 5,
            Reg::RSI => 6,
            Reg::RDI => 7,
            Reg::R8 => 8,
            Reg::R9 => 9,
            Reg::R10 => 10,
            Reg::R11 => 11,
            Reg::R12 => 12,
            Reg::R13 => 13,
            Reg::R14 => 14,
            Reg::R15 => 15,
        }
    }

    /// Returns the register in slot `i`, or `None` when `i` is not a slot.
    pub fn from_index(i: usize) -> (reg: Option<Reg>)
        ensures
            reg == Reg::at_slot(i as int),
            reg.is_some() <==> i < REG_COUNT,
            reg matches Some(r) ==> r.slot() == i,
    {
        match i {
            0 => Some(Reg::RAX),
            1 => Some(Reg::RCX),
            2 => Some(Reg::RDX),
            3 => Some(Reg::RBX),
            4 => Some(Reg::RSP),
            5 => Some(Reg::RBP),
            6 => Some(Reg::RSI),
            7 => Some(Reg::RDI),
            8 => Some(Reg::R8),
            9 => Some(Reg::R9),
            10 => Some(Reg::R10),
            11 => Some(Reg::R11),
            12 => Some(Reg::R12),
            13 => Some(Reg::R13),
            14 => Some(Reg::R14),
            15 => Some(Reg::R15),
            _ => None,
        }
    }
}

/// The part of a guest CPU that the scheduler reads and writes: the
/// general-purpose registers, the program counter, and the identifier of the
/// address space that is live.
#[derive(Clone, Copy, Debug, PartialEq, Eq, Structural)]
pub struct GuestCpu {
    pub rax: u64,
    pub rcx: u64,
    pub rdx: u64,
    pub rbx: u64,
    pub rsp: u64,
    pub rbp: u64,
    pub rsi: u64,
    pub rdi: u64,
    pub r8: u64,
    pub r9: u64,
    pub r10: u64,
    pub r11: u64,
    pub r12: u64,
    pub r13: u64,
    pub r14: u64,
    pub r15: u64,
    pub pc: u64,
    pub asid: u64,
}

impl GuestCpu {
    /// The value held by `reg`.
    pub open spec fn reg(self, reg: Reg) -> u64 {
        match reg {
            Reg::RAX => self.rax,
            Reg::RCX => self.rcx,
            Reg::RDX => self.rdx,
            Reg::RBX => self.rbx,
            Reg::RSP => self.rsp,
            Reg::RBP => self.rbp,
            Reg::RSI => self.rsi,
            Reg::RDI => self.rdi,
            Reg::R8 => self.r8,
            Reg::R9 => self.r9,
            Reg::R10 => self.r10,
            Reg::R11 => self.r11,
            Reg::R12 => self.r12,
            Reg::R13 => self.r13,
            Reg::R14 => self.r14,
            Reg::R15 => self.r15,
        }
    }

    /// This CPU with `val` in `reg` and everything else as it was.
    pub open spec fn with_reg(self, reg: Reg, val: u64) -> GuestCpu {
        match reg {
            Reg::RAX => GuestCpu { rax: val, ..self },
            Reg::RCX => GuestCpu { rcx: val, ..self },
            Reg::RDX => GuestCpu { rdx: val, ..self },
            Reg::RBX => GuestCpu { rbx: val, ..self },
            Reg::RSP => GuestCpu { rsp: val, ..self },
            Reg::RBP => GuestCpu { rbp: val, ..self },
            Reg::RSI => GuestCpu { rsi: val, ..self },
            Reg::RDI => GuestCpu { rdi: val, ..self },
            Reg::R8 => GuestCpu { r8: val, ..self },
            Reg::R9 => GuestCpu { r9: val, ..self },
            Reg::R10 => GuestCpu { r10: val, ..self },
            Reg::R11 => GuestCpu { r11: val, ..self },
            Reg::R12 => GuestCpu { r12: val, ..self },
            Reg::R13 => GuestCpu { r13: val, ..self },
            Reg::R14 => GuestCpu { r14: val, ..self },
            Reg::R15 => GuestCpu { r15: val, ..self },
        }
    }

    /// This CPU with the program counter at `pc`.
    pub open spec fn with_pc(self, pc: u64) -> GuestCpu {
        GuestCpu { pc, ..self }
    }

    /// A CPU with every register and the program counter at zero, running in
    /// address space `asid`.
    pub fn new(asid: u64) -> (cpu: GuestCpu)
        ensures
            cpu.asid == asid,
            cpu.pc == 0,
            forall|r: Reg| cpu.reg(r) == 0,
    {
        GuestCpu {
            rax: 0,
            rcx: 0,
            rdx: 0,
            rbx: 0,
            rsp: 0,
            rbp: 0,
            rsi: 0,
            rdi: 0,
            r8: 0,
            r9: 0,
            r10: 0,
            r11: 0,
            r12: 0,
            r13: 0,
            r14: 0,
            r15: 0,
            pc: 0,
            asid,
        }
    }

    /// Moves the program counter to `pc`.
    pub fn set_pc(&mut self, pc: u64)
        ensures
            *final(self) == old(self).with_pc(pc),
    {
        self.pc = pc;
    }
}

/// The identifier of the address space that is live on `cpu`.
pub fn current_asid(cpu: &GuestCpu) -> (asid: u64)
    ensures
        asid == cpu.asid,
{
    cpu.asid
}

/// The stack-pointer register.
pub fn reg_sp() -> (reg: Reg)
    ensures
        reg == Reg::RSP,
{
    Reg::RSP
}

/// The register in which a system call returns its value.
pub fn reg_ret_val() -> (reg: Reg)
    ensures
        reg == Reg::RAX,
{
    Reg::RAX
}

/// The register that holds a return address; x86-64 keeps return addresses
/// on the stack, so there is none.
pub fn reg_ret_addr() -> (reg: Option<Reg>)
    ensures
        reg.is_none(),
{
    None
}

/// Reads the current value of a register.
pub fn get_reg(cpu: &GuestCpu, reg: Reg) -> (val: u64)
    ensures
        val == cpu.reg(reg),
{
    match reg {
        Reg::RAX => cpu.rax,
        Reg::RCX => cpu.rcx,
        Reg::RDX => cpu.rdx,
        Reg::RBX => cpu.rbx,
        Reg::RSP => cpu.rsp,
        Reg::RBP => cpu.rbp,
        Reg::RSI => cpu.rsi,
        Reg::RDI => cpu.rdi,
        Reg::R8 => cpu.r8,
        Reg::R9 => cpu.r9,
        Reg::R10 => cpu.r10,
        Reg::R11 => cpu.r11,
        Reg::R12 => cpu.r12,
        Reg::R13 => cpu.r13,
        Reg::R14 => cpu.r14,
        Reg::R15 => cpu.r15,
    }
}

/// Sets the value of a register; every other register, the program counter
/// and the address space are left as they were.
pub fn set_reg(cpu: &mut GuestCpu, reg: Reg, val: u64)
    ensures
        *final(cpu) == old(cpu).with_reg(reg, val),
{
    match reg {
        Reg::RAX => { cpu.rax = val; },
        Reg::RCX => { cpu.rcx = val; },
        Reg::RDX => { cpu.rdx = val; },
        Reg::RBX => { cpu.rbx = val; },
        Reg::RSP => { cpu.rsp = val; },
        Reg::RBP => { cpu.rbp = val; },
        Reg::RSI => { cpu.rsi = val; },
        Reg::RDI => { cpu.rdi = val; },
        Reg::R8 => { cpu.r8 = val; },
        Reg::R9 => { cpu.r9 = val; },
        Reg::R10 => { cpu.r10 = val; },
        Reg::R11 => { cpu.r11 = val; },
        Reg::R12 => { cpu.r12 = val; },
        Reg::R13 => { cpu.r13 = val; },
        Reg::R14 => { cpu.r14 = val; },
        Reg::R15 => { cpu.r15 = val; },
    }
}

/// A register read after a write sees the value written when it is the
/// register written, and its earlier value otherwise.
pub proof fn lemma_reg_read_after_write(cpu: GuestCpu, written: Reg, val: u64, read: Reg)
    ensures
        cpu.with_reg(written, val).reg(read) == (if read == written {
            val
        } else {
            cpu.reg(read)
        }),
        cpu.with_reg(written, val).pc == cpu.pc,
        cpu.with_reg(written, val).asid == cpu.asid,
{
}

} // verus!
