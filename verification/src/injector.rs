//! Resumable computations and the system calls they ask for.

use vstd::prelude::*;
use crate::regs::GuestCpu;

verus! {

/// Number of the guest's process-duplication call.
pub const FORK: u64 = 57;

/// What the duplication call returns in the context it has just created.
pub const FORK_CHILD_RESULT: u64 = 0;

/// Most arguments a system call can take.
pub const MAX_SYSCALL_ARGS: usize = 6;

/// A system call waiting to be issued: its number and its six argument
/// words, in the order of the calling convention. Arguments the call does
/// not take are zero.
#[derive(Clone, Copy, Debug, PartialEq, Eq, Structural)]
pub struct SyscallRequest {
    pub number: u64,
    pub arg0: u64,
    pub arg1: u64,
    pub arg2: u64,
    pub arg3: u64,
    pub arg4: u64,
    pub arg5: u64,
}

/// The word at position `i` of `args`, or zero past its end.
pub open spec fn arg_or_zero(args: Seq<u64>, i: int) -> u64 {
    if 0 <= i < args.len() {
        args[i]
    } else {
        0
    }
}

fn word_at(args: &[u64], i: usize) -> (word: u64)
    ensures
        word == arg_or_zero(args@, i as int),
{
    if i < args.len() {
        args[i]
    } else {
        0
    }
}

impl SyscallRequest {
    /// The request for call `number` with the argument words `args`.
    pub open spec fn of(number: u64, args: Seq<u64>) -> SyscallRequest {
        SyscallRequest {
            number,
            arg0: arg_or_zero(args, 0),
            arg1: arg_or_zero(args, 1),
            arg2: arg_or_zero(args, 2),
            arg3: arg_or_zero(args, 3),
            arg4: arg_or_zero(args, 4),
            arg5: arg_or_zero(args, 5),
        }
    }

    /// Builds the request for call `number` with the given argument words.
    /// A call takes at most six arguments; more are refused.
    pub fn new(number: u64, args: &[u64]) -> (request: Option<SyscallRequest>)
        ensures
            request == (if args@.len() <= MAX_SYSCALL_ARGS {
                Some(SyscallRequest::of(number, args@))
            } else {
                None
            }),
    {
        if args.len() > MAX_SYSCALL_ARGS {
            return None;
        }
        Some(
            SyscallRequest {
                number,
                arg0: word_at(args, 0),
                arg1: word_at(args, 1),
                arg2: word_at(args, 2),
                arg3: word_at(args, 3),
                arg4: word_at(args, 4),
                arg5: word_at(args, 5),
            },
        )
    }

    /// The request for the duplication call, which takes no arguments.
    pub open spec fn duplication() -> SyscallRequest {
        SyscallRequest::of(FORK, Seq::empty())
    }

    /// Builds the request for the duplication call.
    pub fn fork_call() -> (request: SyscallRequest)
        ensures
            request == SyscallRequest::duplication(),
    {
        SyscallRequest { number: FORK, arg0: 0, arg1: 0, arg2: 0, arg3: 0, arg4: 0, arg5: 0 }
    }

    /// `cpu` set up to issue this call: the number in `rax`, the arguments
    /// in `rdi`, `rsi`, `rdx`, `r10`, `r8` and `r9`.
    pub open spec fn armed(self, cpu: GuestCpu) -> GuestCpu {
        GuestCpu {
            rax: self.number,
            rdi: self.arg0,
            rsi: self.arg1,
            rdx: self.arg2,
            r10: self.arg3,
            r8: self.arg4,
            r9: self.arg5,
            ..cpu
        }
    }

    /// Loads the call's number and arguments into the guest's registers, so
    /// that the system-call instruction issues this call when it next runs.
    pub fn arm(&self, cpu: &mut GuestCpu)
        ensures
            *final(cpu) == self.armed(*old(cpu)),
    {
        cpu.rax = self.number;
        cpu.rdi = self.arg0;
        cpu.rsi = self.arg1;
        cpu.rdx = self.arg2;
        cpu.r10 = self.arg3;
        cpu.r8 = self.arg4;
        cpu.r9 = self.arg5;
    }
}

/// What a computation needs after one step.
pub enum Step<C> {
    /// The computation is suspended until the guest has performed this call.
    Syscall(SyscallRequest),
    /// The computation is suspended until the guest has duplicated itself;
    /// the carried computation is to run in the new context.
    Fork(C),
    /// The computation has run to its end.
    Finished,
}

/// A resumable computation: a unit of analysis logic that runs on the
/// host and suspends whenever it needs the guest to perform a system call.
///
/// `next` is the computation seen as a state machine, and `advance` must
/// follow it. An implementation written outside verified code is trusted
/// to do so.
pub trait Injector: Sized {
    /// The computation after one step, and what that step asks for.
    /// `delivered` is `None` on the first step and the result of the call
    /// asked for last on every later one.
    spec fn next(self, delivered: Option<u64>) -> (Self, Step<Self>);

    /// Runs the computation up to its next suspension or to its end.
    fn advance(&mut self, delivered: Option<u64>) -> (step: Step<Self>)
        ensures
            (*final(self), step) == old(self).next(delivered),
    ;
}

/// Progress of a single system call.
#[derive(Clone, Copy, Debug, PartialEq, Eq, Structural)]
pub enum CallState {
    /// The call has not been asked for yet.
    Ready,
    /// The call has been asked for and its result is awaited.
    Issued,
    /// The call returned the carried value.
    Returned(u64),
}

/// The suspension primitive: a computation that performs one system call
/// and keeps the value it returned.
#[derive(Clone, Copy, Debug, PartialEq, Eq, Structural)]
pub struct Syscall {
    pub request: SyscallRequest,
    pub state: CallState,
}

impl Syscall {
    /// The value the call returned, once it has.
    pub open spec fn returned(self) -> Option<u64> {
        match self.state {
            CallState::Returned(value) => Some(value),
            _ => None,
        }
    }

    /// Returns the value the call returned, or `None` while it has not.
    pub fn result(&self) -> (value: Option<u64>)
        ensures
            value == self.returned(),
    {
        match self.state {
            CallState::Returned(value) => Some(value),
            _ => None,
        }
    }
}

impl Injector for Syscall {
    /// The first step asks for the call. The step that delivers a result
    /// stores it and ends the computation. Until a result is delivered the
    /// call stays asked for; once it has returned nothing changes any more.
    open spec fn next(self, delivered: Option<u64>) -> (Self, Step<Self>) {
        match self.state {
            CallState::Ready => (
                Syscall { request: self.request, state: CallState::Issued },
                Step::Syscall(self.request),
            ),
            CallState::Issued => match delivered {
                Some(value) => (
                    Syscall { request: self.request, state: CallState::Returned(value) },
                    Step::Finished,
                ),
                None => (self, Step::Syscall(self.request)),
            },
            CallState::Returned(_) => (self, Step::Finished),
        }
    }

    fn advance(&mut self, delivered: Option<u64>) -> (step: Step<Self>) {
        match self.state {
            CallState::Ready => {
                self.state = CallState::Issued;
                Step::Syscall(self.request)
            },
            CallState::Issued => match delivered {
                Some(value) => {
                    self.state = CallState::Returned(value);
                    Step::Finished
                },
                None => Step::Syscall(self.request),
            },
            CallState::Returned(_) => Step::Finished,
        }
    }
}

/// A computation that performs system call `number` with the argument words
/// `args`, or `None` when more than six arguments are given.
pub fn syscall(number: u64, args: &[u64]) -> (call: Option<Syscall>)
    ensures
        call == (if args@.len() <= MAX_SYSCALL_ARGS {
            Some(Syscall { request: SyscallRequest::of(number, args@), state: CallState::Ready })
        } else {
            None
        }),
{
    match SyscallRequest::new(number, args) {
        Some(request) => Some(Syscall { request, state: CallState::Ready }),
        None => None,
    }
}

} // verus!
