//! Cooperative injection of guest system calls.
//!
//! Analysis code writes a computation as a sequence of guest system calls.
//! The execution engine can only resume guest code, so every call suspends
//! the computation and hands control back to the engine; the scheduler in
//! this crate resumes it when the engine reports the call's result. All
//! progress is made from two synchronous hooks, one before and one after a
//! system-call instruction.
//!
//! - `regs`, `thread`, `syscall_regs`: the guest's registers, the identity
//!   of its threads, and the register snapshot taken around injected calls.
//! - `injector`: what a computation is, and the one-call primitive.
//! - `queue`, `outcome`: the entries the scheduler files and the reports
//!   it gives.
//! - `model`: the scheduler as a state machine over mathematical values.
//! - `registry`: the concurrent containers that hold the scheduler's
//!   registries; the one module whose items are believed, not proved.
//! - `scheduler`: the executable scheduler, proved to follow the model.
//! - `laws`, `head`, `trace`, `ownership`, `history`: what is proved of
//!   the model, from the invariant of a single state to the whole life of
//!   a computation and to every state a scheduler can reach.

pub mod regs;
pub mod thread;
pub mod syscall_regs;
pub mod injector;
pub mod queue;
pub mod outcome;
pub mod model;
pub mod registry;
pub mod scheduler;
pub mod laws;
pub mod trace;
pub mod ownership;
pub mod history;
pub mod head;
