//! Identity of the guest execution context that is running.

use vstd::prelude::*;

verus! {

/// Key under which per-thread state is filed: process id, then thread id.
pub type ThreadKey = (u64, u64);

/// What the guest operating system reports about the thread that is
/// running: its process id and its thread id, as the signed integers the
/// guest kernel uses.
#[derive(Clone, Copy, Debug, PartialEq, Eq, Structural)]
pub struct OsiThread {
    pub pid: i32,
    pub tid: i32,
}

/// Identifies a guest execution context for as long as it is alive.
/// Two identifiers are the same context exactly when both numbers agree.
#[derive(Clone, Copy, Debug, PartialEq, Eq, PartialOrd, Ord, Hash, Structural)]
pub struct ThreadId {
    pub pid: u64,
    pub tid: u64,
}

/// A guest process or thread id widened to a machine word, sign-extended as
/// the guest's own registers would hold it.
pub open spec fn widened(id: i32) -> u64 {
    if id >= 0 {
        id as u64
    } else {
        (id + 0x1_0000_0000_0000_0000) as u64
    }
}

fn widen(id: i32) -> (word: u64)
    ensures
        word == widened(id),
{
    if id >= 0 {
        id as u64
    } else {
        let below: i32 = -(id + 1);
        u64::MAX - (below as u64)
    }
}

impl ThreadId {
    /// The identifier of the context that `thread` describes.
    pub fn current(thread: &OsiThread) -> (id: ThreadId)
        ensures
            id.pid == widened(thread.pid),
            id.tid == widened(thread.tid),
    {
        let tid = widen(thread.tid);
        let pid = widen(thread.pid);
        ThreadId { tid, pid }
    }

    /// The key under which this thread's state is filed.
    pub open spec fn key(self) -> ThreadKey {
        (self.pid, self.tid)
    }

    /// Returns the key under which this thread's state is filed.
    pub fn to_key(&self) -> (key: ThreadKey)
        ensures
            key == self.key(),
    {
        (self.pid, self.tid)
    }
}

/// Distinct threads are filed under distinct keys.
pub proof fn lemma_key_identifies_thread(a: ThreadId, b: ThreadId)
    ensures
        a.key() == b.key() <==> a == b,
{
}

} // verus!
