//! The process-wide registries, kept in concurrent containers.
//!
//! The items of this module are not verified: each states what the
//! scheduler relies on from `dashmap` and `parking_lot`. Every operation
//! that changes a container takes it by exclusive reference, so nothing
//! else can hold a reference or a lock guard into it while the call runs.

use vstd::prelude::*;
use dashmap::DashMap;
use parking_lot::Mutex;
use parking_lot::RawMutex;
use crate::queue::{ChildInjector, QueuedInjector};
use crate::syscall_regs::SyscallRegs;
use crate::thread::ThreadKey;

verus! {

/// `dashmap::DashMap`, a concurrent hash map. Verus sees nothing inside it.
#[verifier::external_type_specification]
#[verifier::external_body]
#[verifier::reject_recursive_types(K)]
#[verifier::reject_recursive_types(V)]
#[verifier::reject_recursive_types(S)]
pub struct ExDashMap<K, V, S>(DashMap<K, V, S>);

/// `parking_lot::RawMutex`, the lock inside a `parking_lot::Mutex`.
#[verifier::external_type_specification]
#[verifier::external_body]
pub struct ExRawMutex(RawMutex);

/// `lock_api::Mutex`, of which `parking_lot::Mutex` is an instance.
#[verifier::external_type_specification]
#[verifier::external_body]
#[verifier::reject_recursive_types(R)]
#[verifier::reject_recursive_types(T)]
pub struct ExMutex<R, T: ?Sized>(parking_lot::lock_api::Mutex<R, T>);

/// The queues that a map of injector queues holds, by thread.
pub uninterp spec fn injector_queues(map: DashMap<ThreadKey, Vec<QueuedInjector>>) -> Map<ThreadKey, Seq<QueuedInjector>>;

/// The register snapshots that a map of backups holds, by thread.
pub uninterp spec fn register_backups(map: DashMap<ThreadKey, SyscallRegs>) -> Map<ThreadKey, SyscallRegs>;

/// What a handoff slot holds.
pub uninterp spec fn slot_content(slot: Mutex<Option<ChildInjector>>) -> Option<ChildInjector>;

/// Whether a registry files nothing under any thread.
pub open spec fn vacant<V>(registry: Map<ThreadKey, V>) -> bool {
    forall|key: ThreadKey| !registry.contains_key(key)
}

/// `DashMap::new`: the map it makes holds no key.
#[verifier::external_body]
pub(crate) fn queues_new() -> (map: DashMap<ThreadKey, Vec<QueuedInjector>>)
    ensures
        vacant(injector_queues(map)),
{
    DashMap::new()
}

/// `DashMap::insert`: afterwards `key` maps to `queue`, and every other key
/// to what it mapped to before.
#[verifier::external_body]
pub(crate) fn queues_insert(
    map: &mut DashMap<ThreadKey, Vec<QueuedInjector>>,
    key: ThreadKey,
    queue: Vec<QueuedInjector>,
)
    ensures
        injector_queues(*final(map)) == injector_queues(*old(map)).insert(key, queue@),
{
    map.insert(key, queue);
}

/// `DashMap::remove`: afterwards the map holds no `key`, and every other
/// key maps to what it mapped to before; the result is the queue that was
/// filed under `key`, if there was one.
#[verifier::external_body]
pub(crate) fn queues_remove(map: &mut DashMap<ThreadKey, Vec<QueuedInjector>>, key: ThreadKey) -> (queue:
    Option<Vec<QueuedInjector>>)
    ensures
        injector_queues(*final(map)) == injector_queues(*old(map)).remove(key),
        queue.is_some() == injector_queues(*old(map)).contains_key(key),
        queue matches Some(filed) ==> filed@ == injector_queues(*old(map))[key],
{
    map.remove(&key).map(|pair| pair.1)
}

/// `DashMap::contains_key`: whether the map holds `key`.
#[verifier::external_body]
pub(crate) fn queues_contains(map: &DashMap<ThreadKey, Vec<QueuedInjector>>, key: ThreadKey) -> (held:
    bool)
    ensures
        held == injector_queues(*map).contains_key(key),
{
    map.contains_key(&key)
}

/// `DashMap::is_empty`: whether the map holds no key at all.
#[verifier::external_body]
pub(crate) fn queues_is_empty(map: &DashMap<ThreadKey, Vec<QueuedInjector>>) -> (empty: bool)
    ensures
        empty == vacant(injector_queues(*map)),
{
    map.is_empty()
}

/// `DashMap::new`: the map it makes holds no key.
#[verifier::external_body]
pub(crate) fn backups_new() -> (map: DashMap<ThreadKey, SyscallRegs>)
    ensures
        vacant(register_backups(map)),
{
    DashMap::new()
}

/// `DashMap::insert`: afterwards `key` maps to `regs`, and every other key
/// to what it mapped to before.
#[verifier::external_body]
pub(crate) fn backups_insert(map: &mut DashMap<ThreadKey, SyscallRegs>, key: ThreadKey, regs: SyscallRegs)
    ensures
        register_backups(*final(map)) == register_backups(*old(map)).insert(key, regs),
{
    map.insert(key, regs);
}

/// `DashMap::remove`: afterwards the map holds no `key`, and every other
/// key maps to what it mapped to before.
#[verifier::external_body]
pub(crate) fn backups_remove(map: &mut DashMap<ThreadKey, SyscallRegs>, key: ThreadKey)
    ensures
        register_backups(*final(map)) == register_backups(*old(map)).remove(key),
{
    map.remove(&key);
}

/// `DashMap::get`: a copy of the snapshot filed under `key`, if there is one.
#[verifier::external_body]
pub(crate) fn backups_get(map: &DashMap<ThreadKey, SyscallRegs>, key: ThreadKey) -> (regs: Option<
    SyscallRegs,
>)
    ensures
        regs == (if register_backups(*map).contains_key(key) {
            Some(register_backups(*map)[key])
        } else {
            None
        }),
{
    map.get(&key).map(|filed| *filed)
}

/// `Mutex::new`: the slot it makes is empty.
#[verifier::external_body]
pub(crate) fn slot_new() -> (slot: Mutex<Option<ChildInjector>>)
    ensures
        slot_content(slot).is_none(),
{
    Mutex::new(None)
}

/// `Mutex::lock`, to read: a copy of what the slot holds.
#[verifier::external_body]
pub(crate) fn slot_peek(slot: &Mutex<Option<ChildInjector>>) -> (content: Option<ChildInjector>)
    ensures
        content == slot_content(*slot),
{
    *slot.lock()
}

/// `Mutex::lock`, to exchange: afterwards the slot holds `content`; the
/// result is what it held before.
#[verifier::external_body]
pub(crate) fn slot_swap(slot: &mut Mutex<Option<ChildInjector>>, content: Option<ChildInjector>) -> (previous:
    Option<ChildInjector>)
    ensures
        slot_content(*final(slot)) == content,
        previous == slot_content(*old(slot)),
{
    std::mem::replace(&mut *slot.lock(), content)
}

} // verus!
