//! The structured key-event slots of processes.

use crate::rings::{wake_queue_push, WakeEvent, WakeQueue};
use crate::stdin::InputTable;
#[allow(unused_imports)]
use crate::stdin::wakes_after_unregister;
use vstd::prelude::*;

verus! {

broadcast use {vstd::laws_cmp::group_laws_cmp, vstd::std_specs::btree::group_btree_axioms};

/// Gives `pid` a key-event slot unless it has one.
pub fn register(table: &mut InputTable, pid: u16)
    ensures
        final(table).parked@ == (if old(table).parked@.contains_key(pid) {
            old(table).parked@
        } else {
            old(table).parked@.insert(pid, None)
        }),
{
    crate::stdin::register(table, pid);
}

/// Takes the key-event slot of `pid` away and wakes the thread parked on it.
pub fn unregister(table: &mut InputTable, pid: u16, wakes: &mut WakeQueue)
    ensures
        final(table).parked@ == old(table).parked@.remove(pid),
        final(wakes)@ == wakes_after_unregister(old(table).parked@, pid, old(wakes)@),
{
    crate::stdin::unregister(table, pid, wakes);
}

/// The key-event slot of `pid`.
pub fn get(table: &InputTable, pid: u16) -> (r: Option<Option<u32>>)
    ensures
        r == (if table.parked@.contains_key(pid) {
            Some(table.parked@[pid])
        } else {
            None::<Option<u32>>
        }),
{
    crate::stdin::get(table, pid)
}

/// After an event was queued for `pid`: the thread parked on its slot leaves
/// the slot and is woken. Tells whether `pid` has a slot.
pub fn push_and_wake(table: &mut InputTable, pid: u16, wakes: &mut WakeQueue) -> (r: bool)
    ensures
        r == old(table).parked@.contains_key(pid),
        final(table).parked@ == (if r {
            old(table).parked@.insert(pid, None)
        } else {
            old(table).parked@
        }),
        final(wakes)@ == wakes_after_unregister(old(table).parked@, pid, old(wakes)@),
{
    let p: Option<u32> = match table.parked.get(&pid) {
        Some(p) => *p,
        None => {
            return false;
        },
    };
    let _ = table.parked.insert(pid, None);
    match p {
        Some(tid) => {
            let _ = wake_queue_push(wakes, WakeEvent::InputTid(tid));
        },
        None => {},
    }
    true
}

} // verus!
