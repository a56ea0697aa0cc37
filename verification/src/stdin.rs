//! Which process has the keyboard, and who is parked on its input.

use crate::rings::{wake_queue_push, WakeEvent, WakeQueue};
#[allow(unused_imports)]
use crate::rings::WakeView;
use std::collections::BTreeMap;
use vstd::prelude::*;

verus! {

broadcast use {vstd::laws_cmp::group_laws_cmp, vstd::std_specs::btree::group_btree_axioms};

/// The input slots of processes. A slot names the thread parked on it, if any.
pub struct InputTable {
    pub parked: BTreeMap<u16, Option<u32>>,
}

/// Where console output and keys go.
#[derive(Clone, Copy, Debug, PartialEq, Eq, Structural)]
pub enum Source {
    Kernel,
    Process(u16),
}

/// The process with the keyboard; negative when the kernel has it.
pub struct ActivePid {
    pub value: i32,
}

/// Value that stands for the kernel.
pub const NO_ACTIVE: i32 = -1;

/// The value that stands for a source.
pub open spec fn active_value(source: Source) -> i32 {
    match source {
        Source::Kernel => -1i32,
        Source::Process(pid) => pid as i32,
    }
}

/// The process that a value stands for, if any.
pub open spec fn active_of(value: i32) -> Option<u16> {
    if value < 0 {
        None
    } else {
        Some(value as u16)
    }
}

/// Gives the keyboard to a source.
pub fn set_active(active: &mut ActivePid, source: Source)
    ensures
        final(active).value == active_value(source),
{
    active.value = match source {
        Source::Kernel => NO_ACTIVE,
        Source::Process(pid) => pid as i32,
    };
}

/// The process with the keyboard, if any.
pub fn active_pid(active: &ActivePid) -> (r: Option<u16>)
    ensures
        r == active_of(active.value),
{
    if active.value < 0 {
        None
    } else {
        Some(active.value as u16)
    }
}

/// What `set_active` stores is what `active_pid` reads back.
pub proof fn law_active_round_trip(source: Source)
    ensures
        active_of(active_value(source)) == (match source {
            Source::Kernel => None::<u16>,
            Source::Process(pid) => Some(pid),
        }),
{
}

impl InputTable {
    pub fn new() -> (r: Self)
        ensures
            r.parked@ == Map::<u16, Option<u32>>::empty(),
    {
        InputTable { parked: BTreeMap::new() }
    }
}

/// Gives `pid` an input slot unless it has one.
pub fn register(table: &mut InputTable, pid: u16)
    ensures
        final(table).parked@ == (if old(table).parked@.contains_key(pid) {
            old(table).parked@
        } else {
            old(table).parked@.insert(pid, None)
        }),
{
    if !table.parked.contains_key(&pid) {
        let _ = table.parked.insert(pid, None);
    }
}

/// The wake queue after the slot of `pid` went away: a thread parked on it is
/// woken.
pub open spec fn wakes_after_unregister(
    parked: Map<u16, Option<u32>>,
    pid: u16,
    wakes: WakeView,
) -> WakeView {
    if parked.contains_key(pid) {
        match parked[pid] {
            Some(tid) => wakes.pushed(WakeEvent::InputTid(tid)),
            None => wakes,
        }
    } else {
        wakes
    }
}

/// Takes the input slot of `pid` away and wakes the thread parked on it.
pub fn unregister(table: &mut InputTable, pid: u16, wakes: &mut WakeQueue)
    ensures
        final(table).parked@ == old(table).parked@.remove(pid),
        final(wakes)@ == wakes_after_unregister(old(table).parked@, pid, old(wakes)@),
{
    match table.parked.remove(&pid) {
        Some(Some(tid)) => {
            let _ = wake_queue_push(wakes, WakeEvent::InputTid(tid));
        },
        _ => {},
    }
}

/// The input slot of `pid`.
pub fn get(table: &InputTable, pid: u16) -> (r: Option<Option<u32>>)
    ensures
        r == (if table.parked@.contains_key(pid) {
            Some(table.parked@[pid])
        } else {
            None::<Option<u32>>
        }),
{
    match table.parked.get(&pid) {
        Some(p) => Some(*p),
        None => None,
    }
}

/// Parks `tid` on the input slot of `pid`; `false` if there is no such slot.
pub fn park(table: &mut InputTable, pid: u16, tid: u32) -> (r: bool)
    ensures
        r == old(table).parked@.contains_key(pid),
        final(table).parked@ == (if r {
            old(table).parked@.insert(pid, Some(tid))
        } else {
            old(table).parked@
        }),
{
    if !table.parked.contains_key(&pid) {
        return false;
    }
    let _ = table.parked.insert(pid, Some(tid));
    true
}

/// A reader that is parked on the input of a process that goes is woken, and
/// nobody else.
pub proof fn law_a_parked_reader_is_not_left(
    parked: Map<u16, Option<u32>>,
    pid: u16,
    wakes: WakeView,
)
    requires
        wakes.items.len() < 128,
    ensures
        ({
            let w = wakes_after_unregister(parked, pid, wakes);
            &&& parked.contains_key(pid) && parked[pid] is Some ==> w.items.len()
                == wakes.items.len() + 1 && w.items.last() == WakeEvent::InputTid(parked[pid]->0)
            &&& !(parked.contains_key(pid) && parked[pid] is Some) ==> w == wakes
        }),
{
}

/// No process is active exactly if the kernel's pane is.
pub proof fn law_the_active_process_is_the_shown_one(source: Source, pid: u16)
    ensures
        active_of(active_value(Source::Process(pid))) == Some(pid),
        active_of(active_value(source)) is None <==> source == Source::Kernel,
{
}

} // verus!
