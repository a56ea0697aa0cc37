//! Per-process handle tables.

use crate::fs::Inode;
use crate::shared_user_ptr::SharedUserPtr;
#[allow(unused_imports)]
use crate::tables::{keys32, lists32, sorted32};
use std::collections::BTreeMap;
use vstd::prelude::*;

verus! {

broadcast use {vstd::laws_cmp::group_laws_cmp, vstd::std_specs::btree::group_btree_axioms};

/// A handle number.
pub type Fd = u32;

/// The largest handle number.
pub const FD_MAX: Fd = 0x7FFF_FFFF;

/// An open file or directory.
#[derive(Clone, Copy, Debug, PartialEq, Eq, Structural)]
pub struct OpenFile {
    pub inode: Inode,
    pub offset: u64,
    pub dir_cursor: u64,
    pub is_regular: bool,
}

/// An event counter shared with the process.
#[derive(Clone, Copy, Debug, PartialEq, Eq, Structural)]
pub struct EventFdSlot {
    pub region: SharedUserPtr,
    pub flags: u32,
    pub kernel_parked_tid: u32,
}

/// What a handle refers to.
#[derive(Clone, Copy, Debug, PartialEq, Eq, Structural)]
pub enum Handle {
    NetChannel(SharedUserPtr),
    File(OpenFile),
    Stdin,
    Stdout,
    Stderr,
    EventFd(EventFdSlot),
}

/// A table entry.
#[derive(Clone, Copy, Debug, PartialEq, Eq, Structural)]
pub struct Slot {
    pub handle: Handle,
    pub cloexec: bool,
    pub nonblock: bool,
}

impl Slot {
    /// An entry with both flags off.
    pub fn new(handle: Handle) -> (r: Self)
        ensures
            r == (Slot { handle, cloexec: false, nonblock: false }),
    {
        Slot { handle, cloexec: false, nonblock: false }
    }

    pub fn with_flags(handle: Handle, cloexec: bool, nonblock: bool) -> (r: Self)
        ensures
            r == (Slot { handle, cloexec, nonblock }),
    {
        Slot { handle, cloexec, nonblock }
    }
}

/// The handles of one process.
pub struct ProcessHandles {
    table: BTreeMap<Fd, Slot>,
    next_id: Fd,
}

/// What a handle table holds, and the number the next handle gets.
#[verifier::ext_equal]
pub struct HandlesView {
    pub slots: Map<Fd, Slot>,
    pub next_id: Fd,
}

impl View for ProcessHandles {
    type V = HandlesView;

    closed spec fn view(&self) -> HandlesView {
        HandlesView { slots: self.table@, next_id: self.next_id }
    }
}

impl HandlesView {
    /// Every handle is at most [`FD_MAX`] and below the next one.
    pub open spec fn wf(self) -> bool {
        &&& self.next_id <= 0x8000_0000
        &&& self.slots.dom().finite()
        &&& forall|fd: Fd| #[trigger] self.slots.contains_key(fd) ==> fd < self.next_id
    }

    /// The table with a new handle, if a number is left for it.
    pub open spec fn inserted(self, slot: Slot) -> HandlesView {
        if self.next_id > FD_MAX {
            self
        } else {
            HandlesView {
                slots: self.slots.insert(self.next_id, slot),
                next_id: (self.next_id + 1) as u32,
            }
        }
    }

    pub open spec fn replaced(self, fd: Fd, slot: Slot) -> HandlesView {
        HandlesView { slots: self.slots.insert(fd, slot), ..self }
    }
}

/// The three standard streams.
pub open spec fn stdio_slots() -> Map<Fd, Slot> {
    Map::<Fd, Slot>::empty().insert(
        0,
        Slot { handle: Handle::Stdin, cloexec: false, nonblock: false },
    ).insert(1, Slot { handle: Handle::Stdout, cloexec: false, nonblock: false }).insert(
        2,
        Slot { handle: Handle::Stderr, cloexec: false, nonblock: false },
    )
}

impl ProcessHandles {
    /// An empty table.
    pub fn new() -> (r: Self)
        ensures
            r@ == (HandlesView { slots: Map::empty(), next_id: 0 }),
            r@.wf(),
    {
        ProcessHandles { table: BTreeMap::new(), next_id: 0 }
    }

    /// Puts the standard streams into an empty table, as handles 0, 1 and 2.
    pub fn seed_stdio(&mut self)
        requires
            old(self)@.wf(),
        ensures
            final(self)@.wf(),
            old(self)@.slots.is_empty() ==> final(self)@ == (HandlesView {
                slots: stdio_slots(),
                next_id: if old(self)@.next_id < 3 {
                    3
                } else {
                    old(self)@.next_id
                },
            }),
            !old(self)@.slots.is_empty() ==> final(self)@ == old(self)@,
    {
        if !self.table.is_empty() {
            return ;
        }
        let _ = self.table.insert(0, Slot::new(Handle::Stdin));
        let _ = self.table.insert(1, Slot::new(Handle::Stdout));
        let _ = self.table.insert(2, Slot::new(Handle::Stderr));
        if self.next_id < 3 {
            self.next_id = 3;
        }
        proof {
            assert(self@.slots =~= stdio_slots());
        }
    }

    /// Adds a handle with both flags off. `None` when the numbers ran out.
    pub fn insert(&mut self, handle: Handle) -> (r: Option<Fd>)
        requires
            old(self)@.wf(),
        ensures
            final(self)@.wf(),
            final(self)@ == old(self)@.inserted(Slot { handle, cloexec: false, nonblock: false }),
            r == (if old(self)@.next_id > FD_MAX {
                None::<Fd>
            } else {
                Some(old(self)@.next_id)
            }),
    {
        self.insert_with_flags(handle, false, false)
    }

    /// Adds a handle. `None` when the numbers ran out.
    pub fn insert_with_flags(&mut self, handle: Handle, cloexec: bool, nonblock: bool) -> (r: Option<
        Fd,
    >)
        requires
            old(self)@.wf(),
        ensures
            final(self)@.wf(),
            final(self)@ == old(self)@.inserted(Slot { handle, cloexec, nonblock }),
            r == (if old(self)@.next_id > FD_MAX {
                None::<Fd>
            } else {
                Some(old(self)@.next_id)
            }),
    {
        if self.next_id > FD_MAX {
            return None;
        }
        let id: Fd = self.next_id;
        self.next_id = self.next_id + 1;
        let _ = self.table.insert(id, Slot::with_flags(handle, cloexec, nonblock));
        Some(id)
    }

    /// Puts an entry at a given number and hands back what was there. Refuses
    /// a number above [`FD_MAX`].
    pub fn insert_at(&mut self, fd: Fd, slot: Slot) -> (r: Option<Slot>)
        requires
            old(self)@.wf(),
        ensures
            final(self)@.wf(),
            fd > FD_MAX ==> r is None && final(self)@ == old(self)@,
            fd <= FD_MAX ==> {
                &&& r == (if old(self)@.slots.contains_key(fd) {
                    Some(old(self)@.slots[fd])
                } else {
                    None::<Slot>
                })
                &&& final(self)@ == (HandlesView {
                    slots: old(self)@.slots.insert(fd, slot),
                    next_id: if old(self)@.next_id <= fd {
                        (fd + 1) as u32
                    } else {
                        old(self)@.next_id
                    },
                })
            },
    {
        if fd > FD_MAX {
            return None;
        }
        let old_slot = self.table.insert(fd, slot);
        if self.next_id <= fd {
            self.next_id = fd + 1;
        }
        old_slot
    }

    /// The object behind a handle.
    pub fn get(&self, fd: Fd) -> (r: Option<&Handle>)
        ensures
            match r {
                Some(h) => self@.slots.contains_key(fd) && *h == self@.slots[fd].handle,
                None => !self@.slots.contains_key(fd),
            },
    {
        match self.table.get(&fd) {
            Some(s) => Some(&s.handle),
            None => None,
        }
    }

    /// The entry behind a handle.
    pub fn get_slot(&self, fd: Fd) -> (r: Option<&Slot>)
        ensures
            match r {
                Some(s) => self@.slots.contains_key(fd) && *s == self@.slots[fd],
                None => !self@.slots.contains_key(fd),
            },
    {
        self.table.get(&fd)
    }

    /// Replaces the object behind a live handle; `false` if there is none.
    pub fn set(&mut self, fd: Fd, handle: Handle) -> (r: bool)
        requires
            old(self)@.wf(),
        ensures
            final(self)@.wf(),
            r == old(self)@.slots.contains_key(fd),
            r ==> final(self)@ == old(self)@.replaced(
                fd,
                Slot { handle, ..old(self)@.slots[fd] },
            ),
            !r ==> final(self)@ == old(self)@,
    {
        let s: Slot = match self.table.get(&fd) {
            Some(s) => *s,
            None => {
                return false;
            },
        };
        let _ = self.table.insert(
            fd,
            Slot { handle, cloexec: s.cloexec, nonblock: s.nonblock },
        );
        true
    }

    /// Replaces a live entry; `false` if there is none.
    pub fn set_slot(&mut self, fd: Fd, slot: Slot) -> (r: bool)
        requires
            old(self)@.wf(),
        ensures
            final(self)@.wf(),
            r == old(self)@.slots.contains_key(fd),
            r ==> final(self)@ == old(self)@.replaced(fd, slot),
            !r ==> final(self)@ == old(self)@,
    {
        if !self.table.contains_key(&fd) {
            return false;
        }
        let _ = self.table.insert(fd, slot);
        true
    }

    /// Takes a handle out of the table. Its number is not given out again.
    pub fn remove(&mut self, fd: Fd) -> (r: Option<Handle>)
        requires
            old(self)@.wf(),
        ensures
            final(self)@.wf(),
            final(self)@ == (HandlesView { slots: old(self)@.slots.remove(fd), ..old(self)@ }),
            r == (if old(self)@.slots.contains_key(fd) {
                Some(old(self)@.slots[fd].handle)
            } else {
                None::<Handle>
            }),
    {
        match self.table.remove(&fd) {
            Some(s) => Some(s.handle),
            None => {
                proof {
                    assert(self@.slots =~= old(self)@.slots.remove(fd));
                }
                None
            },
        }
    }

    /// Takes an entry out of the table.
    pub fn remove_slot(&mut self, fd: Fd) -> (r: Option<Slot>)
        requires
            old(self)@.wf(),
        ensures
            final(self)@.wf(),
            final(self)@ == (HandlesView { slots: old(self)@.slots.remove(fd), ..old(self)@ }),
            r == (if old(self)@.slots.contains_key(fd) {
                Some(old(self)@.slots[fd])
            } else {
                None::<Slot>
            }),
    {
        self.table.remove(&fd)
    }

    /// The handles and their objects, in ascending order.
    pub fn iter(&self) -> (r: Vec<(Fd, Handle)>)
        ensures
            r@ == sorted32(self@.slots.dom()).map_values(
                |fd: Fd| (fd, self@.slots[fd].handle),
            ),
    {
        let keys = keys32(&self.table);
        let mut out: Vec<(Fd, Handle)> = Vec::new();
        let mut i: usize = 0;
        while i < keys.len()
            invariant
                i <= keys@.len(),
                keys@ == sorted32(self@.slots.dom()),
                lists32(keys@, self@.slots.dom()),
                out@.len() == i,
                forall|j: int|
                    0 <= j < i ==> out@[j] == (keys@[j], self@.slots[keys@[j]].handle),
            decreases keys@.len() - i,
        {
            let fd: Fd = keys[i];
            proof {
                assert(keys@.contains(fd));
                assert(self@.slots.dom().contains(fd));
            }
            let h = self.table.get(&fd).unwrap().handle;
            out.push((fd, h));
            i = i + 1;
        }
        proof {
            assert(out@ =~= sorted32(self@.slots.dom()).map_values(
                |fd: Fd| (fd, self@.slots[fd].handle),
            ));
        }
        out
    }

    /// The handles and their entries, in ascending order.
    pub fn iter_slots(&self) -> (r: Vec<(Fd, Slot)>)
        ensures
            r@ == sorted32(self@.slots.dom()).map_values(|fd: Fd| (fd, self@.slots[fd])),
    {
        let keys = keys32(&self.table);
        let mut out: Vec<(Fd, Slot)> = Vec::new();
        let mut i: usize = 0;
        while i < keys.len()
            invariant
                i <= keys@.len(),
                keys@ == sorted32(self@.slots.dom()),
                lists32(keys@, self@.slots.dom()),
                out@.len() == i,
                forall|j: int| 0 <= j < i ==> out@[j] == (keys@[j], self@.slots[keys@[j]]),
            decreases keys@.len() - i,
        {
            let fd: Fd = keys[i];
            proof {
                assert(keys@.contains(fd));
                assert(self@.slots.dom().contains(fd));
            }
            let s = *self.table.get(&fd).unwrap();
            out.push((fd, s));
            i = i + 1;
        }
        proof {
            assert(out@ =~= sorted32(self@.slots.dom()).map_values(
                |fd: Fd| (fd, self@.slots[fd]),
            ));
        }
        out
    }

    /// Takes the table apart: its handles and objects in ascending order.
    pub fn into_iter(self) -> (r: Vec<(Fd, Handle)>)
        ensures
            r@ == sorted32(self@.slots.dom()).map_values(
                |fd: Fd| (fd, self@.slots[fd].handle),
            ),
    {
        self.iter()
    }

    pub fn is_empty(&self) -> (r: bool)
        ensures
            r == self@.slots.is_empty(),
    {
        self.table.is_empty()
    }

    pub fn len(&self) -> (r: usize)
        ensures
            r == self@.slots.dom().len(),
    {
        self.table.len()
    }
}

/// A handle number is never given out twice: a new handle is larger than every
/// number the table gave out before, and removing handles does not change that.
pub proof fn law_handle_numbers_are_fresh(v: HandlesView, slot: Slot, removed: Fd)
    requires
        v.wf(),
        v.next_id <= FD_MAX,
    ensures
        !v.slots.contains_key(v.next_id),
        v.inserted(slot).slots[v.next_id] == slot,
        v.inserted(slot).next_id > v.next_id,
        v.inserted(slot).wf(),
        (HandlesView { slots: v.slots.remove(removed), ..v }).next_id == v.next_id,
        forall|fd: Fd| #[trigger]
            v.slots.contains_key(fd) ==> fd < v.next_id && v.inserted(slot).slots[fd]
                == v.slots[fd],
{
}

/// A new process has its input at 0, its output at 1 and its errors at 2, and
/// nothing else.
pub proof fn law_standard_streams_have_their_numbers(fd: Fd)
    ensures
        stdio_slots().contains_key(fd) <==> fd < 3,
        stdio_slots()[0].handle == Handle::Stdin,
        stdio_slots()[1].handle == Handle::Stdout,
        stdio_slots()[2].handle == Handle::Stderr,
        fd < 3 ==> !stdio_slots()[fd].cloexec && !stdio_slots()[fd].nonblock,
{
}

/// Replacing an entry touches no other, and gives out no number.
pub proof fn law_replacing_touches_one_entry(v: HandlesView, fd: Fd, slot: Slot, other: Fd)
    ensures
        v.replaced(fd, slot).slots[fd] == slot,
        v.replaced(fd, slot).next_id == v.next_id,
        other != fd ==> v.replaced(fd, slot).slots.contains_key(other) == v.slots.contains_key(other)
            && v.replaced(fd, slot).slots[other] == v.slots[other],
{
}

/// A new handle takes the next number, and the number after it is next; once
/// the numbers are used up nothing is taken.
pub proof fn law_handles_take_the_next_number(v: HandlesView, slot: Slot, other: Fd)
    ensures
        v.next_id <= 0x7FFF_FFFF ==> {
            &&& v.inserted(slot).next_id == v.next_id + 1
            &&& v.inserted(slot).slots.contains_key(v.next_id)
            &&& v.inserted(slot).slots[v.next_id] == slot
            &&& other != v.next_id ==> v.inserted(slot).slots.contains_key(other)
                == v.slots.contains_key(other)
        },
        v.next_id > 0x7FFF_FFFF ==> v.inserted(slot) == v,
{
}

} // verus!
