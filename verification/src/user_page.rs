//! The window through which the kernel writes user pages.
//!
//! User frames have no alias in the kernel's address space. A window maps some
//! of them into the scratch range while they are written. There is one window
//! at a time.

#[allow(unused_imports)]
use crate::memmap::{page_up, AddressMap, KSCRATCH_SIZE};
#[allow(unused_imports)]
use crate::memmap::kscratch_base;
use vstd::prelude::*;

verus! {

/// A change to the last level of a page table: the page at `va` maps `pa`, or
/// nothing.
#[derive(Clone, Copy, Debug, PartialEq, Eq, Structural)]
pub struct LeafWrite {
    pub va: u64,
    pub pa: Option<u64>,
}

/// Whether the scratch range is taken.
pub struct WindowSlot {
    active: bool,
}

impl View for WindowSlot {
    type V = bool;

    closed spec fn view(&self) -> bool {
        self.active
    }
}

impl WindowSlot {
    /// A free scratch range.
    pub fn new() -> (r: Self)
        ensures
            !r@,
    {
        WindowSlot { active: false }
    }
}

/// A window of `len` bytes at `kva`.
pub struct UserPageWindow {
    kva: u64,
    len: u64,
    mapped_pages: u64,
}

/// What a window holds.
pub struct WindowView {
    pub kva: u64,
    pub len: u64,
    pub mapped_pages: u64,
}

impl View for UserPageWindow {
    type V = WindowView;

    closed spec fn view(&self) -> WindowView {
        WindowView { kva: self.kva, len: self.len, mapped_pages: self.mapped_pages }
    }
}

/// The entries that show `n` pages from `pa` on at `base`; that hide them if
/// there is no `pa`.
pub open spec fn leaf_writes(base: u64, pa: Option<u64>, n: int) -> Seq<LeafWrite> {
    Seq::new(
        n as nat,
        |i: int|
            LeafWrite {
                va: (base + i * 4096) as u64,
                pa: match pa {
                    Some(p) => Some((p + i * 4096) as u64),
                    None => None,
                },
            },
    )
}

impl UserPageWindow {
    /// Opens a window of `len` bytes on the frames from `pa` on. Returns the
    /// window and the entries to write; each is followed by a fence.
    pub fn map(slot: &mut WindowSlot, map: &AddressMap, pa: u64, len: u64) -> (r: (
        Self,
        Vec<LeafWrite>,
    ))
        requires
            pa % 4096 == 0,
            0 < len <= KSCRATCH_SIZE,
            !old(slot)@,
            map@.kscratch + KSCRATCH_SIZE <= u64::MAX,
            pa + page_up(len as int) <= u64::MAX,
        ensures
            final(slot)@,
            r.0@ == (WindowView {
                kva: map@.kscratch,
                len,
                mapped_pages: (page_up(len as int) / 4096) as u64,
            }),
            r.1@ == leaf_writes(map@.kscratch, Some(pa), page_up(len as int) / 4096),
    {
        slot.active = true;
        let base: u64 = kscratch_base(map);
        let pages: u64 = (len + 4095) / 4096;
        let mut out: Vec<LeafWrite> = Vec::new();
        let mut i: u64 = 0;
        while i < pages
            invariant
                i <= pages,
                pages * 4096 <= 0x200_0000,
                base + 0x200_0000 <= u64::MAX,
                pa + pages * 4096 <= u64::MAX,
                out@ == leaf_writes(base, Some(pa), i as int),
            decreases pages - i,
        {
            out.push(LeafWrite { va: base + i * 4096, pa: Some(pa + i * 4096) });
            proof {
                assert(out@ =~= leaf_writes(base, Some(pa), i + 1));
            }
            i = i + 1;
        }
        (UserPageWindow { kva: base, len, mapped_pages: pages }, out)
    }

    /// Address of the window's first byte.
    pub fn kva(&self) -> (r: u64)
        ensures
            r == self@.kva,
    {
        self.kva
    }

    /// Length of the window in bytes.
    pub fn len(&self) -> (r: u64)
        ensures
            r == self@.len,
    {
        self.len
    }

    /// Closes the window. Returns the entries to clear; each is followed by a
    /// fence. The scratch range is free again, whatever becomes of them.
    pub fn close(self, slot: &mut WindowSlot) -> (r: Vec<LeafWrite>)
        requires
            self@.kva + self@.mapped_pages * 4096 <= u64::MAX,
        ensures
            !final(slot)@,
            r@ == leaf_writes(self@.kva, None, self@.mapped_pages as int),
    {
        let mut out: Vec<LeafWrite> = Vec::new();
        let base: u64 = self.kva;
        let pages: u64 = self.mapped_pages;
        let mut i: u64 = 0;
        while i < pages
            invariant
                i <= pages,
                base + pages * 4096 <= u64::MAX,
                out@ == leaf_writes(base, None, i as int),
            decreases pages - i,
        {
            out.push(LeafWrite { va: base + i * 4096, pa: None });
            proof {
                assert(out@ =~= leaf_writes(base, None, i + 1));
            }
            i = i + 1;
        }
        slot.active = false;
        out
    }
}

/// Closing a window clears exactly the entries that opening it wrote, and a
/// window shows all the bytes that were asked for.
pub proof fn law_closing_undoes_opening(base: u64, pa: u64, len: u64, i: int)
    requires
        base + page_up(len as int) <= u64::MAX,
        pa + page_up(len as int) <= u64::MAX,
        0 <= i < page_up(len as int) / 4096,
    ensures
        ({
            let n = page_up(len as int) / 4096;
            let opened = leaf_writes(base, Some(pa), n);
            let closed = leaf_writes(base, None, n);
            &&& opened.len() == closed.len() == n
            &&& opened[i].va == closed[i].va
            &&& closed[i].pa is None
            &&& opened[i].pa == Some((pa + (opened[i].va - base)) as u64)
            &&& len <= n * 4096 < len + 4096
        }),
{
}

/// A window is written page by page from its start on.
pub proof fn law_a_window_is_written_page_by_page(base: u64, pa: u64, n: int, i: int)
    requires
        0 <= i < n,
        base + n * 4096 <= u64::MAX,
        pa + n * 4096 <= u64::MAX,
    ensures
        leaf_writes(base, Some(pa), n).len() == n,
        leaf_writes(base, None, n).len() == n,
        leaf_writes(base, Some(pa), n)[i].va == base + 4096 * i,
        leaf_writes(base, Some(pa), n)[i].pa matches Some(p) && p == pa + 4096 * i,
        leaf_writes(base, None, n)[i].va == base + 4096 * i,
        leaf_writes(base, None, n)[i].pa is None,
{
}

} // verus!
