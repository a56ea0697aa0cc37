//! Per-process pixel surfaces.

use crate::process::PhysBacking;
#[allow(unused_imports)]
use crate::tables::{keys32, lists32, sorted32};
use std::collections::BTreeMap;
use vstd::prelude::*;

verus! {

broadcast use {vstd::laws_cmp::group_laws_cmp, vstd::std_specs::btree::group_btree_axioms};

/// Layout of a pixel.
#[derive(Clone, Copy, Debug, PartialEq, Eq, Structural)]
pub struct FbFormat {
    pub raw: u32,
    pub bytes_per_pixel: u32,
}

/// One surface.
#[derive(Clone, Copy, Debug, PartialEq, Eq, Structural)]
pub struct SurfaceEntry {
    pub user_va: u64,
    pub kdmap_kva: u64,
    pub width: u32,
    pub height: u32,
    pub format: FbFormat,
    pub size_bytes: u64,
    pub backing: PhysBacking,
}

/// What the compositor needs to draw a surface.
#[derive(Clone, Copy, Debug, PartialEq, Eq, Structural)]
pub struct SurfaceSnapshot {
    pub kdmap_kva: u64,
    pub width: u32,
    pub height: u32,
    pub format: FbFormat,
}

/// The surfaces of one process.
pub struct ProcessSurfaces {
    pub surfaces: BTreeMap<u32, SurfaceEntry>,
    pub next_id: u32,
    pub next_va_cursor: u64,
}

pub open spec fn snapshot_of(e: SurfaceEntry) -> SurfaceSnapshot {
    SurfaceSnapshot {
        kdmap_kva: e.kdmap_kva,
        width: e.width,
        height: e.height,
        format: e.format,
    }
}

impl ProcessSurfaces {
    /// No surfaces; ids start at one and addresses at `base`.
    pub fn new(base: u64) -> (r: Self)
        ensures
            r.surfaces@ == Map::<u32, SurfaceEntry>::empty(),
            r.next_id == 1,
            r.next_va_cursor == base,
    {
        ProcessSurfaces { surfaces: BTreeMap::new(), next_id: 1, next_va_cursor: base }
    }

    /// Takes the next surface id. Ids wrap.
    pub fn alloc_id(&mut self) -> (r: u32)
        ensures
            r == old(self).next_id,
            *final(self) == (ProcessSurfaces {
                next_id: vstd::wrapping::u32_specs::wrapping_add(old(self).next_id, 1),
                ..*old(self)
            }),
    {
        let id: u32 = self.next_id;
        self.next_id = self.next_id.wrapping_add(1);
        id
    }

    /// Reserves `size` bytes of address space. The cursor only moves forward.
    pub fn alloc_va(&mut self, size: u64) -> (r: u64)
        ensures
            r == old(self).next_va_cursor,
            *final(self) == (ProcessSurfaces {
                next_va_cursor: vstd::wrapping::u64_specs::wrapping_add(
                    old(self).next_va_cursor,
                    size,
                ),
                ..*old(self)
            }),
    {
        let va: u64 = self.next_va_cursor;
        self.next_va_cursor = self.next_va_cursor.wrapping_add(size);
        va
    }

    pub fn insert(&mut self, id: u32, entry: SurfaceEntry)
        ensures
            final(self).surfaces@ == old(self).surfaces@.insert(id, entry),
            *final(self) == (ProcessSurfaces { surfaces: final(self).surfaces, ..*old(self) }),
    {
        let _ = self.surfaces.insert(id, entry);
    }

    pub fn remove(&mut self, id: u32) -> (r: Option<SurfaceEntry>)
        ensures
            r == (if old(self).surfaces@.contains_key(id) {
                Some(old(self).surfaces@[id])
            } else {
                None::<SurfaceEntry>
            }),
            final(self).surfaces@ == old(self).surfaces@.remove(id),
            *final(self) == (ProcessSurfaces { surfaces: final(self).surfaces, ..*old(self) }),
    {
        self.surfaces.remove(&id)
    }

    /// A surface as the compositor sees it.
    pub fn snapshot(&self, id: u32) -> (r: Option<SurfaceSnapshot>)
        ensures
            r == (if self.surfaces@.contains_key(id) {
                Some(snapshot_of(self.surfaces@[id]))
            } else {
                None::<SurfaceSnapshot>
            }),
    {
        match self.surfaces.get(&id) {
            Some(e) => Some(
                SurfaceSnapshot {
                    kdmap_kva: e.kdmap_kva,
                    width: e.width,
                    height: e.height,
                    format: e.format,
                },
            ),
            None => None,
        }
    }

    /// Takes every surface, in ascending id order.
    pub fn drain_all(&mut self) -> (r: Vec<(u32, SurfaceEntry)>)
        ensures
            r@ == sorted32(old(self).surfaces@.dom()).map_values(
                |id: u32| (id, old(self).surfaces@[id]),
            ),
            final(self).surfaces@ == Map::<u32, SurfaceEntry>::empty(),
            *final(self) == (ProcessSurfaces { surfaces: final(self).surfaces, ..*old(self) }),
    {
        let keys = keys32(&self.surfaces);
        let mut out: Vec<(u32, SurfaceEntry)> = Vec::new();
        let mut i: usize = 0;
        while i < keys.len()
            invariant
                *self == *old(self),
                i <= keys@.len(),
                keys@ == sorted32(self.surfaces@.dom()),
                lists32(keys@, self.surfaces@.dom()),
                out@.len() == i,
                forall|j: int| 0 <= j < i ==> out@[j] == (keys@[j], self.surfaces@[keys@[j]]),
            decreases keys@.len() - i,
        {
            let id: u32 = keys[i];
            proof {
                assert(keys@.contains(id));
                assert(self.surfaces@.dom().contains(id));
            }
            let e = *self.surfaces.get(&id).unwrap();
            out.push((id, e));
            i = i + 1;
        }
        proof {
            assert(out@ =~= sorted32(old(self).surfaces@.dom()).map_values(
                |id: u32| (id, old(self).surfaces@[id]),
            ));
        }
        self.surfaces.clear();
        out
    }
}

/// The surface tables of all processes.
pub struct SurfaceTable {
    pub by_pid: BTreeMap<u16, ProcessSurfaces>,
}

/// Gives `pid` an empty surface table unless it has one.
pub fn register(table: &mut SurfaceTable, pid: u16, base: u64)
    ensures
        old(table).by_pid@.contains_key(pid) ==> *final(table) == *old(table),
        !old(table).by_pid@.contains_key(pid) ==> {
            let s = final(table).by_pid@[pid];
            &&& final(table).by_pid@ == old(table).by_pid@.insert(pid, s)
            &&& s.surfaces@ == Map::<u32, SurfaceEntry>::empty()
            &&& s.next_id == 1
            &&& s.next_va_cursor == base
        },
{
    if table.by_pid.contains_key(&pid) {
        return ;
    }
    let _ = table.by_pid.insert(pid, ProcessSurfaces::new(base));
}

/// Takes the surface table of `pid` away.
pub fn unregister(table: &mut SurfaceTable, pid: u16) -> (r: Option<ProcessSurfaces>)
    ensures
        final(table).by_pid@ == old(table).by_pid@.remove(pid),
        r == (if old(table).by_pid@.contains_key(pid) {
            Some(old(table).by_pid@[pid])
        } else {
            None::<ProcessSurfaces>
        }),
{
    table.by_pid.remove(&pid)
}

/// The surface table of `pid`.
pub fn get(table: &SurfaceTable, pid: u16) -> (r: Option<&ProcessSurfaces>)
    ensures
        match r {
            Some(s) => table.by_pid@.contains_key(pid) && *s == table.by_pid@[pid],
            None => !table.by_pid@.contains_key(pid),
        },
{
    table.by_pid.get(&pid)
}

/// What is shown of a surface is the surface itself.
pub proof fn law_a_snapshot_is_of_its_surface(e: SurfaceEntry)
    ensures
        snapshot_of(e).kdmap_kva == e.kdmap_kva,
        snapshot_of(e).width == e.width,
        snapshot_of(e).height == e.height,
        snapshot_of(e).format == e.format,
{
}

} // verus!
