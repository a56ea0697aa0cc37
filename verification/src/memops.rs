//! Requests that give a process memory, surfaces, channels and counters, and
//! those that take them away.

#[allow(unused_imports)]
use crate::abi::{errno_ret, refused};
use crate::abi::{
    to_ret, PagePerms, EAGAIN, EBADF, EINVAL, EIO, EMFILE, ENOMEM, EPERM, ESRCH,
};
use crate::handle::{EventFdSlot, Fd, Handle, Slot};
#[allow(unused_imports)]
use crate::handle::{HandlesView, FD_MAX};
use crate::net::SocketReq;
#[allow(unused_imports)]
use crate::net::NetView;
use crate::orbit::{Effect, Orbit};
#[allow(unused_imports)]
use crate::process::{shared_want, PhysBacking};
use crate::process::{shared_frames, FrameWant, Pool};
use crate::rings::{wake_queue_push, WakeEvent, WakeQueue};
#[allow(unused_imports)]
use crate::shared_user_ptr::{leaves_made, Region};
use crate::shared_user_ptr::{SharedUserPtr, UserLeaves};
use crate::surface::{FbFormat, ProcessSurfaces, SurfaceEntry};
#[allow(unused_imports)]
use crate::teardown::free_opt;
use crate::work::{
    CloseHandleReq, EventFdCreateReq, FbSurfaceCreateReq, FbSurfaceDestroyReq, MemMapReq,
    NetChannelCreationReq, WakeTidReq,
};
use crate::world::Machine;
#[allow(unused_imports)]
use crate::world::{regions_ok, same_queues, world, ProcView, SurfacesView, World};
use std::collections::BTreeMap;
use vstd::prelude::*;

verus! {

broadcast use {vstd::laws_cmp::group_laws_cmp, vstd::std_specs::btree::group_btree_axioms};

/// Alignment and depth of the pages of a mapping.
#[derive(Clone, Copy, Debug, PartialEq, Eq, Structural)]
pub struct MappingGeometry {
    pub align: u64,
    pub levels: u8,
}

/// A mapping for the page-table code to make.
#[derive(Clone, Copy, Debug, PartialEq, Eq, Structural)]
pub struct MappingPlan {
    pub va: u64,
    pub len: u64,
    pub page_size: u64,
    pub levels: u8,
    pub perms: u64,
    /// Whether its leaves may be revoked.
    pub revocable: bool,
}

/// A run of frames of this size and alignment can exist: the alignment is a
/// power of two and the size, rounded up to it, stays below half the address
/// space.
pub open spec fn layout_ok(size: u64, align: u64) -> bool {
    align > 0 && align & ((align - 1) as u64) == 0 && size + align <= 0x8000_0000_0000_0000
}

pub fn layout_fits(size: u64, align: u64) -> (r: bool)
    ensures
        r == layout_ok(size, align),
{
    align > 0 && align & (align - 1) == 0 && align <= 0x8000_0000_0000_0000 && size
        <= 0x8000_0000_0000_0000 - align
}

/// The frames of an anonymous mapping. Only those that are shared with the
/// kernel come from the pool it can reach.
pub open spec fn mmap_want(req: MemMapReq, align: u64) -> FrameWant {
    FrameWant {
        pool: if req.share_with_kernel {
            Pool::Shared
        } else {
            Pool::User
        },
        size: req.size,
        align,
    }
}

/// What to ask the allocator for to serve an anonymous mapping; nothing if the
/// request fails before that.
pub fn mmap_frames(req: MemMapReq, geometry: Option<MappingGeometry>) -> (r: Option<FrameWant>)
    ensures
        r == (match geometry {
            Some(g) => if layout_ok(req.size, g.align) {
                Some(mmap_want(req, g.align))
            } else {
                None
            },
            None => None,
        }),
{
    let g: MappingGeometry = match geometry {
        Some(g) => g,
        None => {
            return None;
        },
    };
    if !layout_fits(req.size, g.align) {
        return None;
    }
    Some(
        FrameWant {
            pool: if req.share_with_kernel {
                Pool::Shared
            } else {
                Pool::User
            },
            size: req.size,
            align: g.align,
        },
    )
}

/// The frames behind an anonymous mapping.
pub open spec fn mmap_backing(req: MemMapReq, align: u64, pa: u64) -> PhysBacking {
    mmap_want(req, align).at(pa)
}

/// The result of `mmap` and the frames that go back.
pub open spec fn mmap_outcome(
    req: MemMapReq,
    geometry: Option<MappingGeometry>,
    pa: Option<u64>,
    mapped: bool,
    alive: bool,
) -> (i64, Option<PhysBacking>) {
    match geometry {
        None => (errno_ret(EINVAL), None),
        Some(g) => if !layout_ok(req.size, g.align) {
            (errno_ret(EINVAL), None)
        } else {
            match pa {
                None => (errno_ret(ENOMEM), None),
                Some(a) => if !mapped {
                    (errno_ret(ENOMEM), Some(mmap_backing(req, g.align, a)))
                } else if !alive {
                    (errno_ret(ESRCH), Some(mmap_backing(req, g.align, a)))
                } else {
                    (0, None)
                },
            }
        },
    }
}

/// The size of a surface in whole pages; an error if it makes no sense.
pub open spec fn surface_size(req: FbSurfaceCreateReq, format: Option<FbFormat>) -> Result<
    u64,
    i64,
> {
    match format {
        None => Err(errno_ret(EINVAL)),
        Some(f) => {
            let bytes = req.width * req.height * f.bytes_per_pixel;
            let pages = (bytes + 4095) / 4096 * 4096;
            if req.width == 0 || req.height == 0 || pages + 4096 > 0x8000_0000_0000_0000 {
                Err(errno_ret(EINVAL))
            } else {
                Ok(pages as u64)
            }
        },
    }
}

/// Frames by physical and kernel address.
#[derive(Clone, Copy, Debug, PartialEq, Eq, Structural)]
pub struct FrameGrant {
    pub pa: u64,
    pub kva: u64,
}

/// Shared frames that were granted.
pub open spec fn shared_backing(pa: u64, size: u64) -> PhysBacking {
    shared_want(size).at(pa)
}

/// A surface table whose next surface goes `size` bytes further on.
pub open spec fn cursor_moved(s: SurfacesView, size: u64) -> SurfacesView {
    SurfacesView {
        next_va_cursor: vstd::wrapping::u64_specs::wrapping_add(s.next_va_cursor, size),
        ..s
    }
}

/// A surface table with one more surface, at the cursor.
pub open spec fn surface_added(
    s: SurfacesView,
    req: FbSurfaceCreateReq,
    format: FbFormat,
    f: FrameGrant,
    size: u64,
) -> SurfacesView {
    SurfacesView {
        surfaces: s.surfaces.insert(
            s.next_id,
            SurfaceEntry {
                user_va: s.next_va_cursor,
                kdmap_kva: f.kva,
                width: req.width,
                height: req.height,
                format,
                size_bytes: size,
                backing: shared_backing(f.pa, size),
            },
        ),
        next_id: vstd::wrapping::u32_specs::wrapping_add(s.next_id, 1),
        ..cursor_moved(s, size)
    }
}

/// The surfaces of a process do not overlap, and all lie below the cursor.
pub open spec fn surfaces_apart(s: SurfacesView) -> bool {
    &&& forall|a: u32| #[trigger]
        s.surfaces.contains_key(a) ==> s.surfaces[a].user_va + s.surfaces[a].size_bytes
            <= s.next_va_cursor
    &&& forall|a: u32, b: u32|
        #![trigger s.surfaces[a], s.surfaces[b]]
        s.surfaces.contains_key(a) && s.surfaces.contains_key(b) && a != b
            ==> s.surfaces[a].user_va + s.surfaces[a].size_bytes <= s.surfaces[b].user_va
            || s.surfaces[b].user_va + s.surfaces[b].size_bytes <= s.surfaces[a].user_va
}

/// Surfaces never overlap: creating one that fits below `end`, giving up on one
/// and destroying one all keep the surfaces of a process apart.
pub proof fn law_surfaces_do_not_overlap(
    s: SurfacesView,
    req: FbSurfaceCreateReq,
    format: FbFormat,
    f: FrameGrant,
    size: u64,
    end: u64,
    gone: u32,
)
    requires
        surfaces_apart(s),
        s.next_va_cursor + size <= end,
    ensures
        surfaces_apart(surface_added(s, req, format, f, size)),
        surfaces_apart(cursor_moved(s, size)),
        surfaces_apart(SurfacesView { surfaces: s.surfaces.remove(gone), ..s }),
{
    let t = surface_added(s, req, format, f, size);
    assert forall|a: u32| #[trigger] t.surfaces.contains_key(a) implies t.surfaces[a].user_va
        + t.surfaces[a].size_bytes <= t.next_va_cursor by {
        if a != s.next_id {
            assert(s.surfaces.contains_key(a));
        }
    }
    assert forall|a: u32, b: u32|
        #![trigger t.surfaces[a], t.surfaces[b]]
        t.surfaces.contains_key(a) && t.surfaces.contains_key(b) && a != b implies t.surfaces[a].user_va
        + t.surfaces[a].size_bytes <= t.surfaces[b].user_va || t.surfaces[b].user_va
        + t.surfaces[b].size_bytes <= t.surfaces[a].user_va by {
        if a != s.next_id {
            assert(s.surfaces.contains_key(a));
        }
        if b != s.next_id {
            assert(s.surfaces.contains_key(b));
        }
        if a != s.next_id && b != s.next_id {
            assert(s.surfaces[a] == t.surfaces[a] && s.surfaces[b] == t.surfaces[b]);
        }
    }
    let u = SurfacesView { surfaces: s.surfaces.remove(gone), ..s };
    assert forall|a: u32| #[trigger] u.surfaces.contains_key(a) implies u.surfaces[a].user_va
        + u.surfaces[a].size_bytes <= u.next_va_cursor by {
        assert(s.surfaces.contains_key(a));
    }
    assert forall|a: u32, b: u32|
        #![trigger u.surfaces[a], u.surfaces[b]]
        u.surfaces.contains_key(a) && u.surfaces.contains_key(b) && a != b implies u.surfaces[a].user_va
        + u.surfaces[a].size_bytes <= u.surfaces[b].user_va || u.surfaces[b].user_va
        + u.surfaces[b].size_bytes <= u.surfaces[a].user_va by {
        assert(s.surfaces.contains_key(a) && s.surfaces.contains_key(b));
        assert(s.surfaces[a] == u.surfaces[a] && s.surfaces[b] == u.surfaces[b]);
    }
    let v = cursor_moved(s, size);
    assert forall|a: u32| #[trigger] v.surfaces.contains_key(a) implies v.surfaces[a].user_va
        + v.surfaces[a].size_bytes <= v.next_va_cursor by {
        assert(s.surfaces.contains_key(a));
    }
}

/// Frames that were granted for a mapping are either kept with the process or
/// go back, never both and never neither.
pub proof fn law_mmap_frames_are_kept_or_returned(
    req: MemMapReq,
    g: MappingGeometry,
    pa: u64,
    mapped: bool,
    alive: bool,
)
    requires
        layout_ok(req.size, g.align),
    ensures
        ({
            let o = mmap_outcome(req, Some(g), Some(pa), mapped, alive);
            &&& (o.0 == 0) != (o.1 is Some)
            &&& o.1 matches Some(b) ==> b == mmap_backing(req, g.align, pa)
        }),
{
}

/// A handle table; empty if there is none yet.
pub open spec fn handles_or_empty(w: World, pid: u16) -> HandlesView {
    if w.handles.contains_key(pid) {
        w.handles[pid]
    } else {
        HandlesView { slots: Map::empty(), next_id: 0 }
    }
}

impl World {
    /// A new region is mapped for a process, in the page table at `root_pa`,
    /// and gets a handle. Its pages may be revoked. Without a number left for
    /// the handle the region is taken away again.
    pub open spec fn region_shared(
        self,
        pid: u16,
        root_pa: u64,
        va: u64,
        size: u64,
        pa: u64,
        slot: Slot,
        hart: int,
    ) -> World {
        let h = handles_or_empty(self, pid);
        let w = World {
            regions: self.regions.insert(
                pa,
                Region {
                    backing: shared_backing(pa, size),
                    user_va: va,
                    len: size,
                    owner_pid: pid,
                    revoked: false,
                    refs: 1,
                },
            ),
            handles: self.handles.insert(pid, h.inserted(slot)),
            tables: self.tables.insert(
                root_pa,
                leaves_made(self.leaves_of(root_pa), va as int, va + size),
            ),
            ..self
        };
        if h.next_id > FD_MAX {
            w.region_revoked(root_pa, pa).region_released(pa, hart)
        } else {
            w.with_effects(seq![Effect::Fence { asid: pid, va: 0 }, Effect::Broadcast])
        }
    }

    /// A channel is handed to the network thread, which holds its region too.
    pub open spec fn channel_requested(self, hart: u64, req: SocketReq) -> World {
        if hart < self.net.reqs.len() && self.net.reqs[hart as int].len() < 7 {
            let g = self.regions[req.netchan.pa];
            World {
                net: NetView {
                    reqs: self.net.reqs.update(hart as int, self.net.reqs[hart as int].push(req)),
                    ..self.net
                },
                regions: self.regions.insert(
                    req.netchan.pa,
                    Region { refs: (g.refs + 1) as u32, ..g },
                ),
                ..self
            }
        } else {
            self
        }
    }
}

/// A mapping of whole pages that user and kernel both read and write.
pub open spec fn shared_mapping(p: PagePerms, va: u64, len: u64, revocable: bool) -> MappingPlan {
    MappingPlan { va, len, page_size: 4096, levels: 4, perms: p.r | p.w | p.u, revocable }
}

fn plan_shared(p: PagePerms, va: u64, len: u64, revocable: bool) -> (r: MappingPlan)
    ensures
        r == shared_mapping(p, va, len, revocable),
{
    MappingPlan { va, len, page_size: 4096, levels: 4, perms: p.r | p.w | p.u, revocable }
}

/// Why a channel or counter cannot be made, and the frames that go back.
pub open spec fn share_refusal(
    size: u64,
    pa: Option<u64>,
    alive: bool,
    mapped: bool,
) -> Option<(i64, Option<PhysBacking>)> {
    if !layout_ok(size, 4096) {
        Some((errno_ret(EINVAL), None))
    } else {
        match pa {
            None => Some((errno_ret(ENOMEM), None)),
            Some(a) => if !alive {
                Some((errno_ret(ESRCH), Some(shared_backing(a, size))))
            } else if !mapped {
                Some((errno_ret(ENOMEM), Some(shared_backing(a, size))))
            } else {
                None
            },
        }
    }
}

/// As [`share_refusal`], with the checks that only a channel has.
pub open spec fn channel_refusal(
    req: NetChannelCreationReq,
    region_size: Option<u64>,
    pa: Option<u64>,
    alive: bool,
    mapped: bool,
) -> Option<(i64, Option<PhysBacking>)> {
    match region_size {
        None => Some((errno_ret(EINVAL), None)),
        Some(size) => if req.nc_vaddr % 4096 != 0 {
            Some((errno_ret(EINVAL), None))
        } else {
            share_refusal(size, pa, alive, mapped)
        },
    }
}

impl Orbit {
    /// The mapping that `mmap` asks for.
    pub fn mmap_plan(&self, req: MemMapReq, g: MappingGeometry) -> (r: MappingPlan)
        ensures
            r == (MappingPlan {
                va: req.vaddr,
                len: req.size,
                page_size: g.align,
                levels: g.levels,
                perms: (req.page_permissions & 0xE) | self.abi.page.u,
                revocable: req.share_with_kernel,
            }),
    {
        MappingPlan {
            va: req.vaddr,
            len: req.size,
            page_size: g.align,
            levels: g.levels,
            perms: (req.page_permissions & 0xE) | self.abi.page.u,
            revocable: req.share_with_kernel,
        }
    }

    /// `mmap`: takes note of zeroed frames that were mapped for a process.
    /// `geometry` is how such a range can be mapped, `pa` what the allocator
    /// gave, `mapped` whether the mapping was made.
    pub fn run_mmap_req(
        &mut self,
        m: &mut Machine,
        req: MemMapReq,
        pid: u16,
        geometry: Option<MappingGeometry>,
        pa: Option<u64>,
        mapped: bool,
    ) -> (r: i64)
        ensures
            ({
                let alive = old(self).procs().contains_key(pid);
                let o = mmap_outcome(req, geometry, pa, mapped, alive);
                &&& r == o.0
                &&& r != 0 ==> *final(self) == *old(self) && final(m).effects@ == old(m).effects@
                    + free_opt(o.1)
                &&& r == 0 ==> {
                    let p = old(self).procs()[pid];
                    &&& final(self).procs() == old(self).procs().insert(
                        pid,
                        ProcView {
                            heap_pages: p.heap_pages.push(
                                mmap_backing(req, geometry->0.align, pa->0),
                            ),
                            ..p
                        },
                    )
                    &&& final(m).effects@ == old(m).effects@.push(
                        Effect::Fence { asid: pid, va: req.vaddr },
                    ).push(Effect::Broadcast)
                }
            }),
            *final(self) == (Orbit { processes: final(self).processes, ..*old(self) }),
            *final(m) == (Machine { effects: final(m).effects, ..*old(m) }),
    {
        proof {
            assert(m.effects@ + Seq::<Effect>::empty() =~= m.effects@);
        }
        let want = match mmap_frames(req, geometry) {
            Some(w) => w,
            None => {
                return to_ret(EINVAL);
            },
        };
        let a: u64 = match pa {
            Some(a) => a,
            None => {
                return to_ret(ENOMEM);
            },
        };
        let backing = want.granted(a);
        if !mapped {
            m.effects.push(Effect::Free(backing));
            proof {
                assert(m.effects@ =~= old(m).effects@ + seq![Effect::Free(backing)]);
            }
            return to_ret(ENOMEM);
        }
        if !self.processes.contains_key(&pid) {
            m.effects.push(Effect::Free(backing));
            proof {
                assert(m.effects@ =~= old(m).effects@ + seq![Effect::Free(backing)]);
            }
            return to_ret(ESRCH);
        }
        let mut p = self.processes.remove(&pid).unwrap();
        p.heap_pages.push(backing);
        let ghost n = p;
        let _ = self.processes.insert(pid, p);
        m.effects.push(Effect::Fence { asid: pid, va: req.vaddr });
        m.effects.push(Effect::Broadcast);
        proof {
            assert(self.procs() =~= old(self).procs().insert(pid, n@));
        }
        0
    }

    /// How many bytes a surface takes.
    pub fn fb_surface_size(req: FbSurfaceCreateReq, format: Option<FbFormat>) -> (r: Result<u64, i64>)
        ensures
            r == surface_size(req, format),
    {
        let f: FbFormat = match format {
            Some(f) => f,
            None => {
                return Err(to_ret(EINVAL));
            },
        };
        if req.width == 0 || req.height == 0 {
            return Err(to_ret(EINVAL));
        }
        proof {
            let w = req.width as int;
            let h = req.height as int;
            assert(w * h <= 0xFFFF_FFFF * 0xFFFF_FFFF) by (nonlinear_arith)
                requires
                    0 <= w <= 0xFFFF_FFFF,
                    0 <= h <= 0xFFFF_FFFF,
            ;
        }
        let area: u64 = req.width as u64 * req.height as u64;
        let bytes: u64 = match area.checked_mul(f.bytes_per_pixel as u64) {
            Some(b) => b,
            None => {
                return Err(to_ret(EINVAL));
            },
        };
        if bytes > 0x7FFF_FFFF_FFFF_F000 {
            return Err(to_ret(EINVAL));
        }
        let pages: u64 = (bytes + 4095) / 4096 * 4096;
        if pages > 0x7FFF_FFFF_FFFF_F000 {
            return Err(to_ret(EINVAL));
        }
        Ok(pages)
    }

    /// The next free address for a surface of `pid`.
    pub open spec fn surface_cursor(self, pid: u16) -> u64 {
        if self.surface_tables().contains_key(pid) {
            self.surface_tables()[pid].next_va_cursor
        } else {
            self.abi.shared_base
        }
    }

    /// Where the next surface of `pid` goes.
    pub fn fb_surface_va(&self, pid: u16) -> (r: u64)
        ensures
            r == self.surface_cursor(pid),
    {
        match self.surfaces.by_pid.get(&pid) {
            Some(s) => s.next_va_cursor,
            None => self.abi.shared_base,
        }
    }

    /// The mapping of a surface of `size` bytes; `None` if the range for them
    /// is used up.
    pub fn surface_plan(&self, pid: u16, size: u64) -> (r: Option<MappingPlan>)
        ensures
            r == (if self.surface_cursor(pid) + size <= self.abi.shared_end {
                Some(shared_mapping(self.abi.page, self.surface_cursor(pid), size, false))
            } else {
                None::<MappingPlan>
            }),
    {
        let va: u64 = self.fb_surface_va(pid);
        if size > self.abi.shared_end || va > self.abi.shared_end - size {
            return None;
        }
        Some(plan_shared(self.abi.page, va, size, false))
    }

    /// The mapping of a channel or a counter. A process that is gone gets none,
    /// so that its page table never holds frames that go to somebody else.
    pub fn region_plan(&self, pid: u16, va: u64, size: u64) -> (r: Option<MappingPlan>)
        ensures
            r == (if self.procs().contains_key(pid) {
                Some(shared_mapping(self.abi.page, va, size, true))
            } else {
                None::<MappingPlan>
            }),
    {
        if self.processes.contains_key(&pid) {
            Some(plan_shared(self.abi.page, va, size, true))
        } else {
            None
        }
    }

    /// `fb_surface_create`: registers a zeroed surface that was mapped for the
    /// process at [`fb_surface_va`](Self::fb_surface_va). `frames` is what the
    /// allocator gave, `mapped` whether the mapping was made. On failure both
    /// results carry the errno.
    pub fn run_fb_surface_create_req(
        &mut self,
        m: &mut Machine,
        req: FbSurfaceCreateReq,
        pid: u16,
        root_pa: u64,
        format: Option<FbFormat>,
        frames: Option<FrameGrant>,
        mapped: bool,
    ) -> (r: (i64, i64))
        ensures
            match surface_size(req, format) {
                Err(e) => r == (e, e) && *final(self) == *old(self) && *final(m) == *old(m),
                Ok(size) => match frames {
                    None => r == (errno_ret(ENOMEM), errno_ret(ENOMEM)) && *final(self) == *old(self)
                        && *final(m) == *old(m),
                    Some(f) => {
                        let va = old(self).surface_cursor(pid);
                        let s = if old(self).surface_tables().contains_key(pid) {
                            old(self).surface_tables()[pid]
                        } else {
                            SurfacesView {
                                surfaces: Map::empty(),
                                next_id: 1,
                                next_va_cursor: old(self).abi.shared_base,
                            }
                        };
                        let moved = cursor_moved(s, size);
                        let free = Effect::Free(shared_backing(f.pa, size));
                        if va + size > old(self).abi.shared_end || !mapped {
                            &&& r == (errno_ret(ENOMEM), errno_ret(ENOMEM))
                            &&& final(self).surface_tables() == old(self).surface_tables().insert(
                                pid,
                                moved,
                            )
                            &&& final(m).effects@ == old(m).effects@.push(free)
                        } else if !old(self).procs().contains_key(pid) {
                            &&& r == (errno_ret(ESRCH), errno_ret(ESRCH))
                            &&& final(self).surface_tables() == old(self).surface_tables().insert(
                                pid,
                                moved,
                            )
                            &&& final(m).effects@ == old(m).effects@.push(
                                Effect::UnmapRange { root_pa, va, len: size },
                            ).push(free)
                        } else {
                            &&& r == (s.next_id as i64, va as i64)
                            &&& final(self).surface_tables() == old(self).surface_tables().insert(
                                pid,
                                surface_added(s, req, format->0, f, size),
                            )
                            &&& final(m).effects@ == old(m).effects@.push(
                                Effect::Fence { asid: pid, va: 0 },
                            ).push(Effect::Broadcast)
                        }
                    },
                },
            },
            *final(self) == (Orbit { surfaces: final(self).surfaces, ..*old(self) }),
            *final(m) == (Machine { effects: final(m).effects, ..*old(m) }),
    {
        let size: u64 = match Self::fb_surface_size(req, format) {
            Ok(s) => s,
            Err(e) => {
                return (e, e);
            },
        };
        let f: FrameGrant = match frames {
            Some(f) => f,
            None => {
                return (to_ret(ENOMEM), to_ret(ENOMEM));
            },
        };
        let backing = shared_frames(size).granted(f.pa);
        let mut s: ProcessSurfaces = match self.surfaces.by_pid.remove(&pid) {
            Some(s) => s,
            None => ProcessSurfaces::new(self.abi.shared_base),
        };
        let va: u64 = s.alloc_va(size);
        let end: u64 = self.abi.shared_end;
        let mut r: (i64, i64) = (to_ret(ENOMEM), to_ret(ENOMEM));
        if size > end || va > end - size || !mapped {
            m.effects.push(Effect::Free(backing));
        } else if !self.processes.contains_key(&pid) {
            m.effects.push(Effect::UnmapRange { root_pa, va, len: size });
            m.effects.push(Effect::Free(backing));
            r = (to_ret(ESRCH), to_ret(ESRCH));
        } else {
            let id: u32 = s.alloc_id();
            s.insert(
                id,
                SurfaceEntry {
                    user_va: va,
                    kdmap_kva: f.kva,
                    width: req.width,
                    height: req.height,
                    format: format.unwrap(),
                    size_bytes: size,
                    backing,
                },
            );
            m.effects.push(Effect::Fence { asid: pid, va: 0 });
            m.effects.push(Effect::Broadcast);
            r = (id as i64, va as i64);
        }
        let ghost n = s;
        let _ = self.surfaces.by_pid.insert(pid, s);
        proof {
            assert(self.surface_tables() =~= old(self).surface_tables().insert(pid, n@));
        }
        r
    }

    /// `fb_surface_destroy`: unmaps a surface and frees it.
    pub fn run_fb_surface_destroy_req(
        &mut self,
        m: &mut Machine,
        req: FbSurfaceDestroyReq,
        pid: u16,
        root_pa: u64,
    ) -> (r: i64)
        ensures
            ({
                let t = old(self).surface_tables();
                if !t.contains_key(pid) {
                    r == errno_ret(ESRCH) && *final(self) == *old(self) && *final(m) == *old(m)
                } else if !t[pid].surfaces.contains_key(req.handle) {
                    r == errno_ret(EBADF) && *final(self) == *old(self) && *final(m) == *old(m)
                } else {
                    let e = t[pid].surfaces[req.handle];
                    &&& r == 0
                    &&& final(self).surface_tables() == t.insert(
                        pid,
                        SurfacesView { surfaces: t[pid].surfaces.remove(req.handle), ..t[pid] },
                    )
                    &&& final(m).effects@ == old(m).effects@ + seq![
                        Effect::UnmapRange { root_pa, va: e.user_va, len: e.size_bytes },
                        Effect::Fence { asid: pid, va: 0 },
                        Effect::Broadcast,
                        Effect::Free(e.backing),
                    ]
                }
            }),
            *final(self) == (Orbit { surfaces: final(self).surfaces, ..*old(self) }),
            *final(m) == (Machine { effects: final(m).effects, ..*old(m) }),
    {
        let there: bool = match self.surfaces.by_pid.get(&pid) {
            Some(s) => s.surfaces.contains_key(&req.handle),
            None => {
                return to_ret(ESRCH);
            },
        };
        if !there {
            return to_ret(EBADF);
        }
        let mut s = self.surfaces.by_pid.remove(&pid).unwrap();
        let e = s.remove(req.handle).unwrap();
        let ghost n = s;
        let _ = self.surfaces.by_pid.insert(pid, s);
        m.effects.push(Effect::UnmapRange { root_pa, va: e.user_va, len: e.size_bytes });
        m.effects.push(Effect::Fence { asid: pid, va: 0 });
        m.effects.push(Effect::Broadcast);
        m.effects.push(Effect::Free(e.backing));
        proof {
            assert(self.surface_tables() =~= old(self).surface_tables().insert(pid, n@));
            assert(m.effects@ =~= old(m).effects@ + seq![
                Effect::UnmapRange { root_pa, va: e.user_va, len: e.size_bytes },
                Effect::Fence { asid: pid, va: 0 },
                Effect::Broadcast,
                Effect::Free(e.backing),
            ]);
        }
        0
    }

    /// Takes note of the leaves of a region that was mapped.
    fn note_leaves(m: &mut Machine, root_pa: u64, va: u64, size: u64)
        requires
            SharedUserPtr::aligned(va, size),
        ensures
            final(m).tables@ == old(m).tables@.insert(
                root_pa,
                leaves_made(
                    if old(m).tables@.contains_key(root_pa) {
                        old(m).tables@[root_pa]
                    } else {
                        Map::empty()
                    },
                    va as int,
                    va + size,
                ),
            ),
            *final(m) == (Machine { tables: final(m).tables, ..*old(m) }),
    {
        let ghost t0 = m.tables@;
        let mut leaves: UserLeaves = match m.tables.by_root.remove(&root_pa) {
            Some(l) => l,
            None => UserLeaves { leaves: BTreeMap::new() },
        };
        proof {
            if !t0.contains_key(root_pa) {
                assert(leaves@ =~= Map::empty());
            }
        }
        leaves.make(va, size);
        let ghost lv = leaves@;
        let _ = m.tables.by_root.insert(root_pa, leaves);
        proof {
            assert(m.tables@ =~= t0.insert(root_pa, lv));
        }
    }

    /// Registers a region that was mapped for a process and gives it a handle.
    fn share_region(
        &mut self,
        m: &mut Machine,
        pid: u16,
        root_pa: u64,
        va: u64,
        size: u64,
        pa: u64,
        slot: Slot,
        hart: usize,
    ) -> (r: Option<Fd>)
        requires
            SharedUserPtr::aligned(va, size),
            !old(self).regions@.contains_key(pa),
            regions_ok(old(self).regions@),
            old(self).handles_ok(),
            hart < old(m).frees@.len(),
        ensures
            ({
                let w = world(*old(self), *old(m));
                let h = handles_or_empty(w, pid);
                &&& world(*final(self), *final(m)) == w.region_shared(
                    pid,
                    root_pa,
                    va,
                    size,
                    pa,
                    slot,
                    hart as int,
                )
                &&& r == (if h.next_id > FD_MAX {
                    None::<Fd>
                } else {
                    Some(h.next_id)
                })
            }),
            regions_ok(final(self).regions@),
            final(self).handles_ok(),
            final(m).frees@.len() == old(m).frees@.len(),
            *final(self) == (Orbit {
                regions: final(self).regions,
                process_handles: final(self).process_handles,
                ..*old(self)
            }),
            *final(m) == (Machine {
                tables: final(m).tables,
                frees: final(m).frees,
                effects: final(m).effects,
                ..*old(m)
            }),
    {
        let ghost w0 = world(*self, *m);
        Self::note_leaves(m, root_pa, va, size);
        let backing = shared_frames(size).granted(pa);
        let _sup = SharedUserPtr::new(&mut self.regions, backing, va, size, pid);
        let r = self.add_handle(pid, slot.handle, slot.cloexec, slot.nonblock);
        proof {
            assert(self.handle_tables() =~= w0.handles.insert(pid, self.process_handles@[pid]@));
            assert(w0.handles.contains_key(pid) == old(self).process_handles@.contains_key(pid));
            assert(regions_ok(self.regions@)) by {
                assert forall|k: u64| #[trigger] self.regions@.contains_key(k) implies {
                    &&& self.regions@[k].refs > 0
                    &&& self.regions@[k].backing.pa == k
                    &&& SharedUserPtr::aligned(self.regions@[k].user_va, self.regions@[k].len)
                } by {
                    if k != pa {
                        assert(old(self).regions@.contains_key(k));
                    }
                }
            }
        }
        if r.is_none() {
            let _ = self.revoke_region(m, root_pa, pa);
            self.release_region(m, pa, hart);
        } else {
            let ghost e0 = m.effects@;
            m.effects.push(Effect::Fence { asid: pid, va: 0 });
            m.effects.push(Effect::Broadcast);
            proof {
                assert(m.effects@ =~= e0 + seq![
                    Effect::Fence { asid: pid, va: 0 },
                    Effect::Broadcast,
                ]);
                assert(world(*self, *m) =~= w0.region_shared(
                    pid,
                    root_pa,
                    va,
                    size,
                    pa,
                    slot,
                    hart as int,
                ));
            }
        }
        r
    }

    /// `nc_create`: registers a zeroed channel that was mapped for a process,
    /// gives it a handle and asks the network thread for a socket. `root_pa` is
    /// the process's page table, `region_size` the size that a channel of the
    /// requested one really has, `pa` what the allocator gave, `mapped` whether
    /// the mapping was made.
    pub fn run_nc_create_req(
        &mut self,
        m: &mut Machine,
        req: NetChannelCreationReq,
        pid: u16,
        root_pa: u64,
        hart: usize,
        region_size: Option<u64>,
        pa: Option<u64>,
        mapped: bool,
    ) -> (r: (i64, i64))
        requires
            regions_ok(old(self).regions@),
            old(self).handles_ok(),
            hart < old(m).frees@.len(),
            region_size matches Some(s) ==> s > 0 && s % 4096 == 0 && req.nc_vaddr + s <= u64::MAX,
            pa matches Some(a) ==> !old(self).regions@.contains_key(a),
        ensures
            ({
                let w = world(*old(self), *old(m));
                let alive = old(self).procs().contains_key(pid);
                match channel_refusal(req, region_size, pa, alive, mapped) {
                    Some((e, back)) => {
                        &&& r == (e, 0i64)
                        &&& *final(self) == *old(self)
                        &&& final(m).effects@ == old(m).effects@ + free_opt(back)
                        &&& *final(m) == (Machine { effects: final(m).effects, ..*old(m) })
                    },
                    None => {
                        let sup = SharedUserPtr { pa: pa->0 };
                        let shared = w.region_shared(
                            pid,
                            root_pa,
                            req.nc_vaddr,
                            region_size->0,
                            pa->0,
                            Slot {
                                handle: Handle::NetChannel(sup),
                                cloexec: false,
                                nonblock: false,
                            },
                            hart as int,
                        );
                        let fd = handles_or_empty(w, pid).next_id;
                        if fd > FD_MAX {
                            r == (errno_ret(EMFILE), 0i64) && world(*final(self), *final(m))
                                == shared
                        } else {
                            &&& world(*final(self), *final(m)) == shared.channel_requested(
                                hart as u64,
                                SocketReq {
                                    netchan: sup,
                                    nc_type: req.nc_type,
                                    pid,
                                    bind: req.bind,
                                },
                            )
                            &&& r == (if hart < w.net.reqs.len() && w.net.reqs[hart as int].len()
                                >= 7 {
                                (errno_ret(EAGAIN), 0i64)
                            } else {
                                (req.nc_vaddr as i64, fd as i64)
                            })
                        }
                    },
                }
            }),
            regions_ok(final(self).regions@),
            final(self).handles_ok(),
            *final(self) == (Orbit {
                regions: final(self).regions,
                process_handles: final(self).process_handles,
                ..*old(self)
            }),
            same_queues(*old(m), *final(m)),
    {
        proof {
            assert(m.effects@ + Seq::<Effect>::empty() =~= m.effects@);
        }
        let size: u64 = match region_size {
            Some(s) => s,
            None => {
                return (to_ret(EINVAL), 0);
            },
        };
        if req.nc_vaddr % 4096 != 0 {
            return (to_ret(EINVAL), 0);
        }
        if !layout_fits(size, 4096) {
            return (to_ret(EINVAL), 0);
        }
        let a: u64 = match pa {
            Some(a) => a,
            None => {
                return (to_ret(ENOMEM), 0);
            },
        };
        if !self.processes.contains_key(&pid) || !mapped {
            let backing = shared_frames(size).granted(a);
            m.effects.push(Effect::Free(backing));
            proof {
                assert(m.effects@ =~= old(m).effects@ + seq![Effect::Free(backing)]);
            }
            if !self.processes.contains_key(&pid) {
                return (to_ret(ESRCH), 0);
            }
            return (to_ret(ENOMEM), 0);
        }
        let sup = SharedUserPtr { pa: a };
        let slot = Slot { handle: Handle::NetChannel(sup), cloexec: false, nonblock: false };
        let fd: Fd = match self.share_region(m, pid, root_pa, req.nc_vaddr, size, a, slot, hart) {
            Some(fd) => fd,
            None => {
                return (to_ret(EMFILE), 0);
            },
        };
        let ghost w1 = world(*self, *m);
        let sreq = SocketReq { netchan: sup, nc_type: req.nc_type, pid, bind: req.bind };
        if hart < m.net.harts() {
            match m.net.request(hart as u64, sreq) {
                Ok(()) => {
                    let _ = sup.clone_ref(&mut self.regions);
                    proof {
                        assert(world(*self, *m) =~= w1.channel_requested(hart as u64, sreq));
                        assert forall|k: u64| #[trigger] self.regions@.contains_key(k) implies {
                            &&& self.regions@[k].refs > 0
                            &&& self.regions@[k].backing.pa == k
                            &&& SharedUserPtr::aligned(
                                self.regions@[k].user_va,
                                self.regions@[k].len,
                            )
                        } by {
                            assert(w1.regions.contains_key(k));
                        }
                    }
                },
                Err(_) => {
                    return (to_ret(EAGAIN), 0);
                },
            }
        }
        (req.nc_vaddr as i64, fd as i64)
    }

    /// `eventfd`: registers a counter page that was mapped for a process and
    /// gives it a handle. `root_pa` is the process's page table, `pa` what the
    /// allocator gave, `mapped` whether the mapping was made.
    pub fn run_eventfd_create_req(
        &mut self,
        m: &mut Machine,
        req: EventFdCreateReq,
        pid: u16,
        root_pa: u64,
        hart: usize,
        pa: Option<u64>,
        mapped: bool,
    ) -> (r: (i64, i64))
        requires
            regions_ok(old(self).regions@),
            old(self).handles_ok(),
            hart < old(m).frees@.len(),
            mapped ==> SharedUserPtr::aligned(req.vaddr_hint, old(self).abi.eventfd_size),
            pa matches Some(a) ==> !old(self).regions@.contains_key(a),
        ensures
            ({
                let w = world(*old(self), *old(m));
                let size = old(self).abi.eventfd_size;
                let alive = old(self).procs().contains_key(pid);
                match share_refusal(size, pa, alive, mapped) {
                    Some((e, back)) => {
                        &&& r == (e, 0i64)
                        &&& *final(self) == *old(self)
                        &&& final(m).effects@ == old(m).effects@ + free_opt(back)
                        &&& *final(m) == (Machine { effects: final(m).effects, ..*old(m) })
                    },
                    None => {
                        let fd = handles_or_empty(w, pid).next_id;
                        &&& world(*final(self), *final(m)) == w.region_shared(
                            pid,
                            root_pa,
                            req.vaddr_hint,
                            size,
                            pa->0,
                            Slot {
                                handle: Handle::EventFd(
                                    EventFdSlot {
                                        region: SharedUserPtr { pa: pa->0 },
                                        flags: req.flags,
                                        kernel_parked_tid: 0,
                                    },
                                ),
                                cloexec: req.flags & old(self).abi.efd_cloexec != 0,
                                nonblock: req.flags & old(self).abi.efd_nonblock != 0,
                            },
                            hart as int,
                        )
                        &&& r == (if fd > FD_MAX {
                            (errno_ret(EMFILE), 0i64)
                        } else {
                            (req.vaddr_hint as i64, fd as i64)
                        })
                    },
                }
            }),
            regions_ok(final(self).regions@),
            final(self).handles_ok(),
            *final(self) == (Orbit {
                regions: final(self).regions,
                process_handles: final(self).process_handles,
                ..*old(self)
            }),
            same_queues(*old(m), *final(m)),
    {
        proof {
            assert(m.effects@ + Seq::<Effect>::empty() =~= m.effects@);
        }
        let size: u64 = self.abi.eventfd_size;
        if !layout_fits(size, 4096) {
            return (to_ret(EINVAL), 0);
        }
        let a: u64 = match pa {
            Some(a) => a,
            None => {
                return (to_ret(ENOMEM), 0);
            },
        };
        if !self.processes.contains_key(&pid) || !mapped {
            let backing = shared_frames(size).granted(a);
            m.effects.push(Effect::Free(backing));
            proof {
                assert(m.effects@ =~= old(m).effects@ + seq![Effect::Free(backing)]);
            }
            if !self.processes.contains_key(&pid) {
                return (to_ret(ESRCH), 0);
            }
            return (to_ret(ENOMEM), 0);
        }
        let slot = Slot {
            handle: Handle::EventFd(
                EventFdSlot {
                    region: SharedUserPtr { pa: a },
                    flags: req.flags,
                    kernel_parked_tid: 0,
                },
            ),
            cloexec: req.flags & self.abi.efd_cloexec != 0,
            nonblock: req.flags & self.abi.efd_nonblock != 0,
        };
        match self.share_region(m, pid, root_pa, req.vaddr_hint, size, a, slot, hart) {
            Some(fd) => (req.vaddr_hint as i64, fd as i64),
            None => (to_ret(EMFILE), 0),
        }
    }

    /// `close`: drops a handle. A shared region is taken away from the user of
    /// the page table at `root_pa`; if that fails the result is `EIO`, with the
    /// handle gone all the same. A thread parked on a counter is woken.
    pub fn run_close_req(
        &mut self,
        m: &mut Machine,
        req: CloseHandleReq,
        pid: u16,
        root_pa: u64,
        hart: usize,
    ) -> (r: i64)
        requires
            regions_ok(old(self).regions@),
            old(self).handles_ok(),
            hart < old(m).frees@.len(),
        ensures
            ({
                let w = world(*old(self), *old(m));
                let h = handles_or_empty(w, pid);
                if !h.slots.contains_key(req.fd) {
                    r == errno_ret(EBADF) && *final(self) == *old(self) && *final(m) == *old(m)
                } else {
                    let handle = h.slots[req.fd].handle;
                    let bare = World {
                        handles: w.handles.insert(
                            pid,
                            HandlesView { slots: h.slots.remove(req.fd), ..h },
                        ),
                        wakes: match handle {
                            Handle::EventFd(slot) => if slot.kernel_parked_tid != 0 {
                                w.wakes.pushed(WakeEvent::Tid(slot.kernel_parked_tid))
                            } else {
                                w.wakes
                            },
                            _ => w.wakes,
                        },
                        ..w
                    };
                    &&& world(*final(self), *final(m)) == bare.handle_dropped(
                        root_pa,
                        handle,
                        hart as int,
                    )
                    &&& r == (match crate::teardown::region_behind(handle) {
                        None => 0i64,
                        Some(pa) => {
                            let v = bare.region_revoked(root_pa, pa);
                            if !v.regions.contains_key(pa) || v.regions[pa].revoked {
                                0
                            } else {
                                errno_ret(EIO)
                            }
                        },
                    })
                }
            }),
            regions_ok(final(self).regions@),
            final(self).handles_ok(),
            *final(self) == (Orbit {
                regions: final(self).regions,
                process_handles: final(self).process_handles,
                ..*old(self)
            }),
            same_queues(*old(m), *final(m)),
    {
        let ghost w0 = world(*self, *m);
        let there: bool = match self.process_handles.get(&pid) {
            Some(ph) => ph.get(req.fd).is_some(),
            None => false,
        };
        if !there {
            return to_ret(EBADF);
        }
        let mut ph = self.process_handles.remove(&pid).unwrap();
        let handle: Handle = ph.remove(req.fd).unwrap();
        let ghost n = ph;
        let _ = self.process_handles.insert(pid, ph);
        proof {
            assert(self.process_handles@ =~= old(self).process_handles@.insert(pid, n));
            assert(self.handle_tables() =~= w0.handles.insert(pid, n@));
        }
        match handle {
            Handle::EventFd(slot) => {
                if slot.kernel_parked_tid != 0 {
                    let _ = wake_queue_push(
                        &mut m.q.wakes,
                        WakeEvent::Tid(slot.kernel_parked_tid),
                    );
                }
                let gone: bool = self.revoke_region(m, root_pa, slot.region.pa);
                self.release_region(m, slot.region.pa, hart);
                if gone {
                    0
                } else {
                    to_ret(EIO)
                }
            },
            Handle::NetChannel(sup) => {
                let gone: bool = self.revoke_region(m, root_pa, sup.pa);
                self.release_region(m, sup.pa, hart);
                if gone {
                    0
                } else {
                    to_ret(EIO)
                }
            },
            _ => 0,
        }
    }

    /// `wake_tid`: wakes another thread of the caller's process.
    pub fn run_wake_tid_req(&self, wakes: &mut WakeQueue, req: WakeTidReq, caller_pid: u16) -> (r:
        i64)
        ensures
            ({
                let t = self.threads@;
                if !t.contains_key(req.target_tid) {
                    r == errno_ret(ESRCH) && final(wakes)@ == old(wakes)@
                } else if t[req.target_tid].pid != caller_pid {
                    r == errno_ret(EPERM) && final(wakes)@ == old(wakes)@
                } else {
                    &&& final(wakes)@ == old(wakes)@.pushed(WakeEvent::Tid(req.target_tid))
                    &&& r == (if old(wakes)@.items.len() < 128 {
                        0i64
                    } else {
                        errno_ret(EAGAIN)
                    })
                }
            }),
    {
        match self.threads.get(&req.target_tid) {
            None => to_ret(ESRCH),
            Some(t) => {
                if t.pid != caller_pid {
                    to_ret(EPERM)
                } else {
                    match wake_queue_push(wakes, WakeEvent::Tid(req.target_tid)) {
                        Ok(()) => 0,
                        Err(_) => to_ret(EAGAIN),
                    }
                }
            },
        }
    }
}

/// A mapping is made exactly if its size and alignment can exist, there are
/// frames for it, they could be mapped and the process is alive. It is refused
/// with 22 for its size, 12 for want of memory and 3 without a process, and
/// frames that were granted go back.
pub proof fn law_a_mapping_is_made_or_refused(
    req: MemMapReq,
    geometry: Option<MappingGeometry>,
    pa: Option<u64>,
    mapped: bool,
    alive: bool,
)
    ensures
        ({
            let (r, back) = mmap_outcome(req, geometry, pa, mapped, alive);
            let fits = geometry is Some && layout_ok(req.size, geometry->0.align);
            &&& r == 0 <==> fits && pa is Some && mapped && alive
            &&& !fits ==> r == -22 && back is None
            &&& fits && (pa is None || !mapped) ==> r == -12
            &&& fits && pa is Some && mapped && !alive ==> r == -3
            &&& back is Some <==> fits && pa is Some && !(mapped && alive)
            &&& back matches Some(b) ==> b.pa == pa->0 && b.size == req.size && b.align
                == geometry->0.align
            &&& back matches Some(b) ==> (b.pool == Pool::Shared <==> req.share_with_kernel)
        }),
{
}

/// Frames can be asked for exactly if their alignment is a power of two and
/// their size, rounded up, stays below half the address space.
pub proof fn law_sound_sizes_are_granted(size: u64, align: u64)
    ensures
        layout_ok(size, align) ==> align != 0 && size + align <= 0x8000_0000_0000_0000,
        !layout_ok(size, 0),
        size + 4096 <= 0x8000_0000_0000_0000 <==> layout_ok(size, 4096),
{
    assert(4096u64 & 4095u64 == 0) by (bit_vector);
}

/// The frames of a surface hold all its pixels, in whole pages and with less
/// than a page to spare. A surface without pixels or without a format is refused
/// with 22.
pub proof fn law_a_surface_holds_its_pixels(req: FbSurfaceCreateReq, format: Option<FbFormat>)
    ensures
        ({
            let r = surface_size(req, format);
            &&& format is None || req.width == 0 || req.height == 0 ==> refused(r, 22)
            &&& r matches Ok(n) ==> {
                let bytes = req.width * req.height * format->0.bytes_per_pixel;
                &&& n % 4096 == 0
                &&& bytes <= n < bytes + 4096
            }
            &&& r is Ok || refused(r, 22)
        }),
{
}

/// A new surface has its own number and its own addresses, behind all others,
/// and is as wide, as high and of the format that was asked for.
pub proof fn law_a_new_surface_is_as_asked(
    s: SurfacesView,
    req: FbSurfaceCreateReq,
    format: FbFormat,
    f: FrameGrant,
    size: u64,
    other: u32,
)
    requires
        s.next_va_cursor + size <= u64::MAX,
        s.next_id < u32::MAX,
    ensures
        ({
            let n = surface_added(s, req, format, f, size);
            let e = n.surfaces[s.next_id];
            &&& n.surfaces.contains_key(s.next_id)
            &&& e.width == req.width && e.height == req.height && e.format == format
            &&& e.user_va == s.next_va_cursor && e.size_bytes == size && e.kdmap_kva == f.kva
            &&& e.backing.pa == f.pa && e.backing.size == size && e.backing.pool == Pool::Shared
            &&& n.next_id == s.next_id + 1 && n.next_va_cursor == s.next_va_cursor + size
            &&& other != s.next_id ==> n.surfaces.contains_key(other) == s.surfaces.contains_key(other)
                && n.surfaces[other] == s.surfaces[other]
        }),
{
}

/// A region that is shared is its owner's, not revoked, held once, and lies where
/// it was mapped; its handle has the number that is returned.
pub proof fn law_a_shared_region_is_its_owners(
    w: World,
    pid: u16,
    root_pa: u64,
    va: u64,
    size: u64,
    pa: u64,
    slot: Slot,
    hart: int,
    other: u64,
)
    requires
        handles_or_empty(w, pid).next_id <= FD_MAX,
    ensures
        ({
            let v = w.region_shared(pid, root_pa, va, size, pa, slot, hart);
            let g = v.regions[pa];
            &&& v.regions.contains_key(pa)
            &&& g.owner_pid == pid && g.user_va == va && g.len == size && !g.revoked && g.refs == 1
            &&& g.backing.pa == pa && g.backing.size == size && g.backing.pool == Pool::Shared
            &&& v.handles[pid].slots[handles_or_empty(w, pid).next_id] == slot
            &&& other != pa ==> v.regions.contains_key(other) == w.regions.contains_key(other)
                && v.regions[other] == w.regions[other]
            &&& v.effects.len() == w.effects.len() + 2
            &&& v.effects[w.effects.len() as int] == (Effect::Fence { asid: pid, va: 0 })
            &&& v.effects.last() == Effect::Broadcast
        }),
{
}

/// A channel goes to the queue of the hart that made it, behind all others, and
/// its region has one holder more. A full queue takes none and changes nothing.
pub proof fn law_a_channel_is_queued_on_its_hart(w: World, hart: u64, req: SocketReq, other: int)
    requires
        hart < w.net.reqs.len(),
        w.regions.contains_key(req.netchan.pa),
        w.regions[req.netchan.pa].refs < u32::MAX,
    ensures
        ({
            let v = w.channel_requested(hart, req);
            let q = w.net.reqs[hart as int];
            &&& q.len() < 7 ==> v.net.reqs[hart as int].last() == req && v.net.reqs[hart as int].drop_last()
                == q && v.regions[req.netchan.pa].refs == w.regions[req.netchan.pa].refs + 1
            &&& q.len() >= 7 ==> v == w
            &&& 0 <= other < w.net.reqs.len() && other != hart ==> v.net.reqs[other]
                == w.net.reqs[other]
        }),
{
    let v = w.channel_requested(hart, req);
    if w.net.reqs[hart as int].len() < 7 {
        assert(v.net.reqs[hart as int].drop_last() =~= w.net.reqs[hart as int]);
    }
}

/// A region is shared exactly if its size can exist, there are frames, the
/// process is alive and they could be mapped; what was granted otherwise goes
/// back. A channel must lie on a page.
pub proof fn law_a_region_is_shared_or_refused(
    req: NetChannelCreationReq,
    size: u64,
    pa: Option<u64>,
    alive: bool,
    mapped: bool,
)
    ensures
        ({
            let r = share_refusal(size, pa, alive, mapped);
            let fits = size + 4096 <= 0x8000_0000_0000_0000;
            &&& r is None <==> fits && pa is Some && alive && mapped
            &&& r matches Some((e, back)) ==> {
                &&& !fits ==> e == -22
                &&& fits && pa is None ==> e == -12
                &&& fits && pa is Some && !alive ==> e == -3
                &&& fits && pa is Some && alive && !mapped ==> e == -12
                &&& back is Some <==> fits && pa is Some
                &&& back matches Some(b) ==> b.pa == pa->0 && b.size == size
            }
        }),
        req.nc_vaddr % 4096 == 0 ==> channel_refusal(req, Some(size), pa, alive, mapped)
            == share_refusal(size, pa, alive, mapped),
        req.nc_vaddr % 4096 != 0 ==> (channel_refusal(req, Some(size), pa, alive, mapped) matches Some(
            (e, back),
        ) && e == -22 && back is None),
        channel_refusal(req, None, pa, alive, mapped) matches Some((e, back)) && e == -22
            && back is None,
{
    assert(4096u64 & 4095u64 == 0) by (bit_vector);
}

/// A mapping that is shared is made of pages that the user reads and writes and
/// does not execute.
pub proof fn law_shared_pages_are_not_executable(p: PagePerms, va: u64, len: u64, revocable: bool)
    requires
        crate::orbital_elf::distinct_bits(p),
    ensures
        ({
            let m = shared_mapping(p, va, len, revocable);
            &&& m.va == va && m.len == len && m.page_size == 4096 && m.levels == 4
            &&& m.revocable == revocable
            &&& m.perms & p.r == p.r && m.perms & p.w == p.w && m.perms & p.u == p.u
            &&& m.perms & p.x == 0
        }),
{
    let (r, w, x, u) = (p.r, p.w, p.x, p.u);
    assert((r | w | u) & r == r && (r | w | u) & w == w && (r | w | u) & u == u && (r | w | u) & x
        == 0) by (bit_vector)
        requires
            r & x == 0 && w & x == 0 && x & u == 0,
    ;
}

/// A surface with pixels and a known format is refused for its size alone.
pub proof fn law_a_sound_surface_has_a_size(req: FbSurfaceCreateReq, format: FbFormat)
    requires
        req.width > 0,
        req.height > 0,
        req.width * req.height * format.bytes_per_pixel + 8192 <= 0x8000_0000_0000_0000,
    ensures
        surface_size(req, Some(format)) is Ok,
{
}

/// A process without handles has none, and its first one is number zero; one
/// with handles keeps them.
pub proof fn law_handles_are_numbered_from_zero(w: World, pid: u16, fd: u32)
    ensures
        !w.handles.contains_key(pid) ==> handles_or_empty(w, pid).next_id == 0
            && !handles_or_empty(w, pid).slots.contains_key(fd),
        w.handles.contains_key(pid) ==> handles_or_empty(w, pid) == w.handles[pid],
{
}

/// A region for which no number is left is taken away again: its pages are
/// unmapped, its frames go back and nobody holds it.
pub proof fn law_a_region_without_a_number_is_taken_away(
    w: World,
    pid: u16,
    root_pa: u64,
    va: u64,
    size: u64,
    pa: u64,
    slot: Slot,
    hart: int,
    p: u64,
)
    requires
        handles_or_empty(w, pid).next_id > FD_MAX,
        va % 4096 == 0,
        size % 4096 == 0,
        va + size <= u64::MAX,
        va <= p < va + size,
        p % 4096 == 0,
        0 <= hart < w.frees.len(),
    ensures
        ({
            let v = w.region_shared(pid, root_pa, va, size, pa, slot, hart);
            &&& !v.regions.contains_key(pa)
            &&& v.leaves_of(root_pa).contains_key(p) && !v.leaves_of(root_pa)[p].mapped
            &&& v.handles[pid].slots == handles_or_empty(w, pid).slots
            &&& w.frees[hart].len() < 63 ==> v.frees[hart].last().pa == pa
        }),
{
    let h = handles_or_empty(w, pid);
    let g = Region {
        backing: shared_backing(pa, size),
        user_va: va,
        len: size,
        owner_pid: pid,
        revoked: false,
        refs: 1,
    };
    let made = leaves_made(w.leaves_of(root_pa), va as int, va + size);
    let x = World {
        regions: w.regions.insert(pa, g),
        handles: w.handles.insert(pid, h.inserted(slot)),
        tables: w.tables.insert(root_pa, made),
        ..w
    };
    crate::shared_user_ptr::law_new_region_can_be_revoked(
        w.leaves_of(root_pa),
        va as int,
        va + size,
    );
    assert(x.leaves_of(root_pa) == made);
    crate::shared_user_ptr::law_revoked_range_is_unmapped(made, va as int, va + size);
    let y = x.region_revoked(root_pa, pa);
    let walk = crate::shared_user_ptr::revoke_walk(made, va as int, va + size);
    assert(x.regions[pa] == g);
    assert(y.regions[pa] == (Region { revoked: true, ..g }));
    assert(y.leaves_of(root_pa) == walk.0);
    let v = y.region_released(pa, hart);
    assert(v == w.region_shared(pid, root_pa, va, size, pa, slot, hart));
    assert(walk.0.contains_key(p) && !walk.0[p].mapped);
    assert(v.leaves_of(root_pa) == walk.0);
    assert(v.handles == x.handles);
}

/// The first surface of a process lies at the start of the shared area, and
/// each further one where the last ended.
pub proof fn law_surfaces_lie_one_behind_the_other(o: Orbit, pid: u16)
    ensures
        !o.surface_tables().contains_key(pid) ==> o.surface_cursor(pid) == o.abi.shared_base,
        o.surface_tables().contains_key(pid) ==> o.surface_cursor(pid)
            == o.surface_tables()[pid].next_va_cursor,
{
}

} // verus!
