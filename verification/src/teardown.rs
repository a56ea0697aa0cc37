//! Taking threads and processes apart.

use crate::handle::Handle;
#[allow(unused_imports)]
use crate::handle::HandlesView;
use crate::holds::let_go;
#[allow(unused_imports)]
use crate::holds::Holds;
use crate::orbit::{Effect, FutexWaiter, Orbit};
#[allow(unused_imports)]
use crate::orbit::published;
use crate::process::{MappingKind, PhysBacking, Process, Thread, UserMapping};
#[allow(unused_imports)]
use crate::rings::WakeEvent;
#[allow(unused_imports)]
use crate::shared_user_ptr::{
    first_fault, law_revoked_range_is_unmapped, page_clears, revoke_walk, Leaf, Region,
};
use crate::shared_user_ptr::{SharedUserPtr, UserLeaves};
#[allow(unused_imports)]
use crate::stdin::wakes_after_unregister;
#[allow(unused_imports)]
use crate::tables::{lists64, sorted32, sorted64};
use crate::tables::{keys64, members64};
use crate::world::Machine;
#[allow(unused_imports)]
use crate::world::{
    maps_ok, procs_ok, regions_ok, root_of, same_queues, same_rest, world, ProcView, World,
};
use vstd::prelude::*;

verus! {

broadcast use {vstd::laws_cmp::group_laws_cmp, vstd::std_specs::btree::group_btree_axioms};

/// Frees for an optional run of frames.
pub open spec fn free_opt(b: Option<PhysBacking>) -> Seq<Effect> {
    match b {
        Some(x) => seq![Effect::Free(x)],
        None => Seq::empty(),
    }
}

/// Frees for a list of runs.
pub open spec fn free_all(bs: Seq<PhysBacking>) -> Seq<Effect> {
    bs.map_values(|b: PhysBacking| Effect::Free(b))
}

/// Clearing one leaf and every translation of it.
pub open spec fn unmap_one(root_pa: u64, pid: u16, va: u64, levels: u8) -> Seq<Effect> {
    seq![Effect::UnmapPage { root_pa, va, levels }, Effect::Fence { asid: pid, va }, Effect::Broadcast]
}

/// Clearing the large pages of `[va, end)`.
pub open spec fn unmap_large(root_pa: u64, pid: u16, va: int, end: int, grain: int) -> Seq<Effect>
    decreases
            (if va < end {
                end - va
            } else {
                0
            }),
{
    if va >= end || grain <= 0 {
        Seq::empty()
    } else {
        unmap_one(root_pa, pid, va as u64, 3) + unmap_large(root_pa, pid, va + grain, end, grain)
    }
}

/// What taking a thread's mapping away asks of the machine.
pub open spec fn mapping_effects(m: UserMapping, root_pa: u64, pid: u16, grain: u64) -> Seq<Effect> {
    (match m.kind {
        MappingKind::Stack { .. } => unmap_large(
            root_pa,
            pid,
            m.vaddr as int,
            m.vaddr + m.len,
            grain as int,
        ),
        MappingKind::TrapFrame { .. } => unmap_one(root_pa, pid, m.vaddr, 4),
        MappingKind::Tls { .. } => unmap_one(root_pa, pid, m.vaddr, 3),
        _ => Seq::empty(),
    }) + free_opt(m.backing)
}

/// The mappings of `keys`, in order, taken away.
pub open spec fn mappings_effects(
    maps: Map<u64, UserMapping>,
    keys: Seq<u64>,
    root_pa: u64,
    pid: u16,
    grain: u64,
) -> Seq<Effect>
    decreases keys.len(),
{
    if keys.len() == 0 {
        Seq::empty()
    } else {
        mappings_effects(maps, keys.drop_last(), root_pa, pid, grain) + mapping_effects(
            maps[keys.last()],
            root_pa,
            pid,
            grain,
        )
    }
}

/// The addresses of the mappings that belong to a thread slot, ascending.
pub open spec fn slot_keys(maps: Map<u64, UserMapping>, slot: u16) -> Seq<u64> {
    sorted64(maps.dom()).filter(|va: u64| maps[va].kind.spec_slot() == Some(slot))
}

/// The frames behind the mappings of `keys`, in order.
pub open spec fn backings_of(maps: Map<u64, UserMapping>, keys: Seq<u64>) -> Seq<PhysBacking>
    decreases keys.len(),
{
    if keys.len() == 0 {
        Seq::empty()
    } else {
        let rest = backings_of(maps, keys.drop_last());
        match maps[keys.last()].backing {
            Some(b) => rest.push(b),
            None => rest,
        }
    }
}

/// The waiters that do not belong to `pid`.
pub open spec fn others(ws: Seq<FutexWaiter>, pid: u16) -> Seq<FutexWaiter> {
    ws.filter(|w: FutexWaiter| w.pid != pid)
}

/// The shared region behind a handle.
pub open spec fn region_behind(h: Handle) -> Option<u64> {
    match h {
        Handle::NetChannel(sup) => Some(sup.pa),
        Handle::EventFd(slot) => Some(slot.region.pa),
        _ => None,
    }
}

impl World {
    pub open spec fn with_effects(self, e: Seq<Effect>) -> World {
        World { effects: self.effects + e, ..self }
    }

    /// A thread is gone: its own frames, or the mappings of its slot, are
    /// taken away and the slot is free again.
    pub open spec fn thread_dropped(self, t: Thread, grain: u64) -> World {
        match t.slot {
            None => if t.pid == 0 {
                self.with_effects(free_opt(t.kernel_stack) + free_opt(t.kernel_trap_frame))
            } else {
                self
            },
            Some(slot) => if t.pid == 0 || !self.procs.contains_key(t.pid) {
                self
            } else {
                let p = self.procs[t.pid];
                let keys = slot_keys(p.maps, slot);
                World {
                    procs: self.procs.insert(
                        t.pid,
                        ProcView {
                            maps: p.maps.remove_keys(keys.to_set()),
                            thread_slots: p.thread_slots.remove(slot),
                            ..p
                        },
                    ),
                    ..self.with_effects(
                        mappings_effects(p.maps, keys, root_of(p.satp), t.pid, grain),
                    )
                }
            },
        }
    }

    /// No thread of `pid` waits on a futex any more.
    pub open spec fn futexes_swept(self, pid: u16) -> World {
        World {
            futexes: Map::new(
                |pa: u64| self.futexes.contains_key(pa) && others(self.futexes[pa], pid).len() > 0,
                |pa: u64| others(self.futexes[pa], pid),
            ),
            ..self
        }
    }

    /// The exit code reaches whoever is to have it: a parked waiter, else a
    /// live parent for a later wait. A detached process tells nobody.
    pub open spec fn exit_told(self, p: ProcView) -> World {
        if p.detached {
            self
        } else {
            match p.exit_waiter {
                Some(tid) => World {
                    threads: published(self.threads, tid, seq![0i64, p.exit_code as i64]),
                    wakes: if self.threads.contains_key(tid) {
                        self.wakes.pushed(WakeEvent::Tid(tid))
                    } else {
                        self.wakes
                    },
                    ..self
                },
                None => if p.parent_pid != 0 && self.procs.contains_key(p.parent_pid) {
                    let parent = self.procs[p.parent_pid];
                    World {
                        procs: self.procs.insert(
                            p.parent_pid,
                            ProcView {
                                dead_children: parent.dead_children.insert(p.pid, p.exit_code),
                                ..parent
                            },
                        ),
                        ..self
                    }
                } else {
                    self
                },
            }
        }
    }

    /// The process can no longer be typed to; threads parked on its input are
    /// woken.
    pub open spec fn input_gone(self, pid: u16) -> World {
        let wakes = wakes_after_unregister(self.stdin, pid, self.wakes);
        World {
            stdin: self.stdin.remove(pid),
            key_events: self.key_events.remove(pid),
            wakes: wakes_after_unregister(self.key_events, pid, wakes),
            ..self
        }
    }

    /// The surfaces of the process are gone.
    pub open spec fn surfaces_gone(self, pid: u16) -> World {
        World {
            surfaces: self.surfaces.remove(pid),
            ..self.with_effects(free_all(surface_frames(self, pid)))
        }
    }

    /// One socket is on its way to deletion, or remembered for later if the
    /// queue is full.
    pub open spec fn socket_dropped(self, s: u64) -> World {
        if self.net.deletions.len() < 7 {
            World {
                net: crate::net::NetView { deletions: self.net.deletions.push(s), ..self.net },
                ..self
            }
        } else {
            World { orphans: self.orphans.push(s), ..self }
        }
    }

    /// A list of sockets, the last one first.
    pub open spec fn sockets_dropped(self, list: Seq<u64>) -> World
        decreases list.len(),
    {
        if list.len() == 0 {
            self
        } else {
            self.socket_dropped(list.last()).sockets_dropped(list.drop_last())
        }
    }

    /// The leaves of the page table at `root_pa`.
    pub open spec fn leaves_of(self, root_pa: u64) -> Map<u64, Leaf> {
        if self.tables.contains_key(root_pa) {
            self.tables[root_pa]
        } else {
            Map::empty()
        }
    }

    /// The region at `pa` is taken away from the user of the page table at
    /// `root_pa`: every page is cleared and flushed, or, if any cannot be,
    /// nothing changes.
    pub open spec fn region_revoked(self, root_pa: u64, pa: u64) -> World {
        if !self.regions.contains_key(pa) || self.regions[pa].revoked {
            self
        } else {
            let g = self.regions[pa];
            let w = revoke_walk(self.leaves_of(root_pa), g.user_va as int, g.user_va + g.len);
            if w.1 is Ok {
                World {
                    tables: self.tables.insert(root_pa, w.0),
                    regions: self.regions.insert(pa, Region { revoked: true, ..g }),
                    effects: self.effects + page_clears(
                        root_pa,
                        g.owner_pid,
                        g.user_va as int,
                        g.user_va + g.len,
                    ),
                    ..self
                }
            } else {
                self
            }
        }
    }

    /// The regions and the frames that come back from them.
    pub open spec fn holds(self) -> Holds {
        Holds { regions: self.regions, frees: self.frees, effects: self.effects }
    }

    /// One holder of the region at `pa` lets go.
    pub open spec fn region_released(self, pa: u64, hart: int) -> World {
        let h = self.holds().released(pa, hart);
        World { regions: h.regions, frees: h.frees, effects: h.effects, ..self }
    }

    /// A handle of a process is gone. The region behind it is first taken away
    /// from the user and then let go.
    pub open spec fn handle_dropped(self, root_pa: u64, h: Handle, hart: int) -> World {
        match region_behind(h) {
            Some(pa) => self.region_revoked(root_pa, pa).region_released(pa, hart),
            None => self,
        }
    }

    /// A list of handles, the first one first.
    pub open spec fn handles_dropped(self, root_pa: u64, hs: Seq<Handle>, hart: int) -> World
        decreases hs.len(),
    {
        if hs.len() == 0 {
            self
        } else {
            self.handle_dropped(root_pa, hs[0], hart).handles_dropped(root_pa, hs.skip(1), hart)
        }
    }

    /// The handle table of the process is gone.
    pub open spec fn handle_table_gone(self, pid: u16, root_pa: u64, hart: int) -> World {
        World { handles: self.handles.remove(pid), ..self.handles_dropped(
            root_pa,
            handle_list(self, pid),
            hart,
        ) }
    }

    /// The memory of a process is gone, with its page table and every leaf in
    /// it.
    pub open spec fn memory_gone(self, p: ProcView) -> World {
        World {
            tables: self.tables.remove(root_of(p.satp)),
            ..self.with_effects(memory_effects(p))
        }
    }

    /// What is behind a process besides its handles and its memory is gone.
    pub open spec fn services_gone(self, p: ProcView) -> World {
        self.futexes_swept(p.pid).exit_told(p).with_effects(
            free_opt(p.argv_blob) + free_opt(p.envp_blob) + seq![Effect::RemoveSource(p.pid)],
        ).input_gone(p.pid).surfaces_gone(p.pid).sockets_dropped(sorted64(p.sockets))
    }

    /// Everything that a process had is given back. Its regions are taken away
    /// from the user before its page table goes.
    pub open spec fn process_dropped(self, p: ProcView, hart: int) -> World {
        self.services_gone(p).handle_table_gone(p.pid, root_of(p.satp), hart).memory_gone(p)
    }
}

/// What giving the memory of a process back asks of the machine: its frames are
/// freed, then its page table, and last the translations under its id are
/// flushed.
pub open spec fn memory_effects(p: ProcView) -> Seq<Effect> {
    free_all(p.heap_pages.reverse()) + free_all(backings_of(p.maps, sorted64(p.maps.dom()))) + seq![
        Effect::UnmapAll { root_pa: root_of(p.satp) },
        Effect::FreeRoot { pa: root_of(p.satp) },
        Effect::Fence { asid: p.pid, va: 0 },
        Effect::Broadcast,
    ]
}

/// The frames behind the surfaces of a process, by ascending id.
pub open spec fn surface_frames(w: World, pid: u16) -> Seq<PhysBacking> {
    if w.surfaces.contains_key(pid) {
        let s = w.surfaces[pid].surfaces;
        sorted32(s.dom()).map_values(|id: u32| s[id].backing)
    } else {
        Seq::empty()
    }
}

/// The objects behind the handles of a process, by ascending number.
pub open spec fn handle_list(w: World, pid: u16) -> Seq<Handle> {
    if w.handles.contains_key(pid) {
        let s = w.handles[pid].slots;
        sorted32(s.dom()).map_values(|fd: u32| s[fd].handle)
    } else {
        Seq::empty()
    }
}

impl Orbit {
    /// Physical address of the page table behind a translation value.
    fn root_pa_of(satp: crate::process::SatpValue) -> (r: u64)
        requires
            satp.ppn < 0x1000_0000_0000,
        ensures
            r == root_of(satp),
    {
        satp.ppn * 4096
    }

    fn unmap_one_page(m: &mut Machine, root_pa: u64, pid: u16, va: u64, levels: u8)
        ensures
            final(m).effects@ == old(m).effects@ + unmap_one(root_pa, pid, va, levels),
            *final(m) == (Machine { effects: final(m).effects, ..*old(m) }),
    {
        m.effects.push(Effect::UnmapPage { root_pa, va, levels });
        m.effects.push(Effect::Fence { asid: pid, va });
        m.effects.push(Effect::Broadcast);
        proof {
            assert(m.effects@ =~= old(m).effects@ + unmap_one(root_pa, pid, va, levels));
        }
    }

    fn drop_mapping(m: &mut Machine, u: UserMapping, root_pa: u64, pid: u16, grain: u64)
        requires
            u.vaddr + u.len <= u64::MAX,
            grain > 0,
        ensures
            final(m).effects@ == old(m).effects@ + mapping_effects(u, root_pa, pid, grain),
            *final(m) == (Machine { effects: final(m).effects, ..*old(m) }),
    {
        match u.kind {
            MappingKind::Stack { .. } => {
                let mut va: u64 = u.vaddr;
                let mut left: u64 = u.len;
                let ghost all = unmap_large(
                    root_pa,
                    pid,
                    u.vaddr as int,
                    u.vaddr + u.len,
                    grain as int,
                );
                proof {
                    assert(m.effects@ + all =~= old(m).effects@ + all);
                }
                while left > 0
                    invariant
                        va + left <= u64::MAX,
                        left > 0 ==> va + left == u.vaddr + u.len,
                        grain > 0,
                        left == 0 ==> m.effects@ == old(m).effects@ + all,
                        left > 0 ==> m.effects@ + unmap_large(
                            root_pa,
                            pid,
                            va as int,
                            u.vaddr + u.len,
                            grain as int,
                        ) == old(m).effects@ + all,
                        *m == (Machine { effects: m.effects, ..*old(m) }),
                    decreases left,
                {
                    let ghost before = m.effects@;
                    Self::unmap_one_page(m, root_pa, pid, va, 3);
                    proof {
                        let rest = unmap_large(
                            root_pa,
                            pid,
                            va + grain,
                            u.vaddr + u.len,
                            grain as int,
                        );
                        assert(m.effects@ + rest =~= before + (unmap_one(root_pa, pid, va, 3) + rest));
                        if left <= grain {
                            assert(rest =~= Seq::<Effect>::empty());
                            assert(m.effects@ + rest =~= m.effects@);
                        }
                    }
                    if left <= grain {
                        left = 0;
                    } else {
                        va = va + grain;
                        left = left - grain;
                    }
                }
                proof {
                    if u.len == 0 {
                        assert(all =~= Seq::<Effect>::empty());
                    }
                }
            },
            MappingKind::TrapFrame { .. } => {
                Self::unmap_one_page(m, root_pa, pid, u.vaddr, 4);
            },
            MappingKind::Tls { .. } => {
                Self::unmap_one_page(m, root_pa, pid, u.vaddr, 3);
            },
            _ => {},
        }
        match u.backing {
            Some(b) => {
                m.effects.push(Effect::Free(b));
            },
            None => {},
        }
        proof {
            assert(m.effects@ =~= old(m).effects@ + mapping_effects(u, root_pa, pid, grain));
        }
    }

    /// Gives back what a thread had: the frames of a kernel thread, or the
    /// mappings of a user thread's slot, and the slot itself.
    pub fn dealloc_thread(&mut self, m: &mut Machine, thread: Thread)
        requires
            procs_ok(old(self).procs()),
            old(self).abi.stack_grain > 0,
        ensures
            world(*final(self), *final(m)) == world(*old(self), *old(m)).thread_dropped(
                thread,
                old(self).abi.stack_grain,
            ),
            procs_ok(final(self).procs()),
            *final(self) == (Orbit { processes: final(self).processes, ..*old(self) }),
            *final(m) == (Machine { effects: final(m).effects, ..*old(m) }),
    {
        let ghost w0 = world(*self, *m);
        let slot: u16 = match thread.slot {
            None => {
                if thread.pid == 0 {
                    match thread.kernel_stack {
                        Some(b) => {
                            m.effects.push(Effect::Free(b));
                        },
                        None => {},
                    }
                    match thread.kernel_trap_frame {
                        Some(b) => {
                            m.effects.push(Effect::Free(b));
                        },
                        None => {},
                    }
                    proof {
                        assert(m.effects@ =~= w0.effects + (free_opt(thread.kernel_stack)
                            + free_opt(thread.kernel_trap_frame)));
                    }
                }
                return ;
            },
            Some(s) => s,
        };
        if thread.pid == 0 {
            return ;
        }
        let pid: u16 = thread.pid;
        if !self.processes.contains_key(&pid) {
            return ;
        }
        let grain: u64 = self.abi.stack_grain;
        proof {
            assert(self.procs().contains_key(pid));
        }
        let mut p = self.processes.remove(&pid).unwrap();
        let ghost p0 = p@;
        let root_pa: u64 = Self::root_pa_of(p.satp);
        let keys = keys64(&p.maps);
        let ghost mine = |va: u64| p0.maps[va].kind.spec_slot() == Some(slot);
        let ghost mut taken: Seq<u64> = Seq::empty();
        let mut i: usize = 0;
        proof {
            assert(p0.maps.remove_keys(taken.to_set()) =~= p0.maps);
            assert(keys@.take(0).filter(mine) =~= Seq::<u64>::empty()) by {
                reveal(Seq::filter);
            }
            assert(m.effects@ =~= w0.effects + mappings_effects(
                p0.maps,
                taken,
                root_pa,
                pid,
                grain,
            ));
        }
        while i < keys.len()
            invariant
                i <= keys@.len(),
                keys@ == sorted64(p0.maps.dom()),
                lists64(keys@, p0.maps.dom()),
                mine == (|va: u64| p0.maps[va].kind.spec_slot() == Some(slot)),
                taken == keys@.take(i as int).filter(mine),
                p.maps@ == p0.maps.remove_keys(taken.to_set()),
                forall|j: int| i <= j < keys@.len() ==> !taken.contains(#[trigger] keys@[j]),
                p@ == (ProcView { maps: p.maps@, ..p0 }),
                maps_ok(p0.maps),
                grain > 0,
                m.effects@ == w0.effects + mappings_effects(p0.maps, taken, root_pa, pid, grain),
                *m == (Machine { effects: m.effects, ..*old(m) }),
            decreases keys@.len() - i,
        {
            let va: u64 = keys[i];
            proof {
                assert(keys@.contains(va));
                assert(p0.maps.contains_key(va));
                assert(!taken.contains(va));
                assert(!taken.to_set().contains(va));
                assert(p.maps@.contains_key(va));
                let t = keys@.take(i + 1);
                assert(t.drop_last() =~= keys@.take(i as int));
                assert(t.last() == va);
                reveal(Seq::filter);
            }
            let u: UserMapping = *p.maps.get(&va).unwrap();
            let hit: bool = match u.kind.slot() {
                Some(s) => s == slot,
                None => false,
            };
            let ghost before = taken;
            if hit {
                let _ = p.maps.remove(&va);
                let ghost e0 = m.effects@;
                Self::drop_mapping(m, u, root_pa, pid, grain);
                proof {
                    taken = taken.push(va);
                    assert(taken.drop_last() =~= before);
                    assert(taken.to_set() =~= before.to_set().insert(va)) by {
                        broadcast use vstd::seq_lib::group_seq_properties;

                    }
                    assert(p.maps@ =~= p0.maps.remove_keys(taken.to_set()));
                    assert(m.effects@ =~= w0.effects + mappings_effects(
                        p0.maps,
                        taken,
                        root_pa,
                        pid,
                        grain,
                    ));
                    assert forall|j: int| i + 1 <= j < keys@.len() implies !taken.contains(
                        #[trigger] keys@[j],
                    ) by {
                        assert(!before.contains(keys@[j]));
                        if taken.contains(keys@[j]) {
                            let k = choose|k: int| 0 <= k < taken.len() && taken[k] == keys@[j];
                            if k < before.len() {
                                assert(before[k] == keys@[j]);
                            }
                        }
                    }
                }
            }
            i = i + 1;
        }
        proof {
            assert(keys@.take(i as int) =~= keys@);
        }
        p.thread_slots.free(slot);
        let ghost n = p;
        let _ = self.processes.insert(pid, p);
        proof {
            assert(self.processes@ =~= old(self).processes@.insert(pid, n));
            assert(self.procs() =~= old(self).procs().insert(pid, n@));
            let w = world(*self, *m);
            assert(w =~= w0.thread_dropped(thread, grain));
            assert(procs_ok(self.procs())) by {
                assert forall|q: u16| #[trigger] self.procs().contains_key(q) implies {
                    &&& self.procs()[q].pid == q
                    &&& self.procs()[q].satp.ppn < 0x1000_0000_0000
                    &&& maps_ok(self.procs()[q].maps)
                } by {
                    assert(old(self).procs().contains_key(q));
                }
            }
        }
    }
}

impl Orbit {
    /// Drops every futex waiter of `pid`, and every word nobody waits on then.
    pub fn sweep_futexes(&mut self, pid: u16)
        ensures
            forall|m: Machine| #[trigger]
                world(*final(self), m) == world(*old(self), m).futexes_swept(pid),
            *final(self) == (Orbit { futex_waiters: final(self).futex_waiters, ..*old(self) }),
    {
        let keys = keys64(&self.futex_waiters);
        let ghost start = self.futexes();
        let mut i: usize = 0;
        proof {
            assert(start.dom() =~= self.futex_waiters@.dom());
        }
        while i < keys.len()
            invariant
                i <= keys@.len(),
                start == old(self).futexes(),
                keys@ == sorted64(start.dom()),
                lists64(keys@, start.dom()),
                forall|k: u64| #[trigger]
                    self.futexes().contains_key(k) ==> start.contains_key(k),
                forall|j: int|
                    #![trigger keys@[j]]
                    0 <= j < i ==> {
                        let k = keys@[j];
                        let left = others(start[k], pid);
                        &&& self.futexes().contains_key(k) <==> left.len() > 0
                        &&& left.len() > 0 ==> self.futexes()[k] == left
                    },
                forall|j: int|
                    #![trigger keys@[j]]
                    i <= j < keys@.len() ==> self.futexes().contains_key(keys@[j])
                        && self.futexes()[keys@[j]] == start[keys@[j]],
                *self == (Orbit { futex_waiters: self.futex_waiters, ..*old(self) }),
            decreases keys@.len() - i,
        {
            let pa: u64 = keys[i];
            let ghost before = self.futexes();
            proof {
                assert(keys@.contains(pa));
                assert(self.futexes().contains_key(pa));
                assert(self.futex_waiters@.contains_key(pa));
            }
            let ws = self.futex_waiters.remove(&pa).unwrap();
            let left = keep_others(&ws, pid);
            let ghost lv = left@;
            if left.len() > 0 {
                let _ = self.futex_waiters.insert(pa, left);
                proof {
                    assert(self.futexes() =~= before.insert(pa, lv));
                }
            } else {
                proof {
                    assert(self.futexes() =~= before.remove(pa));
                }
            }
            proof {
                assert forall|j: int| #![trigger keys@[j]] 0 <= j < keys@.len() && j != i implies keys@[j]
                    != pa by {
                    if j < i {
                        assert(keys@[j] < keys@[i as int]);
                    } else {
                        assert(keys@[i as int] < keys@[j]);
                    }
                }
            }
            i = i + 1;
        }
        proof {
            assert forall|m: Machine| #[trigger] world(*self, m) == world(
                *old(self),
                m,
            ).futexes_swept(pid) by {
                let goal = world(*old(self), m).futexes_swept(pid).futexes;
                assert forall|k: u64| #[trigger] self.futexes().contains_key(k)
                    <==> goal.contains_key(k) by {
                    if start.contains_key(k) {
                        assert(keys@.contains(k));
                        let j = choose|j: int| 0 <= j < keys@.len() && keys@[j] == k;
                        assert(keys@[j] == k);
                    }
                }
                assert forall|k: u64| self.futexes().contains_key(k) implies #[trigger] self.futexes()[k]
                    == goal[k] by {
                    assert(keys@.contains(k));
                    let j = choose|j: int| 0 <= j < keys@.len() && keys@[j] == k;
                    assert(keys@[j] == k);
                }
                assert(self.futexes() =~= goal);
                assert(world(*self, m) =~= world(*old(self), m).futexes_swept(pid));
            }
        }
    }

    /// Tells whoever is to know that a process ended, and how.
    pub fn tell_exit(&mut self, m: &mut Machine, p: &Process)
        requires
            procs_ok(old(self).procs()),
        ensures
            world(*final(self), *final(m)) == world(*old(self), *old(m)).exit_told(p@),
            procs_ok(final(self).procs()),
            *final(self) == (Orbit {
                processes: final(self).processes,
                threads: final(self).threads,
                ..*old(self)
            }),
            *final(m) == (Machine { q: final(m).q, ..*old(m) }),
            same_queues(*old(m), *final(m)),
    {
        if p.detached {
            return ;
        }
        match p.exit_waiter {
            Some(tid) => {
                let mut vals: Vec<i64> = Vec::new();
                vals.push(0);
                vals.push(p.exit_code as i64);
                proof {
                    assert(vals@ =~= seq![0i64, p.exit_code as i64]);
                }
                self.publish_pending_for_tid(&mut m.q.wakes, tid, vals.as_slice());
            },
            None => {
                if p.parent_pid != 0 && self.processes.contains_key(&p.parent_pid) {
                    proof {
                        assert(self.procs().contains_key(p.parent_pid));
                    }
                    let mut parent = self.processes.remove(&p.parent_pid).unwrap();
                    let _ = parent.dead_children.insert(p.pid, p.exit_code);
                    let ghost n = parent;
                    let _ = self.processes.insert(p.parent_pid, parent);
                    proof {
                        assert(self.procs() =~= old(self).procs().insert(p.parent_pid, n@));
                        assert(world(*self, *m) =~= world(*old(self), *old(m)).exit_told(p@));
                        assert forall|q: u16| #[trigger] self.procs().contains_key(q) implies {
                            &&& self.procs()[q].pid == q
                            &&& self.procs()[q].satp.ppn < 0x1000_0000_0000
                            &&& maps_ok(self.procs()[q].maps)
                        } by {
                            assert(old(self).procs().contains_key(q));
                        }
                    }
                }
            },
        }
    }

    fn drop_surfaces(&mut self, m: &mut Machine, pid: u16)
        ensures
            world(*final(self), *final(m)) == world(*old(self), *old(m)).surfaces_gone(pid),
            *final(self) == (Orbit { surfaces: final(self).surfaces, ..*old(self) }),
            *final(m) == (Machine { effects: final(m).effects, ..*old(m) }),
    {
        let ghost w0 = world(*self, *m);
        match crate::surface::unregister(&mut self.surfaces, pid) {
            Some(s) => {
                let mut s = s;
                let ghost sv = s@.surfaces;
                let all = s.drain_all();
                let ghost frames = surface_frames(w0, pid);
                proof {
                    assert(self.surface_tables() =~= w0.surfaces.remove(pid));
                    assert(w0.surfaces[pid].surfaces == sv);
                    assert(frames.len() == all@.len());
                    assert(frames.take(0) =~= Seq::<PhysBacking>::empty());
                    assert(free_all(frames.take(0)) =~= Seq::<Effect>::empty());
                    assert(m.effects@ =~= w0.effects + free_all(frames.take(0)));
                }
                let mut i: usize = 0;
                while i < all.len()
                    invariant
                        i <= all@.len(),
                        frames.len() == all@.len(),
                        forall|j: int| 0 <= j < all@.len() ==> (#[trigger] all@[j]).1.backing
                            == frames[j],
                        m.effects@ == w0.effects + free_all(frames.take(i as int)),
                        *m == (Machine { effects: m.effects, ..*old(m) }),
                    decreases all@.len() - i,
                {
                    m.effects.push(Effect::Free(all[i].1.backing));
                    proof {
                        assert(m.effects@ =~= w0.effects + free_all(frames.take(i + 1)));
                    }
                    i = i + 1;
                }
                proof {
                    assert(frames.take(i as int) =~= frames);
                    assert(world(*self, *m) =~= w0.surfaces_gone(pid));
                }
            },
            None => {
                proof {
                    assert(self.surface_tables() =~= w0.surfaces.remove(pid));
                    assert(free_all(surface_frames(w0, pid)) =~= Seq::<Effect>::empty());
                    assert(m.effects@ =~= w0.effects + free_all(surface_frames(w0, pid)));
                    assert(world(*self, *m) =~= w0.surfaces_gone(pid));
                }
            },
        }
    }

    fn drop_sockets(&mut self, m: &mut Machine, list: &Vec<u64>)
        ensures
            world(*final(self), *final(m)) == world(*old(self), *old(m)).sockets_dropped(list@),
            *final(self) == (Orbit {
                orphaned_sockets: final(self).orphaned_sockets,
                ..*old(self)
            }),
            *final(m) == (Machine { net: final(m).net, ..*old(m) }),
    {
        let mut n: usize = list.len();
        let ghost goal = world(*self, *m).sockets_dropped(list@);
        proof {
            assert(list@.take(n as int) =~= list@);
        }
        while n > 0
            invariant
                n <= list@.len(),
                goal == world(*self, *m).sockets_dropped(list@.take(n as int)),
                *self == (Orbit { orphaned_sockets: self.orphaned_sockets, ..*old(self) }),
                *m == (Machine { net: m.net, ..*old(m) }),
            decreases n,
        {
            let ghost w = world(*self, *m);
            let s: u64 = list[n - 1];
            proof {
                let t = list@.take(n as int);
                assert(t.drop_last() =~= list@.take(n - 1));
                assert(t.last() == s);
            }
            match m.net.delete_socket(s) {
                Ok(()) => {},
                Err(_) => {
                    self.orphaned_sockets.push(s);
                },
            }
            proof {
                assert(world(*self, *m) =~= w.socket_dropped(s));
            }
            n = n - 1;
        }
        proof {
            assert(list@.take(0).len() == 0);
        }
    }

    /// Takes the region at `pa` away from the user of the page table at
    /// `root_pa`. Tells whether its leaves are gone.
    pub fn revoke_region(&mut self, m: &mut Machine, root_pa: u64, pa: u64) -> (r: bool)
        requires
            regions_ok(old(self).regions@),
        ensures
            world(*final(self), *final(m)) == world(*old(self), *old(m)).region_revoked(
                root_pa,
                pa,
            ),
            regions_ok(final(self).regions@),
            final(self).regions@.dom() == old(self).regions@.dom(),
            r == (!old(self).regions@.contains_key(pa) || final(self).regions@[pa].revoked),
            *final(self) == (Orbit { regions: final(self).regions, ..*old(self) }),
            *final(m) == (Machine {
                tables: final(m).tables,
                effects: final(m).effects,
                ..*old(m)
            }),
    {
        let ghost w0 = world(*self, *m);
        let g = match self.regions.regions.get(&pa) {
            Some(g) => *g,
            None => {
                return true;
            },
        };
        if g.revoked {
            return true;
        }
        if !m.tables.by_root.contains_key(&root_pa) {
            proof {
                assert(!w0.tables.contains_key(root_pa));
                assert(first_fault(w0.leaves_of(root_pa), g.user_va as int, g.user_va + g.len)
                    is Some);
            }
            return false;
        }
        let mut leaves: UserLeaves = m.tables.by_root.remove(&root_pa).unwrap();
        proof {
            assert(w0.tables.contains_key(root_pa));
            assert(leaves@ == w0.leaves_of(root_pa));
        }
        let sup = SharedUserPtr { pa };
        let r = sup.revoke(&mut self.regions, &mut leaves, root_pa, &mut m.effects);
        let ghost lv = leaves@;
        let _ = m.tables.by_root.insert(root_pa, leaves);
        proof {
            assert(m.tables@ =~= w0.tables.insert(root_pa, lv));
            if r is Err {
                assert(m.tables@ =~= w0.tables);
            }
            assert(world(*self, *m) =~= w0.region_revoked(root_pa, pa));
            assert(self.regions@.dom() =~= old(self).regions@.dom());
            assert forall|k: u64| #[trigger] self.regions@.contains_key(k) implies {
                &&& self.regions@[k].refs > 0
                &&& self.regions@[k].backing.pa == k
                &&& SharedUserPtr::aligned(self.regions@[k].user_va, self.regions@[k].len)
            } by {
                assert(old(self).regions@.contains_key(k));
            }
        }
        match r {
            Ok(()) => true,
            Err(_) => false,
        }
    }

    /// Drops one hold on the region at `pa`.
    pub fn release_region(&mut self, m: &mut Machine, pa: u64, hart: usize)
        requires
            regions_ok(old(self).regions@),
            hart < old(m).frees@.len(),
        ensures
            world(*final(self), *final(m)) == world(*old(self), *old(m)).region_released(
                pa,
                hart as int,
            ),
            regions_ok(final(self).regions@),
            final(m).frees@.len() == old(m).frees@.len(),
            *final(self) == (Orbit { regions: final(self).regions, ..*old(self) }),
            *final(m) == (Machine {
                frees: final(m).frees,
                effects: final(m).effects,
                ..*old(m)
            }),
    {
        let ghost w0 = world(*self, *m);
        let_go(&mut self.regions, &mut m.frees, &mut m.effects, pa, hart);
        proof {
            assert(world(*self, *m) =~= w0.region_released(pa, hart as int));
        }
    }

    /// Gives back what is behind one handle of the process whose page table is
    /// at `root_pa`.
    pub fn drop_handle(&mut self, m: &mut Machine, root_pa: u64, h: Handle, hart: usize)
        requires
            regions_ok(old(self).regions@),
            hart < old(m).frees@.len(),
        ensures
            world(*final(self), *final(m)) == world(*old(self), *old(m)).handle_dropped(
                root_pa,
                h,
                hart as int,
            ),
            regions_ok(final(self).regions@),
            final(m).frees@.len() == old(m).frees@.len(),
            *final(self) == (Orbit { regions: final(self).regions, ..*old(self) }),
            *final(m) == (Machine {
                tables: final(m).tables,
                frees: final(m).frees,
                effects: final(m).effects,
                ..*old(m)
            }),
    {
        match h {
            Handle::NetChannel(sup) => {
                let _ = self.revoke_region(m, root_pa, sup.pa);
                self.release_region(m, sup.pa, hart);
            },
            Handle::EventFd(slot) => {
                let _ = self.revoke_region(m, root_pa, slot.region.pa);
                self.release_region(m, slot.region.pa, hart);
            },
            _ => {},
        }
    }

    fn drop_handle_table(&mut self, m: &mut Machine, pid: u16, root_pa: u64, hart: usize)
        requires
            regions_ok(old(self).regions@),
            hart < old(m).frees@.len(),
        ensures
            world(*final(self), *final(m)) == world(*old(self), *old(m)).handle_table_gone(
                pid,
                root_pa,
                hart as int,
            ),
            final(self).process_handles@ == old(self).process_handles@.remove(pid),
            regions_ok(final(self).regions@),
            final(m).frees@.len() == old(m).frees@.len(),
            *final(self) == (Orbit {
                regions: final(self).regions,
                process_handles: final(self).process_handles,
                ..*old(self)
            }),
            *final(m) == (Machine {
                tables: final(m).tables,
                frees: final(m).frees,
                effects: final(m).effects,
                ..*old(m)
            }),
    {
        let ghost w0 = world(*self, *m);
        let ghost list = handle_list(w0, pid);
        match self.process_handles.remove(&pid) {
            Some(ph) => {
                let hs = ph.into_iter();
                let ghost bare = world(*self, *m);
                proof {
                    assert(self.handle_tables() =~= w0.handles.remove(pid));
                    assert(bare =~= World { handles: w0.handles.remove(pid), ..w0 });
                    assert(hs@.len() == list.len());
                    lemma_handles_frame(w0, root_pa, list, hart as int, w0.handles.remove(pid));
                    assert(list.skip(0) =~= list);
                }
                let mut i: usize = 0;
                while i < hs.len()
                    invariant
                        i <= hs@.len(),
                        hs@.len() == list.len(),
                        forall|j: int| 0 <= j < hs@.len() ==> (#[trigger] hs@[j]).1 == list[j],
                        self.process_handles@ == old(self).process_handles@.remove(pid),
                        regions_ok(self.regions@),
                        hart < m.frees@.len(),
                        m.frees@.len() == old(m).frees@.len(),
                        bare.handles_dropped(root_pa, list, hart as int) == world(
                            *self,
                            *m,
                        ).handles_dropped(root_pa, list.skip(i as int), hart as int),
                        *self == (Orbit {
                            regions: self.regions,
                            process_handles: self.process_handles,
                            ..*old(self)
                        }),
                        *m == (Machine {
                            tables: m.tables,
                            frees: m.frees,
                            effects: m.effects,
                            ..*old(m)
                        }),
                    decreases hs@.len() - i,
                {
                    proof {
                        let t = list.skip(i as int);
                        assert(t[0] == hs@[i as int].1);
                        assert(t.skip(1) =~= list.skip(i + 1));
                    }
                    self.drop_handle(m, root_pa, hs[i].1, hart);
                    i = i + 1;
                }
                proof {
                    assert(list.skip(i as int).len() == 0);
                }
            },
            None => {
                proof {
                    assert(self.process_handles@ =~= old(self).process_handles@.remove(pid));
                    assert(self.handle_tables() =~= w0.handles.remove(pid));
                    assert(world(*self, *m) =~= w0.handle_table_gone(pid, root_pa, hart as int));
                }
            },
        }
    }

    fn free_process_memory(m: &mut Machine, p: &Process)
        requires
            p.satp.ppn < 0x1000_0000_0000,
        ensures
            final(m).effects@ == old(m).effects@ + memory_effects(p@),
            final(m).tables@ == old(m).tables@.remove(root_of(p.satp)),
            *final(m) == (Machine {
                tables: final(m).tables,
                effects: final(m).effects,
                ..*old(m)
            }),
    {
        let ghost e0 = m.effects@;
        let ghost rev = p@.heap_pages.reverse();
        let mut n: usize = p.heap_pages.len();
        proof {
            assert(free_all(rev.take(0)) =~= Seq::<Effect>::empty());
            assert(m.effects@ =~= e0 + free_all(rev.take(0)));
        }
        while n > 0
            invariant
                n <= p.heap_pages@.len(),
                rev == p.heap_pages@.reverse(),
                m.effects@ == e0 + free_all(rev.take(p.heap_pages@.len() - n)),
                *m == (Machine { effects: m.effects, ..*old(m) }),
            decreases n,
        {
            m.effects.push(Effect::Free(p.heap_pages[n - 1]));
            proof {
                assert(m.effects@ =~= e0 + free_all(rev.take(p.heap_pages@.len() - n + 1)));
            }
            n = n - 1;
        }
        proof {
            assert(rev.take(rev.len() as int) =~= rev);
        }
        let ghost e1 = m.effects@;
        let keys = keys64(&p.maps);
        let mut i: usize = 0;
        proof {
            assert(free_all(backings_of(p@.maps, keys@.take(0))) =~= Seq::<Effect>::empty());
            assert(m.effects@ =~= e1 + free_all(backings_of(p@.maps, keys@.take(0))));
        }
        while i < keys.len()
            invariant
                i <= keys@.len(),
                keys@ == sorted64(p@.maps.dom()),
                lists64(keys@, p@.maps.dom()),
                m.effects@ == e1 + free_all(backings_of(p@.maps, keys@.take(i as int))),
                *m == (Machine { effects: m.effects, ..*old(m) }),
            decreases keys@.len() - i,
        {
            let va: u64 = keys[i];
            proof {
                assert(keys@.contains(va));
                assert(p.maps@.contains_key(va));
                let t = keys@.take(i + 1);
                assert(t.drop_last() =~= keys@.take(i as int));
                assert(t.last() == va);
            }
            let u: UserMapping = *p.maps.get(&va).unwrap();
            match u.backing {
                Some(b) => {
                    m.effects.push(Effect::Free(b));
                },
                None => {},
            }
            proof {
                assert(m.effects@ =~= e1 + free_all(backings_of(p@.maps, keys@.take(i + 1))));
            }
            i = i + 1;
        }
        proof {
            assert(keys@.take(i as int) =~= keys@);
        }
        let root_pa: u64 = Self::root_pa_of(p.satp);
        let _ = m.tables.by_root.remove(&root_pa);
        proof {
            assert(m.tables@ =~= old(m).tables@.remove(root_pa));
        }
        m.effects.push(Effect::UnmapAll { root_pa });
        m.effects.push(Effect::FreeRoot { pa: root_pa });
        m.effects.push(Effect::Fence { asid: p.pid, va: 0 });
        m.effects.push(Effect::Broadcast);
        proof {
            assert(m.effects@ =~= e0 + memory_effects(p@));
        }
    }

    /// Gives back everything that a process had and tells whoever waits for
    /// its end. The record is no longer in the process table.
    pub fn dealloc_process(&mut self, m: &mut Machine, process: Process, hart: usize)
        requires
            procs_ok(old(self).procs()),
            regions_ok(old(self).regions@),
            process.satp.ppn < 0x1000_0000_0000,
            hart < old(m).frees@.len(),
        ensures
            world(*final(self), *final(m)) == world(*old(self), *old(m)).process_dropped(
                process@,
                hart as int,
            ),
            final(self).process_handles@ == old(self).process_handles@.remove(process.pid),
            procs_ok(final(self).procs()),
            regions_ok(final(self).regions@),
            final(m).frees@.len() == old(m).frees@.len(),
            same_rest(*old(self), *final(self)),
            same_queues(*old(m), *final(m)),
    {
        let ghost w0 = world(*self, *m);
        let pid: u16 = process.pid;
        self.sweep_futexes(pid);
        self.tell_exit(m, &process);
        let ghost e2 = m.effects@;
        match process.argv_blob {
            Some(b) => {
                m.effects.push(Effect::Free(b));
            },
            None => {},
        }
        match process.envp_blob {
            Some(b) => {
                m.effects.push(Effect::Free(b));
            },
            None => {},
        }
        m.effects.push(Effect::RemoveSource(pid));
        proof {
            assert(m.effects@ =~= e2 + (free_opt(process.argv_blob) + free_opt(process.envp_blob)
                + seq![Effect::RemoveSource(pid)]));
        }
        let ghost w3 = world(*self, *m);
        crate::stdin::unregister(&mut self.stdin, pid, &mut m.q.wakes);
        crate::key_events::unregister(&mut self.key_events, pid, &mut m.q.wakes);
        proof {
            assert(world(*self, *m) =~= w3.input_gone(pid));
        }
        self.drop_surfaces(m, pid);
        let sockets = members64(&process.sockets);
        self.drop_sockets(m, &sockets);
        let root_pa: u64 = Self::root_pa_of(process.satp);
        self.drop_handle_table(m, pid, root_pa, hart);
        Self::free_process_memory(m, &process);
        proof {
            assert(world(*self, *m) =~= w0.process_dropped(process@, hart as int));
        }
    }
}

/// The waiters of a list that do not belong to `pid`.
fn keep_others(ws: &Vec<FutexWaiter>, pid: u16) -> (r: Vec<FutexWaiter>)
    ensures
        r@ == others(ws@, pid),
{
    let mut out: Vec<FutexWaiter> = Vec::new();
    let mut i: usize = 0;
    proof {
        assert(others(ws@.take(0), pid) =~= Seq::<FutexWaiter>::empty()) by {
            reveal(Seq::filter);
        }
    }
    while i < ws.len()
        invariant
            i <= ws@.len(),
            out@ == others(ws@.take(i as int), pid),
        decreases ws@.len() - i,
    {
        let w: FutexWaiter = ws[i];
        proof {
            let t = ws@.take(i + 1);
            assert(t.drop_last() =~= ws@.take(i as int));
            assert(t.last() == w);
            reveal(Seq::filter);
        }
        if w.pid != pid {
            out.push(w);
        }
        i = i + 1;
    }
    proof {
        assert(ws@.take(i as int) =~= ws@);
    }
    out
}

/// Dropping handles does not look at the handle tables.
pub proof fn lemma_handles_frame(
    w: World,
    root_pa: u64,
    hs: Seq<Handle>,
    hart: int,
    t: Map<u16, HandlesView>,
)
    ensures
        (World { handles: t, ..w }).handles_dropped(root_pa, hs, hart) == (World {
            handles: t,
            ..w.handles_dropped(root_pa, hs, hart)
        }),
    decreases hs.len(),
{
    if hs.len() > 0 {
        let a = w.handle_dropped(root_pa, hs[0], hart);
        let b = (World { handles: t, ..w }).handle_dropped(root_pa, hs[0], hart);
        assert(b =~= World { handles: t, ..a });
        lemma_handles_frame(a, root_pa, hs.skip(1), hart, t);
    }
}

proof fn lemma_extends(a: Seq<Effect>, b: Seq<Effect>, c: Seq<Effect>)
    requires
        a.is_prefix_of(b),
        b.is_prefix_of(c),
    ensures
        a.is_prefix_of(c),
{
    assert(a =~= c.take(a.len() as int)) by {
        assert forall|i: int| 0 <= i < a.len() implies a[i] == c[i] by {
            assert(b.take(a.len() as int)[i] == b[i]);
            assert(c.take(b.len() as int)[i] == c[i]);
        }
    }
}

proof fn lemma_handle_extends(w: World, root_pa: u64, h: Handle, hart: int)
    ensures
        region_behind(h) matches Some(pa) ==> w.effects.is_prefix_of(
            w.region_revoked(root_pa, pa).effects,
        ) && w.region_revoked(root_pa, pa).effects.is_prefix_of(
            w.handle_dropped(root_pa, h, hart).effects,
        ),
        w.effects.is_prefix_of(w.handle_dropped(root_pa, h, hart).effects),
        w.handle_dropped(root_pa, h, hart).tables.remove(root_pa) == w.tables.remove(root_pa),
{
    let v = w.handle_dropped(root_pa, h, hart);
    assert(w.effects =~= w.effects.take(w.effects.len() as int));
    match region_behind(h) {
        Some(pa) => {
            let u = w.region_revoked(root_pa, pa);
            assert(w.effects =~= u.effects.take(w.effects.len() as int));
            assert(u.effects =~= v.effects.take(u.effects.len() as int));
            lemma_extends(w.effects, u.effects, v.effects);
            assert(v.tables.remove(root_pa) =~= w.tables.remove(root_pa));
        },
        None => {},
    }
}

proof fn lemma_handles_extend(w: World, root_pa: u64, hs: Seq<Handle>, hart: int)
    ensures
        w.effects.is_prefix_of(w.handles_dropped(root_pa, hs, hart).effects),
        w.handles_dropped(root_pa, hs, hart).tables.remove(root_pa) == w.tables.remove(root_pa),
    decreases hs.len(),
{
    if hs.len() == 0 {
        assert(w.effects =~= w.effects.take(w.effects.len() as int));
    } else {
        let a = w.handle_dropped(root_pa, hs[0], hart);
        lemma_handle_extends(w, root_pa, hs[0], hart);
        lemma_handles_extend(a, root_pa, hs.skip(1), hart);
        lemma_extends(w.effects, a.effects, w.handles_dropped(root_pa, hs, hart).effects);
    }
}

proof fn lemma_handles_split(w: World, root_pa: u64, hs: Seq<Handle>, i: int, hart: int)
    requires
        0 <= i <= hs.len(),
    ensures
        w.handles_dropped(root_pa, hs, hart) == w.handles_dropped(
            root_pa,
            hs.take(i),
            hart,
        ).handles_dropped(root_pa, hs.skip(i), hart),
    decreases i,
{
    if i == 0 {
        assert(hs.skip(0) =~= hs);
    } else {
        lemma_handles_split(w.handle_dropped(root_pa, hs[0], hart), root_pa, hs.skip(1), i - 1, hart);
        assert(hs.take(i).skip(1) =~= hs.skip(1).take(i - 1));
        assert(hs.skip(1).skip(i - 1) =~= hs.skip(i));
    }
}

/// A region whose pages may be revoked is out of the user's reach before
/// anything else happens to it: when its handle goes, every page of it is
/// cleared and flushed, in order, and only then is the region let go, which is
/// what frees its frames.
pub proof fn law_a_region_is_unmapped_before_it_is_let_go(
    w: World,
    root_pa: u64,
    h: Handle,
    pa: u64,
    hart: int,
)
    requires
        region_behind(h) == Some(pa),
        regions_ok(w.regions),
        w.regions.contains_key(pa),
        !w.regions[pa].revoked,
        first_fault(
            w.leaves_of(root_pa),
            w.regions[pa].user_va as int,
            w.regions[pa].user_va + w.regions[pa].len,
        ) is None,
    ensures
        ({
            let g = w.regions[pa];
            let u = w.region_revoked(root_pa, pa);
            let v = w.handle_dropped(root_pa, h, hart);
            &&& u.effects == w.effects + page_clears(
                root_pa,
                g.owner_pid,
                g.user_va as int,
                g.user_va + g.len,
            )
            &&& u.frees == w.frees
            &&& u.regions.contains_key(pa) && u.regions[pa].revoked
            &&& v == u.region_released(pa, hart)
            &&& u.effects.is_prefix_of(v.effects)
            &&& forall|p: u64|
                g.user_va <= p < g.user_va + g.len && p % 4096 == 0 ==> !(
                #[trigger] v.leaves_of(root_pa)[p]).mapped
        }),
{
    let g = w.regions[pa];
    let v = w.handle_dropped(root_pa, h, hart);
    lemma_handle_extends(w, root_pa, h, hart);
    law_revoked_range_is_unmapped(
        w.leaves_of(root_pa),
        g.user_va as int,
        g.user_va + g.len,
    );
    assert forall|p: u64| g.user_va <= p < g.user_va + g.len && p % 4096 == 0 implies !(
    #[trigger] v.leaves_of(root_pa)[p]).mapped by {
        assert(v.leaves_of(root_pa) == revoke_walk(
            w.leaves_of(root_pa),
            g.user_va as int,
            g.user_va + g.len,
        ).0);
        assert(v.leaves_of(root_pa).contains_key(p));
    }
}

/// Taking a process apart takes each of its regions away from the user before
/// the memory of the process goes: the clearing of handle `i`'s pages is asked
/// of the machine before everything that frees the frames and the page table.
pub proof fn law_regions_are_revoked_before_memory_goes(w: World, p: ProcView, i: int, hart: int)
    requires
        0 <= i < handle_list(w.services_gone(p), p.pid).len(),
    ensures
        ({
            let root_pa = root_of(p.satp);
            let before = w.services_gone(p);
            let list = handle_list(before, p.pid);
            let u = before.handles_dropped(root_pa, list.take(i), hart);
            let handles = before.handle_table_gone(p.pid, root_pa, hart);
            let end = w.process_dropped(p, hart);
            &&& region_behind(list[i]) matches Some(pa) ==> u.region_revoked(
                root_pa,
                pa,
            ).effects.is_prefix_of(handles.effects)
            &&& end.effects == handles.effects + memory_effects(p)
        }),
{
    let root_pa = root_of(p.satp);
    let before = w.services_gone(p);
    let list = handle_list(before, p.pid);
    let u = before.handles_dropped(root_pa, list.take(i), hart);
    let next = u.handle_dropped(root_pa, list[i], hart);
    lemma_handles_split(before, root_pa, list, i, hart);
    lemma_handle_extends(u, root_pa, list[i], hart);
    assert(list.skip(i)[0] == list[i]);
    assert(list.skip(i).skip(1) =~= list.skip(i + 1));
    lemma_handles_extend(next, root_pa, list.skip(i + 1), hart);
    if let Some(pa) = region_behind(list[i]) {
        lemma_extends(
            u.region_revoked(root_pa, pa).effects,
            next.effects,
            before.handle_table_gone(p.pid, root_pa, hart).effects,
        );
    }
}

proof fn lemma_sockets_leave_tables(w: World, list: Seq<u64>)
    ensures
        w.sockets_dropped(list).tables == w.tables,
    decreases list.len(),
{
    if list.len() > 0 {
        lemma_sockets_leave_tables(w.socket_dropped(list.last()), list.drop_last());
    }
}

/// Of the page table of a process that was taken apart nothing is left, so that
/// a process that gets the same page later starts with none of it. No other
/// page table changes.
pub proof fn law_a_gone_process_leaves_no_leaf(w: World, p: ProcView, hart: int)
    ensures
        w.process_dropped(p, hart).tables == w.tables.remove(root_of(p.satp)),
{
    let a = w.futexes_swept(p.pid).exit_told(p).with_effects(
        free_opt(p.argv_blob) + free_opt(p.envp_blob) + seq![Effect::RemoveSource(p.pid)],
    ).input_gone(p.pid).surfaces_gone(p.pid);
    lemma_sockets_leave_tables(a, sorted64(p.sockets));
    let before = w.services_gone(p);
    lemma_handles_extend(before, root_of(p.satp), handle_list(before, p.pid), hart);
}

/// Unmapping a large range goes over it grain by grain, each one cleared,
/// fenced and told to the other harts, and stops at its end.
pub proof fn law_every_part_of_a_stack_is_unmapped(
    root_pa: u64,
    pid: u16,
    va: int,
    end: int,
    grain: int,
    k: int,
)
    requires
        grain > 0,
        0 <= va,
        end <= u64::MAX,
        0 <= k,
    ensures
        ({
            let e = unmap_large(root_pa, pid, va, end, grain);
            let at = va + k * grain;
            &&& at < end ==> {
                &&& 3 * k + 2 < e.len()
                &&& e[3 * k] == (Effect::UnmapPage { root_pa, va: at as u64, levels: 3 })
                &&& e[3 * k + 1] == (Effect::Fence { asid: pid, va: at as u64 })
                &&& e[3 * k + 2] == Effect::Broadcast
            }
            &&& at >= end ==> e.len() <= 3 * k
        }),
    decreases k,
{
    if va < end {
        let first = unmap_one(root_pa, pid, va as u64, 3);
        let rest = unmap_large(root_pa, pid, va + grain, end, grain);
        assert(unmap_large(root_pa, pid, va, end, grain) == first + rest);
        assert(k * grain >= 0) by (nonlinear_arith)
            requires
                k >= 0,
                grain > 0,
        ;
        if k > 0 {
            assert((k - 1) * grain == k * grain - grain) by (nonlinear_arith);
            law_every_part_of_a_stack_is_unmapped(root_pa, pid, va + grain, end, grain, k - 1);
        } else {
            assert(k * grain == 0) by (nonlinear_arith)
                requires
                    k == 0,
            ;
        }
    } else {
        assert(k * grain >= 0) by (nonlinear_arith)
            requires
                k >= 0,
                grain > 0,
        ;
    }
}

/// A mapping that goes is unmapped as it was mapped, a stack in large pages,
/// a trap frame in a small one and a thread's storage in a large one, and
/// then its memory is given back.
pub proof fn law_a_mapping_is_undone_as_it_was_made(
    m: UserMapping,
    root_pa: u64,
    pid: u16,
    grain: u64,
)
    ensures
        ({
            let e = mapping_effects(m, root_pa, pid, grain);
            let unmaps = if m.backing is Some {
                e.drop_last()
            } else {
                e
            };
            &&& m.backing matches Some(b) ==> e.len() > 0 && e.last() == Effect::Free(b)
            &&& m.kind is TrapFrame ==> unmaps == seq![
                Effect::UnmapPage { root_pa, va: m.vaddr, levels: 4 },
                Effect::Fence { asid: pid, va: m.vaddr },
                Effect::Broadcast,
            ]
            &&& m.kind is Tls ==> unmaps == seq![
                Effect::UnmapPage { root_pa, va: m.vaddr, levels: 3 },
                Effect::Fence { asid: pid, va: m.vaddr },
                Effect::Broadcast,
            ]
            &&& m.kind is Stack ==> unmaps == unmap_large(
                root_pa,
                pid,
                m.vaddr as int,
                m.vaddr + m.len,
                grain as int,
            )
            &&& !(m.kind is TrapFrame) && !(m.kind is Tls) && !(m.kind is Stack) ==> unmaps.len()
                == 0
        }),
{
    let e = mapping_effects(m, root_pa, pid, grain);
    let u = match m.kind {
        MappingKind::Stack { .. } => unmap_large(
            root_pa,
            pid,
            m.vaddr as int,
            m.vaddr + m.len,
            grain as int,
        ),
        MappingKind::TrapFrame { .. } => unmap_one(root_pa, pid, m.vaddr, 4),
        MappingKind::Tls { .. } => unmap_one(root_pa, pid, m.vaddr, 3),
        _ => Seq::empty(),
    };
    match m.backing {
        Some(b) => {
            assert(e.drop_last() =~= u);
        },
        None => {
            assert(e =~= u);
        },
    }
}

proof fn lemma_slot_keys(maps: Map<u64, UserMapping>, slot: u16, va: u64)
    ensures
        slot_keys(maps, slot).contains(va) <==> maps.contains_key(va) && maps[va].kind.spec_slot()
            == Some(slot),
{
    let p = |va: u64| maps[va].kind.spec_slot() == Some(slot);
    let all = sorted64(maps.dom());
    crate::tables::lemma_listed64(maps.dom());
    let r = slot_keys(maps, slot);
    assert(maps.dom().contains(va) <==> all.contains(va));
    if r.contains(va) {
        let i = choose|i: int| 0 <= i < r.len() && r[i] == va;
        all.lemma_filter_pred(p, i);
        all.lemma_filter_contains_rev(p, va);
    }
    if all.contains(va) && p(va) {
        let i = choose|i: int| 0 <= i < all.len() && all[i] == va;
        all.lemma_filter_contains(p, i);
    }
}

proof fn lemma_mapping_freed(
    maps: Map<u64, UserMapping>,
    keys: Seq<u64>,
    root_pa: u64,
    pid: u16,
    grain: u64,
    va: u64,
)
    requires
        keys.contains(va),
        maps[va].backing is Some,
    ensures
        mappings_effects(maps, keys, root_pa, pid, grain).contains(
            Effect::Free(maps[va].backing->0),
        ),
    decreases keys.len(),
{
    let a = mappings_effects(maps, keys.drop_last(), root_pa, pid, grain);
    let b = mapping_effects(maps[keys.last()], root_pa, pid, grain);
    let x = Effect::Free(maps[va].backing->0);
    if keys.last() == va {
        law_a_mapping_is_undone_as_it_was_made(maps[va], root_pa, pid, grain);
        assert((a + b)[a.len() + b.len() - 1] == x);
    } else {
        let i = choose|i: int| 0 <= i < keys.len() && keys[i] == va;
        assert(keys.drop_last()[i] == va);
        lemma_mapping_freed(maps, keys.drop_last(), root_pa, pid, grain, va);
        let k = choose|k: int| 0 <= k < a.len() && a[k] == x;
        assert((a + b)[k] == x);
    }
}

/// A user thread that goes takes the mappings of its slot with it, and the
/// memory behind them; its slot is free again. The process keeps its other
/// mappings, and other processes keep everything.
pub proof fn law_a_dropped_thread_gives_its_slot_back(
    w: World,
    t: Thread,
    slot: u16,
    grain: u64,
    va: u64,
    other: u16,
)
    requires
        t.slot == Some(slot),
        t.pid != 0,
        w.procs.contains_key(t.pid),
        other != t.pid,
    ensures
        ({
            let p = w.procs[t.pid];
            let n = w.thread_dropped(t, grain);
            let q = n.procs[t.pid];
            let mine = p.maps.contains_key(va) && p.maps[va].kind.spec_slot() == Some(slot);
            &&& n.procs.contains_key(t.pid)
            &&& !q.thread_slots.contains(slot)
            &&& forall|s: u16| s != slot ==> #[trigger] q.thread_slots.contains(s)
                == p.thread_slots.contains(s)
            &&& q.maps.contains_key(va) <==> p.maps.contains_key(va) && !mine
            &&& q.maps.contains_key(va) ==> q.maps[va] == p.maps[va]
            &&& mine ==> (p.maps[va].backing matches Some(b) ==> n.effects.contains(
                Effect::Free(b),
            ))
            &&& w.effects.is_prefix_of(n.effects)
            &&& q.heap_pages == p.heap_pages && q.satp == p.satp && q.sockets == p.sockets
            &&& n.procs.contains_key(other) == w.procs.contains_key(other)
            &&& w.procs.contains_key(other) ==> n.procs[other] == w.procs[other]
            &&& n.threads == w.threads && n.tables == w.tables && n.regions == w.regions
        }),
{
    let p = w.procs[t.pid];
    let n = w.thread_dropped(t, grain);
    let keys = slot_keys(p.maps, slot);
    lemma_slot_keys(p.maps, slot, va);
    assert(keys.to_set().contains(va) <==> keys.contains(va));
    let e = mappings_effects(p.maps, keys, root_of(p.satp), t.pid, grain);
    assert(n.effects == w.effects + e);
    if keys.contains(va) && p.maps[va].backing is Some {
        let x = Effect::Free(p.maps[va].backing->0);
        lemma_mapping_freed(p.maps, keys, root_of(p.satp), t.pid, grain, va);
        let k = choose|k: int| 0 <= k < e.len() && e[k] == x;
        assert((w.effects + e)[w.effects.len() + k] == x);
    }
    assert(w.effects.is_prefix_of(w.effects + e)) by {
        assert((w.effects + e).subrange(0, w.effects.len() as int) =~= w.effects);
    }
}

/// A kernel thread that goes gives its stack and its trap frame back, and
/// nothing else changes; a thread whose process has gone gives nothing back.
pub proof fn law_a_dropped_kernel_thread_gives_its_stack_back(w: World, t: Thread, grain: u64)
    ensures
        t.slot is None && t.pid == 0 ==> ({
            let n = w.thread_dropped(t, grain);
            &&& t.kernel_stack matches Some(b) ==> n.effects.contains(Effect::Free(b))
            &&& t.kernel_trap_frame matches Some(b) ==> n.effects.contains(Effect::Free(b))
            &&& n.effects.len() == w.effects.len() + (if t.kernel_stack is Some {
                1int
            } else {
                0
            }) + (if t.kernel_trap_frame is Some {
                1int
            } else {
                0
            })
            &&& w.effects.is_prefix_of(n.effects)
            &&& n == (World { effects: n.effects, ..w })
        }),
        t.slot is Some && !w.procs.contains_key(t.pid) ==> w.thread_dropped(t, grain) == w,
        t.slot is None && t.pid != 0 ==> w.thread_dropped(t, grain) == w,
{
    if t.slot is None && t.pid == 0 {
        let n = w.thread_dropped(t, grain);
        let a = free_opt(t.kernel_stack);
        let b = free_opt(t.kernel_trap_frame);
        assert(n.effects == w.effects + (a + b));
        if t.kernel_stack is Some {
            assert(n.effects[w.effects.len() as int] == a[0]);
        }
        if t.kernel_trap_frame is Some {
            assert(n.effects[(w.effects.len() + a.len()) as int] == b[0]);
        }
        assert(n.effects.subrange(0, w.effects.len() as int) =~= w.effects);
    }
}

/// Of a process that goes nobody waits at a word any more; the others who
/// wait there stay, and a word at which nobody waits is forgotten.
pub proof fn law_a_gone_process_waits_nowhere(w: World, pid: u16, pa: u64, x: FutexWaiter)
    ensures
        ({
            let n = w.futexes_swept(pid);
            let here = w.futexes.contains_key(pa) && w.futexes[pa].contains(x);
            let stays = n.futexes.contains_key(pa) && n.futexes[pa].contains(x);
            &&& stays <==> here && x.pid != pid
            &&& n.futexes.contains_key(pa) ==> n.futexes[pa].len() > 0
            &&& n.threads == w.threads && n.procs == w.procs && n.effects == w.effects && n.wakes
                == w.wakes
        }),
{
    if w.futexes.contains_key(pa) {
        let s = w.futexes[pa];
        let p = |v: FutexWaiter| v.pid != pid;
        let r = others(s, pid);
        if r.contains(x) {
            let i = choose|i: int| 0 <= i < r.len() && r[i] == x;
            s.lemma_filter_pred(p, i);
            s.lemma_filter_contains_rev(p, x);
        }
        if s.contains(x) && x.pid != pid {
            let i = choose|i: int| 0 <= i < s.len() && s[i] == x;
            s.lemma_filter_contains(p, i);
        }
    }
}

/// Whoever waits for a process learns its exit code and is woken; with
/// nobody waiting, the parent keeps the code, if there is one; of a detached
/// process nobody learns.
pub proof fn law_an_exit_code_finds_its_reader(w: World, p: ProcView, other: u16)
    requires
        other != p.parent_pid,
    ensures
        ({
            let n = w.exit_told(p);
            let parent = p.parent_pid;
            &&& p.detached ==> n == w
            &&& !p.detached ==> (p.exit_waiter matches Some(tid) ==> {
                &&& n.procs == w.procs
                &&& n.threads == published(w.threads, tid, seq![0i64, p.exit_code as i64])
                &&& w.threads.contains_key(tid) ==> n.wakes == w.wakes.pushed(WakeEvent::Tid(tid))
                &&& !w.threads.contains_key(tid) ==> n.wakes == w.wakes
            })
            &&& !p.detached && p.exit_waiter is None ==> {
                &&& n.threads == w.threads && n.wakes == w.wakes
                &&& parent != 0 && w.procs.contains_key(parent) ==> {
                    &&& n.procs.contains_key(parent)
                    &&& n.procs[parent].dead_children.contains_key(p.pid)
                    &&& n.procs[parent].dead_children[p.pid] == p.exit_code
                    &&& n.procs[parent] == (ProcView {
                        dead_children: n.procs[parent].dead_children,
                        ..w.procs[parent]
                    })
                    &&& n.procs[parent].dead_children.remove(p.pid)
                        == w.procs[parent].dead_children.remove(p.pid)
                }
                &&& parent == 0 || !w.procs.contains_key(parent) ==> n == w
            }
            &&& n.procs.contains_key(other) == w.procs.contains_key(other)
            &&& w.procs.contains_key(other) ==> n.procs[other] == w.procs[other]
        }),
{
    let n = w.exit_told(p);
    if !p.detached && p.exit_waiter is None && p.parent_pid != 0 && w.procs.contains_key(
        p.parent_pid,
    ) {
        assert(n.procs[p.parent_pid].dead_children.remove(p.pid)
            =~= w.procs[p.parent_pid].dead_children.remove(p.pid));
    }
}

/// A process that goes loses its input queues and its surfaces, and each
/// surface's memory is given back. Other processes keep theirs.
pub proof fn law_a_gone_process_shows_nothing(w: World, pid: u16, id: u32, other: u16)
    requires
        other != pid,
    ensures
        ({
            let n = w.surfaces_gone(pid);
            let m = w.input_gone(pid);
            &&& !n.surfaces.contains_key(pid)
            &&& n.surfaces.contains_key(other) == w.surfaces.contains_key(other)
            &&& w.surfaces.contains_key(other) ==> n.surfaces[other] == w.surfaces[other]
            &&& w.surfaces.contains_key(pid) && w.surfaces[pid].surfaces.contains_key(id)
                ==> n.effects.contains(Effect::Free(w.surfaces[pid].surfaces[id].backing))
            &&& w.effects.is_prefix_of(n.effects)
            &&& !m.stdin.contains_key(pid)
            &&& !m.key_events.contains_key(pid)
            &&& m.stdin.contains_key(other) == w.stdin.contains_key(other)
            &&& w.stdin.contains_key(other) ==> m.stdin[other] == w.stdin[other]
            &&& m.key_events.contains_key(other) == w.key_events.contains_key(other)
            &&& w.key_events.contains_key(other) ==> m.key_events[other] == w.key_events[other]
        }),
{
    let n = w.surfaces_gone(pid);
    let f = surface_frames(w, pid);
    let e = free_all(f);
    assert(n.effects == w.effects + e);
    assert(n.effects.subrange(0, w.effects.len() as int) =~= w.effects);
    if w.surfaces.contains_key(pid) && w.surfaces[pid].surfaces.contains_key(id) {
        let s = w.surfaces[pid].surfaces;
        crate::tables::lemma_listed32(s.dom());
        let keys = sorted32(s.dom());
        assert(s.dom().contains(id));
        assert(keys.contains(id));
        let k = choose|k: int| 0 <= k < keys.len() && keys[k] == id;
        assert(f[k] == s[id].backing);
        assert(n.effects[w.effects.len() + k] == Effect::Free(s[id].backing));
    }
}

/// Every socket of a process that goes is queued to be closed, or set aside
/// while the queue is full; those queued before it stay.
pub proof fn law_no_socket_is_lost(w: World, list: Seq<u64>, s: u64)
    requires
        list.contains(s),
    ensures
        ({
            let n = w.sockets_dropped(list);
            &&& n.net.deletions.contains(s) || n.orphans.contains(s)
            &&& w.net.deletions.is_prefix_of(n.net.deletions)
            &&& w.orphans.is_prefix_of(n.orphans)
            &&& n.net.deletions.len() + n.orphans.len() == w.net.deletions.len() + w.orphans.len()
                + list.len()
            &&& n.orphans.len() > w.orphans.len() ==> n.net.deletions.len() >= 7
        }),
    decreases list.len(),
{
    lemma_sockets_kept(w, list);
    let v = w.socket_dropped(list.last());
    lemma_sockets_kept(v, list.drop_last());
    let n = w.sockets_dropped(list);
    if list.last() == s {
        if w.net.deletions.len() < 7 {
            assert(v.net.deletions.last() == s);
            assert(v.net.deletions =~= n.net.deletions.subrange(0, v.net.deletions.len() as int));
            assert(n.net.deletions[v.net.deletions.len() - 1] == s);
        } else {
            assert(v.orphans.last() == s);
            assert(v.orphans =~= n.orphans.subrange(0, v.orphans.len() as int));
            assert(n.orphans[v.orphans.len() - 1] == s);
        }
    } else {
        let i = choose|i: int| 0 <= i < list.len() && list[i] == s;
        assert(list.drop_last()[i] == s);
        law_no_socket_is_lost(v, list.drop_last(), s);
    }
}

proof fn lemma_sockets_kept(w: World, list: Seq<u64>)
    ensures
        ({
            let n = w.sockets_dropped(list);
            &&& w.net.deletions.is_prefix_of(n.net.deletions)
            &&& w.orphans.is_prefix_of(n.orphans)
            &&& n.net.deletions.len() + n.orphans.len() == w.net.deletions.len() + w.orphans.len()
                + list.len()
            &&& n.orphans.len() > w.orphans.len() ==> n.net.deletions.len() >= 7
        }),
    decreases list.len(),
{
    if list.len() > 0 {
        let v = w.socket_dropped(list.last());
        let n = w.sockets_dropped(list);
        lemma_sockets_kept(v, list.drop_last());
        assert(w.net.deletions =~= v.net.deletions.subrange(0, w.net.deletions.len() as int));
        assert(w.orphans =~= v.orphans.subrange(0, w.orphans.len() as int));
        assert(v.net.deletions =~= n.net.deletions.subrange(0, v.net.deletions.len() as int));
        assert(v.orphans =~= n.orphans.subrange(0, v.orphans.len() as int));
        assert(w.net.deletions =~= n.net.deletions.subrange(0, w.net.deletions.len() as int));
        assert(w.orphans =~= n.orphans.subrange(0, w.orphans.len() as int));
    } else {
        assert(w.net.deletions =~= w.net.deletions.subrange(0, w.net.deletions.len() as int));
        assert(w.orphans =~= w.orphans.subrange(0, w.orphans.len() as int));
    }
}

proof fn lemma_backing_listed(maps: Map<u64, UserMapping>, keys: Seq<u64>, va: u64)
    requires
        keys.contains(va),
        maps[va].backing is Some,
    ensures
        backings_of(maps, keys).contains(maps[va].backing->0),
    decreases keys.len(),
{
    let r = backings_of(maps, keys);
    let x = maps[va].backing->0;
    if keys.last() == va {
        assert(r.last() == x);
        assert(r.contains(r.last()));
    } else {
        let i = choose|i: int| 0 <= i < keys.len() && keys[i] == va;
        assert(keys.drop_last()[i] == va);
        lemma_backing_listed(maps, keys.drop_last(), va);
        let d = backings_of(maps, keys.drop_last());
        let k = choose|k: int| 0 <= k < d.len() && d[k] == x;
        assert(r[k] == x);
    }
}

/// The memory of a process that goes is given back whole: every heap page
/// and what is behind every mapping, then its page tables, and then no hart
/// keeps a translation of it.
pub proof fn law_a_gone_process_gives_its_memory_back(p: ProcView, i: int, va: u64)
    ensures
        ({
            let e = memory_effects(p);
            let n = e.len();
            &&& 0 <= i < p.heap_pages.len() ==> e.contains(Effect::Free(p.heap_pages[i]))
            &&& p.maps.contains_key(va) ==> (p.maps[va].backing matches Some(b) ==> e.contains(
                Effect::Free(b),
            ))
            &&& n >= 4
            &&& e[n - 4] == (Effect::UnmapAll { root_pa: root_of(p.satp) })
            &&& e[n - 3] == (Effect::FreeRoot { pa: root_of(p.satp) })
            &&& e[n - 2] == (Effect::Fence { asid: p.pid, va: 0 })
            &&& e[n - 1] == Effect::Broadcast
        }),
{
    let e = memory_effects(p);
    let h = free_all(p.heap_pages.reverse());
    let keys = sorted64(p.maps.dom());
    let bs = backings_of(p.maps, keys);
    let m = free_all(bs);
    crate::tables::lemma_listed64(p.maps.dom());
    if 0 <= i < p.heap_pages.len() {
        let k = p.heap_pages.len() - 1 - i;
        assert(p.heap_pages.reverse()[k] == p.heap_pages[i]);
        assert(e[k] == h[k]);
    }
    if p.maps.contains_key(va) && p.maps[va].backing is Some {
        assert(p.maps.dom().contains(va));
        assert(keys.contains(va));
        lemma_backing_listed(p.maps, keys, va);
        let k = choose|k: int| 0 <= k < bs.len() && bs[k] == p.maps[va].backing->0;
        assert(m[k] == Effect::Free(bs[k]));
        assert(e[h.len() + k] == m[k]);
    }
}

proof fn lemma_tables_of_handles_kept(w: World, root_pa: u64, hs: Seq<Handle>, hart: int)
    ensures
        w.handles_dropped(root_pa, hs, hart).handles == w.handles,
    decreases hs.len(),
{
    if hs.len() > 0 {
        lemma_tables_of_handles_kept(
            w.handle_dropped(root_pa, hs[0], hart),
            root_pa,
            hs.skip(1),
            hart,
        );
    }
}

/// A process that goes loses its handles, and each of them is dropped;
/// those of others stay.
pub proof fn law_a_gone_process_has_no_handles(
    w: World,
    p: ProcView,
    hart: int,
    fd: u32,
    other: u16,
)
    requires
        other != p.pid,
    ensures
        !w.handle_table_gone(p.pid, root_of(p.satp), hart).handles.contains_key(p.pid),
        w.handle_table_gone(p.pid, root_of(p.satp), hart).handles.contains_key(other)
            == w.handles.contains_key(other),
        w.handles.contains_key(other) ==> w.handle_table_gone(
            p.pid,
            root_of(p.satp),
            hart,
        ).handles[other] == w.handles[other],
        w.handles.contains_key(p.pid) && w.handles[p.pid].slots.contains_key(fd) ==> handle_list(
            w,
            p.pid,
        ).contains(w.handles[p.pid].slots[fd].handle),
{
    lemma_tables_of_handles_kept(w, root_of(p.satp), handle_list(w, p.pid), hart);
    if w.handles.contains_key(p.pid) && w.handles[p.pid].slots.contains_key(fd) {
        let s = w.handles[p.pid].slots;
        crate::tables::lemma_listed32(s.dom());
        let keys = sorted32(s.dom());
        assert(s.dom().contains(fd));
        assert(keys.contains(fd));
        let k = choose|k: int| 0 <= k < keys.len() && keys[k] == fd;
        assert(handle_list(w, p.pid)[k] == s[fd].handle);
    }
}

/// A region that was revoked, or one with a page that cannot be, stays as it
/// is, and so do its tables.
pub proof fn law_a_failed_revocation_changes_nothing(w: World, root_pa: u64, pa: u64, k: u64)
    ensures
        !w.regions.contains_key(pa) ==> w.region_revoked(root_pa, pa) == w,
        w.regions.contains_key(pa) && w.regions[pa].revoked ==> w.region_revoked(root_pa, pa) == w,
        w.regions.contains_key(pa) && first_fault(
            w.leaves_of(root_pa),
            w.regions[pa].user_va as int,
            w.regions[pa].user_va + w.regions[pa].len,
        ) is Some ==> w.region_revoked(root_pa, pa) == w,
        k != pa && w.regions.contains_key(k) ==> w.region_revoked(root_pa, pa).regions[k]
            == w.regions[k],
        w.region_revoked(root_pa, pa).regions.dom() == w.regions.dom(),
        w.region_revoked(root_pa, pa).frees == w.frees,
        w.region_revoked(root_pa, pa).procs == w.procs,
{
    assert(w.region_revoked(root_pa, pa).regions.dom() =~= w.regions.dom());
}

/// Handles on a network channel or an event lie on a shared region, and no
/// other handle does.
pub proof fn law_channels_and_events_lie_on_regions(h: Handle)
    ensures
        region_behind(h) is Some <==> h is NetChannel || h is EventFd,
        h matches Handle::NetChannel(sup) ==> region_behind(h) == Some(sup.pa),
        h matches Handle::EventFd(slot) ==> region_behind(h) == Some(slot.region.pa),
{
}

} // verus!
