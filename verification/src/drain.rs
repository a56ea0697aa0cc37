//! Serving the requests of blocked threads.

#[allow(unused_imports)]
use crate::abi::{errno_ret, EAGAIN, EBADF, EIO, EPERM, ESRCH};
#[allow(unused_imports)]
use crate::handle::{Handle, HandlesView, Slot, FD_MAX};
#[allow(unused_imports)]
use crate::memops::handles_or_empty;
#[allow(unused_imports)]
use crate::net::SocketReq;
use crate::orbit::Orbit;
#[allow(unused_imports)]
use crate::orbit::{published, Effect, Queues};
#[allow(unused_imports)]
use crate::process::{Thread, ThreadState};
#[allow(unused_imports)]
use crate::reap::hart_wakes;
#[allow(unused_imports)]
use crate::rings::WakeEvent;
#[allow(unused_imports)]
use crate::shared_user_ptr::{
    law_new_region_can_be_revoked, law_revoked_range_is_unmapped, leaves_made, page_clears,
    revoke_walk, SharedUserPtr,
};
#[allow(unused_imports)]
use crate::sync::{procs_after_wait, wait_answer};
#[allow(unused_imports)]
use crate::teardown::region_behind;
use crate::work::PendingWork;
use crate::world::Machine;
#[allow(unused_imports)]
use crate::world::{homes_ok, world, ProcView, SurfacesView, World};
use vstd::prelude::*;

verus! {

broadcast use {vstd::laws_cmp::group_laws_cmp, vstd::std_specs::btree::group_btree_axioms};

impl World {
    /// A thread that waits is left with return values and its wake-up is queued.
    pub open spec fn replied(self, tid: u32, vals: Seq<i64>) -> World {
        World {
            threads: published(self.threads, tid, vals),
            wakes: if self.threads.contains_key(tid) {
                self.wakes.pushed(WakeEvent::Tid(tid))
            } else {
                self.wakes
            },
            ..self
        }
    }

    /// `wait_pid` was served.
    pub open spec fn wait_served(self, target: u16, caller: u16, tid: u32) -> World {
        World {
            procs: procs_after_wait(self.procs, target, caller, tid),
            ..match wait_answer(self.procs, target, caller) {
                Some(vals) => self.replied(tid, vals),
                None => self,
            }
        }
    }

    /// A thread was woken by another of its process; with the result.
    pub open spec fn thread_poked(self, target: u32, caller: u16) -> (World, i64) {
        if !self.threads.contains_key(target) {
            (self, errno_ret(ESRCH))
        } else if self.threads[target].pid != caller {
            (self, errno_ret(EPERM))
        } else {
            (
                World { wakes: self.wakes.pushed(WakeEvent::Tid(target)), ..self },
                if self.wakes.items.len() < 128 {
                    0i64
                } else {
                    errno_ret(EAGAIN)
                },
            )
        }
    }

    /// A surface was taken away; with the result.
    pub open spec fn surface_destroyed(self, handle: u32, pid: u16, root_pa: u64) -> (World, i64) {
        if !self.surfaces.contains_key(pid) {
            (self, errno_ret(ESRCH))
        } else if !self.surfaces[pid].surfaces.contains_key(handle) {
            (self, errno_ret(EBADF))
        } else {
            let s = self.surfaces[pid];
            let e = s.surfaces[handle];
            (
                World {
                    surfaces: self.surfaces.insert(
                        pid,
                        SurfacesView { surfaces: s.surfaces.remove(handle), ..s },
                    ),
                    ..self
                }.with_effects(
                    seq![
                        Effect::UnmapRange { root_pa, va: e.user_va, len: e.size_bytes },
                        Effect::Fence { asid: pid, va: 0 },
                        Effect::Broadcast,
                        Effect::Free(e.backing),
                    ],
                ),
                0i64,
            )
        }
    }

    /// A handle was closed; with the result.
    pub open spec fn handle_closed(self, fd: u32, pid: u16, root_pa: u64, hart: int) -> (
        World,
        i64,
    ) {
        let h = handles_or_empty(self, pid);
        if !h.slots.contains_key(fd) {
            (self, errno_ret(EBADF))
        } else {
            let handle = h.slots[fd].handle;
            let bare = World {
                handles: self.handles.insert(pid, HandlesView { slots: h.slots.remove(fd), ..h }),
                wakes: match handle {
                    Handle::EventFd(slot) => if slot.kernel_parked_tid != 0 {
                        self.wakes.pushed(WakeEvent::Tid(slot.kernel_parked_tid))
                    } else {
                        self.wakes
                    },
                    _ => self.wakes,
                },
                ..self
            };
            (
                bare.handle_dropped(root_pa, handle, hart),
                match region_behind(handle) {
                    None => 0i64,
                    Some(pa) => {
                        let v = bare.region_revoked(root_pa, pa);
                        if !v.regions.contains_key(pa) || v.regions[pa].revoked {
                            0
                        } else {
                            errno_ret(EIO)
                        }
                    },
                },
            )
        }
    }

    /// A process was told to end, and with it all threads but the leader.
    pub open spec fn group_ended(
        self,
        pid: u16,
        leader: u32,
        exit_code: i32,
        running: Seq<Option<u32>>,
    ) -> World {
        if !self.procs.contains_key(pid) {
            self
        } else {
            World {
                procs: self.procs.insert(
                    pid,
                    ProcView { exit_code, exit_finalized: true, ..self.procs[pid] },
                ),
                threads: self.threads.map_values(
                    |t: Thread|
                        if t.pid == pid && t.tid != leader {
                            Thread { state: ThreadState::Exited, ..t }
                        } else {
                            t
                        },
                ),
                ..self
            }.with_effects(hart_wakes(running, self.threads, pid, leader))
        }
    }

    /// A request was served that needs nothing of the machine. `running` lists,
    /// hart by hart, what each runs; `hart` is the manager's own.
    pub open spec fn served(
        self,
        work: PendingWork,
        hart: int,
        running: Seq<Option<u32>>,
    ) -> World {
        match work {
            PendingWork::WaitPid { req, pid, tid } => self.wait_served(req.target_pid, pid, tid),
            PendingWork::WakeTid { req, pid, tid } => {
                let (w, r) = self.thread_poked(req.target_tid, pid);
                w.replied(tid, seq![r])
            },
            PendingWork::CloseHandle { req, pid, root_pa, tid } => {
                let (w, r) = self.handle_closed(req.fd, pid, root_pa, hart);
                w.replied(tid, seq![r])
            },
            PendingWork::FbSurfaceDestroy { req, pid, root_pa, tid } => {
                let (w, r) = self.surface_destroyed(req.handle, pid, root_pa);
                w.replied(tid, seq![r])
            },
            PendingWork::ExitGroup { pid, leader_tid, exit_code } => self.group_ended(
                pid,
                leader_tid,
                exit_code,
                running,
            ),
            _ => self,
        }
    }
}

/// Whether a request can be served without the machine: no frames, no mapping,
/// no device and no user memory.
pub open spec fn needs_nothing(work: PendingWork) -> bool {
    match work {
        PendingWork::Empty => true,
        PendingWork::WaitPid { .. } => true,
        PendingWork::WakeTid { .. } => true,
        PendingWork::CloseHandle { .. } => true,
        PendingWork::FbSurfaceDestroy { .. } => true,
        PendingWork::ExitGroup { .. } => true,
        _ => false,
    }
}

/// The outcome of serving a queue: everything up to the first request that
/// needs the machine is served, that one is handed back, and the rest stays.
pub open spec fn drained(
    w: World,
    items: Seq<PendingWork>,
    hart: int,
    running: Seq<Option<u32>>,
) -> (World, Option<PendingWork>, Seq<PendingWork>)
    decreases items.len(),
{
    if items.len() == 0 {
        (w, None, items)
    } else if needs_nothing(items[0]) {
        drained(w.served(items[0], hart, running), items.skip(1), hart, running)
    } else {
        (w, Some(items[0]), items.skip(1))
    }
}

/// No request is lost: what a drain serves, what it hands back and what it
/// leaves are the queue, in this order.
pub proof fn law_drain_loses_no_request(
    w: World,
    items: Seq<PendingWork>,
    hart: int,
    running: Seq<Option<u32>>,
) -> (n: int)
    ensures
        0 <= n <= items.len(),
        forall|i: int| 0 <= i < n ==> needs_nothing(#[trigger] items[i]),
        match drained(w, items, hart, running) {
            (_, None, rest) => n == items.len() && rest.len() == 0,
            (_, Some(x), rest) => n < items.len() && x == items[n] && !needs_nothing(x) && rest
                == items.skip(n + 1),
        },
    decreases items.len(),
{
    if items.len() == 0 || !needs_nothing(items[0]) {
        0
    } else {
        let next = w.served(items[0], hart, running);
        let k = law_drain_loses_no_request(next, items.skip(1), hart, running);
        assert forall|i: int| 0 <= i < k + 1 implies needs_nothing(#[trigger] items[i]) by {
            if i > 0 {
                assert(items[i] == items.skip(1)[i - 1]);
            }
        }
        if k + 1 < items.len() {
            assert(items.skip(1).skip(k + 1) =~= items.skip(k + 2));
        }
        k + 1
    }
}

impl Orbit {
    /// Processes, threads, regions and handles are consistent.
    pub open spec fn steady(self, m: Machine) -> bool {
        world(self, m).wf() && self.handles_ok()
    }

    /// What serving requests leaves alone.
    pub open spec fn rest_kept(self, m: Machine, o: Orbit, n: Machine) -> bool {
        &&& o == (Orbit {
            processes: o.processes,
            threads: o.threads,
            process_handles: o.process_handles,
            regions: o.regions,
            surfaces: o.surfaces,
            ..self
        })
        &&& n.q == (Queues { wakes: n.q.wakes, work: n.q.work, ..m.q })
        &&& n.frees@.len() == m.frees@.len()
    }

    /// `wait_pid`.
    fn serve_wait(&mut self, m: &mut Machine, target: u16, pid: u16, tid: u32)
        requires
            old(self).steady(*old(m)),
        ensures
            world(*final(self), *final(m)) == world(*old(self), *old(m)).wait_served(
                target,
                pid,
                tid,
            ),
            final(self).steady(*final(m)),
            old(self).rest_kept(*old(m), *final(self), *final(m)),
            final(m).q.work@ == old(m).q.work@,
    {
        self.run_wait_pid_req(
            &mut m.q.wakes,
            crate::work::WaitPidReq { target_pid: target },
            pid,
            tid,
        );
        proof {
            let w = world(*old(self), *old(m));
            let v = world(*self, *m);
            assert(v =~= w.wait_served(target, pid, tid));
            lemma_wait_keeps(w, target, pid, tid);
        }
    }

    /// Closing a handle.
    fn serve_close(&mut self, m: &mut Machine, fd: u32, pid: u16, root_pa: u64, hart: usize) -> (r:
        i64)
        requires
            old(self).steady(*old(m)),
            hart < old(m).frees@.len(),
        ensures
            (world(*final(self), *final(m)), r) == world(*old(self), *old(m)).handle_closed(
                fd,
                pid,
                root_pa,
                hart as int,
            ),
            final(self).steady(*final(m)),
            old(self).rest_kept(*old(m), *final(self), *final(m)),
            final(m).q.work@ == old(m).q.work@,
    {
        let r = self.run_close_req(m, crate::work::CloseHandleReq { fd }, pid, root_pa, hart);
        proof {
            let w = world(*old(self), *old(m));
            assert(world(*self, *m).procs == w.procs);
            assert(world(*self, *m).threads == w.threads);
        }
        r
    }

    /// Ending a process.
    fn serve_exit(
        &mut self,
        m: &mut Machine,
        pid: u16,
        leader: u32,
        exit_code: i32,
        running: &Vec<Option<u32>>,
    )
        requires
            old(self).steady(*old(m)),
        ensures
            world(*final(self), *final(m)) == world(*old(self), *old(m)).group_ended(
                pid,
                leader,
                exit_code,
                running@,
            ),
            final(self).steady(*final(m)),
            old(self).rest_kept(*old(m), *final(self), *final(m)),
            final(m).q.work@ == old(m).q.work@,
    {
        self.request_exit_group(m, pid, leader, exit_code, running);
        proof {
            let w = world(*old(self), *old(m));
            assert(w.procs.contains_key(pid) == old(self).procs().contains_key(pid));
            assert(world(*self, *m) =~= w.group_ended(pid, leader, exit_code, running@));
        }
    }

    /// Leaves the result of a request with its thread.
    fn reply(&mut self, m: &mut Machine, tid: u32, value: i64)
        requires
            old(self).steady(*old(m)),
        ensures
            world(*final(self), *final(m)) == world(*old(self), *old(m)).replied(tid, seq![value]),
            final(self).steady(*final(m)),
            old(self).rest_kept(*old(m), *final(self), *final(m)),
            final(m).q.work@ == old(m).q.work@,
    {
        self.answer(&mut m.q.wakes, tid, value);
        proof {
            let w = world(*old(self), *old(m));
            assert(world(*self, *m) =~= w.replied(tid, seq![value]));
            lemma_reply_keeps(w, tid, seq![value]);
        }
    }

    /// Serves one request that needs nothing of the machine.
    fn serve(
        &mut self,
        m: &mut Machine,
        work: PendingWork,
        hart: usize,
        running: &Vec<Option<u32>>,
    )
        requires
            old(self).steady(*old(m)),
            hart < old(m).frees@.len(),
            needs_nothing(work),
        ensures
            world(*final(self), *final(m)) == world(*old(self), *old(m)).served(
                work,
                hart as int,
                running@,
            ),
            homes_ok(old(self).procs(), old(self).threads@) ==> homes_ok(
                final(self).procs(),
                final(self).threads@,
            ),
            final(self).steady(*final(m)),
            old(self).rest_kept(*old(m), *final(self), *final(m)),
            final(m).q.work@ == old(m).q.work@,
    {
        match work {
            PendingWork::WaitPid { req, pid, tid } => {
                self.serve_wait(m, req.target_pid, pid, tid);
            },
            PendingWork::WakeTid { req, pid, tid } => {
                let r = self.run_wake_tid_req(&mut m.q.wakes, req, pid);
                proof {
                    let w = world(*old(self), *old(m));
                    assert(world(*self, *m) =~= w.thread_poked(req.target_tid, pid).0);
                    assert(r == w.thread_poked(req.target_tid, pid).1);
                }
                self.reply(m, tid, r);
            },
            PendingWork::CloseHandle { req, pid, root_pa, tid } => {
                let r = self.serve_close(m, req.fd, pid, root_pa, hart);
                self.reply(m, tid, r);
            },
            PendingWork::FbSurfaceDestroy { req, pid, root_pa, tid } => {
                let r = self.run_fb_surface_destroy_req(m, req, pid, root_pa);
                proof {
                    let w = world(*old(self), *old(m));
                    assert(world(*self, *m) =~= w.surface_destroyed(req.handle, pid, root_pa).0);
                    assert(r == w.surface_destroyed(req.handle, pid, root_pa).1);
                }
                self.reply(m, tid, r);
            },
            PendingWork::ExitGroup { pid, leader_tid, exit_code } => {
                self.serve_exit(m, pid, leader_tid, exit_code, running);
            },
            _ => {},
        }
    }

    /// Serves the queue of requests, oldest first, up to the first one that
    /// needs the machine, which it hands back; `None` once the queue is empty.
    /// `running` lists, hart by hart, what each runs.
    pub fn drain_pending_work(
        &mut self,
        m: &mut Machine,
        hart: usize,
        running: &Vec<Option<u32>>,
    ) -> (r: Option<PendingWork>)
        requires
            old(self).steady(*old(m)),
            hart < old(m).frees@.len(),
        ensures
            (world(*final(self), *final(m)), r, final(m).q.work@) == drained(
                world(*old(self), *old(m)),
                old(m).q.work@,
                hart as int,
                running@,
            ),
            homes_ok(old(self).procs(), old(self).threads@) ==> homes_ok(
                final(self).procs(),
                final(self).threads@,
            ),
            final(self).steady(*final(m)),
            old(self).rest_kept(*old(m), *final(self), *final(m)),
    {
        let ghost goal = drained(world(*self, *m), m.q.work@, hart as int, running@);
        loop
            invariant
                goal == drained(
                    world(*old(self), *old(m)),
                    old(m).q.work@,
                    hart as int,
                    running@,
                ),
                goal == drained(world(*self, *m), m.q.work@, hart as int, running@),
                homes_ok(old(self).procs(), old(self).threads@) ==> homes_ok(
                    self.procs(),
                    self.threads@,
                ),
                self.steady(*m),
                hart < m.frees@.len(),
                old(self).rest_kept(*old(m), *self, *m),
            decreases m.q.work@.len(),
        {
            let ghost before = m.q.work@;
            let ghost w = world(*self, *m);
            let work = match m.q.work.take() {
                Some(x) => x,
                None => {
                    return None;
                },
            };
            proof {
                assert(world(*self, *m) =~= w);
            }
            match work {
                PendingWork::Empty
                | PendingWork::WaitPid { .. }
                | PendingWork::WakeTid { .. }
                | PendingWork::CloseHandle { .. }
                | PendingWork::FbSurfaceDestroy { .. }
                | PendingWork::ExitGroup { .. } => {
                    self.serve(m, work, hart, running);
                },
                _ => {
                    return Some(work);
                },
            }
        }
    }
}

proof fn lemma_reply_keeps(w: World, tid: u32, vals: Seq<i64>)
    requires
        w.wf(),
    ensures
        w.replied(tid, vals).wf(),
{
    let v = w.replied(tid, vals);
    assert forall|t: u32| #[trigger] v.threads.contains_key(t) implies v.threads[t].tid == t by {
        assert(w.threads.contains_key(t));
    }
    assert forall|pid: u16, t: u32|
        #![trigger v.procs[pid].threads.contains(t)]
        v.procs.contains_key(pid) implies (v.procs[pid].threads.contains(t) <==> (
    v.threads.contains_key(t) && v.threads[t].pid == pid)) by {
        assert(w.procs[pid].threads.contains(t) <==> w.threads.contains_key(t)
            && w.threads[t].pid == pid);
    }
}

proof fn lemma_wait_keeps(w: World, target: u16, caller: u16, tid: u32)
    requires
        w.wf(),
    ensures
        w.wait_served(target, caller, tid).wf(),
{
    match wait_answer(w.procs, target, caller) {
        Some(vals) => {
            lemma_reply_keeps(w, tid, vals);
        },
        None => {},
    }
    let v = w.wait_served(target, caller, tid);
    assert forall|pid: u16| #[trigger] v.procs.contains_key(pid) implies v.procs[pid].pid == pid
        && v.procs[pid].satp.ppn < 0x1000_0000_0000 && crate::world::maps_ok(v.procs[pid].maps) by {
        assert(w.procs.contains_key(pid));
    }
    assert forall|pid: u16, t: u32|
        #![trigger v.procs[pid].threads.contains(t)]
        v.procs.contains_key(pid) implies (v.procs[pid].threads.contains(t) <==> (
    v.threads.contains_key(t) && v.threads[t].pid == pid)) by {
        assert(w.procs[pid].threads.contains(t) <==> w.threads.contains_key(t)
            && w.threads[t].pid == pid);
    }
}

/// A region that a process just got can be closed: the result is 0, every page
/// of it is cleared and flushed, and the user can no longer reach any. That a
/// channel meanwhile waits for its socket changes nothing.
pub proof fn law_a_new_region_can_be_closed(
    w: World,
    pid: u16,
    root_pa: u64,
    va: u64,
    size: u64,
    pa: u64,
    slot: Slot,
    socket: Option<(u64, SocketReq)>,
    hart: int,
)
    requires
        SharedUserPtr::aligned(va, size),
        handles_or_empty(w, pid).next_id <= FD_MAX,
        region_behind(slot.handle) == Some(pa),
        socket matches Some(s) ==> s.1.netchan.pa == pa,
    ensures
        ({
            let shared = w.region_shared(pid, root_pa, va, size, pa, slot, hart);
            let u = match socket {
                Some(s) => shared.channel_requested(s.0, s.1),
                None => shared,
            };
            let (v, r) = u.handle_closed(handles_or_empty(w, pid).next_id, pid, root_pa, hart);
            &&& r == 0
            &&& (u.effects + page_clears(root_pa, pid, va as int, va + size)).is_prefix_of(v.effects)
            &&& forall|p: u64|
                va <= p < va + size && p % 4096 == 0 ==> !(
                #[trigger] v.leaves_of(root_pa)[p]).mapped
        }),
{
    let end = va + size;
    let shared = w.region_shared(pid, root_pa, va, size, pa, slot, hart);
    let u = match socket {
        Some(s) => shared.channel_requested(s.0, s.1),
        None => shared,
    };
    let fd = handles_or_empty(w, pid).next_id;
    let (v, r) = u.handle_closed(fd, pid, root_pa, hart);
    law_new_region_can_be_revoked(w.leaves_of(root_pa), va as int, end);
    let made = leaves_made(w.leaves_of(root_pa), va as int, end);
    assert(u.leaves_of(root_pa) == made);
    law_revoked_range_is_unmapped(made, va as int, end);
    assert(handles_or_empty(u, pid).slots.contains_key(fd));
    assert(handles_or_empty(u, pid).slots[fd] == slot);
    let out = revoke_walk(made, va as int, end).0;
    assert(v.leaves_of(root_pa) == out);
    assert forall|p: u64| va <= p < va + size && p % 4096 == 0 implies !(#[trigger] v.leaves_of(
        root_pa,
    )[p]).mapped by {
        assert(out.contains_key(p));
    }
    let cleared = u.effects + page_clears(root_pa, pid, va as int, end);
    assert(cleared =~= v.effects.take(cleared.len() as int));
}

/// A thread wakes only threads of its own process: another's is refused with 1
/// and one that is not there with 3. A wake that goes through is queued for the
/// thread that was named, and changes nothing else.
pub proof fn law_threads_wake_their_siblings(w: World, target: u32, caller: u16)
    ensures
        ({
            let (v, r) = w.thread_poked(target, caller);
            let there = w.threads.contains_key(target);
            &&& !there ==> r == -3 && v == w
            &&& there && w.threads[target].pid != caller ==> r == -1 && v == w
            &&& there && w.threads[target].pid == caller && w.wakes.items.len() < 128 ==> r == 0
                && v.wakes.items.len() == w.wakes.items.len() + 1 && v.wakes.items.last()
                == WakeEvent::Tid(target)
            &&& there && w.threads[target].pid == caller && w.wakes.items.len() >= 128 ==> r == -11
                && v.wakes.items == w.wakes.items
            &&& v == (World { wakes: v.wakes, ..w })
        }),
{
}

/// Destroying a surface takes it away from the user and gives its frames back,
/// in this order; no other surface is touched. It is refused with 9 for a surface
/// that is not there.
pub proof fn law_a_destroyed_surface_is_gone(
    w: World,
    handle: u32,
    pid: u16,
    root_pa: u64,
    other: u32,
)
    requires
        w.surfaces.contains_key(pid),
    ensures
        ({
            let (v, r) = w.surface_destroyed(handle, pid, root_pa);
            let s = w.surfaces[pid].surfaces;
            let n = w.effects.len() as int;
            &&& !s.contains_key(handle) ==> r == -9 && v == w
            &&& s.contains_key(handle) ==> {
                &&& r == 0
                &&& !v.surfaces[pid].surfaces.contains_key(handle)
                &&& other != handle ==> v.surfaces[pid].surfaces.contains_key(other)
                    == s.contains_key(other) && v.surfaces[pid].surfaces[other] == s[other]
                &&& v.effects.len() == n + 4 && v.effects.take(n) == w.effects
                &&& v.effects[n] == (Effect::UnmapRange {
                    root_pa,
                    va: s[handle].user_va,
                    len: s[handle].size_bytes,
                })
                &&& v.effects[n + 1] == (Effect::Fence { asid: pid, va: 0 })
                &&& v.effects[n + 2] == Effect::Broadcast
                &&& v.effects[n + 3] == Effect::Free(s[handle].backing)
            }
        }),
{
    let (v, r) = w.surface_destroyed(handle, pid, root_pa);
    if w.surfaces[pid].surfaces.contains_key(handle) {
        assert(v.effects.take(w.effects.len() as int) =~= w.effects);
    }
}

/// A closed number is free and no other is; closing a number that is not open is
/// refused with 9. What is behind a file or a stream closes with 0.
pub proof fn law_a_closed_number_is_gone(
    w: World,
    fd: u32,
    pid: u16,
    root_pa: u64,
    hart: int,
    other: u32,
)
    requires
        w.handles.contains_key(pid),
    ensures
        ({
            let (v, r) = w.handle_closed(fd, pid, root_pa, hart);
            let s = w.handles[pid].slots;
            &&& !s.contains_key(fd) ==> r == -9 && v == w
            &&& s.contains_key(fd) ==> {
                &&& !v.handles[pid].slots.contains_key(fd)
                &&& other != fd ==> v.handles[pid].slots.contains_key(other) == s.contains_key(other)
                    && v.handles[pid].slots[other] == s[other]
                &&& v.handles[pid].next_id == w.handles[pid].next_id
                &&& r == 0 || r == -5
            }
            &&& s.contains_key(fd) && (s[fd].handle is File || s[fd].handle is Stdin
                || s[fd].handle is Stdout || s[fd].handle is Stderr) ==> r == 0 && v.regions
                == w.regions && v.wakes == w.wakes && v.effects == w.effects
            &&& s.contains_key(fd) && s[fd].handle is EventFd && s[fd].handle->EventFd_0.kernel_parked_tid
                != 0 && w.wakes.items.len() < 128 ==> v.wakes.items.last() == WakeEvent::Tid(
                s[fd].handle->EventFd_0.kernel_parked_tid,
            )
        }),
{
}

/// Ending a process marks every thread of it but the leader as ended and fixes
/// its exit code; no other thread and no other process changes.
pub proof fn law_a_group_ends_together(
    w: World,
    pid: u16,
    leader: u32,
    exit_code: i32,
    running: Seq<Option<u32>>,
    k: u32,
    other: u16,
)
    requires
        w.procs.contains_key(pid),
        w.threads.contains_key(k),
        w.threads[k].tid == k,
    ensures
        ({
            let v = w.group_ended(pid, leader, exit_code, running);
            &&& v.procs[pid].exit_code == exit_code && v.procs[pid].exit_finalized
            &&& other != pid ==> v.procs[other] == w.procs[other]
            &&& w.threads[k].pid == pid && k != leader ==> v.threads[k].state == ThreadState::Exited
            &&& w.threads[k].pid != pid || k == leader ==> v.threads[k] == w.threads[k]
            &&& v.threads[k].pid == w.threads[k].pid
        }),
{
}

/// Requests are served in the order in which they were queued, each by its own
/// operation, and each caller gets the result of its own request.
pub proof fn law_requests_are_served_in_order(
    w: World,
    first: PendingWork,
    rest: Seq<PendingWork>,
    hart: int,
    running: Seq<Option<u32>>,
)
    ensures
        ({
            let all = seq![first] + rest;
            &&& needs_nothing(first) ==> drained(w, all, hart, running) == drained(
                w.served(first, hart, running),
                rest,
                hart,
                running,
            )
            &&& !needs_nothing(first) ==> drained(w, all, hart, running) == (w, Some(first), rest)
            &&& needs_nothing(first) <==> (first is Empty || first is WaitPid || first is WakeTid
                || first is CloseHandle || first is FbSurfaceDestroy || first is ExitGroup)
        }),
{
    assert((seq![first] + rest).skip(1) =~= rest);
}

/// The result of a request that was served reaches the thread that asked.
pub proof fn law_a_served_caller_is_answered(
    w: World,
    work: PendingWork,
    hart: int,
    running: Seq<Option<u32>>,
)
    ensures
        match work {
            PendingWork::WakeTid { req, pid, tid } => w.threads.contains_key(tid) ==> (w.served(
                work,
                hart,
                running,
            ).threads[tid].pending matches Some(r) && r.count == 1 && r.r0 == w.thread_poked(
                req.target_tid,
                pid,
            ).1),
            PendingWork::CloseHandle { req, pid, root_pa, tid } => w.threads.contains_key(tid) ==> (
            w.served(work, hart, running).threads[tid].pending matches Some(r) && r.count == 1
                && r.r0 == w.handle_closed(req.fd, pid, root_pa, hart).1),
            PendingWork::FbSurfaceDestroy { req, pid, root_pa, tid } => w.threads.contains_key(tid)
                ==> (w.served(work, hart, running).threads[tid].pending matches Some(r) && r.count
                == 1 && r.r0 == w.surface_destroyed(req.handle, pid, root_pa).1),
            _ => true,
        },
{
}

/// A process without surfaces or without handles has none to give up.
pub proof fn law_what_is_not_there_cannot_be_given_up(
    w: World,
    number: u32,
    pid: u16,
    root_pa: u64,
    hart: int,
)
    ensures
        !w.surfaces.contains_key(pid) ==> w.surface_destroyed(number, pid, root_pa).1 == -3
            && w.surface_destroyed(number, pid, root_pa).0 == w,
        !w.handles.contains_key(pid) ==> w.handle_closed(number, pid, root_pa, hart).1 == -9
            && w.handle_closed(number, pid, root_pa, hart).0 == w,
{
}

/// Closing a handle on a region succeeds where the region is gone, was
/// revoked before or can be revoked now, and else gives an input error. A
/// counter on which nobody waits wakes nobody.
pub proof fn law_closing_says_whether_it_revoked(
    w: World,
    fd: u32,
    pid: u16,
    root_pa: u64,
    hart: int,
    pa: u64,
)
    requires
        w.handles.contains_key(pid),
        w.handles[pid].slots.contains_key(fd),
        region_behind(w.handles[pid].slots[fd].handle) == Some(pa),
    ensures
        ({
            let h = w.handles[pid].slots[fd].handle;
            let (v, r) = w.handle_closed(fd, pid, root_pa, hart);
            let g = w.regions[pa];
            let fault = crate::shared_user_ptr::first_fault(
                w.leaves_of(root_pa),
                g.user_va as int,
                g.user_va + g.len,
            );
            &&& !w.regions.contains_key(pa) ==> r == 0
            &&& w.regions.contains_key(pa) && g.revoked ==> r == 0
            &&& w.regions.contains_key(pa) && !g.revoked && fault is None ==> r == 0
            &&& w.regions.contains_key(pa) && !g.revoked && fault is Some ==> r == -5
            &&& h is NetChannel ==> v.wakes == w.wakes
            &&& h is EventFd && h->EventFd_0.kernel_parked_tid == 0 ==> v.wakes == w.wakes
        }),
{
}

/// Ending a process that is not there changes nothing; ending one changes
/// nothing else of its threads than that they have ended, and interrupts the
/// harts that run them.
pub proof fn law_ending_a_group_changes_nothing_else(
    w: World,
    pid: u16,
    leader: u32,
    exit_code: i32,
    running: Seq<Option<u32>>,
    k: u32,
)
    ensures
        ({
            let v = w.group_ended(pid, leader, exit_code, running);
            &&& !w.procs.contains_key(pid) ==> v == w
            &&& w.procs.contains_key(pid) ==> {
                &&& v.procs[pid] == (ProcView { exit_code, exit_finalized: true, ..w.procs[pid] })
                &&& v.procs.dom() == w.procs.dom()
                &&& v.threads.dom() == w.threads.dom()
                &&& w.threads.contains_key(k) ==> v.threads[k] == (Thread {
                    state: v.threads[k].state,
                    ..w.threads[k]
                })
                &&& v.effects == w.effects + hart_wakes(running, w.threads, pid, leader)
                &&& v.wakes == w.wakes && v.handles == w.handles && v.regions == w.regions
            }
        }),
{
    let v = w.group_ended(pid, leader, exit_code, running);
    if w.procs.contains_key(pid) {
        assert(v.procs.dom() =~= w.procs.dom());
        assert(v.threads.dom() =~= w.threads.dom());
    }
}

/// A wait that has its answer returns it to the thread that asked; one that
/// has none leaves the thread parked, and the child remembers it.
pub proof fn law_a_wait_is_answered_or_remembered(
    w: World,
    work: PendingWork,
    hart: int,
    running: Seq<Option<u32>>,
)
    ensures
        match work {
            PendingWork::WaitPid { req, pid, tid } => {
                let v = w.served(work, hart, running);
                let a = wait_answer(w.procs, req.target_pid, pid);
                &&& a is None ==> v.threads == w.threads && v.wakes == w.wakes
                    && v.procs[req.target_pid].exit_waiter == Some(tid)
                &&& a matches Some(vals) ==> (w.threads.contains_key(tid)
                    ==> v.threads[tid].pending == Some(crate::process::rets_of(vals)) && v.wakes
                    == w.wakes.pushed(WakeEvent::Tid(tid)))
                &&& v.handles == w.handles && v.effects == w.effects
            },
            PendingWork::ExitGroup { pid, leader_tid, exit_code } => w.served(work, hart, running)
                == w.group_ended(pid, leader_tid, exit_code, running),
            PendingWork::Empty => w.served(work, hart, running) == w,
            _ => true,
        },
{
}

} // verus!
