//! Ending process groups and reaping what has ended.

use crate::faults::FaultReport;
#[allow(unused_imports)]
use crate::faults::{fault_report, FaultView};
use crate::orbit::{Effect, Orbit};
#[allow(unused_imports)]
use crate::orbit::{AbiLayout, Queues};
#[allow(unused_imports)]
use crate::pending_frees::all_frames;
use crate::process::{PhysBacking, Process, Thread, ThreadState};
#[allow(unused_imports)]
use crate::shared_user_ptr::page_clears;
use crate::tables::{keys32, members32};
#[allow(unused_imports)]
use crate::tables::{lists32, sorted32, sorted64};
#[allow(unused_imports)]
use crate::teardown::{backings_of, free_all, free_opt, handle_list, region_behind, surface_frames};
use crate::world::Machine;
#[allow(unused_imports)]
use crate::world::{
    homes_ok, maps_ok, members_ok, procs_ok, root_of, same_queues, same_rest, world, ProcView, World,
};
use vstd::prelude::*;

verus! {

broadcast use {vstd::laws_cmp::group_laws_cmp, vstd::std_specs::btree::group_btree_axioms};

/// Exit code that a killed thread leaves.
pub const KILLED: i32 = -1;

/// The exit code of a process after one of its threads ended. A fault counts
/// as killed; once the code was set for the whole group, later threads do not
/// change it.
pub open spec fn exit_code_after(p: ProcView, t: Thread) -> i32 {
    if t.fault_info is Some {
        KILLED
    } else if p.exit_finalized {
        p.exit_code
    } else {
        t.frame.a1 as i32
    }
}

/// Processes without the threads that were reaped, and the processes that have
/// none left, in the order in which they lost their last one.
#[verifier::ext_equal]
pub struct ReapState {
    pub w: World,
    pub pids: Seq<u16>,
}

/// One ended thread is struck off its process.
pub open spec fn reap_step(s: ReapState, tid: u32) -> ReapState {
    let t = s.w.threads[tid];
    let p = s.w.procs[t.pid];
    let n = ProcView { threads: p.threads.remove(tid), exit_code: exit_code_after(p, t), ..p };
    ReapState {
        w: World { procs: s.w.procs.insert(t.pid, n), ..s.w },
        pids: if n.threads.is_empty() && t.pid != 0 {
            s.pids.push(t.pid)
        } else {
            s.pids
        },
    }
}

/// A list of ended threads, the first one first.
pub open spec fn reap_all(s: ReapState, tids: Seq<u32>) -> ReapState
    decreases tids.len(),
{
    if tids.len() == 0 {
        s
    } else {
        reap_step(reap_all(s, tids.drop_last()), tids.last())
    }
}

/// What the log says of the threads among these that a fault killed, in order.
/// Each report lists the threads that its process then had left.
pub open spec fn fault_reports(s: ReapState, tids: Seq<u32>, abi: AbiLayout) -> Seq<FaultView>
    decreases tids.len(),
{
    if tids.len() == 0 {
        Seq::empty()
    } else {
        let rest = fault_reports(s, tids.drop_last(), abi);
        let after = reap_all(s, tids).w;
        let t = after.threads[tids.last()];
        match t.fault_info {
            Some(f) => rest.push(fault_report(after.procs[t.pid], after.threads, abi, t, f)),
            None => rest,
        }
    }
}

/// Whether a thread has ended and its process is there to be told.
pub open spec fn ended(w: World, tid: u32) -> bool {
    w.threads[tid].state == ThreadState::Exited && w.procs.contains_key(w.threads[tid].pid)
}

/// The threads that have ended, ascending.
pub open spec fn doomed(w: World) -> Seq<u32> {
    sorted32(w.threads.dom()).filter(|tid: u32| ended(w, tid))
}

/// A list of threads leaves the thread table and gives back what it had.
pub open spec fn threads_freed(w: World, tids: Seq<u32>, grain: u64) -> World
    decreases tids.len(),
{
    if tids.len() == 0 {
        w
    } else {
        let v = threads_freed(w, tids.drop_last(), grain);
        (World { threads: v.threads.remove(tids.last()), ..v }).thread_dropped(
            v.threads[tids.last()],
            grain,
        )
    }
}

/// A list of processes leaves the process table and gives back what it had.
pub open spec fn procs_freed(w: World, pids: Seq<u16>, hart: int) -> World
    decreases pids.len(),
{
    if pids.len() == 0 {
        w
    } else {
        let v = procs_freed(w, pids.drop_last(), hart);
        (World { procs: v.procs.remove(pids.last()), ..v }).process_dropped(
            v.procs[pids.last()],
            hart,
        )
    }
}

/// The frames waiting on the rings go back to the allocator.
pub open spec fn rings_drained(w: World) -> World {
    World {
        frees: w.frees.map_values(|s: Seq<PhysBacking>| Seq::<PhysBacking>::empty()),
        ..w.with_effects(free_all(all_frames(w.frees)))
    }
}

/// Everything that has ended is gone: first its threads, then the processes
/// that have none left, then the frames that waited to be freed.
pub open spec fn cleaned(w: World, hart: int, grain: u64) -> World {
    let dead = doomed(w);
    let s = reap_all(ReapState { w, pids: Seq::empty() }, dead);
    rings_drained(procs_freed(threads_freed(s.w, dead, grain), s.pids, hart))
}

proof fn lemma_sockets_keep(w: World, list: Seq<u64>)
    ensures
        ({
            let v = w.sockets_dropped(list);
            v.procs == w.procs && v.threads == w.threads && v.regions == w.regions && v.frees
                == w.frees && v.effects == w.effects && v.handles == w.handles && v.surfaces
                == w.surfaces
        }),
    decreases list.len(),
{
    if list.len() > 0 {
        lemma_sockets_keep(w.socket_dropped(list.last()), list.drop_last());
    }
}

proof fn lemma_clears_free_nothing(root_pa: u64, asid: u16, va: int, end: int)
    ensures
        freed(page_clears(root_pa, asid, va, end)) == Seq::<PhysBacking>::empty(),
    decreases
            (if va < end {
                end - va
            } else {
                0
            }),
{
    if va < end {
        let first = seq![
            Effect::UnmapPage { root_pa, va: va as u64, levels: 4 },
            Effect::Fence { asid, va: va as u64 },
        ];
        lemma_clears_free_nothing(root_pa, asid, va + 4096, end);
        lemma_freed_none(first);
        lemma_freed_add(first, page_clears(root_pa, asid, va + 4096, end));
        assert(freed(page_clears(root_pa, asid, va, end)) =~= Seq::<PhysBacking>::empty());
    }
}

/// What dropping one handle asks of the machine: frames are freed only if the
/// ring for them was full.
proof fn lemma_handle_keeps(w: World, root_pa: u64, h: crate::handle::Handle, hart: int) -> (mid:
    Seq<Effect>)
    requires
        0 <= hart < w.frees.len(),
    ensures
        ({
            let v = w.handle_dropped(root_pa, h, hart);
            &&& v.procs == w.procs
            &&& v.threads == w.threads
            &&& v.frees.len() == w.frees.len()
            &&& v.frees[hart].len() <= w.frees[hart].len() + 1
            &&& v.effects == w.effects + mid
            &&& w.frees[hart].len() < 63 ==> freed(mid).len() == 0
        }),
{
    let v = w.handle_dropped(root_pa, h, hart);
    let none = Seq::<Effect>::empty();
    assert(w.effects + none =~= w.effects);
    match region_behind(h) {
        Some(pa) => {
            let u = w.region_revoked(root_pa, pa);
            let g = w.regions[pa];
            let a = if u.effects == w.effects {
                none
            } else {
                page_clears(root_pa, g.owner_pid, g.user_va as int, g.user_va + g.len)
            };
            lemma_clears_free_nothing(
                root_pa,
                g.owner_pid,
                g.user_va as int,
                g.user_va + g.len,
            );
            assert(u.effects =~= w.effects + a);
            let b = if v.effects == u.effects {
                none
            } else {
                seq![
                    Effect::RingFull { hart: hart as u64 },
                    Effect::Free(u.regions[pa].backing),
                ]
            };
            assert(u.effects + none =~= u.effects);
            assert(v.effects == u.effects + b);
            lemma_freed_add(a, b);
            assert(v.effects =~= w.effects + (a + b));
            if w.frees[hart].len() < 63 {
                assert(v.effects == u.effects);
                assert(freed(a + b) =~= Seq::<PhysBacking>::empty());
            }
            a + b
        },
        None => none,
    }
}

proof fn lemma_handles_keep(
    w: World,
    root_pa: u64,
    hs: Seq<crate::handle::Handle>,
    hart: int,
) -> (mid: Seq<Effect>)
    requires
        0 <= hart < w.frees.len(),
    ensures
        ({
            let v = w.handles_dropped(root_pa, hs, hart);
            &&& v.procs == w.procs
            &&& v.threads == w.threads
            &&& v.frees.len() == w.frees.len()
            &&& v.effects == w.effects + mid
            &&& w.frees[hart].len() + hs.len() <= 63 ==> freed(mid).len() == 0
        }),
    decreases hs.len(),
{
    if hs.len() == 0 {
        let none = Seq::<Effect>::empty();
        assert(w.effects + none =~= w.effects);
        none
    } else {
        let a = w.handle_dropped(root_pa, hs[0], hart);
        let first = lemma_handle_keeps(w, root_pa, hs[0], hart);
        let rest = lemma_handles_keep(a, root_pa, hs.skip(1), hart);
        lemma_freed_add(first, rest);
        assert(w.effects + (first + rest) =~= (w.effects + first) + rest);
        first + rest
    }
}

/// Taking a process apart changes other processes at most in what they know of
/// dead children, and threads at most in the values waiting for them.
pub proof fn lemma_process_dropped_keeps(w: World, p: ProcView, hart: int)
    requires
        0 <= hart < w.frees.len(),
    ensures
        ({
            let v = w.process_dropped(p, hart);
            &&& v.procs.dom() == w.procs.dom()
            &&& forall|q: u16| #[trigger]
                w.procs.contains_key(q) ==> v.procs[q] == (ProcView {
                    dead_children: v.procs[q].dead_children,
                    ..w.procs[q]
                })
            &&& v.threads.dom() == w.threads.dom()
            &&& forall|t: u32| #[trigger]
                w.threads.contains_key(t) ==> v.threads[t] == (Thread {
                    pending: v.threads[t].pending,
                    ..w.threads[t]
                })
            &&& v.frees.len() == w.frees.len()
        }),
{
    let a = w.futexes_swept(p.pid).exit_told(p);
    assert(a.procs.dom() =~= w.procs.dom());
    assert(a.threads.dom() =~= w.threads.dom());
    let b = a.with_effects(
        free_opt(p.argv_blob) + free_opt(p.envp_blob) + seq![Effect::RemoveSource(p.pid)],
    ).input_gone(p.pid).surfaces_gone(p.pid);
    lemma_sockets_keep(b, sorted64(p.sockets));
    let c = b.sockets_dropped(sorted64(p.sockets));
    let _ = lemma_handles_keep(c, root_of(p.satp), handle_list(c, p.pid), hart);
}

/// A process without a parent changes no other process when it is taken apart.
pub proof fn lemma_dropped_keeps_procs(w: World, p: ProcView, hart: int)
    requires
        0 <= hart < w.frees.len(),
        p.parent_pid == 0,
    ensures
        w.process_dropped(p, hart).procs == w.procs,
{
    let a = w.futexes_swept(p.pid).exit_told(p);
    let b = a.with_effects(
        free_opt(p.argv_blob) + free_opt(p.envp_blob) + seq![Effect::RemoveSource(p.pid)],
    ).input_gone(p.pid).surfaces_gone(p.pid);
    lemma_sockets_keep(b, sorted64(p.sockets));
    let c = b.sockets_dropped(sorted64(p.sockets));
    let _ = lemma_handles_keep(c, root_of(p.satp), handle_list(c, p.pid), hart);
}

impl Orbit {
    /// Ends a whole process: fixes its exit code and marks every thread but
    /// the leader as ended. `running` lists, hart by hart, what each runs;
    /// harts that run a sibling are interrupted.
    pub fn request_exit_group(
        &mut self,
        m: &mut Machine,
        pid: u16,
        leader_tid: u32,
        exit_code: i32,
        running: &Vec<Option<u32>>,
    )
        requires
            members_ok(old(self).procs(), old(self).threads@),
        ensures
            !old(self).procs().contains_key(pid) ==> *final(self) == *old(self) && *final(m)
                == *old(m),
            old(self).procs().contains_key(pid) ==> {
                let p = old(self).procs()[pid];
                &&& final(self).procs() == old(self).procs().insert(
                    pid,
                    ProcView { exit_code, exit_finalized: true, ..p },
                )
                &&& final(self).threads@ == old(self).threads@.map_values(
                    |t: Thread|
                        if t.pid == pid && t.tid != leader_tid {
                            Thread { state: ThreadState::Exited, ..t }
                        } else {
                            t
                        },
                )
                &&& final(m).effects@ == old(m).effects@ + hart_wakes(
                    running@,
                    old(self).threads@,
                    pid,
                    leader_tid,
                )
            },
            members_ok(final(self).procs(), final(self).threads@),
            *final(self) == (Orbit {
                processes: final(self).processes,
                threads: final(self).threads,
                ..*old(self)
            }),
            *final(m) == (Machine { effects: final(m).effects, ..*old(m) }),
    {
        if !self.processes.contains_key(&pid) {
            return ;
        }
        let mut p = self.processes.remove(&pid).unwrap();
        p.exit_code = exit_code;
        p.exit_finalized = true;
        let ghost p0 = old(self).procs()[pid];
        let tids = members32(&p.threads);
        let ghost n = p;
        let _ = self.processes.insert(pid, p);
        let ghost start = self.threads@;
        proof {
            assert(old(self).procs().contains_key(pid));
            assert(self.procs() =~= old(self).procs().insert(pid, n@));
        }
        let mut i: usize = 0;
        while i < tids.len()
            invariant
                i <= tids@.len(),
                start == old(self).threads@,
                lists32(tids@, p0.threads),
                p0 == old(self).procs()[pid],
                old(self).procs().contains_key(pid),
                members_ok(old(self).procs(), start),
                self.threads@.dom() == start.dom(),
                forall|j: int|
                    #![trigger tids@[j]]
                    0 <= j < i ==> self.threads@[tids@[j]] == (if tids@[j] != leader_tid {
                        Thread { state: ThreadState::Exited, ..start[tids@[j]] }
                    } else {
                        start[tids@[j]]
                    }),
                forall|j: int|
                    #![trigger tids@[j]]
                    i <= j < tids@.len() ==> self.threads@[tids@[j]] == start[tids@[j]],
                forall|t: u32| #[trigger]
                    start.contains_key(t) && start[t].pid != pid ==> self.threads@[t] == start[t],
                *self == (Orbit { processes: self.processes, threads: self.threads, ..*old(self) }),
                self.processes@ == old(self).processes@.insert(pid, n),
            decreases tids@.len() - i,
        {
            let tid: u32 = tids[i];
            proof {
                assert(tids@.contains(tid));
                assert(p0.threads.contains(tid));
                assert(start.contains_key(tid) && start[tid].pid == pid);
            }
            if tid != leader_tid {
                match self.threads.get(&tid) {
                    Some(t0) => {
                        let mut t: Thread = *t0;
                        t.state = ThreadState::Exited;
                        let _ = self.threads.insert(tid, t);
                        proof {
                            assert(self.threads@.dom() =~= start.dom());
                        }
                    },
                    None => {},
                }
            }
            proof {
                assert forall|j: int| #![trigger tids@[j]] 0 <= j < tids@.len() && j != i implies tids@[j]
                    != tid by {
                    if j < i {
                        assert(tids@[j] < tids@[i as int]);
                    } else {
                        assert(tids@[i as int] < tids@[j]);
                    }
                }
            }
            i = i + 1;
        }
        proof {
            let goal = start.map_values(
                |t: Thread|
                    if t.pid == pid && t.tid != leader_tid {
                        Thread { state: ThreadState::Exited, ..t }
                    } else {
                        t
                    },
            );
            assert forall|t: u32| #[trigger] start.contains_key(t) implies self.threads@[t]
                == goal[t] by {
                if start[t].pid == pid {
                    assert(old(self).procs()[pid].threads.contains(t));
                    assert(tids@.contains(t));
                    let j = choose|j: int| 0 <= j < tids@.len() && tids@[j] == t;
                    assert(tids@[j] == t);
                }
            }
            assert(self.threads@ =~= goal);
            assert(members_ok(self.procs(), self.threads@)) by {
                assert forall|q: u16, t: u32|
                    #![trigger self.procs()[q].threads.contains(t)]
                    self.procs().contains_key(q) implies (self.procs()[q].threads.contains(t)
                    <==> (self.threads@.contains_key(t) && self.threads@[t].pid == q)) by {
                    assert(old(self).procs().contains_key(q));
                    assert(old(self).procs()[q].threads.contains(t) == self.procs()[q].threads.contains(t));
                }
            }
        }
        let mut h: usize = 0;
        proof {
            assert(m.effects@ =~= old(m).effects@ + hart_wakes(
                running@.take(0),
                start,
                pid,
                leader_tid,
            ));
        }
        while h < running.len()
            invariant
                h <= running@.len(),
                start == old(self).threads@,
                self.threads@.dom() == start.dom(),
                forall|t: u32| #[trigger]
                    start.contains_key(t) ==> self.threads@[t].pid == start[t].pid
                        && self.threads@[t].tid == start[t].tid,
                m.effects@ == old(m).effects@ + hart_wakes(
                    running@.take(h as int),
                    start,
                    pid,
                    leader_tid,
                ),
                *m == (Machine { effects: m.effects, ..*old(m) }),
            decreases running@.len() - h,
        {
            proof {
                let t = running@.take(h + 1);
                assert(t.drop_last() =~= running@.take(h as int));
                assert(t.last() == running@[h as int]);
            }
            match running[h] {
                Some(tid) => {
                    match self.threads.get(&tid) {
                        Some(t) => {
                            proof {
                                assert(start.contains_key(tid));
                            }
                            if t.pid == pid && t.tid != leader_tid {
                                m.effects.push(Effect::WakeHart(h as u64));
                            }
                        },
                        None => {
                            proof {
                                assert(!start.contains_key(tid));
                            }
                        },
                    }
                },
                None => {},
            }
            proof {
                assert(m.effects@ =~= old(m).effects@ + hart_wakes(
                    running@.take(h + 1),
                    start,
                    pid,
                    leader_tid,
                ));
            }
            h = h + 1;
        }
        proof {
            assert(running@.take(h as int) =~= running@);
        }
    }
}

/// The harts that run a thread of `pid` other than the leader, as interrupts
/// to send.
pub open spec fn hart_wakes(
    running: Seq<Option<u32>>,
    threads: Map<u32, Thread>,
    pid: u16,
    leader: u32,
) -> Seq<Effect>
    decreases running.len(),
{
    if running.len() == 0 {
        Seq::empty()
    } else {
        let rest = hart_wakes(running.drop_last(), threads, pid, leader);
        match running.last() {
            Some(tid) => if threads.contains_key(tid) && threads[tid].pid == pid
                && threads[tid].tid != leader {
                rest.push(Effect::WakeHart((running.len() - 1) as u64))
            } else {
                rest
            },
            None => rest,
        }
    }
}

/// What holds while ended threads are struck off: nothing but thread lists and
/// exit codes changes, the lists lose exactly the threads in `done`, and the
/// processes in `pids` are distinct and have no threads.
spec fn reaping(w0: World, done: Seq<u32>, s: ReapState) -> bool {
    &&& s.w == (World { procs: s.w.procs, ..w0 })
    &&& s.w.procs.dom() == w0.procs.dom()
    &&& forall|q: u16| #[trigger]
        w0.procs.contains_key(q) ==> s.w.procs[q] == (ProcView {
            threads: s.w.procs[q].threads,
            exit_code: s.w.procs[q].exit_code,
            ..w0.procs[q]
        })
    &&& forall|q: u16, t: u32|
        #![trigger s.w.procs[q].threads.contains(t)]
        w0.procs.contains_key(q) ==> (s.w.procs[q].threads.contains(t) <==> (
        w0.procs[q].threads.contains(t) && !done.contains(t)))
    &&& s.pids.no_duplicates()
    &&& forall|i: int|
        #![trigger s.pids[i]]
        0 <= i < s.pids.len() ==> w0.procs.contains_key(s.pids[i])
            && s.w.procs[s.pids[i]].threads.is_empty()
}

proof fn lemma_reap_step(w0: World, done: Seq<u32>, s: ReapState, tid: u32)
    requires
        w0.wf(),
        reaping(w0, done, s),
        w0.threads.contains_key(tid),
        ended(w0, tid),
        !done.contains(tid),
    ensures
        reaping(w0, done.push(tid), reap_step(s, tid)),
{
    let t = w0.threads[tid];
    let n = reap_step(s, tid);
    let d = done.push(tid);
    assert(w0.procs[t.pid].threads.contains(tid));
    assert(s.w.procs[t.pid].threads.contains(tid));
    assert(n.w.procs.dom() =~= w0.procs.dom());
    assert forall|x: u32| d.contains(x) <==> (done.contains(x) || x == tid) by {
        if done.contains(x) {
            let i = choose|i: int| 0 <= i < done.len() && done[i] == x;
            assert(d[i] == x);
        }
        assert(d[done.len() as int] == tid);
        if d.contains(x) {
            let i = choose|i: int| 0 <= i < d.len() && d[i] == x;
            if i < done.len() {
                assert(done[i] == x);
            }
        }
    }
    assert forall|q: u16, x: u32|
        #![trigger n.w.procs[q].threads.contains(x)]
        w0.procs.contains_key(q) implies (n.w.procs[q].threads.contains(x) <==> (
    w0.procs[q].threads.contains(x) && !d.contains(x))) by {
        assert(s.w.procs[q].threads.contains(x) <==> (w0.procs[q].threads.contains(x)
            && !done.contains(x)));
        if q != t.pid && x == tid {
            assert(!w0.procs[q].threads.contains(x));
        }
    }
    assert forall|i: int|
        #![trigger n.pids[i]]
        0 <= i < n.pids.len() implies w0.procs.contains_key(n.pids[i])
        && n.w.procs[n.pids[i]].threads.is_empty() by {
        if i < s.pids.len() {
            assert(s.pids[i] == n.pids[i]);
            assert(s.w.procs[s.pids[i]].threads.is_empty());
            assert(s.pids[i] != t.pid);
        }
    }
    if n.pids.len() > s.pids.len() {
        assert forall|i: int| 0 <= i < s.pids.len() implies s.pids[i] != t.pid by {
            assert(s.w.procs[s.pids[i]].threads.is_empty());
        }
    }
}

/// What holds while threads leave the thread table: processes change at most
/// in mappings and slots, and stay sound.
spec fn freeing(w1: World, w: World) -> bool {
    &&& w.procs.dom() == w1.procs.dom()
    &&& forall|q: u16| #[trigger]
        w1.procs.contains_key(q) ==> w.procs[q] == (ProcView {
            maps: w.procs[q].maps,
            thread_slots: w.procs[q].thread_slots,
            ..w1.procs[q]
        })
    &&& w == (World { procs: w.procs, threads: w.threads, effects: w.effects, ..w1 })
}

/// The threads after every thread of a process has ended.
pub open spec fn all_exited(threads: Map<u32, Thread>, pid: u16) -> Map<u32, Thread> {
    threads.map_values(
        |t: Thread|
            if t.pid == pid {
                Thread { state: ThreadState::Exited, ..t }
            } else {
                t
            },
    )
}

impl Orbit {
    /// `exit`: the thread on this hart ends its whole process with a code and
    /// leaves the hart. The process keeps that code. Without a thread on the
    /// hart nothing happens.
    pub fn handle_exit(
        &mut self,
        m: &mut Machine,
        hart: u64,
        current: &mut Option<u32>,
        exit_code: i32,
        running: &Vec<Option<u32>>,
    )
        requires
            old(m).q.wf(),
            members_ok(old(self).procs(), old(self).threads@),
            *old(current) matches Some(tid) ==> old(self).threads@.contains_key(tid),
        ensures
            final(m).q.wf(),
            *final(current) is None,
            match *old(current) {
                None => *final(self) == *old(self) && *final(m) == *old(m),
                Some(tid) => {
                    let t = old(self).threads@[tid];
                    let known = old(self).procs().contains_key(t.pid);
                    &&& final(self).threads@ == (if known {
                        all_exited(old(self).threads@, t.pid)
                    } else {
                        old(self).threads@.insert(tid, Thread { state: ThreadState::Exited, ..t })
                    })
                    &&& final(self).procs() == (if known {
                        old(self).procs().insert(
                            t.pid,
                            ProcView {
                                exit_code,
                                exit_finalized: true,
                                ..old(self).procs()[t.pid]
                            },
                        )
                    } else {
                        old(self).procs()
                    })
                    &&& final(m).effects@ == (if known {
                        old(m).effects@ + hart_wakes(running@, old(self).threads@, t.pid, tid)
                    } else {
                        old(m).effects@
                    })
                },
            },
            final(m).q.sleeps@ == old(m).q.sleeps@,
            final(m).q.inboxes() == old(m).q.inboxes(),
            members_ok(final(self).procs(), final(self).threads@),
            *final(self) == (Orbit {
                processes: final(self).processes,
                threads: final(self).threads,
                ..*old(self)
            }),
            *final(m) == (Machine {
                effects: final(m).effects,
                q: Queues { sleeps: final(m).q.sleeps, ready: final(m).q.ready, ..old(m).q },
                ..*old(m)
            }),
    {
        let tid: u32 = match *current {
            Some(t) => t,
            None => {
                return ;
            },
        };
        let t: Thread = *self.threads.get(&tid).unwrap();
        self.request_exit_group(m, t.pid, tid, exit_code, running);
        let ghost mid = self.threads@;
        self.exit_thread_with_state(&mut m.q, hart, current, ThreadState::Exited, None);
        proof {
            let known = old(self).procs().contains_key(t.pid);
            assert(old(self).procs().contains_key(t.pid) == known);
            if known {
                assert(self.threads@ =~= all_exited(old(self).threads@, t.pid));
            }
            let procs = self.procs();
            assert forall|p: u16, x: u32|
                #![trigger procs[p].threads.contains(x)]
                procs.contains_key(p) implies (procs[p].threads.contains(x) <==> (
            self.threads@.contains_key(x) && self.threads@[x].pid == p)) by {
                assert(old(self).procs()[p].threads.contains(x) == procs[p].threads.contains(x));
            }
        }
    }
}

/// `exit` ends the caller's process as a whole and nothing else: every thread of
/// it has ended, and every other thread is as it was.
pub proof fn law_exit_ends_the_whole_process(threads: Map<u32, Thread>, pid: u16, tid: u32)
    requires
        threads.contains_key(tid),
    ensures
        all_exited(threads, pid).contains_key(tid),
        threads[tid].pid == pid ==> all_exited(threads, pid)[tid].state == ThreadState::Exited,
        threads[tid].pid != pid ==> all_exited(threads, pid)[tid] == threads[tid],
{
}

impl Orbit {
    /// Strikes every ended thread off its process. Returns the threads, the
    /// processes that have none left, and what there is to say of faults.
    fn strike_off(&mut self, m: &Machine) -> (r: (Vec<u32>, Vec<u16>, Vec<FaultReport>))
        requires
            world(*old(self), *m).wf(),
        ensures
            ({
                let w0 = world(*old(self), *m);
                let s = reap_all(ReapState { w: w0, pids: Seq::empty() }, doomed(w0));
                &&& r.0@ == doomed(w0)
                &&& world(*final(self), *m) == s.w
                &&& r.1@ == s.pids
                &&& r.2@.map_values(|x: FaultReport| x@) == fault_reports(
                    ReapState { w: w0, pids: Seq::empty() },
                    doomed(w0),
                    old(self).abi,
                )
                &&& reaping(w0, r.0@, s)
                &&& forall|i: int, j: int| 0 <= i < j < r.0@.len() ==> r.0@[i] < r.0@[j]
                &&& forall|i: int|
                    #![trigger r.0@[i]]
                    0 <= i < r.0@.len() ==> w0.threads.contains_key(r.0@[i]) && ended(w0, r.0@[i])
            }),
            *final(self) == (Orbit { processes: final(self).processes, ..*old(self) }),
    {
        let ghost w0 = world(*self, *m);
        let ghost s0 = ReapState { w: w0, pids: Seq::empty() };
        let ghost f = |tid: u32| ended(w0, tid);
        let keys = keys32(&self.threads);
        let mut tids: Vec<u32> = Vec::new();
        let mut pids: Vec<u16> = Vec::new();
        let mut reports: Vec<FaultReport> = Vec::new();
        let ghost abi = self.abi;
        let ghost seen = |x: FaultReport| x@;
        let mut i: usize = 0;
        proof {
            assert(keys@.take(0).filter(f) =~= Seq::<u32>::empty()) by {
                reveal(Seq::filter);
            }
            assert(reaping(w0, Seq::<u32>::empty(), s0));
            assert(reports@.map_values(seen) =~= Seq::<FaultView>::empty());
        }
        while i < keys.len()
            invariant
                i <= keys@.len(),
                w0 == world(*old(self), *m),
                w0.wf(),
                s0 == (ReapState { w: w0, pids: Seq::empty() }),
                f == (|tid: u32| ended(w0, tid)),
                keys@ == sorted32(w0.threads.dom()),
                lists32(keys@, w0.threads.dom()),
                tids@ == keys@.take(i as int).filter(f),
                forall|a: int, b: int| 0 <= a < b < tids@.len() ==> tids@[a] < tids@[b],
                forall|a: int|
                    #![trigger tids@[a]]
                    0 <= a < tids@.len() ==> w0.threads.contains_key(tids@[a]) && ended(
                        w0,
                        tids@[a],
                    ) && exists|j: int| 0 <= j < i && keys@[j] == tids@[a],
                (ReapState { w: world(*self, *m), pids: pids@ }) == reap_all(s0, tids@),
                reaping(w0, tids@, reap_all(s0, tids@)),
                seen == (|x: FaultReport| x@),
                abi == old(self).abi,
                reports@.map_values(seen) == fault_reports(s0, tids@, abi),
                *self == (Orbit { processes: self.processes, ..*old(self) }),
            decreases keys@.len() - i,
        {
            let tid: u32 = keys[i];
            let ghost s = reap_all(s0, tids@);
            let ghost before = tids@;
            let ghost told = reports@;
            proof {
                assert(keys@.contains(tid));
                assert(w0.threads.contains_key(tid));
                let t = keys@.take(i + 1);
                assert(t.drop_last() =~= keys@.take(i as int));
                assert(t.last() == tid);
                reveal(Seq::filter);
                assert(!tids@.contains(tid)) by {
                    if tids@.contains(tid) {
                        let a = choose|a: int| 0 <= a < tids@.len() && tids@[a] == tid;
                        assert(tids@[a] == tid);
                        let j = choose|j: int| 0 <= j < i && keys@[j] == tids@[a];
                        assert(keys@[j] < keys@[i as int]);
                    }
                }
            }
            let t: Thread = *self.threads.get(&tid).unwrap();
            if t.state == ThreadState::Exited && self.processes.contains_key(&t.pid) {
                proof {
                    assert(self.procs().contains_key(t.pid));
                    assert(w0.procs.contains_key(t.pid));
                    lemma_reap_step(w0, tids@, s, tid);
                }
                let ghost procs0 = self.procs();
                let ghost raw0 = self.processes@;
                let mut p = self.processes.remove(&t.pid).unwrap();
                let _ = p.threads.remove(&tid);
                match t.fault_info {
                    Some(f) => {
                        p.exit_code = KILLED;
                        reports.push(p.report_fault(&self.threads, self.abi, t, f));
                        proof {
                            assert(reports@.map_values(seen) =~= told.map_values(seen).push(
                                fault_report(p@, self.threads@, abi, t, f),
                            ));
                        }
                    },
                    None => {
                        if !p.exit_finalized {
                            p.exit_code = t.frame.a1 as i32;
                        }
                    },
                }
                let empty: bool = p.threads.is_empty();
                let ghost n = p;
                let _ = self.processes.insert(t.pid, p);
                tids.push(tid);
                if empty && t.pid != 0 {
                    pids.push(t.pid);
                }
                proof {
                    assert(self.processes@ =~= raw0.insert(t.pid, n));
                    assert(self.procs() =~= procs0.insert(t.pid, n@));
                    assert(tids@.drop_last() =~= before);
                    assert(ReapState { w: world(*self, *m), pids: pids@ } =~= reap_step(s, tid));
                    assert(reap_all(s0, tids@) == reap_step(s, tid));
                    assert(reports@.map_values(seen) =~= fault_reports(s0, tids@, abi));
                    assert forall|a: int|
                        #![trigger tids@[a]]
                        0 <= a < tids@.len() implies w0.threads.contains_key(tids@[a]) && ended(
                        w0,
                        tids@[a],
                    ) && exists|j: int| 0 <= j < i + 1 && keys@[j] == tids@[a] by {
                        if a < before.len() {
                            assert(before[a] == tids@[a]);
                            let j = choose|j: int| 0 <= j < i && keys@[j] == before[a];
                            assert(keys@[j] == tids@[a]);
                        } else {
                            assert(keys@[i as int] == tids@[a]);
                        }
                    }
                    assert forall|a: int, b: int| 0 <= a < b < tids@.len() implies tids@[a]
                        < tids@[b] by {
                        assert(before[a] == tids@[a]);
                        if b == before.len() {
                            let j = choose|j: int| 0 <= j < i && keys@[j] == before[a];
                            assert(keys@[j] < keys@[i as int]);
                        } else {
                            assert(before[b] == tids@[b]);
                        }
                    }
                }
            } else {
                proof {
                    assert(w0.procs.contains_key(t.pid) == self.procs().contains_key(t.pid));
                    assert(!ended(w0, tid));
                }
            }
            i = i + 1;
        }
        proof {
            assert(keys@.take(i as int) =~= keys@);
        }
        (tids, pids, reports)
    }

    /// Reaps everything that has ended, and gives frames back whose last
    /// holder let go since the last pass. Returns a report on each thread that
    /// a fault killed.
    pub fn cleanup_threads_and_processes(&mut self, m: &mut Machine, hart: usize) -> (r: Vec<
        FaultReport,
    >)
        requires
            world(*old(self), *old(m)).wf(),
            old(self).abi.stack_grain > 0,
            hart < old(m).frees@.len(),
        ensures
            world(*final(self), *final(m)) == cleaned(
                world(*old(self), *old(m)),
                hart as int,
                old(self).abi.stack_grain,
            ),
            ({
                let w = world(*old(self), *old(m));
                r@.map_values(|x: FaultReport| x@) == fault_reports(
                    ReapState { w, pids: Seq::empty() },
                    doomed(w),
                    old(self).abi,
                )
            }),
            world(*final(self), *final(m)).wf(),
            homes_ok(old(self).procs(), old(self).threads@) ==> homes_ok(
                final(self).procs(),
                final(self).threads@,
            ),
            old(self).handles_ok() ==> final(self).handles_ok(),
            final(m).frees@.len() == old(m).frees@.len(),
            same_rest(*old(self), *final(self)),
            same_queues(*old(m), *final(m)),
    {
        let ghost w0 = world(*self, *m);
        let (tids, pids, reports) = self.strike_off(&*m);
        let ghost w1 = world(*self, *m);
        let ghost s1 = reap_all(ReapState { w: w0, pids: Seq::empty() }, doomed(w0));
        let grain: u64 = self.abi.stack_grain;
        proof {
            assert forall|q: u16| #[trigger] w1.procs.contains_key(q) implies {
                &&& w1.procs[q].pid == q
                &&& w1.procs[q].satp.ppn < 0x1000_0000_0000
                &&& maps_ok(w1.procs[q].maps)
            } by {
                assert(w0.procs.contains_key(q));
            }
            assert(procs_ok(w1.procs));
            assert(w1.threads == w0.threads);
            assert(tids@.take(0) =~= Seq::<u32>::empty());
            assert(w0.threads.remove_keys(tids@.take(0).to_set()) =~= w0.threads);
            assert(freeing(w1, w1));
        }
        let mut i: usize = 0;
        while i < tids.len()
            invariant
                i <= tids@.len(),
                w1.threads == w0.threads,
                world(*self, *m) == threads_freed(w1, tids@.take(i as int), grain),
                freeing(w1, world(*self, *m)),
                procs_ok(self.procs()),
                grain == self.abi.stack_grain,
                grain > 0,
                self.threads@ == w0.threads.remove_keys(tids@.take(i as int).to_set()),
                forall|a: int, b: int| 0 <= a < b < tids@.len() ==> tids@[a] < tids@[b],
                forall|a: int|
                    #![trigger tids@[a]]
                    0 <= a < tids@.len() ==> w0.threads.contains_key(tids@[a]),
                *self == (Orbit { processes: self.processes, threads: self.threads, ..*old(self) }),
                *m == (Machine { effects: m.effects, ..*old(m) }),
            decreases tids@.len() - i,
        {
            let tid: u32 = tids[i];
            let ghost v = world(*self, *m);
            let ghost gone = tids@.take(i as int);
            proof {
                assert(w0.threads.contains_key(tids@[i as int]));
                assert(!gone.to_set().contains(tid)) by {
                    if gone.contains(tid) {
                        let a = choose|a: int| 0 <= a < gone.len() && gone[a] == tid;
                        assert(tids@[a] < tids@[i as int]);
                    }
                }
                assert(self.threads@.contains_key(tid));
                let t = tids@.take(i + 1);
                assert(t.drop_last() =~= gone);
                assert(t.last() == tid);
                assert(t.to_set() =~= gone.to_set().insert(tid)) by {
                    assert(t =~= gone.push(tid));
                    broadcast use vstd::seq_lib::group_seq_properties;

                }
            }
            let t: Thread = self.threads.remove(&tid).unwrap();
            proof {
                assert(world(*self, *m) =~= World { threads: v.threads.remove(tid), ..v });
            }
            self.dealloc_thread(m, t);
            proof {
                assert(self.threads@ =~= w0.threads.remove_keys(tids@.take(i + 1).to_set()));
                let now = world(*self, *m);
                assert(now.procs.dom() =~= w1.procs.dom());
                assert(freeing(w1, now));
            }
            i = i + 1;
        }
        let ghost w2 = world(*self, *m);
        proof {
            assert(tids@.take(i as int) =~= tids@);
            assert(members_ok(w2.procs, w2.threads)) by {
                assert forall|q: u16, t: u32|
                    #![trigger w2.procs[q].threads.contains(t)]
                    w2.procs.contains_key(q) implies (w2.procs[q].threads.contains(t) <==> (
                w2.threads.contains_key(t) && w2.threads[t].pid == q)) by {
                    assert(w1.procs.contains_key(q));
                    assert(w0.procs.contains_key(q));
                    assert(w1.procs[q].threads.contains(t) <==> (w0.procs[q].threads.contains(t)
                        && !tids@.contains(t)));
                    assert(w0.procs[q].threads.contains(t) <==> (w0.threads.contains_key(t)
                        && w0.threads[t].pid == q));
                    assert(tids@.to_set().contains(t) <==> tids@.contains(t));
                }
            }
            assert(w2.wf());
            assert(homes_ok(w0.procs, w0.threads) ==> homes_ok(w2.procs, w2.threads)) by {
                assert forall|t: u32| #[trigger] w2.threads.contains_key(t) implies {
                    &&& w0.threads.contains_key(t)
                    &&& w2.threads[t].pid == w0.threads[t].pid
                    &&& w0.procs.contains_key(w2.threads[t].pid) ==> w2.procs.contains_key(
                        w2.threads[t].pid,
                    )
                } by {
                    assert(w2.procs.dom() == w1.procs.dom());
                    assert(w1.procs.dom() == w0.procs.dom());
                }
            }
            assert(pids@.take(0) =~= Seq::<u16>::empty());
            assert forall|k: int| 0 <= k < pids@.len() implies w2.procs.contains_key(
                #[trigger] pids@[k],
            ) && w2.procs[pids@[k]].threads.is_empty() by {
                assert(w0.procs.contains_key(s1.pids[k]));
                assert(w1.procs.contains_key(s1.pids[k]));
            }
        }
        let mut k: usize = 0;
        while k < pids.len()
            invariant
                k <= pids@.len(),
                world(*self, *m) == procs_freed(w2, pids@.take(k as int), hart as int),
                world(*self, *m).wf(),
                old(self).handles_ok() ==> self.handles_ok(),
                pids@.no_duplicates(),
                hart < m.frees@.len(),
                m.frees@.len() == old(m).frees@.len(),
                homes_ok(w0.procs, w0.threads) ==> homes_ok(self.procs(), self.threads@),
                forall|j: int|
                    k <= j < pids@.len() ==> self.procs().contains_key(#[trigger] pids@[j])
                        && self.procs()[pids@[j]].threads.is_empty(),
                same_rest(*old(self), *self),
                same_queues(*old(m), *m),
            decreases pids@.len() - k,
        {
            let pid: u16 = pids[k];
            let ghost v = world(*self, *m);
            let ghost before = self.procs();
            proof {
                assert(self.procs().contains_key(pids@[k as int]));
                let t = pids@.take(k + 1);
                assert(t.drop_last() =~= pids@.take(k as int));
                assert(t.last() == pid);
            }
            let p: Process = self.processes.remove(&pid).unwrap();
            let ghost u = World { procs: v.procs.remove(pid), ..v };
            proof {
                assert(self.procs() =~= before.remove(pid));
                assert(world(*self, *m) =~= u);
                assert(p@ == v.procs[pid]);
                assert(procs_ok(u.procs)) by {
                    assert forall|q: u16| #[trigger] u.procs.contains_key(q) implies {
                        &&& u.procs[q].pid == q
                        &&& u.procs[q].satp.ppn < 0x1000_0000_0000
                        &&& maps_ok(u.procs[q].maps)
                    } by {
                        assert(v.procs.contains_key(q));
                    }
                }
                lemma_process_dropped_keeps(u, p@, hart as int);
            }
            self.dealloc_process(m, p, hart);
            proof {
                let now = world(*self, *m);
                assert(members_ok(now.procs, now.threads)) by {
                    assert forall|q: u16, t: u32|
                        #![trigger now.procs[q].threads.contains(t)]
                        now.procs.contains_key(q) implies (now.procs[q].threads.contains(t) <==> (
                    now.threads.contains_key(t) && now.threads[t].pid == q)) by {
                        assert(u.procs.contains_key(q));
                        assert(v.procs.contains_key(q));
                        assert(v.procs[q].threads.contains(t) <==> (v.threads.contains_key(t)
                            && v.threads[t].pid == q));
                        assert(u.threads.contains_key(t) == now.threads.contains_key(t));
                    }
                    assert forall|t: u32| #[trigger] now.threads.contains_key(t) implies now.threads[t].tid
                        == t by {
                        assert(u.threads.contains_key(t));
                        assert(v.threads.contains_key(t));
                    }
                }
                assert forall|j: int| k + 1 <= j < pids@.len() implies self.procs().contains_key(
                    #[trigger] pids@[j],
                ) && self.procs()[pids@[j]].threads.is_empty() by {
                    assert(before.contains_key(pids@[j]));
                    assert(pids@[j] != pids@[k as int]);
                    assert(u.procs.contains_key(pids@[j]));
                }
                if homes_ok(v.procs, v.threads) {
                    assert forall|t: u32| #[trigger] now.threads.contains_key(t) implies {
                        now.threads[t].pid == 0 || now.procs.contains_key(now.threads[t].pid)
                    } by {
                        assert(u.threads.contains_key(t));
                        assert(!v.procs[pid].threads.contains(t));
                        assert(v.threads[t].pid != pid);
                        assert(now.procs.dom().contains(v.threads[t].pid) == u.procs.dom().contains(
                            v.threads[t].pid,
                        ));
                    }
                }
            }
            k = k + 1;
        }
        let ghost w3 = world(*self, *m);
        proof {
            assert(pids@.take(k as int) =~= pids@);
        }
        let frames = m.frees.drain();
        let ghost all = frames@;
        let mut f: usize = 0;
        proof {
            assert(free_all(all.take(0)) =~= Seq::<Effect>::empty());
            assert(m.effects@ =~= w3.effects + free_all(all.take(0)));
        }
        let ghost m3 = *m;
        while f < frames.len()
            invariant
                f <= frames@.len(),
                all == frames@,
                m.effects@ == w3.effects + free_all(all.take(f as int)),
                *m == (Machine { effects: m.effects, ..m3 }),
            decreases frames@.len() - f,
        {
            m.effects.push(Effect::Free(frames[f]));
            proof {
                assert(m.effects@ =~= w3.effects + free_all(all.take(f + 1)));
            }
            f = f + 1;
        }
        proof {
            assert(all.take(f as int) =~= all);
            assert(world(*self, *m) =~= rings_drained(w3));
        }
        reports
    }
}

/// The frames that a list of effects frees, in order.
pub open spec fn freed(e: Seq<Effect>) -> Seq<PhysBacking>
    decreases e.len(),
{
    if e.len() == 0 {
        Seq::empty()
    } else {
        match e.last() {
            Effect::Free(b) => freed(e.drop_last()).push(b),
            _ => freed(e.drop_last()),
        }
    }
}

proof fn lemma_freed_add(a: Seq<Effect>, b: Seq<Effect>)
    ensures
        freed(a + b) == freed(a) + freed(b),
    decreases b.len(),
{
    if b.len() == 0 {
        assert(a + b =~= a);
        assert(freed(a) + freed(b) =~= freed(a));
    } else {
        lemma_freed_add(a, b.drop_last());
        assert((a + b).drop_last() =~= a + b.drop_last());
        assert((a + b).last() == b.last());
        assert(freed(a + b) =~= freed(a) + freed(b));
    }
}

proof fn lemma_freed_all(bs: Seq<PhysBacking>)
    ensures
        freed(free_all(bs)) == bs,
    decreases bs.len(),
{
    if bs.len() == 0 {
        assert(freed(free_all(bs)) =~= bs);
    } else {
        lemma_freed_all(bs.drop_last());
        assert(free_all(bs).drop_last() =~= free_all(bs.drop_last()));
        assert(freed(free_all(bs)) =~= bs);
    }
}

proof fn lemma_freed_none(e: Seq<Effect>)
    requires
        forall|i: int| 0 <= i < e.len() ==> (#[trigger] e[i]) !is Free,
    ensures
        freed(e) == Seq::<PhysBacking>::empty(),
    decreases e.len(),
{
    if e.len() > 0 {
        assert(e.last() !is Free);
        assert forall|i: int| 0 <= i < e.drop_last().len() implies (#[trigger] e.drop_last()[i])
            !is Free by {
            assert(e[i] !is Free);
        }
        lemma_freed_none(e.drop_last());
    }
}

/// An optional run of frames as a list.
pub open spec fn opt_frame(b: Option<PhysBacking>) -> Seq<PhysBacking> {
    match b {
        Some(x) => seq![x],
        None => Seq::empty(),
    }
}

proof fn lemma_freed_opt(b: Option<PhysBacking>)
    ensures
        freed(free_opt(b)) == opt_frame(b),
{
    match b {
        Some(x) => {
            lemma_freed_all(seq![x]);
            assert(free_all(seq![x]) =~= free_opt(b));
        },
        None => {},
    }
}

/// Taking a process apart frees each run of frames that it owns exactly once:
/// its argument and environment pages, its surfaces, its heap and its
/// mappings. In between come only frames of shared regions that lost their
/// last holder while the ring for those was full.
pub proof fn law_teardown_frees_what_the_process_owns(w: World, p: ProcView, hart: int)
    requires
        0 <= hart < w.frees.len(),
    ensures
        exists|mid: Seq<PhysBacking>|
            #![trigger free_all(mid)]
            freed(w.process_dropped(p, hart).effects) == freed(w.effects) + (opt_frame(p.argv_blob)
                + opt_frame(p.envp_blob) + surface_frames(w, p.pid)) + mid + (p.heap_pages.reverse()
                + backings_of(p.maps, sorted64(p.maps.dom()))) && (w.frees[hart].len()
                + handle_list(w, p.pid).len() <= 63 ==> mid.len() == 0),
{
    let e1 = free_opt(p.argv_blob) + free_opt(p.envp_blob) + seq![Effect::RemoveSource(p.pid)];
    let a = w.futexes_swept(p.pid).exit_told(p);
    let b = a.with_effects(e1).input_gone(p.pid);
    let e2 = free_all(surface_frames(b, p.pid));
    let c = b.surfaces_gone(p.pid);
    lemma_sockets_keep(c, sorted64(p.sockets));
    let d = c.sockets_dropped(sorted64(p.sockets));
    let between = lemma_handles_keep(d, root_of(p.satp), handle_list(d, p.pid), hart);
    let mid = freed(between);
    assert(free_all(mid).len() == mid.len());
    let tail = seq![
        Effect::UnmapAll { root_pa: root_of(p.satp) },
        Effect::FreeRoot { pa: root_of(p.satp) },
        Effect::Fence { asid: p.pid, va: 0 },
        Effect::Broadcast,
    ];
    let heap = p.heap_pages.reverse();
    let maps = backings_of(p.maps, sorted64(p.maps.dom()));
    let e3 = free_all(heap) + free_all(maps) + tail;
    assert(w.process_dropped(p, hart).effects == w.effects + e1 + e2 + between + e3);
    lemma_freed_add(w.effects + e1 + e2 + between, e3);
    lemma_freed_add(w.effects + e1 + e2, between);
    lemma_freed_add(w.effects + e1, e2);
    lemma_freed_add(w.effects, e1);
    lemma_freed_all(surface_frames(b, p.pid));
    lemma_freed_all(heap);
    lemma_freed_all(maps);
    lemma_freed_opt(p.argv_blob);
    lemma_freed_opt(p.envp_blob);
    lemma_freed_add(free_opt(p.argv_blob) + free_opt(p.envp_blob), seq![Effect::RemoveSource(p.pid)]);
    lemma_freed_add(free_opt(p.argv_blob), free_opt(p.envp_blob));
    lemma_freed_add(free_all(heap) + free_all(maps), tail);
    lemma_freed_add(free_all(heap), free_all(maps));
    lemma_freed_none(tail);
    lemma_freed_none(seq![Effect::RemoveSource(p.pid)]);
    assert(freed(w.process_dropped(p, hart).effects) =~= freed(w.effects) + (opt_frame(p.argv_blob)
        + opt_frame(p.envp_blob) + surface_frames(w, p.pid)) + mid + (heap + maps));
}

/// No thread of a process that was taken apart is left waiting on a futex, and
/// no other process loses a waiter.
pub proof fn law_teardown_leaves_no_futex_waiter(w: World, pid: u16, pa: u64, waiter: crate::orbit::FutexWaiter)
    ensures
        w.futexes_swept(pid).futexes.contains_key(pa) && w.futexes_swept(pid).futexes[pa].contains(
            waiter,
        ) <==> w.futexes.contains_key(pa) && w.futexes[pa].contains(waiter) && waiter.pid != pid,
{
    if w.futexes.contains_key(pa) {
        let f = |x: crate::orbit::FutexWaiter| x.pid != pid;
        let ws = w.futexes[pa];
        broadcast use vstd::seq_lib::group_filter_ensures;

        let kept = ws.filter(f);
        if kept.contains(waiter) {
            let i = choose|i: int| 0 <= i < kept.len() && kept[i] == waiter;
            assert(f(kept[i]));
            ws.lemma_filter_contains_rev(f, waiter);
        }
        if ws.contains(waiter) && waiter.pid != pid {
            assert(f(waiter));
            assert(kept.contains(waiter));
        }
    }
}

/// The exit of a process that is not detached is told exactly once: to the
/// thread parked on it if there is one, else to its parent if that is alive.
pub proof fn law_exit_is_told_once(w: World, p: ProcView)
    requires
        !p.detached,
        p.exit_waiter matches Some(tid) ==> w.threads.contains_key(tid),
    ensures
        p.exit_waiter matches Some(tid) ==> w.exit_told(p).threads[tid].pending == Some(
            crate::process::rets_of(seq![0i64, p.exit_code as i64]),
        ) && w.exit_told(p).procs == w.procs,
        p.exit_waiter is None && p.parent_pid != 0 && w.procs.contains_key(p.parent_pid)
            ==> w.exit_told(p).procs[p.parent_pid].dead_children[p.pid] == p.exit_code && w.exit_told(
            p,
        ).procs[p.parent_pid].dead_children.contains_key(p.pid) && w.exit_told(p).threads
            == w.threads,
{
}

/// A process whose thread faulted ends with -1; one that ended as a whole keeps
/// the code that it ended with; otherwise the code is the thread's.
pub proof fn law_the_exit_code_is_the_last_word(p: ProcView, t: Thread)
    ensures
        t.fault_info is Some ==> exit_code_after(p, t) == -1,
        t.fault_info is None && p.exit_finalized ==> exit_code_after(p, t) == p.exit_code,
        t.fault_info is None && !p.exit_finalized ==> exit_code_after(p, t) == t.frame.a1 as i32,
{
}

/// Exactly the threads that have ended are reaped, in the order of their
/// numbers, and only where their process is there.
pub proof fn law_only_ended_threads_are_reaped(w: World, k: u32)
    ensures
        doomed(w).contains(k) <==> w.threads.contains_key(k) && w.threads[k].state
            == ThreadState::Exited && w.procs.contains_key(w.threads[k].pid),
{
    crate::tables::lemma_listed32(w.threads.dom());
    let l = sorted32(w.threads.dom());
    let f = |tid: u32| ended(w, tid);
    broadcast use vstd::seq_lib::group_filter_ensures;

    let kept = l.filter(f);
    assert(w.threads.dom().contains(k) <==> l.contains(k));
    if kept.contains(k) {
        let i = choose|i: int| 0 <= i < kept.len() && kept[i] == k;
        assert(f(kept[i]));
        l.lemma_filter_contains_rev(f, k);
    }
    if l.contains(k) && f(k) {
        assert(kept.contains(k));
    }
}

/// Striking a thread off takes it, and it alone, from its process; a process goes
/// exactly when its last thread does, and the kernel's never.
pub proof fn law_a_process_goes_with_its_last_thread(s: ReapState, tid: u32, other: u16, k: u32)
    requires
        s.w.threads.contains_key(tid),
        s.w.procs.contains_key(s.w.threads[tid].pid),
    ensures
        ({
            let pid = s.w.threads[tid].pid;
            let r = reap_step(s, tid);
            &&& !r.w.procs[pid].threads.contains(tid)
            &&& k != tid ==> r.w.procs[pid].threads.contains(k) == s.w.procs[pid].threads.contains(k)
            &&& other != pid ==> r.w.procs[other] == s.w.procs[other]
            &&& r.pids.len() > s.pids.len() <==> r.w.procs[pid].threads.is_empty() && pid != 0
            &&& r.pids.len() > s.pids.len() ==> r.pids.last() == pid
            &&& s.pids.is_prefix_of(r.pids)
            &&& r.w.threads == s.w.threads && r.w.effects == s.w.effects
        }),
{
    let r = reap_step(s, tid);
    assert(s.pids =~= r.pids.take(s.pids.len() as int));
}

/// A hart is interrupted exactly if it runs a thread of the process that ends,
/// other than the one that ends it.
pub proof fn law_harts_of_the_ending_process_are_interrupted(
    running: Seq<Option<u32>>,
    threads: Map<u32, Thread>,
    pid: u16,
    leader: u32,
    h: int,
)
    requires
        0 <= h < running.len() <= u64::MAX,
    ensures
        hart_wakes(running, threads, pid, leader).contains(Effect::WakeHart(h as u64)) <==> (
        running[h] matches Some(tid) && threads.contains_key(tid) && threads[tid].pid == pid
            && threads[tid].tid != leader),
        forall|e: Effect| #[trigger]
            hart_wakes(running, threads, pid, leader).contains(e) ==> e is WakeHart
                && e->WakeHart_0 < running.len(),
    decreases running.len(),
{
    let n = running.len() - 1;
    let front = running.drop_last();
    let rest = hart_wakes(front, threads, pid, leader);
    let all = hart_wakes(running, threads, pid, leader);
    if front.len() > 0 {
        law_harts_of_the_ending_process_are_interrupted(
            front,
            threads,
            pid,
            leader,
            if h < n {
                h
            } else {
                0
            },
        );
    }
    let e = Effect::WakeHart(h as u64);
    assert forall|x: Effect| #[trigger] all.contains(x) implies rest.contains(x) || x
        == Effect::WakeHart(n as u64) by {
        let i = choose|i: int| 0 <= i < all.len() && all[i] == x;
        if i < rest.len() {
            assert(rest[i] == x);
        }
    }
    assert forall|x: Effect| #[trigger] rest.contains(x) implies all.contains(x) by {
        let i = choose|i: int| 0 <= i < rest.len() && rest[i] == x;
        assert(all[i] == x);
    }
    if h == n {
        assert(!rest.contains(e));
        if all.len() > rest.len() {
            assert(all[rest.len() as int] == e);
        }
    } else {
        assert(running[h] == front[h]);
        if all.contains(e) {
            assert(rest.contains(e));
        }
    }
}

/// Frames on the rings all go back, and the rings are empty then.
pub proof fn law_the_rings_are_emptied(w: World, hart: int)
    requires
        0 <= hart < w.frees.len(),
    ensures
        rings_drained(w).frees[hart].len() == 0,
        rings_drained(w).frees.len() == w.frees.len(),
        freed(rings_drained(w).effects) == freed(w.effects) + all_frames(w.frees),
        forall|i: int|
            0 <= i < w.frees[hart].len() ==> all_frames(w.frees).contains(
                #[trigger] w.frees[hart][i],
            ),
{
    lemma_freed_add(w.effects, free_all(all_frames(w.frees)));
    lemma_freed_all(all_frames(w.frees));
    lemma_all_frames(w.frees, hart);
}

proof fn lemma_all_frames(v: Seq<Seq<PhysBacking>>, hart: int)
    requires
        0 <= hart < v.len(),
    ensures
        forall|i: int| 0 <= i < v[hart].len() ==> all_frames(v).contains(#[trigger] v[hart][i]),
    decreases v.len(),
{
    let front = v.drop_last();
    let all = all_frames(v);
    if hart == v.len() - 1 {
        assert forall|i: int| 0 <= i < v[hart].len() implies all.contains(#[trigger] v[hart][i]) by {
            assert(all[all_frames(front).len() + i] == v[hart][i]);
        }
    } else {
        lemma_all_frames(front, hart);
        assert forall|i: int| 0 <= i < v[hart].len() implies all.contains(#[trigger] v[hart][i]) by {
            assert(front[hart] == v[hart]);
            assert(all_frames(front).contains(front[hart][i]));
            let k = choose|k: int|
                0 <= k < all_frames(front).len() && all_frames(front)[k] == v[hart][i];
            assert(all[k] == v[hart][i]);
        }
    }
}

proof fn lemma_threads_leave(w: World, tids: Seq<u32>, grain: u64)
    ensures
        threads_freed(w, tids, grain).threads == w.threads.remove_keys(tids.to_set()),
        threads_freed(w, tids, grain).procs.dom() == w.procs.dom(),
        threads_freed(w, tids, grain).frees == w.frees,
    decreases tids.len(),
{
    if tids.len() == 0 {
        assert(w.threads.remove_keys(tids.to_set()) =~= w.threads);
    } else {
        let d = tids.drop_last();
        let v = threads_freed(w, d, grain);
        lemma_threads_leave(w, d, grain);
        assert forall|t: u32| tids.to_set().contains(t) == (d.to_set().contains(t) || t
            == tids.last()) by {
            if tids.contains(t) && t != tids.last() {
                let i = choose|i: int| 0 <= i < tids.len() && tids[i] == t;
                assert(d[i] == t);
            }
            if d.contains(t) {
                let i = choose|i: int| 0 <= i < d.len() && d[i] == t;
                assert(tids[i] == t);
            }
            assert(tids.contains(tids.last()));
        }
        assert(v.threads.remove(tids.last()) =~= w.threads.remove_keys(tids.to_set()));
        let x = (World { threads: v.threads.remove(tids.last()), ..v });
        let y = x.thread_dropped(v.threads[tids.last()], grain);
        assert(y.procs.dom() =~= x.procs.dom());
    }
}

proof fn lemma_processes_leave(w: World, pids: Seq<u16>, hart: int)
    requires
        0 <= hart < w.frees.len(),
    ensures
        procs_freed(w, pids, hart).procs.dom() == w.procs.dom().difference(pids.to_set()),
        procs_freed(w, pids, hart).threads.dom() == w.threads.dom(),
        procs_freed(w, pids, hart).frees.len() == w.frees.len(),
    decreases pids.len(),
{
    if pids.len() == 0 {
        assert(w.procs.dom().difference(pids.to_set()) =~= w.procs.dom());
    } else {
        let d = pids.drop_last();
        let v = procs_freed(w, d, hart);
        lemma_processes_leave(w, d, hart);
        assert forall|t: u16| pids.to_set().contains(t) == (d.to_set().contains(t) || t
            == pids.last()) by {
            if pids.contains(t) && t != pids.last() {
                let i = choose|i: int| 0 <= i < pids.len() && pids[i] == t;
                assert(d[i] == t);
            }
            if d.contains(t) {
                let i = choose|i: int| 0 <= i < d.len() && d[i] == t;
                assert(pids[i] == t);
            }
            assert(pids.contains(pids.last()));
        }
        let x = (World { procs: v.procs.remove(pids.last()), ..v });
        lemma_process_dropped_keeps(x, v.procs[pids.last()], hart);
        assert(x.procs.dom() =~= w.procs.dom().difference(pids.to_set()));
    }
}

/// Cleaning up takes the threads that ended from the thread table, and no
/// others; no process goes that is not struck off for having none left, and
/// nothing is left on the rings.
pub proof fn law_cleaning_up_takes_what_has_ended(w: World, hart: int, grain: u64, tid: u32, pid: u16)
    requires
        0 <= hart < w.frees.len(),
    ensures
        ({
            let n = cleaned(w, hart, grain);
            let s = reap_all(ReapState { w, pids: Seq::empty() }, doomed(w));
            let ended_one = w.threads.contains_key(tid) && w.threads[tid].state
                == ThreadState::Exited && w.procs.contains_key(w.threads[tid].pid);
            &&& n.threads.contains_key(tid) <==> w.threads.contains_key(tid) && !ended_one
            &&& n.procs.contains_key(pid) <==> s.w.procs.contains_key(pid) && !s.pids.contains(pid)
            &&& forall|h: int| 0 <= h < n.frees.len() ==> #[trigger] n.frees[h].len() == 0
        }),
{
    let dead = doomed(w);
    let s = reap_all(ReapState { w, pids: Seq::empty() }, dead);
    lemma_reap_keeps(ReapState { w, pids: Seq::empty() }, dead);
    let v = threads_freed(s.w, dead, grain);
    lemma_threads_leave(s.w, dead, grain);
    lemma_processes_leave(v, s.pids, hart);
    law_only_ended_threads_are_reaped(w, tid);
    let n = cleaned(w, hart, grain);
    let x = procs_freed(v, s.pids, hart);
    assert(n.procs.dom().contains(pid) == n.procs.contains_key(pid));
    assert(x.threads.dom().contains(tid) == v.threads.dom().contains(tid));
    assert(x.procs.dom().contains(pid) == (v.procs.dom().contains(pid)
        && !s.pids.to_set().contains(pid)));
    assert(v.procs.dom().contains(pid) == s.w.procs.dom().contains(pid));
}

proof fn lemma_reap_keeps(s: ReapState, tids: Seq<u32>)
    ensures
        reap_all(s, tids).w.threads == s.w.threads,
        reap_all(s, tids).w.frees == s.w.frees,
    decreases tids.len(),
{
    if tids.len() > 0 {
        lemma_reap_keeps(s, tids.drop_last());
    }
}

/// Every thread that a fault killed is reported, with that fault, and no
/// other thread is.
pub proof fn law_every_fault_is_reported(s: ReapState, tids: Seq<u32>, abi: AbiLayout, i: int)
    requires
        0 <= i < tids.len(),
        forall|k: int| 0 <= k < tids.len() ==> s.w.threads[#[trigger] tids[k]].tid == tids[k],
    ensures
        s.w.threads[tids[i]].fault_info matches Some(f) ==> exists|k: int|
            0 <= k < fault_reports(s, tids, abi).len() && (#[trigger] fault_reports(
                s,
                tids,
                abi,
            )[k]).tid == tids[i] && fault_reports(s, tids, abi)[k].fault == f,
        forall|k: int|
            0 <= k < fault_reports(s, tids, abi).len() ==> s.w.threads[(#[trigger] fault_reports(
                s,
                tids,
                abi,
            )[k]).tid].fault_info == Some(fault_reports(s, tids, abi)[k].fault),
    decreases tids.len(),
{
    let d = tids.drop_last();
    let r = fault_reports(s, tids, abi);
    let rest = fault_reports(s, d, abi);
    lemma_reap_keeps(s, tids);
    assert(forall|k: int| 0 <= k < d.len() ==> d[k] == tids[k]);
    let after = reap_all(s, tids).w;
    let t = after.threads[tids.last()];
    assert(t.tid == tids[tids.len() - 1]);
    if d.len() > 0 {
        law_every_fault_is_reported(
            s,
            d,
            abi,
            if i < d.len() {
                i
            } else {
                0
            },
        );
    } else {
        assert(rest.len() == 0);
    }
    if let Some(f) = s.w.threads[tids[i]].fault_info {
        if i == d.len() {
            assert(r.last().tid == tids[i] && r.last().fault == f);
            assert(r[r.len() - 1].tid == tids[i]);
        } else {
            let k = choose|k: int|
                0 <= k < rest.len() && (#[trigger] rest[k]).tid == d[i] && rest[k].fault == f;
            assert(r[k] == rest[k]);
        }
    }
    assert forall|k: int| 0 <= k < r.len() implies s.w.threads[(#[trigger] r[k]).tid].fault_info
        == Some(r[k].fault) by {
        if k < rest.len() {
            assert(r[k] == rest[k]);
        }
    }
}

} // verus!
