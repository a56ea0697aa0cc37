//! The audit ring of refused calls, and the statistics of processes.

#[allow(unused_imports)]
use crate::abi::{errno_ret, refused};
use crate::abi::{to_ret, user_range_ok, EFAULT, EINVAL, ESRCH};
#[allow(unused_imports)]
use crate::accounting::wrapped_total;
use crate::accounting::{wrapping_total, HartTicks};
use crate::orbit::{Orbit, DENIAL_RING_CAPACITY};
use crate::process::{Process, Thread, ThreadState};
#[allow(unused_imports)]
use crate::rings::DenialView;
use crate::rings::{DenialQueue, WakeQueue};
use crate::tables::{keys32, keys64, members32};
#[allow(unused_imports)]
use crate::tables::{lists32, lists64, sorted32, sorted64};
#[allow(unused_imports)]
use crate::uspace::page_dst;
use crate::uspace::UserSpace;
use crate::work::DenialEvent;
#[allow(unused_imports)]
use crate::world::{keeps_order, lemma_same_places, ProcView};
use vstd::prelude::*;

verus! {

broadcast use {vstd::laws_cmp::group_laws_cmp, vstd::std_specs::btree::group_btree_axioms};

/// Slots in the wake queue.
pub const WAKE_QUEUE_CAPACITY: u64 = 128;

/// The ring after one more event. A full ring loses its oldest.
pub open spec fn recorded(ring: Seq<DenialEvent>, ev: DenialEvent) -> Seq<DenialEvent> {
    if ring.len() < 50 {
        ring.push(ev)
    } else {
        ring.skip(1).push(ev)
    }
}

/// The process an event is about.
pub open spec fn event_pid(ev: DenialEvent) -> u16 {
    match ev {
        DenialEvent::PermDeny { pid, .. } => pid,
        DenialEvent::RoleDeny { pid, .. } => pid,
    }
}

/// A process record with the event counted.
pub open spec fn counted(p: ProcView, ev: DenialEvent) -> ProcView {
    match ev {
        DenialEvent::PermDeny { .. } => ProcView {
            perm_denials: vstd::wrapping::u64_specs::wrapping_add(p.perm_denials, 1),
            ..p
        },
        DenialEvent::RoleDeny { .. } => ProcView {
            role_denials: vstd::wrapping::u64_specs::wrapping_add(p.role_denials, 1),
            ..p
        },
    }
}

/// The audit ring and the process records.
#[verifier::ext_equal]
pub struct AuditState {
    pub ring: Seq<DenialEvent>,
    pub procs: Map<u16, ProcView>,
}

impl AuditState {
    /// One queue slot is folded in: its event is recorded, and counted if its
    /// process is still there. A filler changes nothing.
    pub open spec fn logged(self, slot: Option<DenialEvent>) -> AuditState {
        match slot {
            None => self,
            Some(ev) => AuditState {
                ring: recorded(self.ring, ev),
                procs: if self.procs.contains_key(event_pid(ev)) {
                    self.procs.insert(event_pid(ev), counted(self.procs[event_pid(ev)], ev))
                } else {
                    self.procs
                },
            },
        }
    }

    /// Queue slots are folded in, the oldest first.
    pub open spec fn logged_all(self, slots: Seq<Option<DenialEvent>>) -> AuditState
        decreases slots.len(),
    {
        if slots.len() == 0 {
            self
        } else {
            self.logged(slots[0]).logged_all(slots.skip(1))
        }
    }
}

/// The newest fifty of `evs`.
pub open spec fn newest(evs: Seq<DenialEvent>) -> Seq<DenialEvent> {
    if evs.len() <= 50 {
        evs
    } else {
        evs.skip(evs.len() - 50)
    }
}

/// The ring holds the newest events, oldest first: folding events in leaves the
/// newest fifty of what it held followed by them.
pub proof fn law_ring_keeps_the_newest(s: AuditState, evs: Seq<DenialEvent>)
    requires
        s.ring.len() <= 50,
    ensures
        s.logged_all(evs.map_values(|e: DenialEvent| Some(e))).ring == newest(s.ring + evs),
    decreases evs.len(),
{
    let slots = evs.map_values(|e: DenialEvent| Some(e));
    if evs.len() == 0 {
        assert(s.ring + evs =~= s.ring);
    } else {
        let t = s.logged(slots[0]);
        law_ring_keeps_the_newest(t, evs.skip(1));
        assert(slots.skip(1) =~= evs.skip(1).map_values(|e: DenialEvent| Some(e)));
        let all = s.ring + evs;
        let rest = t.ring + evs.skip(1);
        if s.ring.len() < 50 {
            assert(rest =~= all);
        } else {
            assert(rest =~= all.skip(1));
            assert(newest(rest) =~= newest(all));
        }
    }
}

/// Folding events in neither makes nor ends a process and changes nothing of
/// one but its denial counts.
pub proof fn law_audit_keeps_processes(s: AuditState, slots: Seq<Option<DenialEvent>>, pid: u16)
    ensures
        s.logged_all(slots).procs.contains_key(pid) == s.procs.contains_key(pid),
        s.procs.contains_key(pid) ==> s.logged_all(slots).procs[pid] == (ProcView {
            perm_denials: s.logged_all(slots).procs[pid].perm_denials,
            role_denials: s.logged_all(slots).procs[pid].role_denials,
            ..s.procs[pid]
        }),
    decreases slots.len(),
{
    if slots.len() > 0 {
        law_audit_keeps_processes(s.logged(slots[0]), slots.skip(1), pid);
    }
}

/// Events for a page of a user process.
pub struct DenialCopy {
    pub events: Vec<DenialEvent>,
    pub page_pa: u64,
    pub off: u64,
}

/// What a copy holds.
#[verifier::ext_equal]
pub struct DenialCopyView {
    pub events: Seq<DenialEvent>,
    pub page_pa: u64,
    pub off: u64,
}

pub open spec fn copy_of(c: Option<DenialCopy>) -> Option<DenialCopyView> {
    match c {
        Some(x) => Some(DenialCopyView { events: x.events@, page_pa: x.page_pa, off: x.off }),
        None => None,
    }
}

/// How many events of a ring of `n` a buffer takes.
pub open spec fn emitted(n: nat, buf_len: u64, event_size: u64) -> int {
    if n < buf_len / event_size {
        n as int
    } else {
        (buf_len / event_size) as int
    }
}

/// Whether a denial log call is refused before the log is looked at. `va` is
/// the buffer's address, `None` if it is no user address.
pub open spec fn log_refusal(
    va: Option<u64>,
    buf_len: u64,
    event_size: u64,
    user_end: u64,
    mapped: bool,
) -> Option<i64> {
    match va {
        None => Some(errno_ret(EFAULT)),
        Some(v) => if buf_len < event_size {
            Some(errno_ret(EINVAL))
        } else if v + buf_len > user_end || !mapped {
            Some(errno_ret(EFAULT))
        } else {
            None
        },
    }
}

/// The events a denial refused for want of a capability leaves behind.
pub open spec fn refusal_event(
    t: Thread,
    syscall: u32,
    required_class: u64,
    now: u64,
) -> DenialEvent {
    DenialEvent::PermDeny {
        required_class,
        perms: t.permissions.perms,
        time_ticks: now,
        tid: t.tid,
        sysno: syscall,
        source_role: t.permissions.role,
        pid: t.pid,
    }
}

/// Gate in front of every system call. `allowed` says whether the thread's
/// permissions admit the call. A refused call leaves an event with the audit,
/// unless the queue is full, and then it is counted as lost.
pub fn perm_gate_check(
    denials: &mut DenialQueue,
    thread: &Thread,
    syscall: u32,
    allowed: bool,
    required_class: u64,
    now: u64,
) -> (r: bool)
    ensures
        r == allowed,
        final(denials)@ == (if allowed {
            old(denials)@
        } else if old(denials)@.items.len() < 64 {
            DenialView {
                items: old(denials)@.items.push(
                    Some(refusal_event(*thread, syscall, required_class, now)),
                ),
                ..old(denials)@
            }
        } else {
            DenialView {
                dropped: vstd::wrapping::u64_specs::wrapping_add(old(denials)@.dropped, 1),
                ..old(denials)@
            }
        }),
{
    if allowed {
        return true;
    }
    denials.push(
        DenialEvent::PermDeny {
            required_class,
            perms: thread.permissions.perms,
            time_ticks: now,
            tid: thread.tid,
            sysno: syscall,
            source_role: thread.permissions.role,
            pid: thread.pid,
        },
    );
    false
}

impl Orbit {
    pub open spec fn audit(self) -> AuditState {
        AuditState { ring: self.denial_ring@, procs: self.procs() }
    }

    /// Records an event.
    pub fn push_denial_event(&mut self, event: DenialEvent)
        requires
            old(self).denial_ring@.len() <= 50,
        ensures
            final(self).denial_ring@ == recorded(old(self).denial_ring@, event),
            final(self).denial_ring@.len() <= 50,
            *final(self) == (Orbit { denial_ring: final(self).denial_ring, ..*old(self) }),
    {
        if self.denial_ring.len() >= DENIAL_RING_CAPACITY {
            let _ = self.denial_ring.remove(0);
            proof {
                assert(self.denial_ring@ =~= old(self).denial_ring@.skip(1));
            }
        }
        self.denial_ring.push(event);
    }

    /// The recorded events, oldest first, at most `max` of them.
    pub fn denial_ring_snapshot(&self, max: usize) -> (r: Vec<DenialEvent>)
        ensures
            r@ == (if self.denial_ring@.len() <= max {
                self.denial_ring@
            } else {
                self.denial_ring@.take(max as int)
            }),
    {
        let mut out: Vec<DenialEvent> = Vec::new();
        let mut i: usize = 0;
        while i < self.denial_ring.len() && i < max
            invariant
                i <= self.denial_ring@.len(),
                i <= max,
                out@ == self.denial_ring@.take(i as int),
            decreases self.denial_ring@.len() - i,
        {
            out.push(self.denial_ring[i]);
            proof {
                assert(out@ =~= self.denial_ring@.take(i + 1));
            }
            i = i + 1;
        }
        proof {
            assert(self.denial_ring@.take(self.denial_ring@.len() as int) =~= self.denial_ring@);
        }
        out
    }

    /// Records an event and counts it against its process, if that is still
    /// there.
    pub fn log_denial(&mut self, event: DenialEvent)
        requires
            old(self).denial_ring@.len() <= 50,
        ensures
            final(self).audit() == old(self).audit().logged(Some(event)),
            final(self).denial_ring@.len() <= 50,
            keeps_order(*old(self), *final(self)),
            *final(self) == (Orbit {
                denial_ring: final(self).denial_ring,
                processes: final(self).processes,
                ..*old(self)
            }),
    {
        let (pid, perm): (u16, bool) = match event {
            DenialEvent::PermDeny { pid, .. } => (pid, true),
            DenialEvent::RoleDeny { pid, .. } => (pid, false),
        };
        self.push_denial_event(event);
        if self.processes.contains_key(&pid) {
            let mut p: Process = self.processes.remove(&pid).unwrap();
            if perm {
                p.perm_denials = p.perm_denials.wrapping_add(1);
            } else {
                p.role_denials = p.role_denials.wrapping_add(1);
            }
            let ghost n = p;
            let _ = self.processes.insert(pid, p);
            proof {
                assert(self.procs() =~= old(self).procs().insert(pid, n@));
            }
        }
        proof {
            assert(self.audit() =~= old(self).audit().logged(Some(event)));
            lemma_same_places(*old(self), *self);
        }
    }

    /// Folds the queued events into the ring and the counts.
    pub fn drain_denial_events(&mut self, denials: &mut DenialQueue)
        requires
            old(self).denial_ring@.len() <= 50,
        ensures
            final(self).audit() == old(self).audit().logged_all(old(denials)@.items),
            final(denials)@ == (DenialView { items: Seq::empty(), ..old(denials)@ }),
            final(self).denial_ring@.len() <= 50,
            keeps_order(*old(self), *final(self)),
            *final(self) == (Orbit {
                denial_ring: final(self).denial_ring,
                processes: final(self).processes,
                ..*old(self)
            }),
    {
        let ghost goal = self.audit().logged_all(denials@.items);
        loop
            invariant
                goal == self.audit().logged_all(denials@.items),
                denials@.dropped == old(denials)@.dropped,
                self.denial_ring@.len() <= 50,
                keeps_order(*old(self), *self),
                *self == (Orbit {
                    denial_ring: self.denial_ring,
                    processes: self.processes,
                    ..*old(self)
                }),
            ensures
                denials@.items.len() == 0,
            decreases denials@.items.len(),
        {
            match denials.take() {
                Some(Some(event)) => self.log_denial(event),
                Some(None) => {},
                None => {
                    break ;
                },
            }
        }
        proof {
            assert(self.audit() == goal);
            assert(denials@.items =~= Seq::empty());
        }
    }

    /// Length of what [`run_query_denials`](Self::run_query_denials) stores.
    pub open spec fn denials_len(self, slots: Seq<Option<DenialEvent>>, buf_len: u64) -> int {
        emitted(
            self.audit().logged_all(slots).ring.len(),
            buf_len,
            self.abi.denial_event_size,
        ) * self.abi.denial_event_size
    }

    /// Copies the audit log, oldest event first, to a user buffer on one page.
    /// Returns the number of bytes and what to store.
    pub fn run_query_denials(
        &mut self,
        denials: &mut DenialQueue,
        buf_vaddr: u64,
        buf_len: u64,
        space: &UserSpace,
    ) -> (r: (i64, Option<DenialCopy>))
        requires
            old(self).denial_ring@.len() <= 50,
            0 < old(self).abi.denial_event_size,
            buf_vaddr % 4096 + old(self).denials_len(old(denials)@.items, buf_len) <= 4096,
        ensures
            ({
                let len = old(self).denials_len(old(denials)@.items, buf_len);
                let ring = old(self).audit().logged_all(old(denials)@.items).ring;
                if len == 0 {
                    r.0 == 0 && r.1 is None
                } else {
                    match page_dst(space@, buf_vaddr) {
                        Err(e) => r.0 == e && r.1 is None,
                        Ok((page_pa, off)) => r.0 == len && copy_of(r.1) == Some(
                            DenialCopyView {
                                events: ring.take(len / old(self).abi.denial_event_size as int),
                                page_pa,
                                off,
                            },
                        ),
                    }
                }
            }),
            final(self).audit() == old(self).audit().logged_all(old(denials)@.items),
            final(denials)@ == (DenialView { items: Seq::empty(), ..old(denials)@ }),
            final(self).denial_ring@.len() <= 50,
            keeps_order(*old(self), *final(self)),
            *final(self) == (Orbit {
                denial_ring: final(self).denial_ring,
                processes: final(self).processes,
                ..*old(self)
            }),
    {
        let ghost goal = self.audit().logged_all(denials@.items);
        self.drain_denial_events(denials);
        let size: u64 = self.abi.denial_event_size;
        let max: u64 = buf_len / size;
        let emit: u64 = if (self.denial_ring.len() as u64) < max {
            self.denial_ring.len() as u64
        } else {
            max
        };
        proof {
            assert(self.denial_ring@ == goal.ring);
            assert(emit == emitted(goal.ring.len(), buf_len, size));
            assert(emit == 0 ==> emit * size == 0) by (nonlinear_arith);
            assert(emit > 0 && size > 0 ==> emit * size > 0) by (nonlinear_arith);
        }
        if emit == 0 {
            return (0, None);
        }
        let len: u64 = emit * size;
        let (page_pa, off) = match space.find_page(buf_vaddr) {
            Ok(x) => x,
            Err(e) => {
                return (e, None);
            },
        };
        let events = self.denial_ring_snapshot(emit as usize);
        proof {
            assert((emit * size) / size as int == emit) by (nonlinear_arith)
                requires
                    size > 0,
            ;
            assert(goal.ring.take(goal.ring.len() as int) =~= goal.ring);
        }
        (len as i64, Some(DenialCopy { events, page_pa, off }))
    }

    /// The denial log call: returns the number of bytes and the events to store
    /// at `va`, oldest first. `mapped` says whether `va` translates.
    pub fn handle_query_denial_log(
        &mut self,
        denials: &mut DenialQueue,
        va: Option<u64>,
        buf_len: u64,
        mapped: bool,
    ) -> (r: (i64, Vec<DenialEvent>))
        requires
            old(self).denial_ring@.len() <= 50,
            0 < old(self).abi.denial_event_size <= 4096,
        ensures
            match log_refusal(
                va,
                buf_len,
                old(self).abi.denial_event_size,
                old(self).abi.user_end,
                mapped,
            ) {
                Some(e) => {
                    &&& r.0 == e && r.1@ == Seq::<DenialEvent>::empty()
                    &&& *final(self) == *old(self) && *final(denials) == *old(denials)
                },
                None => {
                    let ring = old(self).audit().logged_all(old(denials)@.items).ring;
                    let n = emitted(ring.len(), buf_len, old(self).abi.denial_event_size);
                    &&& r.0 == n * old(self).abi.denial_event_size
                    &&& r.1@ == ring.take(n)
                    &&& final(self).audit() == old(self).audit().logged_all(old(denials)@.items)
                    &&& final(denials)@ == (DenialView { items: Seq::empty(), ..old(denials)@ })
                },
            },
            final(self).denial_ring@.len() <= 50,
            keeps_order(*old(self), *final(self)),
            *final(self) == (Orbit {
                denial_ring: final(self).denial_ring,
                processes: final(self).processes,
                ..*old(self)
            }),
    {
        let v: u64 = match va {
            Some(v) => v,
            None => {
                return (to_ret(EFAULT), Vec::new());
            },
        };
        let size: u64 = self.abi.denial_event_size;
        if buf_len < size {
            return (to_ret(EINVAL), Vec::new());
        }
        if !user_range_ok(v, buf_len, self.abi.user_end) || !mapped {
            return (to_ret(EFAULT), Vec::new());
        }
        self.drain_denial_events(denials);
        let max: u64 = buf_len / size;
        let emit: u64 = if (self.denial_ring.len() as u64) < max {
            self.denial_ring.len() as u64
        } else {
            max
        };
        proof {
            assert(emit <= 50);
            assert(emit * size <= 50 * 4096) by (nonlinear_arith)
                requires
                    emit <= 50,
                    size <= 4096,
            ;
            let ring = self.denial_ring@;
            assert(ring.take(ring.len() as int) =~= ring);
        }
        let events = self.denial_ring_snapshot(emit as usize);
        ((emit * size) as i64, events)
    }
}

/// Counts of the whole machine.
#[derive(Clone, Copy, Debug, PartialEq, Eq, Structural)]
pub struct SystemCounts {
    pub kpages_bytes: u64,
    pub user_pages_bytes: u64,
    pub ktables_bytes: u64,
    pub heap_bytes: u64,
    pub harts: HartTicks,
}

/// Statistics of a process.
#[derive(Clone, Copy, Debug, PartialEq, Eq, Structural)]
pub struct ProcessStats {
    pub size: u32,
    pub pid: u16,
    pub thread_count: u16,
    pub cpu_ticks: u64,
    pub context_switches: u64,
    pub syscalls: u64,
    pub resident_bytes: u64,
    pub heap_bytes: u64,
    pub syscall_ticks: u64,
    pub system: SystemCounts,
    pub perm_denials: u64,
    pub role_denials: u64,
    pub wake_queue_peak: u64,
    pub wake_queue_drops: u64,
    pub wake_queue_capacity: u64,
}

/// Of the threads in `tids`, those that exist.
pub open spec fn existing(tids: Seq<u32>, threads: Map<u32, Thread>) -> Seq<Thread>
    decreases tids.len(),
{
    if tids.len() == 0 {
        Seq::empty()
    } else if threads.contains_key(tids.last()) {
        existing(tids.drop_last(), threads).push(threads[tids.last()])
    } else {
        existing(tids.drop_last(), threads)
    }
}

/// Lengths of the mappings at `vas` that frames back.
pub open spec fn backed_lens(
    vas: Seq<u64>,
    maps: Map<u64, crate::process::UserMapping>,
) -> Seq<u64>
    decreases vas.len(),
{
    if vas.len() == 0 {
        Seq::empty()
    } else if maps[vas.last()].backing is Some {
        backed_lens(vas.drop_last(), maps).push(maps[vas.last()].len)
    } else {
        backed_lens(vas.drop_last(), maps)
    }
}

/// The statistics of `p`. What its threads counted is added up, resident are
/// the mappings that frames back.
pub open spec fn stats_of(
    p: ProcView,
    threads: Map<u32, Thread>,
    size: u32,
    sys: SystemCounts,
    peak: u64,
    drops: u64,
) -> ProcessStats {
    let ts = existing(sorted32(p.threads), threads);
    ProcessStats {
        size,
        pid: p.pid,
        thread_count: p.thread_count,
        cpu_ticks: wrapped_total(ts.map_values(|t: Thread| t.cpu_ticks_total)),
        context_switches: wrapped_total(ts.map_values(|t: Thread| t.context_switches)),
        syscalls: wrapped_total(ts.map_values(|t: Thread| t.syscall_count)),
        syscall_ticks: wrapped_total(ts.map_values(|t: Thread| t.syscall_ticks)),
        resident_bytes: wrapped_total(backed_lens(sorted64(p.maps.dom()), p.maps)),
        heap_bytes: wrapped_total(
            p.heap_pages.map_values(|b: crate::process::PhysBacking| b.size),
        ),
        system: sys,
        perm_denials: p.perm_denials,
        role_denials: p.role_denials,
        wake_queue_peak: peak,
        wake_queue_drops: drops,
        wake_queue_capacity: WAKE_QUEUE_CAPACITY,
    }
}

/// Statistics for a page of a user process, cut to `len` bytes.
#[derive(Clone, Copy, Debug, PartialEq, Eq, Structural)]
pub struct StatsCopy {
    pub stats: ProcessStats,
    pub page_pa: u64,
    pub off: u64,
    pub len: u64,
}

impl Orbit {
    /// The threads in `tids` that exist.
    fn existing_threads(&self, tids: &Vec<u32>) -> (r: Vec<Thread>)
        ensures
            r@ == existing(tids@, self.threads@),
    {
        let mut out: Vec<Thread> = Vec::new();
        let mut i: usize = 0;
        while i < tids.len()
            invariant
                i <= tids@.len(),
                out@ == existing(tids@.take(i as int), self.threads@),
            decreases tids@.len() - i,
        {
            proof {
                let t = tids@.take(i + 1);
                assert(t.drop_last() =~= tids@.take(i as int));
                assert(t.last() == tids@[i as int]);
            }
            match self.threads.get(&tids[i]) {
                Some(t) => out.push(*t),
                None => {},
            }
            i = i + 1;
        }
        proof {
            assert(tids@.take(tids@.len() as int) =~= tids@);
        }
        out
    }

    /// The statistics of a process, or `None` if it is gone.
    pub fn snapshot_process_stats(&self, pid: u16, sys: SystemCounts, wakes: &WakeQueue) -> (r:
        Option<ProcessStats>)
        requires
            self.abi.stats_size <= u32::MAX,
        ensures
            r == (if self.procs().contains_key(pid) {
                Some(
                    stats_of(
                        self.procs()[pid],
                        self.threads@,
                        self.abi.stats_size as u32,
                        sys,
                        wakes@.peak,
                        wakes@.drops,
                    ),
                )
            } else {
                None
            }),
    {
        let p = match self.processes.get(&pid) {
            Some(p) => p,
            None => {
                return None;
            },
        };
        let mut heap: Vec<u64> = Vec::new();
        let mut i: usize = 0;
        while i < p.heap_pages.len()
            invariant
                i <= p.heap_pages@.len(),
                heap@ =~= p.heap_pages@.take(i as int).map_values(
                    |b: crate::process::PhysBacking| b.size,
                ),
            decreases p.heap_pages@.len() - i,
        {
            heap.push(p.heap_pages[i].size);
            i = i + 1;
        }
        proof {
            assert(p.heap_pages@.take(p.heap_pages@.len() as int) =~= p.heap_pages@);
        }
        let vas = keys64(&p.maps);
        let mut backed: Vec<u64> = Vec::new();
        let mut j: usize = 0;
        while j < vas.len()
            invariant
                j <= vas@.len(),
                lists64(vas@, p.maps@.dom()),
                backed@ == backed_lens(vas@.take(j as int), p.maps@),
            decreases vas@.len() - j,
        {
            proof {
                let t = vas@.take(j + 1);
                assert(t.drop_last() =~= vas@.take(j as int));
                assert(t.last() == vas@[j as int]);
                assert(vas@.contains(vas@[j as int]));
            }
            match p.maps.get(&vas[j]) {
                Some(m) => {
                    if m.backing.is_some() {
                        backed.push(m.len);
                    }
                },
                None => {},
            }
            j = j + 1;
        }
        proof {
            assert(vas@.take(vas@.len() as int) =~= vas@);
        }
        let tids = members32(&p.threads);
        let ts = self.existing_threads(&tids);
        let mut cpu: Vec<u64> = Vec::new();
        let mut switches: Vec<u64> = Vec::new();
        let mut calls: Vec<u64> = Vec::new();
        let mut call_ticks: Vec<u64> = Vec::new();
        let mut k: usize = 0;
        while k < ts.len()
            invariant
                k <= ts@.len(),
                cpu@ =~= ts@.take(k as int).map_values(|t: Thread| t.cpu_ticks_total),
                switches@ =~= ts@.take(k as int).map_values(|t: Thread| t.context_switches),
                calls@ =~= ts@.take(k as int).map_values(|t: Thread| t.syscall_count),
                call_ticks@ =~= ts@.take(k as int).map_values(|t: Thread| t.syscall_ticks),
            decreases ts@.len() - k,
        {
            cpu.push(ts[k].cpu_ticks_total);
            switches.push(ts[k].context_switches);
            calls.push(ts[k].syscall_count);
            call_ticks.push(ts[k].syscall_ticks);
            k = k + 1;
        }
        proof {
            assert(ts@.take(ts@.len() as int) =~= ts@);
        }
        Some(
            ProcessStats {
                size: self.abi.stats_size as u32,
                pid: p.pid,
                thread_count: p.thread_count,
                cpu_ticks: wrapping_total(&cpu),
                context_switches: wrapping_total(&switches),
                syscalls: wrapping_total(&calls),
                resident_bytes: wrapping_total(&backed),
                heap_bytes: wrapping_total(&heap),
                syscall_ticks: wrapping_total(&call_ticks),
                system: sys,
                perm_denials: p.perm_denials,
                role_denials: p.role_denials,
                wake_queue_peak: wakes.peak(),
                wake_queue_drops: wakes.drops(),
                wake_queue_capacity: WAKE_QUEUE_CAPACITY,
            },
        )
    }

    /// Copies the statistics of a process to a user buffer on one page. Returns
    /// the number of bytes and what to store.
    pub fn run_query_stats(
        &self,
        target_pid: u16,
        buf_vaddr: u64,
        buf_len: u64,
        space: &UserSpace,
        sys: SystemCounts,
        wakes: &WakeQueue,
    ) -> (r: (i64, Option<StatsCopy>))
        requires
            self.abi.stats_size <= 4096,
            self.procs().contains_key(target_pid) ==> buf_vaddr % 4096 + (if buf_len
                < self.abi.stats_size {
                buf_len
            } else {
                self.abi.stats_size
            }) <= 4096,
        ensures
            ({
                let len = if buf_len < self.abi.stats_size {
                    buf_len
                } else {
                    self.abi.stats_size
                };
                if !self.procs().contains_key(target_pid) {
                    r == (errno_ret(ESRCH), None::<StatsCopy>)
                } else if len == 0 {
                    r == (0i64, None::<StatsCopy>)
                } else {
                    match page_dst(space@, buf_vaddr) {
                        Err(e) => r == (e, None::<StatsCopy>),
                        Ok((page_pa, off)) => r == (
                            len as i64,
                            Some(
                                StatsCopy {
                                    stats: stats_of(
                                        self.procs()[target_pid],
                                        self.threads@,
                                        self.abi.stats_size as u32,
                                        sys,
                                        wakes@.peak,
                                        wakes@.drops,
                                    ),
                                    page_pa,
                                    off,
                                    len,
                                },
                            ),
                        ),
                    }
                }
            }),
    {
        let stats = match self.snapshot_process_stats(target_pid, sys, wakes) {
            Some(s) => s,
            None => {
                return (to_ret(ESRCH), None);
            },
        };
        let len: u64 = if buf_len < self.abi.stats_size {
            buf_len
        } else {
            self.abi.stats_size
        };
        if len == 0 {
            return (0, None);
        }
        match space.find_page(buf_vaddr) {
            Ok((page_pa, off)) => (len as i64, Some(StatsCopy { stats, page_pa, off, len })),
            Err(e) => (e, None),
        }
    }

    /// The statistics call of a process about itself. `va` is the buffer's
    /// address, `None` if it is no user address, and `mapped` says whether it
    /// translates. Returns the number of bytes and the statistics.
    pub fn handle_query_stats(
        &self,
        pid: u16,
        va: Option<u64>,
        buf_len: u64,
        min_len: u64,
        mapped: bool,
        sys: SystemCounts,
        wakes: &WakeQueue,
    ) -> (r: Result<(u64, ProcessStats), i64>)
        requires
            self.abi.stats_size <= u32::MAX,
        ensures
            r == (match log_refusal(va, buf_len, min_len, self.abi.user_end, mapped) {
                Some(e) => Err::<(u64, ProcessStats), i64>(e),
                None => if !self.procs().contains_key(pid) {
                    Err(errno_ret(ESRCH))
                } else {
                    Ok(
                        (
                            if buf_len < self.abi.stats_size {
                                buf_len
                            } else {
                                self.abi.stats_size
                            },
                            stats_of(
                                self.procs()[pid],
                                self.threads@,
                                self.abi.stats_size as u32,
                                sys,
                                wakes@.peak,
                                wakes@.drops,
                            ),
                        ),
                    )
                },
            }),
    {
        let v: u64 = match va {
            Some(v) => v,
            None => {
                return Err(to_ret(EFAULT));
            },
        };
        if buf_len < min_len {
            return Err(to_ret(EINVAL));
        }
        if !user_range_ok(v, buf_len, self.abi.user_end) || !mapped {
            return Err(to_ret(EFAULT));
        }
        match self.snapshot_process_stats(pid, sys, wakes) {
            Some(s) => Ok(
                (
                    if buf_len < self.abi.stats_size {
                        buf_len
                    } else {
                        self.abi.stats_size
                    },
                    s,
                ),
            ),
            None => Err(to_ret(ESRCH)),
        }
    }

    /// Number of threads that are ready to run.
    pub fn runnable_thread_count(&self) -> (r: usize)
        ensures
            r == sorted32(self.threads@.dom()).filter(
                |t: u32| self.threads@[t].state == ThreadState::Ready,
            ).len(),
    {
        let tids = keys32(&self.threads);
        let ghost f = |t: u32| self.threads@[t].state == ThreadState::Ready;
        let mut n: usize = 0;
        let mut i: usize = 0;
        proof {
            assert(tids@.take(0).filter(f) =~= Seq::<u32>::empty()) by {
                reveal(Seq::filter);
            }
        }
        while i < tids.len()
            invariant
                i <= tids@.len(),
                n <= i,
                lists32(tids@, self.threads@.dom()),
                f == (|t: u32| self.threads@[t].state == ThreadState::Ready),
                n == tids@.take(i as int).filter(f).len(),
            decreases tids@.len() - i,
        {
            proof {
                let t = tids@.take(i + 1);
                assert(t.drop_last() =~= tids@.take(i as int));
                assert(t.last() == tids@[i as int]);
                assert(tids@.contains(tids@[i as int]));
                reveal(Seq::filter);
            }
            match self.threads.get(&tids[i]) {
                Some(t) => {
                    if matches!(t.state, ThreadState::Ready) {
                        n = n + 1;
                    }
                },
                None => {},
            }
            i = i + 1;
        }
        proof {
            assert(tids@.take(tids@.len() as int) =~= tids@);
        }
        n
    }
}

/// The newest event is always kept, last in the ring; at most 50 are, and only
/// the oldest goes.
pub proof fn law_the_newest_event_is_kept(ring: Seq<DenialEvent>, ev: DenialEvent)
    requires
        ring.len() <= 50,
    ensures
        recorded(ring, ev).last() == ev,
        recorded(ring, ev).len() <= 50,
        ring.len() < 50 ==> recorded(ring, ev).drop_last() == ring,
        ring.len() == 50 ==> recorded(ring, ev).drop_last() == ring.skip(1),
{
    assert(recorded(ring, ev).drop_last() =~= (if ring.len() < 50 {
        ring
    } else {
        ring.skip(1)
    }));
}

/// A refusal is counted once against the process that it was said to: a refused
/// call as one, a refused role as the other. No other process is touched.
pub proof fn law_a_refusal_counts_against_its_process(
    s: AuditState,
    ev: DenialEvent,
    pid: u16,
    other: u16,
)
    requires
        s.procs.contains_key(pid),
        s.procs[pid].perm_denials < u64::MAX,
        s.procs[pid].role_denials < u64::MAX,
        match ev {
            DenialEvent::PermDeny { pid: p, .. } => p == pid,
            DenialEvent::RoleDeny { pid: p, .. } => p == pid,
        },
    ensures
        ({
            let p = s.procs[pid];
            let q = s.logged(Some(ev)).procs[pid];
            &&& ev is PermDeny ==> q.perm_denials == p.perm_denials + 1 && q.role_denials
                == p.role_denials
            &&& ev is RoleDeny ==> q.role_denials == p.role_denials + 1 && q.perm_denials
                == p.perm_denials
            &&& other != pid ==> s.logged(Some(ev)).procs[other] == s.procs[other]
            &&& s.logged(None) == s
        }),
{
}

/// Events are logged in the order in which they came.
pub proof fn law_events_are_logged_in_order(
    s: AuditState,
    slots: Seq<Option<DenialEvent>>,
    last: Option<DenialEvent>,
)
    ensures
        s.logged_all(slots.push(last)) == s.logged_all(slots).logged(last),
    decreases slots.len(),
{
    if slots.len() == 0 {
        assert(slots.push(last).skip(1) =~= Seq::empty());
        assert(s.logged(last).logged_all(slots.push(last).skip(1)) == s.logged(last));
    } else {
        assert(slots.push(last).skip(1) =~= slots.skip(1).push(last));
        law_events_are_logged_in_order(s.logged(slots[0]), slots.skip(1), last);
    }
}

/// A reader gets as many events as its buffer holds, or all there are.
pub proof fn law_a_reader_gets_whole_events(n: nat, buf_len: u64, event_size: u64)
    requires
        event_size > 0,
    ensures
        ({
            let k = emitted(n, buf_len, event_size);
            &&& 0 <= k <= n
            &&& k * event_size <= buf_len
            &&& k == n || (k + 1) * event_size > buf_len
        }),
{
    let q = (buf_len / event_size) as int;
    let k = emitted(n, buf_len, event_size);
    vstd::arithmetic::div_mod::lemma_fundamental_div_mod(buf_len as int, event_size as int);
    vstd::arithmetic::div_mod::lemma_mod_bound(buf_len as int, event_size as int);
    assert(q * event_size <= buf_len < (q + 1) * event_size) by (nonlinear_arith)
        requires
            buf_len == event_size * q + (buf_len % event_size),
            0 <= buf_len % event_size < event_size,
    ;
    assert(k * event_size <= q * event_size) by (nonlinear_arith)
        requires
            0 <= k <= q,
            event_size > 0,
    ;
}

/// The log can be read into a buffer exactly if it has an address, lies in the
/// user's half, is mapped and holds an event. It is refused with 22 for its
/// size, else with 14.
pub proof fn law_the_log_is_read_into_sound_buffers(
    va: Option<u64>,
    buf_len: u64,
    event_size: u64,
    user_end: u64,
    mapped: bool,
)
    ensures
        ({
            let r = log_refusal(va, buf_len, event_size, user_end, mapped);
            &&& r is None <==> va is Some && buf_len >= event_size && va->0 + buf_len <= user_end
                && mapped
            &&& va is Some && buf_len < event_size ==> r is Some && r->0 == -22
            &&& r is Some && !(va is Some && buf_len < event_size) ==> r->0 == -14
        }),
{
}

/// A refused call is recorded with who made it, what it lacked and what it had.
pub proof fn law_a_refused_call_is_recorded_as_it_was(
    t: Thread,
    syscall: u32,
    required_class: u64,
    now: u64,
)
    ensures
        refusal_event(t, syscall, required_class, now) matches DenialEvent::PermDeny {
            required_class: c,
            perms,
            time_ticks,
            tid,
            sysno,
            source_role,
            pid,
        } && c == required_class && perms == t.permissions.perms && time_ticks == now && tid == t.tid
            && sysno == syscall && source_role == t.permissions.role && pid == t.pid,
{
}

/// What is counted for a process is its own: its threads that exist, each once
/// and in order, and the mappings that have frames.
pub proof fn law_statistics_cover_the_process(
    tids: Seq<u32>,
    threads: Map<u32, Thread>,
    vas: Seq<u64>,
    maps: Map<u64, crate::process::UserMapping>,
)
    requires
        forall|i: int| 0 <= i < tids.len() ==> threads.contains_key(#[trigger] tids[i]),
        forall|i: int| 0 <= i < vas.len() ==> maps[#[trigger] vas[i]].backing is Some,
    ensures
        existing(tids, threads) == tids.map_values(|t: u32| threads[t]),
        backed_lens(vas, maps) == vas.map_values(|va: u64| maps[va].len),
    decreases tids.len() + vas.len(),
{
    if tids.len() > 0 {
        let front = tids.drop_last();
        assert forall|i: int| 0 <= i < front.len() implies threads.contains_key(
            #[trigger] front[i],
        ) by {
            assert(front[i] == tids[i]);
        }
        assert(threads.contains_key(tids[tids.len() - 1]));
        law_statistics_cover_the_process(front, threads, vas, maps);
        assert(existing(tids, threads) =~= tids.map_values(|t: u32| threads[t]));
    } else if vas.len() > 0 {
        let front = vas.drop_last();
        assert forall|i: int| 0 <= i < front.len() implies maps[#[trigger] front[i]].backing
            is Some by {
            assert(front[i] == vas[i]);
        }
        assert(maps[vas[vas.len() - 1]].backing is Some);
        law_statistics_cover_the_process(tids, threads, front, maps);
        assert(backed_lens(vas, maps) =~= vas.map_values(|va: u64| maps[va].len));
        assert(existing(tids, threads) =~= tids.map_values(|t: u32| threads[t]));
    } else {
        assert(existing(tids, threads) =~= tids.map_values(|t: u32| threads[t]));
        assert(backed_lens(vas, maps) =~= vas.map_values(|va: u64| maps[va].len));
    }
}

/// Threads that are gone and mappings without frames do not count.
pub proof fn law_statistics_leave_out_what_is_gone(
    tids: Seq<u32>,
    tid: u32,
    threads: Map<u32, Thread>,
    vas: Seq<u64>,
    va: u64,
    maps: Map<u64, crate::process::UserMapping>,
)
    ensures
        !threads.contains_key(tid) ==> existing(tids.push(tid), threads) == existing(tids, threads),
        threads.contains_key(tid) ==> existing(tids.push(tid), threads) == existing(
            tids,
            threads,
        ).push(threads[tid]),
        maps[va].backing is None ==> backed_lens(vas.push(va), maps) == backed_lens(vas, maps),
{
    assert(tids.push(tid).drop_last() =~= tids);
    assert(vas.push(va).drop_last() =~= vas);
}

/// The statistics of a process of one thread are that thread's, beside the
/// process's own numbers.
pub proof fn law_statistics_are_the_processs_own(
    p: ProcView,
    threads: Map<u32, Thread>,
    tid: u32,
    size: u32,
    sys: SystemCounts,
    peak: u64,
    drops: u64,
)
    requires
        p.threads == set![tid],
        threads.contains_key(tid),
    ensures
        ({
            let s = stats_of(p, threads, size, sys, peak, drops);
            let t = threads[tid];
            &&& s.cpu_ticks == t.cpu_ticks_total && s.context_switches == t.context_switches
            &&& s.syscalls == t.syscall_count && s.syscall_ticks == t.syscall_ticks
            &&& s.pid == p.pid && s.thread_count == p.thread_count && s.size == size
            &&& s.perm_denials == p.perm_denials && s.role_denials == p.role_denials
            &&& s.system == sys && s.wake_queue_peak == peak && s.wake_queue_drops == drops
            &&& s.wake_queue_capacity == 128
        }),
{
    crate::tables::lemma_listed32(p.threads);
    let l = sorted32(p.threads);
    assert(l =~= seq![tid]) by {
        assert(p.threads.contains(tid));
        assert(l.contains(tid));
        assert forall|i: int| 0 <= i < l.len() implies l[i] == tid by {
            assert(l.contains(l[i]));
            assert(p.threads.contains(l[i]));
        }
        if l.len() > 1 {
            assert(l[0] < l[1]);
        }
    }
    let ts = existing(l, threads);
    assert(l.drop_last() =~= Seq::<u32>::empty());
    assert(ts =~= seq![threads[tid]]) by {
        assert(existing(l.drop_last(), threads) =~= Seq::<Thread>::empty());
    }
    lemma_one_total(ts.map_values(|t: Thread| t.cpu_ticks_total), threads[tid].cpu_ticks_total);
    lemma_one_total(ts.map_values(|t: Thread| t.context_switches), threads[tid].context_switches);
    lemma_one_total(ts.map_values(|t: Thread| t.syscall_count), threads[tid].syscall_count);
    lemma_one_total(ts.map_values(|t: Thread| t.syscall_ticks), threads[tid].syscall_ticks);
}

proof fn lemma_one_total(s: Seq<u64>, x: u64)
    requires
        s =~= seq![x],
    ensures
        wrapped_total(s) == x,
{
    assert(s =~= Seq::<u64>::empty().push(x));
    assert(crate::accounting::total(Seq::<u64>::empty()) == 0);
    crate::accounting::law_totals_add_up(Seq::empty(), x);
}

/// Every page of the heap counts with its size, and every mapping that has
/// frames with its length.
pub proof fn law_memory_counts_once(
    p: ProcView,
    threads: Map<u32, Thread>,
    size: u32,
    sys: SystemCounts,
    peak: u64,
    drops: u64,
    b: crate::process::PhysBacking,
    va: u64,
)
    ensures
        ({
            let q = ProcView { heap_pages: p.heap_pages.push(b), ..p };
            let one = stats_of(p, threads, size, sys, peak, drops);
            let two = stats_of(q, threads, size, sys, peak, drops);
            &&& two.heap_bytes == (one.heap_bytes + b.size) % 0x1_0000_0000_0000_0000
            &&& two.resident_bytes == one.resident_bytes
            &&& p.heap_pages.len() == 0 ==> one.heap_bytes == 0
            &&& p.maps.dom() == Set::<u64>::empty().insert(va) ==> one.resident_bytes == (
            if p.maps[va].backing is Some {
                p.maps[va].len as int
            } else {
                0
            })
        }),
{
    let f = |x: crate::process::PhysBacking| x.size;
    let xs = p.heap_pages.map_values(f);
    let ys = p.heap_pages.push(b).map_values(f);
    assert(ys =~= xs.push(b.size));
    assert(ys.drop_last() =~= xs);
    assert(crate::accounting::total(ys) == crate::accounting::total(xs) + b.size);
    vstd::arithmetic::div_mod::lemma_add_mod_noop(
        crate::accounting::total(xs),
        b.size as int,
        0x1_0000_0000_0000_0000,
    );
    if p.maps.dom() == Set::<u64>::empty().insert(va) {
        let l = sorted64(p.maps.dom());
        crate::tables::lemma_listed64(p.maps.dom());
        assert(p.maps.dom().contains(va));
        assert(l.contains(va));
        assert(l =~= seq![va]) by {
            assert forall|i: int| 0 <= i < l.len() implies l[i] == va by {
                assert(l.contains(l[i]));
                assert(p.maps.dom().contains(l[i]));
            }
            if l.len() > 1 {
                assert(l[0] < l[1]);
            }
        }
        assert(l.drop_last() =~= Seq::<u64>::empty());
        assert(backed_lens(l.drop_last(), p.maps) =~= Seq::<u64>::empty());
        if p.maps[va].backing is Some {
            assert(backed_lens(l, p.maps) =~= seq![p.maps[va].len]);
            lemma_one_total(backed_lens(l, p.maps), p.maps[va].len);
        } else {
            assert(backed_lens(l, p.maps) =~= Seq::<u64>::empty());
        }
    }
}

} // verus!
