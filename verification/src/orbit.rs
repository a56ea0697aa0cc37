//! The manager's state, and waking and resuming threads.

use crate::abi::PagePerms;
use crate::argv::BlobLayout;
use crate::fs::MountSlot;
use crate::handle::ProcessHandles;
use crate::page_cache::PageCache;
use crate::process::{
    deliver, pack_rets, PhysBacking, Permissions, Process, Rets, SatpValue, Thread, ThreadState,
};
#[allow(unused_imports)]
use crate::process::{delivered, rets_of};
use crate::rings::{
    wake_queue_push, DenialQueue, ReadyInbox, SleepInbox, WakeEvent, WakeQueue, WorkQueue,
};
#[allow(unused_imports)]
use crate::rings::{DenialView, WakeView};
#[allow(unused_imports)]
use crate::sched::{slept, SleepEntry};
use crate::sched::{ReadyQueue, SleepHeap};
use crate::shared_user_ptr::SharedRegions;
use crate::spawn::SpawnInProgress;
use crate::stdin::InputTable;
use crate::surface::SurfaceTable;
#[allow(unused_imports)]
use crate::tables::{keys32, lists32, sorted32};
use crate::work::{DenialEvent, ReadyNotice, SleepNotice};
use std::collections::BTreeMap;
use vstd::prelude::*;

verus! {

broadcast use {vstd::laws_cmp::group_laws_cmp, vstd::std_specs::btree::group_btree_axioms};

/// Most harts a machine can have.
pub const MAX_HARTS: usize = 8;

/// Most denial events kept.
pub const DENIAL_RING_CAPACITY: usize = 50;

/// Frames in the page cache.
pub const PAGE_CACHE_CAPACITY: usize = 64;

/// Wake reasons.
pub const WAKE_TICKLE: u64 = 1;

pub const WAKE_NET_IO: u64 = 2;

pub const WAKE_INPUT_IO: u64 = 4;

/// Addresses, sizes and limits that the user programs were built against.
#[derive(Clone, Copy, Debug, PartialEq, Eq, Structural)]
pub struct AbiLayout {
    /// End of the user half of the address space.
    pub user_end: u64,
    /// Lowest address a program segment may have.
    pub text_base: u64,
    /// Range in which shared mappings are placed.
    pub shared_base: u64,
    pub shared_end: u64,
    pub stack_default: u64,
    pub stack_grain: u64,
    /// Where the stacks of thread slots begin, and how far apart they are.
    pub stack_base: u64,
    pub stack_stride: u64,
    /// Size of the per-thread storage reservation.
    pub tls_max: u64,
    pub argv_base: u64,
    pub envp_base: u64,
    /// Layout of argument and environment blobs.
    pub blob: BlobLayout,
    /// Longest path, in bytes.
    pub max_path: u64,
    /// Most supplementary groups.
    pub ngroups_max: u64,
    /// Role that may stamp identities and spawn from memory.
    pub loader_role: u32,
    /// Capabilities of a process spawned without role arguments.
    pub default_perms: Permissions,
    /// Page permission bits.
    pub page: PagePerms,
    /// Sizes of records copied out to user memory.
    pub stat_size: u64,
    pub ch_info_size: u64,
    pub stats_size: u64,
    pub denial_event_size: u64,
    pub eventfd_size: u64,
    /// Flag bits of `eventfd`.
    pub efd_cloexec: u32,
    pub efd_nonblock: u32,
}

/// A thread waiting on a futex word.
#[derive(Clone, Copy, Debug, PartialEq, Eq, Structural)]
pub struct FutexWaiter {
    pub tid: u32,
    pub pid: u16,
    pub deadline_ticks: u64,
}

/// A file read that waits for the page cache.
#[derive(Clone, Copy, Debug, PartialEq, Eq, Structural)]
pub struct FsReadInProgress {
    pub bytes_pending: u32,
    pub bytes_done: u32,
    pub failed: bool,
}

/// The manager.
pub struct Orbit {
    pub cpu_count: u64,
    pub satp: SatpValue,
    pub abi: AbiLayout,
    pub current_process_id: u16,
    pub current_thread_id: u32,
    pub processes: BTreeMap<u16, Process>,
    pub threads: BTreeMap<u32, Thread>,
    pub process_handles: BTreeMap<u16, ProcessHandles>,
    pub regions: SharedRegions,
    pub surfaces: SurfaceTable,
    pub stdin: InputTable,
    pub key_events: InputTable,
    pub page_cache: Option<PageCache>,
    pub mount: MountSlot,
    pub fs_reads_in_progress: BTreeMap<u32, FsReadInProgress>,
    pub spawns_in_progress: BTreeMap<u32, SpawnInProgress>,
    pub futex_waiters: BTreeMap<u64, Vec<FutexWaiter>>,
    pub denial_ring: Vec<DenialEvent>,
    pub net_thread_tid: Option<u32>,
    pub gpu_thread_tid: Option<u32>,
    pub serial_thread_tid: Option<u32>,
    pub orphaned_sockets: Vec<u64>,
    pub sleeping: SleepHeap,
    pub ready: ReadyQueue,
}

/// The queues between the harts and the manager.
pub struct Queues {
    pub wakes: WakeQueue,
    pub ready: Vec<ReadyInbox>,
    pub sleeps: SleepInbox,
    pub denials: DenialQueue,
    pub work: WorkQueue,
}

/// Something for the machine to carry out.
#[derive(Clone, Copy, Debug, PartialEq, Eq, Structural)]
pub enum Effect {
    /// Return frames to their pool.
    Free(PhysBacking),
    /// Return the root page table at `pa` to the table pool.
    FreeRoot { pa: u64 },
    /// Drop the shared kernel half from the table at `root_pa` and free every
    /// table below it.
    UnmapAll { root_pa: u64 },
    /// Clear the 4 KiB leaves of a range.
    UnmapRange { root_pa: u64, va: u64, len: u64 },
    /// Clear the leaf at `va` on level `levels`.
    UnmapPage { root_pa: u64, va: u64, levels: u8 },
    /// Flush this hart's translations of `va` under `asid`; zero stands for
    /// all addresses.
    Fence { asid: u16, va: u64 },
    /// Flush every other hart's translations.
    Broadcast,
    /// Add or drop a pane on the console.
    InsertSource(u16),
    RemoveSource(u16),
    /// Interrupt a hart.
    WakeHart(u64),
    /// Report that the ring for frames of this hart has no room left.
    RingFull { hart: u64 },
}

impl Queues {
    /// One ready inbox per hart.
    pub open spec fn wf(self) -> bool {
        self.ready@.len() == 8
    }

    /// The ready inboxes, by hart.
    pub open spec fn inboxes(self) -> Seq<Seq<ReadyNotice>> {
        self.ready@.map_values(|r: ReadyInbox| r@)
    }

    /// Empty queues.
    pub fn new() -> (r: Self)
        ensures
            r.wf(),
            r.wakes@ == (WakeView { items: Seq::empty(), peak: 0, drops: 0 }),
            r.inboxes() == Seq::new(8, |i: int| Seq::<ReadyNotice>::empty()),
            r.sleeps@ == Seq::<SleepNotice>::empty(),
            r.denials@ == (DenialView { items: Seq::empty(), dropped: 0 }),
            r.work@ == Seq::<crate::work::PendingWork>::empty(),
    {
        let mut ready: Vec<ReadyInbox> = Vec::new();
        let mut i: usize = 0;
        while i < MAX_HARTS
            invariant
                i <= 8,
                ready@.len() == i,
                forall|j: int| 0 <= j < i ==> (#[trigger] ready@[j])@ == Seq::<ReadyNotice>::empty(),
            decreases 8 - i,
        {
            ready.push(ReadyInbox::new());
            i = i + 1;
        }
        let r = Queues {
            wakes: WakeQueue::new(),
            ready,
            sleeps: SleepInbox::new(),
            denials: DenialQueue::new(),
            work: WorkQueue::new(),
        };
        proof {
            assert(r.inboxes() =~= Seq::new(8, |i: int| Seq::<ReadyNotice>::empty()));
        }
        r
    }
}

/// The inboxes after a ready notice from `hart`: appended unless the hart does
/// not exist or its inbox is full.
pub open spec fn noticed(inboxes: Seq<Seq<ReadyNotice>>, hart: u64, tid: u32) -> Seq<
    Seq<ReadyNotice>,
> {
    if hart < 8 && inboxes[hart as int].len() < 32 {
        inboxes.update(
            hart as int,
            inboxes[hart as int].push(ReadyNotice { thread: Some(tid) }),
        )
    } else {
        inboxes
    }
}

/// Publishes that `tid` became ready on `hart`.
pub fn push_ready_notice(q: &mut Queues, hart: u64, tid: u32) -> (r: Result<(), ()>)
    requires
        old(q).wf(),
    ensures
        final(q).wf(),
        final(q).inboxes() == noticed(old(q).inboxes(), hart, tid),
        r is Ok <==> hart < 8 && old(q).inboxes()[hart as int].len() < 32,
        *final(q) == (Queues { ready: final(q).ready, ..*old(q) }),
{
    if hart >= 8 {
        return Err(());
    }
    let h: usize = hart as usize;
    let ghost before = q.inboxes();
    let r = q.ready[h].push(ReadyNotice { thread: Some(tid) });
    proof {
        assert(q.inboxes() =~= noticed(before, hart, tid));
    }
    match r {
        Ok(()) => Ok(()),
        Err(_) => Err(()),
    }
}

/// Whether the thread waits for an event or a deadline.
pub open spec fn parked(t: Thread) -> bool {
    t.state == ThreadState::Blocking || t.state == ThreadState::Suspended
}

/// The thread's frame with any pending return values in it.
pub open spec fn frame_with_pending(t: Thread) -> crate::process::TrapFrame {
    match t.pending {
        Some(r) => delivered(t.frame, r),
        None => t.frame,
    }
}

/// Which threads a wake is for.
#[derive(Clone, Copy, Debug, PartialEq, Eq, Structural)]
pub enum WakeTarget {
    Tid(u32),
    Pid(u16),
}

pub open spec fn hits(t: Thread, w: WakeTarget) -> bool {
    match w {
        WakeTarget::Tid(tid) => t.tid == tid,
        WakeTarget::Pid(pid) => t.pid == pid,
    }
}

/// A thread after a wake for `reason`. A parked thread becomes ready with its
/// pending return values in place and the reasons recorded; any other thread
/// just keeps the reason for later.
pub open spec fn tickled(t: Thread, reason: u64) -> Thread {
    if parked(t) {
        Thread {
            state: ThreadState::Ready,
            frame: frame_with_pending(t),
            pending: None,
            wake_override: 0,
            last_wake_reason: t.wake_override | reason,
            ..t
        }
    } else {
        Thread { wake_override: t.wake_override | reason, ..t }
    }
}

/// All threads after a wake.
pub open spec fn threads_woken(threads: Map<u32, Thread>, w: WakeTarget, reason: u64) -> Map<
    u32,
    Thread,
> {
    threads.map_values(
        |t: Thread|
            if hits(t, w) {
                tickled(t, reason)
            } else {
                t
            },
    )
}

/// Of `tids`, those that a wake makes ready.
pub open spec fn made_ready(tids: Seq<u32>, threads: Map<u32, Thread>, w: WakeTarget) -> Seq<u32>
    decreases tids.len(),
{
    if tids.len() == 0 {
        Seq::empty()
    } else {
        let rest = made_ready(tids.drop_last(), threads, w);
        let t = threads[tids.last()];
        if hits(t, w) && parked(t) {
            rest.push(tids.last())
        } else {
            rest
        }
    }
}

/// Threads and ready queue.
#[verifier::ext_equal]
pub struct RunState {
    pub threads: Map<u32, Thread>,
    pub ready: Seq<u32>,
}

/// The state after a wake: the threads it makes ready are queued in ascending
/// order.
pub open spec fn woken(s: RunState, w: WakeTarget, reason: u64) -> RunState {
    RunState {
        threads: threads_woken(s.threads, w, reason),
        ready: s.ready + made_ready(sorted32(s.threads.dom()), s.threads, w),
    }
}

/// Whom an event wakes and why. Events for the service threads fall back to
/// all kernel threads until the thread is known.
pub open spec fn event_target(
    ev: WakeEvent,
    net: Option<u32>,
    gpu: Option<u32>,
    serial: Option<u32>,
) -> Option<(WakeTarget, u64)> {
    match ev {
        WakeEvent::Nothing => None,
        WakeEvent::Net => Some((service_target(net), WAKE_TICKLE)),
        WakeEvent::Pid(pid) => Some((WakeTarget::Pid(pid), WAKE_NET_IO)),
        WakeEvent::Tid(tid) => Some((WakeTarget::Tid(tid), WAKE_NET_IO)),
        WakeEvent::InputTid(tid) => Some((WakeTarget::Tid(tid), WAKE_INPUT_IO)),
        WakeEvent::Gpu => Some((service_target(gpu), WAKE_TICKLE)),
        WakeEvent::Serial => Some((service_target(serial), WAKE_TICKLE)),
    }
}

pub open spec fn service_target(tid: Option<u32>) -> WakeTarget {
    match tid {
        Some(t) => WakeTarget::Tid(t),
        None => WakeTarget::Pid(0),
    }
}

/// The state after one event.
pub open spec fn after_event(
    s: RunState,
    ev: WakeEvent,
    net: Option<u32>,
    gpu: Option<u32>,
    serial: Option<u32>,
) -> RunState {
    match event_target(ev, net, gpu, serial) {
        Some((w, reason)) => woken(s, w, reason),
        None => s,
    }
}

/// The state after a run of events, oldest first.
pub open spec fn after_events(
    s: RunState,
    evs: Seq<WakeEvent>,
    net: Option<u32>,
    gpu: Option<u32>,
    serial: Option<u32>,
) -> RunState
    decreases evs.len(),
{
    if evs.len() == 0 {
        s
    } else {
        after_events(after_event(s, evs[0], net, gpu, serial), evs.skip(1), net, gpu, serial)
    }
}

/// Threads, ready queue and sleep queue.
#[verifier::ext_equal]
pub struct SleepState {
    pub run: RunState,
    pub sleeping: Seq<SleepEntry>,
}

/// A thread made ready by its deadline or a wake that came while it parked.
pub open spec fn roused(t: Thread) -> Thread {
    Thread {
        state: ThreadState::Ready,
        last_wake_reason: t.wake_override,
        wake_override: 0,
        ..t
    }
}

/// The state after one park notice was filed. A thread that was woken while it
/// parked is made ready at once, or left alone if it is ready already; any
/// other goes to sleep.
pub open spec fn filed(s: SleepState, n: SleepNotice) -> SleepState {
    match n.thread {
        None => s,
        Some(tid) => if !s.run.threads.contains_key(tid) {
            s
        } else {
            let t = s.run.threads[tid];
            if t.wake_override != 0 {
                if t.state == ThreadState::Suspended {
                    SleepState {
                        run: RunState {
                            threads: s.run.threads.insert(tid, roused(t)),
                            ready: s.run.ready.push(tid),
                        },
                        ..s
                    }
                } else {
                    s
                }
            } else {
                SleepState {
                    sleeping: slept(
                        s.sleeping,
                        SleepEntry { wake_time: n.wake_time, sleep_seq: n.sleep_seq, tid },
                    ),
                    ..s
                }
            }
        },
    }
}

/// The state after a run of park notices, oldest first.
pub open spec fn filed_all(s: SleepState, ns: Seq<SleepNotice>) -> SleepState
    decreases ns.len(),
{
    if ns.len() == 0 {
        s
    } else {
        filed_all(filed(s, ns[0]), ns.skip(1))
    }
}

/// Whether a sleep entry still stands for the park it was made for.
pub open spec fn entry_current(threads: Map<u32, Thread>, e: SleepEntry) -> bool {
    threads.contains_key(e.tid) && threads[e.tid].state == ThreadState::Suspended
        && threads[e.tid].sleep_seq == e.sleep_seq
}

/// The state after every sleeper whose deadline has passed was made ready, in
/// deadline order. Entries of threads that woke otherwise are dropped.
pub open spec fn due_woken(s: SleepState, now: u64) -> SleepState
    decreases s.sleeping.len(),
{
    if s.sleeping.len() == 0 || s.sleeping[0].wake_time > now {
        s
    } else {
        let e = s.sleeping[0];
        let rest = s.sleeping.skip(1);
        if entry_current(s.run.threads, e) {
            due_woken(
                SleepState {
                    run: RunState {
                        threads: s.run.threads.insert(e.tid, roused(s.run.threads[e.tid])),
                        ready: s.run.ready.push(e.tid),
                    },
                    sleeping: rest,
                },
                now,
            )
        } else {
            due_woken(SleepState { sleeping: rest, ..s }, now)
        }
    }
}

/// The threads named in a run of ready notices.
pub open spec fn noticed_tids(ns: Seq<ReadyNotice>) -> Seq<u32>
    decreases ns.len(),
{
    if ns.len() == 0 {
        Seq::empty()
    } else {
        match ns[0].thread {
            Some(t) => seq![t] + noticed_tids(ns.skip(1)),
            None => noticed_tids(ns.skip(1)),
        }
    }
}

/// The threads named in all inboxes from hart `h` on, hart by hart.
pub open spec fn inbox_tids(inboxes: Seq<Seq<ReadyNotice>>, h: int) -> Seq<u32>
    decreases inboxes.len() - h,
{
    if h >= inboxes.len() {
        Seq::empty()
    } else {
        noticed_tids(inboxes[h]) + inbox_tids(inboxes, h + 1)
    }
}

/// Thread ids in the order in which they are tried after `cur`.
pub open spec fn tid_at(cur: u32, k: int) -> u32 {
    ((cur + 1 + k) % 0x1_0000_0000) as u32
}

/// Process ids in the order in which they are tried after `cur`: one follows the
/// largest.
pub open spec fn pid_at(cur: u16, k: int) -> u16 {
    ((cur + k) % 0xFFFF + 1) as u16
}

impl Orbit {
    /// Threads and ready queue.
    pub open spec fn run_state(self) -> RunState {
        RunState { threads: self.threads@, ready: self.ready@ }
    }

    pub open spec fn sleep_state(self) -> SleepState {
        SleepState { run: self.run_state(), sleeping: self.sleeping@ }
    }

    /// A manager with no processes and no threads.
    pub fn new(cpu_count: u64, satp: SatpValue, abi: AbiLayout) -> (r: Self)
        ensures
            r.cpu_count == cpu_count,
            r.satp == satp,
            r.abi == abi,
            r.current_process_id == 0,
            r.current_thread_id == 0,
            r.processes@ == Map::<u16, Process>::empty(),
            r.threads@ == Map::<u32, Thread>::empty(),
            r.process_handles@ == Map::<u16, ProcessHandles>::empty(),
            r.regions@ == Map::<u64, crate::shared_user_ptr::Region>::empty(),
            r.surfaces.by_pid@ == Map::<u16, crate::surface::ProcessSurfaces>::empty(),
            r.stdin.parked@ == Map::<u16, Option<u32>>::empty(),
            r.key_events.parked@ == Map::<u16, Option<u32>>::empty(),
            r.page_cache is None,
            r.mount@ is None,
            r.fs_reads_in_progress@ == Map::<u32, FsReadInProgress>::empty(),
            r.spawns_in_progress@ == Map::<u32, SpawnInProgress>::empty(),
            r.futex_waiters@ == Map::<u64, Vec<FutexWaiter>>::empty(),
            r.denial_ring@ == Seq::<DenialEvent>::empty(),
            r.net_thread_tid is None,
            r.gpu_thread_tid is None,
            r.serial_thread_tid is None,
            r.orphaned_sockets@ == Seq::<u64>::empty(),
            r.sleeping@ == Seq::<SleepEntry>::empty(),
            r.ready@ == Seq::<u32>::empty(),
    {
        Orbit {
            cpu_count,
            satp,
            abi,
            current_process_id: 0,
            current_thread_id: 0,
            processes: BTreeMap::new(),
            threads: BTreeMap::new(),
            process_handles: BTreeMap::new(),
            regions: SharedRegions { regions: BTreeMap::new() },
            surfaces: SurfaceTable { by_pid: BTreeMap::new() },
            stdin: InputTable::new(),
            key_events: InputTable::new(),
            page_cache: None,
            mount: MountSlot::new(),
            fs_reads_in_progress: BTreeMap::new(),
            spawns_in_progress: BTreeMap::new(),
            futex_waiters: BTreeMap::new(),
            denial_ring: Vec::new(),
            net_thread_tid: None,
            gpu_thread_tid: None,
            serial_thread_tid: None,
            orphaned_sockets: Vec::new(),
            sleeping: SleepHeap::new(),
            ready: ReadyQueue::new(),
        }
    }

    /// Number of threads.
    pub fn thread_count(&self) -> (r: usize)
        ensures
            r == self.threads@.dom().len(),
    {
        self.threads.len()
    }

    /// A mask with one bit per hart.
    pub fn all_harts_mask(&self) -> (r: u64)
        ensures
            r == harts_mask(self.cpu_count),
    {
        if self.cpu_count >= 64 {
            u64::MAX
        } else {
            let n: u64 = self.cpu_count;
            proof {
                assert(n < 64 ==> (1u64 << n) >= 1) by (bit_vector);
            }
            (1u64 << n) - 1
        }
    }

    /// The next free thread id after the last one given out.
    pub fn next_tid(&mut self) -> (r: u32)
        requires
            exists|t: u32| !old(self).threads@.contains_key(t),
        ensures
            !old(self).threads@.contains_key(r),
            exists|k: int| #![trigger tid_at(old(self).current_thread_id, k)]
                0 <= k && r == tid_at(old(self).current_thread_id, k) && forall|j: int|
                    #![trigger tid_at(old(self).current_thread_id, j)]
                    0 <= j < k ==> old(self).threads@.contains_key(
                        tid_at(old(self).current_thread_id, j),
                    ),
            *final(self) == (Orbit { current_thread_id: r, ..*old(self) }),
    {
        let mut next: u32 = self.current_thread_id.wrapping_add(1);
        let ghost cur = self.current_thread_id;
        let ghost mut k: int = 0;
        while self.threads.contains_key(&next)
            invariant
                0 <= k < 0x1_0000_0000,
                *self == *old(self),
                cur == self.current_thread_id,
                next == tid_at(cur, k),
                exists|t: u32| !self.threads@.contains_key(t),
                forall|j: int|
                    #![trigger tid_at(cur, j)]
                    0 <= j < k ==> self.threads@.contains_key(tid_at(cur, j)),
            decreases 0x1_0000_0000 - k,
        {
            proof {
                if k == 0xFFFF_FFFF {
                    let t = choose|t: u32| !self.threads@.contains_key(t);
                    let d = (t - cur - 1) % 0x1_0000_0000;
                    assert(tid_at(cur, d) == t) by {
                        assert((cur + 1 + d) % 0x1_0000_0000 == t as int);
                    }
                    assert(self.threads@.contains_key(tid_at(cur, d)));
                    assert(false);
                }
                k = k + 1;
            }
            next = next.wrapping_add(1);
        }
        self.current_thread_id = next;
        proof {
            assert(next == tid_at(cur, k));
        }
        next
    }

    /// The next free process id after the last one given out. Zero is the
    /// kernel's own and is never given out.
    pub fn next_pid(&mut self) -> (r: u16)
        requires
            exists|p: u16| p != 0 && !old(self).procs().contains_key(p),
        ensures
            r != 0,
            !old(self).procs().contains_key(r),
            exists|k: int| #![trigger pid_at(old(self).current_process_id, k)]
                0 <= k && r == pid_at(old(self).current_process_id, k) && forall|j: int|
                    #![trigger pid_at(old(self).current_process_id, j)]
                    0 <= j < k ==> old(self).procs().contains_key(
                        pid_at(old(self).current_process_id, j),
                    ),
            *final(self) == (Orbit { current_process_id: r, ..*old(self) }),
    {
        let mut next: u16 = self.current_process_id.wrapping_add(1);
        if next == 0 {
            next = 1;
        }
        let ghost cur = self.current_process_id;
        let ghost mut k: int = 0;
        while self.processes.contains_key(&next)
            invariant
                0 <= k < 0xFFFF,
                *self == *old(self),
                cur == self.current_process_id,
                next == pid_at(cur, k),
                next != 0,
                exists|p: u16| p != 0 && !self.procs().contains_key(p),
                forall|j: int|
                    #![trigger pid_at(cur, j)]
                    0 <= j < k ==> self.procs().contains_key(pid_at(cur, j)),
            decreases 0xFFFF - k,
        {
            proof {
                assert(self.procs().contains_key(pid_at(cur, k)));
                if k == 0xFFFE {
                    let p = choose|p: u16| p != 0 && !self.procs().contains_key(p);
                    let d = (p - 1 - cur) % 0xFFFF;
                    assert(pid_at(cur, d) == p);
                    assert(self.procs().contains_key(pid_at(cur, d)));
                    assert(false);
                }
                k = k + 1;
            }
            next = next.wrapping_add(1);
            if next == 0 {
                next = 1;
            }
        }
        self.current_process_id = next;
        proof {
            assert(next == pid_at(cur, k));
        }
        next
    }

    /// Leaves return values with a thread that waits for a manager request and
    /// queues its wake-up. Does nothing for a thread that is gone.
    pub fn publish_pending_for_tid(&mut self, wakes: &mut WakeQueue, tid: u32, vals: &[i64])
        ensures
            final(self).threads@ == published(old(self).threads@, tid, vals@),
            *final(self) == (Orbit { threads: final(self).threads, ..*old(self) }),
            final(wakes)@ == (if old(self).threads@.contains_key(tid) {
                old(wakes)@.pushed(WakeEvent::Tid(tid))
            } else {
                old(wakes)@
            }),
    {
        let mut t: Thread = match self.threads.get(&tid) {
            Some(t) => *t,
            None => {
                return ;
            },
        };
        t.pending = Some(pack_rets(vals));
        let _ = self.threads.insert(tid, t);
        let _ = wake_queue_push(wakes, WakeEvent::Tid(tid));
    }

    /// Resumes a parked thread with one return value.
    pub fn resume_thread_with_value(&mut self, q: &mut Queues, hart: u64, tid: u32, value: i64)
        requires
            old(q).wf(),
        ensures
            final(q).wf(),
            final(self).threads@ == resumed(old(self).threads@, tid, seq![value]),
            *final(self) == (Orbit { threads: final(self).threads, ..*old(self) }),
            final(q).inboxes() == (if old(self).threads@.contains_key(tid) {
                noticed(old(q).inboxes(), hart, tid)
            } else {
                old(q).inboxes()
            }),
            *final(q) == (Queues { ready: final(q).ready, ..*old(q) }),
    {
        let mut v: Vec<i64> = Vec::new();
        v.push(value);
        proof {
            assert(v@ =~= seq![value]);
        }
        self.resume_thread_with_values(q, hart, tid, v.as_slice());
    }

    /// Resumes a parked thread with up to four return values, written straight
    /// into its registers; an empty list leaves them alone. Clears values that
    /// were pending. Does nothing for a thread that is gone.
    pub fn resume_thread_with_values(&mut self, q: &mut Queues, hart: u64, tid: u32, vals: &[i64])
        requires
            old(q).wf(),
        ensures
            final(q).wf(),
            final(self).threads@ == resumed(old(self).threads@, tid, vals@),
            *final(self) == (Orbit { threads: final(self).threads, ..*old(self) }),
            final(q).inboxes() == (if old(self).threads@.contains_key(tid) {
                noticed(old(q).inboxes(), hart, tid)
            } else {
                old(q).inboxes()
            }),
            *final(q) == (Queues { ready: final(q).ready, ..*old(q) }),
    {
        let mut t: Thread = match self.threads.get(&tid) {
            Some(t) => *t,
            None => {
                return ;
            },
        };
        t.frame = deliver(t.frame, pack_rets(vals));
        t.pending = None;
        t.state = ThreadState::Ready;
        let _ = self.threads.insert(tid, t);
        let _ = push_ready_notice(q, hart, tid);
    }

    /// If return values were published for a thread that has just parked, puts
    /// them into its frame and makes it ready. Tells whether there were any.
    pub fn try_wake_pending_inline(&mut self, q: &mut Queues, hart: u64, tid: u32) -> (r: bool)
        requires
            old(q).wf(),
        ensures
            final(q).wf(),
            r == (old(self).threads@.contains_key(tid) && old(self).threads@[tid].pending is Some),
            r ==> {
                let t = old(self).threads@[tid];
                &&& final(self).threads@ == old(self).threads@.insert(
                    tid,
                    Thread {
                        frame: frame_with_pending(t),
                        pending: None,
                        state: ThreadState::Ready,
                        ..t
                    },
                )
                &&& final(q).inboxes() == noticed(old(q).inboxes(), hart, tid)
            },
            !r ==> final(self).threads@ == old(self).threads@ && final(q).inboxes()
                == old(q).inboxes(),
            *final(self) == (Orbit { threads: final(self).threads, ..*old(self) }),
            *final(q) == (Queues { ready: final(q).ready, ..*old(q) }),
    {
        let mut t: Thread = match self.threads.get(&tid) {
            Some(t) => *t,
            None => {
                return false;
            },
        };
        let r: Rets = match t.pending {
            Some(r) => r,
            None => {
                return false;
            },
        };
        t.frame = deliver(t.frame, r);
        t.pending = None;
        t.state = ThreadState::Ready;
        let _ = self.threads.insert(tid, t);
        let _ = push_ready_notice(q, hart, tid);
        true
    }

    /// Wakes every thread that `target` names, for `reason`.
    pub fn set_wake_reason_where(&mut self, reason: u64, target: WakeTarget)
        ensures
            final(self).run_state() == woken(old(self).run_state(), target, reason),
            *final(self) == (Orbit {
                threads: final(self).threads,
                ready: final(self).ready,
                ..*old(self)
            }),
    {
        let keys = keys32(&self.threads);
        let mut i: usize = 0;
        let ghost start = self.threads@;
        while i < keys.len()
            invariant
                i <= keys@.len(),
                start == old(self).threads@,
                keys@ == sorted32(start.dom()),
                lists32(keys@, start.dom()),
                self.threads@.dom() == start.dom(),
                forall|j: int|
                    #![trigger keys@[j]]
                    0 <= j < i ==> self.threads@[keys@[j]] == (if hits(start[keys@[j]], target) {
                        tickled(start[keys@[j]], reason)
                    } else {
                        start[keys@[j]]
                    }),
                forall|j: int|
                    #![trigger keys@[j]]
                    i <= j < keys@.len() ==> self.threads@[keys@[j]] == start[keys@[j]],
                self.ready@ == old(self).ready@ + made_ready(keys@.take(i as int), start, target),
                *self == (Orbit { threads: self.threads, ready: self.ready, ..*old(self) }),
            decreases keys@.len() - i,
        {
            let tid: u32 = keys[i];
            proof {
                assert(keys@.contains(tid));
                assert(start.dom().contains(tid));
                assert(self.threads@.dom().contains(tid));
                let t = keys@.take(i + 1);
                assert(t.drop_last() =~= keys@.take(i as int));
                assert(t.last() == tid);
            }
            let mut t: Thread = *self.threads.get(&tid).unwrap();
            let hit: bool = match target {
                WakeTarget::Tid(x) => t.tid == x,
                WakeTarget::Pid(x) => t.pid == x,
            };
            if hit {
                t.wake_override = t.wake_override | reason;
                let was_parked: bool = t.state == ThreadState::Blocking || t.state
                    == ThreadState::Suspended;
                if was_parked {
                    t.state = ThreadState::Ready;
                    match t.pending {
                        Some(r) => {
                            t.frame = deliver(t.frame, r);
                            t.pending = None;
                        },
                        None => {},
                    }
                    t.last_wake_reason = t.wake_override;
                    t.wake_override = 0;
                    self.ready.push(tid);
                }
                let _ = self.threads.insert(tid, t);
            }
            proof {
                assert(self.threads@.dom() =~= start.dom());
                assert(self.threads@[tid] == (if hits(start[tid], target) {
                    tickled(start[tid], reason)
                } else {
                    start[tid]
                }));
                assert(self.ready@ =~= old(self).ready@ + made_ready(
                    keys@.take(i + 1),
                    start,
                    target,
                ));
            }
            i = i + 1;
        }
        proof {
            assert(keys@.take(i as int) =~= keys@);
            assert forall|k: u32| #[trigger] start.dom().contains(k) implies self.threads@[k]
                == threads_woken(start, target, reason)[k] by {
                assert(keys@.contains(k));
                let j = choose|j: int| 0 <= j < keys@.len() && keys@[j] == k;
                assert(keys@[j] == k);
            }
            assert(self.threads@ =~= threads_woken(start, target, reason));
        }
    }

    /// Applies every queued wake event, oldest first.
    pub fn drain_wakes(&mut self, wakes: &mut WakeQueue)
        ensures
            final(wakes)@ == (WakeView { items: Seq::empty(), ..old(wakes)@ }),
            final(self).run_state() == after_events(
                old(self).run_state(),
                old(wakes)@.items,
                old(self).net_thread_tid,
                old(self).gpu_thread_tid,
                old(self).serial_thread_tid,
            ),
            *final(self) == (Orbit {
                threads: final(self).threads,
                ready: final(self).ready,
                ..*old(self)
            }),
    {
        let ghost goal = after_events(
            self.run_state(),
            wakes@.items,
            self.net_thread_tid,
            self.gpu_thread_tid,
            self.serial_thread_tid,
        );
        loop
            invariant
                goal == after_events(
                    self.run_state(),
                    wakes@.items,
                    self.net_thread_tid,
                    self.gpu_thread_tid,
                    self.serial_thread_tid,
                ),
                wakes@ == (WakeView { items: wakes@.items, ..old(wakes)@ }),
                *self == (Orbit { threads: self.threads, ready: self.ready, ..*old(self) }),
            ensures
                wakes@.items.len() == 0,
                goal == self.run_state(),
            decreases wakes@.items.len(),
        {
            let ev = match wakes.take() {
                Some(ev) => ev,
                None => {
                    break ;
                },
            };
            match ev {
                WakeEvent::Nothing => {},
                WakeEvent::Net => {
                    let w = service(self.net_thread_tid);
                    self.set_wake_reason_where(WAKE_TICKLE, w);
                },
                WakeEvent::Pid(pid) => {
                    self.set_wake_reason_where(WAKE_NET_IO, WakeTarget::Pid(pid));
                },
                WakeEvent::Tid(tid) => {
                    self.set_wake_reason_where(WAKE_NET_IO, WakeTarget::Tid(tid));
                },
                WakeEvent::InputTid(tid) => {
                    self.set_wake_reason_where(WAKE_INPUT_IO, WakeTarget::Tid(tid));
                },
                WakeEvent::Gpu => {
                    let w = service(self.gpu_thread_tid);
                    self.set_wake_reason_where(WAKE_TICKLE, w);
                },
                WakeEvent::Serial => {
                    let w = service(self.serial_thread_tid);
                    self.set_wake_reason_where(WAKE_TICKLE, w);
                },
            }
        }
        proof {
            assert(wakes@.items =~= Seq::<WakeEvent>::empty());
        }
    }

    /// Wakes the compositor if its ring has something for it.
    pub fn nudge_gpu_if_pending(&mut self, ring_empty: bool)
        ensures
            final(self).run_state() == (match old(self).gpu_thread_tid {
                Some(tid) => if ring_empty {
                    old(self).run_state()
                } else {
                    woken(old(self).run_state(), WakeTarget::Tid(tid), WAKE_TICKLE)
                },
                None => old(self).run_state(),
            }),
            *final(self) == (Orbit {
                threads: final(self).threads,
                ready: final(self).ready,
                ..*old(self)
            }),
    {
        if ring_empty {
            return ;
        }
        match self.gpu_thread_tid {
            Some(tid) => self.set_wake_reason_where(WAKE_TICKLE, WakeTarget::Tid(tid)),
            None => {},
        }
    }

    /// Wakes the UART-drain thread if its ring has something for it.
    pub fn nudge_serial_if_pending(&mut self, ring_empty: bool)
        ensures
            final(self).run_state() == (match old(self).serial_thread_tid {
                Some(tid) => if ring_empty {
                    old(self).run_state()
                } else {
                    woken(old(self).run_state(), WakeTarget::Tid(tid), WAKE_TICKLE)
                },
                None => old(self).run_state(),
            }),
            *final(self) == (Orbit {
                threads: final(self).threads,
                ready: final(self).ready,
                ..*old(self)
            }),
    {
        if ring_empty {
            return ;
        }
        match self.serial_thread_tid {
            Some(tid) => self.set_wake_reason_where(WAKE_TICKLE, WakeTarget::Tid(tid)),
            None => {},
        }
    }

    /// Files every park notice, then makes ready every sleeper whose deadline
    /// has passed.
    pub fn drain_sleeps(&mut self, inbox: &mut SleepInbox, now: u64)
        ensures
            final(inbox)@ == Seq::<SleepNotice>::empty(),
            final(self).sleep_state() == due_woken(
                filed_all(old(self).sleep_state(), old(inbox)@),
                now,
            ),
            *final(self) == (Orbit {
                threads: final(self).threads,
                ready: final(self).ready,
                sleeping: final(self).sleeping,
                ..*old(self)
            }),
    {
        let ghost goal = filed_all(self.sleep_state(), inbox@);
        loop
            invariant
                goal == filed_all(self.sleep_state(), inbox@),
                *self == (Orbit {
                    threads: self.threads,
                    ready: self.ready,
                    sleeping: self.sleeping,
                    ..*old(self)
                }),
            ensures
                inbox@.len() == 0,
                goal == self.sleep_state(),
            decreases inbox@.len(),
        {
            let n = match inbox.take() {
                Some(n) => n,
                None => {
                    break ;
                },
            };
            self.file_notice(n);
        }
        proof {
            assert(inbox@ =~= Seq::<SleepNotice>::empty());
        }
        let ghost goal2 = due_woken(goal, now);
        loop
            invariant
                goal2 == due_woken(self.sleep_state(), now),
                *self == (Orbit {
                    threads: self.threads,
                    ready: self.ready,
                    sleeping: self.sleeping,
                    ..*old(self)
                }),
            ensures
                goal2 == self.sleep_state(),
            decreases self.sleeping@.len(),
        {
            let ghost pre = self.sleep_state();
            let e = match self.sleeping.pop_due(now) {
                Some(e) => e,
                None => {
                    break ;
                },
            };
            match self.threads.get(&e.tid) {
                Some(t0) => {
                    if t0.state == ThreadState::Suspended && t0.sleep_seq == e.sleep_seq {
                        let mut t: Thread = *t0;
                        t.last_wake_reason = t.wake_override;
                        t.wake_override = 0;
                        t.state = ThreadState::Ready;
                        let _ = self.threads.insert(e.tid, t);
                        self.ready.push(e.tid);
                    }
                },
                None => {},
            }
        }
    }

    fn file_notice(&mut self, n: SleepNotice)
        ensures
            final(self).sleep_state() == filed(old(self).sleep_state(), n),
            *final(self) == (Orbit {
                threads: final(self).threads,
                ready: final(self).ready,
                sleeping: final(self).sleeping,
                ..*old(self)
            }),
    {
        let tid: u32 = match n.thread {
            Some(t) => t,
            None => {
                return ;
            },
        };
        let mut t: Thread = match self.threads.get(&tid) {
            Some(t) => *t,
            None => {
                return ;
            },
        };
        if t.wake_override != 0 {
            if t.state == ThreadState::Suspended {
                t.state = ThreadState::Ready;
                t.last_wake_reason = t.wake_override;
                t.wake_override = 0;
                let _ = self.threads.insert(tid, t);
                self.ready.push(tid);
            }
            return ;
        }
        self.sleeping.push(tid, n.wake_time, n.sleep_seq);
    }

    /// Moves every ready notice into the ready queue, hart by hart.
    pub fn drain_ready_inboxes(&mut self, q: &mut Queues)
        requires
            old(q).wf(),
        ensures
            final(q).wf(),
            final(q).inboxes() == Seq::new(8, |i: int| Seq::<ReadyNotice>::empty()),
            *final(q) == (Queues { ready: final(q).ready, ..*old(q) }),
            final(self).ready@ == old(self).ready@ + inbox_tids(old(q).inboxes(), 0),
            *final(self) == (Orbit { ready: final(self).ready, ..*old(self) }),
    {
        let ghost start = q.inboxes();
        let ghost goal = self.ready@ + inbox_tids(start, 0);
        let mut h: usize = 0;
        while h < q.ready.len()
            invariant
                h <= 8,
                q.ready@.len() == 8,
                start == old(q).inboxes(),
                start.len() == 8,
                forall|j: int| 0 <= j < h ==> (#[trigger] q.ready@[j])@ == Seq::<ReadyNotice>::empty(),
                forall|j: int| h <= j < 8 ==> (#[trigger] q.ready@[j])@ == start[j],
                goal == self.ready@ + inbox_tids(start, h as int),
                *q == (Queues { ready: q.ready, ..*old(q) }),
                *self == (Orbit { ready: self.ready, ..*old(self) }),
            decreases 8 - h,
        {
            let ghost here = start[h as int];
            let ghost tail = inbox_tids(start, h + 1);
            proof {
                assert(q.ready@[h as int]@ == here);
                assert(goal =~= self.ready@ + noticed_tids(here) + tail);
            }
            loop
                invariant
                    h < 8,
                    q.ready@.len() == 8,
                    goal == self.ready@ + noticed_tids(q.ready@[h as int]@) + tail,
                    forall|j: int|
                        0 <= j < h ==> (#[trigger] q.ready@[j])@ == Seq::<ReadyNotice>::empty(),
                    forall|j: int| h < j < 8 ==> (#[trigger] q.ready@[j])@ == start[j],
                    *q == (Queues { ready: q.ready, ..*old(q) }),
                    *self == (Orbit { ready: self.ready, ..*old(self) }),
                ensures
                    q.ready@[h as int]@.len() == 0,
                    goal == self.ready@ + tail,
                decreases q.ready@[h as int]@.len(),
            {
                let ghost pre = q.ready@;
                let ghost items = q.ready@[h as int]@;
                let n = q.ready[h].take();
                proof {
                    assert forall|j: int| 0 <= j < 8 && j != h implies (#[trigger] q.ready@[j])
                        == pre[j] by {}
                }
                match n {
                    Some(n) => {
                        match n.thread {
                            Some(t) => {
                                self.ready.push(t);
                                proof {
                                    assert(noticed_tids(items) == seq![t] + noticed_tids(
                                        items.skip(1),
                                    ));
                                    assert(goal =~= self.ready@ + noticed_tids(
                                        q.ready@[h as int]@,
                                    ) + tail);
                                }
                            },
                            None => {},
                        }
                    },
                    None => {
                        proof {
                            assert(goal =~= self.ready@ + tail);
                        }
                        break ;
                    },
                }
            }
            proof {
                assert(q.ready@[h as int]@ =~= Seq::<ReadyNotice>::empty());
            }
            h = h + 1;
        }
        proof {
            assert(q.inboxes() =~= Seq::new(8, |i: int| Seq::<ReadyNotice>::empty()));
            assert(goal =~= self.ready@);
        }
    }

    /// Takes the first ready thread that may run on a hart of `hart_mask`.
    pub fn get_runnable_thread(&mut self, hart_mask: u64) -> (r: Option<u32>)
        ensures
            match crate::sched::first_fit(old(self).ready@, old(self).threads@, hart_mask, 0) {
                Some(i) => {
                    &&& 0 <= i < old(self).ready@.len()
                    &&& r == Some(old(self).ready@[i])
                    &&& final(self).ready@ == old(self).ready@.remove(i)
                },
                None => r is None && final(self).ready@ == old(self).ready@,
            },
            *final(self) == (Orbit { ready: final(self).ready, ..*old(self) }),
    {
        self.ready.pop_for(&self.threads, hart_mask)
    }

    /// Time until the earliest deadline, at most `cap`; zero if it has passed.
    pub fn next_sleep_in_cycles(&self, now: u64, cap: u64) -> (r: u64)
        ensures
            r == (if self.sleeping@.len() == 0 {
                cap
            } else if self.sleeping@[0].wake_time <= now {
                0
            } else if self.sleeping@[0].wake_time - now < cap {
                (self.sleeping@[0].wake_time - now) as u64
            } else {
                cap
            }),
    {
        match self.sleeping.next_wake() {
            Some(t) => {
                if t > now {
                    let d: u64 = t - now;
                    if d < cap {
                        d
                    } else {
                        cap
                    }
                } else {
                    0
                }
            },
            None => cap,
        }
    }
}

fn service(tid: Option<u32>) -> (r: WakeTarget)
    ensures
        r == service_target(tid),
{
    match tid {
        Some(t) => WakeTarget::Tid(t),
        None => WakeTarget::Pid(0),
    }
}

/// One bit per hart.
pub open spec fn harts_mask(cpu_count: u64) -> u64 {
    if cpu_count >= 64 {
        u64::MAX
    } else {
        ((1u64 << cpu_count) - 1) as u64
    }
}

/// The threads after return values were left with `tid`.
pub open spec fn published(threads: Map<u32, Thread>, tid: u32, vals: Seq<i64>) -> Map<
    u32,
    Thread,
> {
    if threads.contains_key(tid) {
        threads.insert(tid, Thread { pending: Some(rets_of(vals)), ..threads[tid] })
    } else {
        threads
    }
}

/// The threads after `tid` was resumed with return values.
pub open spec fn resumed(threads: Map<u32, Thread>, tid: u32, vals: Seq<i64>) -> Map<u32, Thread> {
    if threads.contains_key(tid) {
        threads.insert(
            tid,
            Thread {
                frame: delivered(threads[tid].frame, rets_of(vals)),
                pending: None,
                state: ThreadState::Ready,
                ..threads[tid]
            },
        )
    } else {
        threads
    }
}

proof fn lemma_made_ready(tids: Seq<u32>, threads: Map<u32, Thread>, w: WakeTarget)
    requires
        tids.no_duplicates(),
    ensures
        made_ready(tids, threads, w).no_duplicates(),
        forall|k: u32| #[trigger]
            made_ready(tids, threads, w).contains(k) <==> tids.contains(k) && hits(threads[k], w)
                && parked(threads[k]),
    decreases tids.len(),
{
    if tids.len() > 0 {
        let front = tids.drop_last();
        let last = tids.last();
        lemma_made_ready(front, threads, w);
        let a = made_ready(front, threads, w);
        let b = made_ready(tids, threads, w);
        assert(!front.contains(last)) by {
            if front.contains(last) {
                let i = choose|i: int| 0 <= i < front.len() && front[i] == last;
                assert(tids[i] == tids[tids.len() - 1]);
            }
        }
        assert forall|k: u32| #[trigger] b.contains(k) <==> tids.contains(k) && hits(threads[k], w)
            && parked(threads[k]) by {
            assert(tids.contains(k) <==> front.contains(k) || k == last) by {
                if front.contains(k) {
                    let i = choose|i: int| 0 <= i < front.len() && front[i] == k;
                    assert(tids[i] == k);
                }
                if tids.contains(k) {
                    let i = choose|i: int| 0 <= i < tids.len() && tids[i] == k;
                    if i < front.len() {
                        assert(front[i] == k);
                    }
                }
                assert(tids[tids.len() - 1] == last);
            }
            assert(a.contains(k) <==> front.contains(k) && hits(threads[k], w) && parked(
                threads[k],
            ));
            if hits(threads[last], w) && parked(threads[last]) {
                assert(b == a.push(last));
                assert(b.contains(k) <==> a.contains(k) || k == last) by {
                    if a.contains(k) {
                        let i = choose|i: int| 0 <= i < a.len() && a[i] == k;
                        assert(b[i] == k);
                    }
                    assert(b[a.len() as int] == last);
                    if b.contains(k) {
                        let i = choose|i: int| 0 <= i < b.len() && b[i] == k;
                        if i < a.len() {
                            assert(a[i] == k);
                        }
                    }
                }
            }
        }
        assert(b.no_duplicates()) by {
            if hits(threads[last], w) && parked(threads[last]) {
                assert(b == a.push(last));
                assert(!a.contains(last));
                assert forall|i: int, j: int| 0 <= i < b.len() && 0 <= j < b.len() && i != j implies b[i]
                    != b[j] by {
                    if i < a.len() {
                        assert(a.contains(a[i]));
                    }
                    if j < a.len() {
                        assert(a.contains(a[j]));
                    }
                }
            }
        }
    }
}

/// Whom an event is for: the threads of a process, one thread by its number, or
/// a service thread, for which all kernel threads stand in while it is not
/// known.
pub open spec fn meant_for(
    ev: WakeEvent,
    t: Thread,
    net: Option<u32>,
    gpu: Option<u32>,
    serial: Option<u32>,
) -> bool {
    match ev {
        WakeEvent::Nothing => false,
        WakeEvent::Pid(p) => t.pid == p,
        WakeEvent::Tid(k) => t.tid == k,
        WakeEvent::InputTid(k) => t.tid == k,
        WakeEvent::Net => net == Some(t.tid) || (net is None && t.pid == 0),
        WakeEvent::Gpu => gpu == Some(t.tid) || (gpu is None && t.pid == 0),
        WakeEvent::Serial => serial == Some(t.tid) || (serial is None && t.pid == 0),
    }
}

/// Why an event wakes: 2 for network input, 4 for keys, 1 for a nudge.
pub open spec fn reason_of(ev: WakeEvent) -> u64 {
    match ev {
        WakeEvent::Pid(_) => 2,
        WakeEvent::Tid(_) => 2,
        WakeEvent::InputTid(_) => 4,
        _ => 1,
    }
}

/// A wake-up event reaches exactly the threads that it is meant for: each of
/// them that was parked is ready, with the reason, and stands at the end of the
/// ready queue once; each that was not has the reason noted; every other thread
/// is as it was, and nobody leaves the queue.
pub proof fn law_an_event_wakes_those_it_is_meant_for(
    s: RunState,
    ev: WakeEvent,
    net: Option<u32>,
    gpu: Option<u32>,
    serial: Option<u32>,
    k: u32,
)
    requires
        s.threads.contains_key(k),
    ensures
        ({
            let r = after_event(s, ev, net, gpu, serial);
            let t = s.threads[k];
            let v = r.threads[k];
            let added = r.ready.skip(s.ready.len() as int);
            let is_parked = t.state == ThreadState::Suspended || t.state == ThreadState::Blocking;
            let meant = meant_for(ev, t, net, gpu, serial);
            &&& r.threads.dom() == s.threads.dom()
            &&& s.ready.is_prefix_of(r.ready)
            &&& added.no_duplicates()
            &&& added.contains(k) <==> meant && is_parked
            &&& forall|j: u32| #[trigger] added.contains(j) ==> s.threads.contains_key(j)
            &&& meant && is_parked ==> {
                &&& v.state == ThreadState::Ready
                &&& v.last_wake_reason == t.wake_override | reason_of(ev)
                &&& v.wake_override == 0 && v.pending is None
                &&& t.pending is None ==> v.frame == t.frame
            }
            &&& meant && !is_parked ==> v == (Thread {
                wake_override: t.wake_override | reason_of(ev),
                ..t
            })
            &&& !meant ==> v == t
            &&& v.tid == t.tid && v.pid == t.pid && v.slot == t.slot && v.sleep_seq == t.sleep_seq
        }),
{
    let r = after_event(s, ev, net, gpu, serial);
    let added = r.ready.skip(s.ready.len() as int);
    crate::tables::lemma_listed32(s.threads.dom());
    let tids = sorted32(s.threads.dom());
    assert(r.threads.dom() =~= s.threads.dom());
    assert(s.ready =~= r.ready.take(s.ready.len() as int));
    match event_target(ev, net, gpu, serial) {
        Some((w, reason)) => {
            lemma_made_ready(tids, s.threads, w);
            assert(added =~= made_ready(tids, s.threads, w));
            assert(tids.contains(k));
            assert forall|j: u32| #[trigger] added.contains(j) implies s.threads.contains_key(j) by {
                assert(tids.contains(j));
                assert(s.threads.dom().contains(j));
            }
        },
        None => {
            assert(added =~= Seq::<u32>::empty());
        },
    }
}

/// Events take effect one after another, in the order in which they were
/// queued.
pub proof fn law_events_take_effect_in_order(
    s: RunState,
    a: Seq<WakeEvent>,
    ev: WakeEvent,
    net: Option<u32>,
    gpu: Option<u32>,
    serial: Option<u32>,
)
    ensures
        after_events(s, a.push(ev), net, gpu, serial) == after_event(
            after_events(s, a, net, gpu, serial),
            ev,
            net,
            gpu,
            serial,
        ),
    decreases a.len(),
{
    if a.len() == 0 {
        assert(a.push(ev).skip(1) =~= Seq::empty());
        assert(after_events(after_event(s, ev, net, gpu, serial), a.push(ev).skip(1), net, gpu, serial)
            == after_event(s, ev, net, gpu, serial));
    } else {
        assert(a.push(ev).skip(1) =~= a.skip(1).push(ev));
        law_events_take_effect_in_order(
            after_event(s, a[0], net, gpu, serial),
            a.skip(1),
            ev,
            net,
            gpu,
            serial,
        );
    }
}

/// A parked thread that was woken meanwhile runs at once; one that was not goes
/// to sleep until its deadline, for this park. Nobody else is touched.
pub proof fn law_a_park_is_filed_or_undone(s: SleepState, tid: u32, wake_time: u64, seq_no: u64, other: u32)
    requires
        s.run.threads.contains_key(tid),
    ensures
        ({
            let n = SleepNotice { thread: Some(tid), wake_time, sleep_seq: seq_no };
            let r = filed(s, n);
            let t = s.run.threads[tid];
            let e = SleepEntry { wake_time, sleep_seq: seq_no, tid };
            &&& t.wake_override == 0 ==> r.run == s.run && r.sleeping.contains(e) && r.sleeping.len()
                == s.sleeping.len() + 1
            &&& t.wake_override != 0 ==> r.sleeping == s.sleeping
            &&& t.wake_override != 0 && t.state == ThreadState::Suspended ==> {
                &&& r.run.threads[tid].state == ThreadState::Ready
                &&& r.run.threads[tid].last_wake_reason == t.wake_override
                &&& r.run.threads[tid].wake_override == 0
                &&& r.run.ready == s.run.ready.push(tid)
            }
            &&& t.wake_override != 0 && t.state != ThreadState::Suspended ==> r == s
            &&& other != tid ==> r.run.threads[other] == s.run.threads[other]
            &&& r.run.threads.dom() == s.run.threads.dom()
        }),
{
    let n = SleepNotice { thread: Some(tid), wake_time, sleep_seq: seq_no };
    let e = SleepEntry { wake_time, sleep_seq: seq_no, tid };
    lemma_sleep_pos(s.sleeping, e, 0);
    let p = crate::sched::sleep_pos(s.sleeping, e, 0);
    assert(slept(s.sleeping, e)[p] == e);
    assert(filed(s, n).run.threads.dom() =~= s.run.threads.dom());
}

proof fn lemma_sleep_pos(s: Seq<SleepEntry>, e: SleepEntry, i: int)
    requires
        0 <= i <= s.len(),
    ensures
        i <= crate::sched::sleep_pos(s, e, i) <= s.len(),
    decreases s.len() - i,
{
    if i < s.len() && crate::sched::sleeps_before(s[i], e) {
        lemma_sleep_pos(s, e, i + 1);
    }
}

/// When the time has come, sleepers whose deadline has passed run: each thread
/// that still sleeps its first due sleep is ready afterwards, no deadline that
/// has passed is left at the head, threads without an entry are as they were,
/// and nobody leaves the ready queue.
pub proof fn law_due_sleepers_wake(s: SleepState, now: u64, k: u32)
    requires
        s.run.threads.contains_key(k),
    ensures
        ({
            let r = due_woken(s, now);
            let t = s.run.threads[k];
            let v = r.run.threads[k];
            &&& r.run.threads.dom() == s.run.threads.dom()
            &&& s.run.ready.is_prefix_of(r.run.ready)
            &&& r.sleeping.len() > 0 ==> r.sleeping[0].wake_time > now
            &&& exists|n: int| 0 <= n <= s.sleeping.len() && r.sleeping == #[trigger] s.sleeping.skip(
                n,
            ) && forall|i: int| 0 <= i < n ==> (#[trigger] s.sleeping[i]).wake_time <= now
            &&& v == t || (t.state == ThreadState::Suspended && v.state == ThreadState::Ready
                && v.last_wake_reason == t.wake_override && v.wake_override == 0
                && r.run.ready.contains(k) && exists|i: int|
                0 <= i < s.sleeping.len() && (#[trigger] s.sleeping[i]).tid == k
                    && s.sleeping[i].wake_time <= now && s.sleeping[i].sleep_seq == t.sleep_seq)
            &&& s.sleeping.len() > 0 && s.sleeping[0].tid == k && s.sleeping[0].wake_time <= now
                && s.sleeping[0].sleep_seq == t.sleep_seq && t.state == ThreadState::Suspended
                ==> v.state == ThreadState::Ready
        }),
    decreases s.sleeping.len(),
{
    let r = due_woken(s, now);
    if s.sleeping.len() == 0 || s.sleeping[0].wake_time > now {
        assert(s.run.ready =~= r.run.ready.take(s.run.ready.len() as int));
        assert(s.sleeping.skip(0) =~= s.sleeping);
    } else {
        let e = s.sleeping[0];
        let rest = s.sleeping.skip(1);
        let next = if entry_current(s.run.threads, e) {
            SleepState {
                run: RunState {
                    threads: s.run.threads.insert(e.tid, roused(s.run.threads[e.tid])),
                    ready: s.run.ready.push(e.tid),
                },
                sleeping: rest,
            }
        } else {
            SleepState { sleeping: rest, ..s }
        };
        law_due_sleepers_wake(next, now, k);
        assert(next.run.threads.dom() =~= s.run.threads.dom());
        let n = choose|n: int|
            0 <= n <= rest.len() && r.sleeping == #[trigger] rest.skip(n) && forall|i: int|
                0 <= i < n ==> (#[trigger] rest[i]).wake_time <= now;
        assert(rest.skip(n) =~= s.sleeping.skip(n + 1));
        assert forall|i: int| 0 <= i < n + 1 implies (#[trigger] s.sleeping[i]).wake_time <= now by {
            if i > 0 {
                assert(rest[i - 1] == s.sleeping[i]);
            }
        }
        assert(s.run.ready =~= next.run.ready.take(s.run.ready.len() as int));
        assert(s.run.ready.is_prefix_of(r.run.ready)) by {
            let len = s.run.ready.len() as int;
            assert forall|i: int| 0 <= i < len implies s.run.ready[i] == r.run.ready[i] by {
                assert(next.run.ready[i] == r.run.ready.take(next.run.ready.len() as int)[i]);
            }
            assert(s.run.ready =~= r.run.ready.take(len));
        }
        let t = s.run.threads[k];
        let v = r.run.threads[k];
        let mid = next.run.threads[k];
        if v != mid {
            let i = choose|i: int|
                0 <= i < rest.len() && (#[trigger] rest[i]).tid == k && rest[i].wake_time <= now
                    && rest[i].sleep_seq == mid.sleep_seq;
            assert(s.sleeping[i + 1] == rest[i]);
            assert(mid == t);
        } else if mid != t {
            assert(e.tid == k && entry_current(s.run.threads, e));
            assert(next.run.ready[next.run.ready.len() - 1] == k);
            let j = next.run.ready.len() - 1;
            assert(r.run.ready.take(next.run.ready.len() as int)[j] == r.run.ready[j]);
            assert(next.run.ready[j] == r.run.ready[j]);
            assert(r.run.ready.contains(k));
            assert(s.sleeping[0].tid == k);
        }
    }
}

/// What other harts reported as ready goes to the queue in their order, hart by
/// hart, and nothing is lost or made up.
pub proof fn law_reported_threads_are_queued(ns: Seq<ReadyNotice>, k: u32)
    ensures
        noticed_tids(ns).contains(k) <==> exists|i: int|
            0 <= i < ns.len() && (#[trigger] ns[i]).thread == Some(k),
        noticed_tids(ns).len() <= ns.len(),
    decreases ns.len(),
{
    if ns.len() > 0 {
        let rest = ns.skip(1);
        law_reported_threads_are_queued(rest, k);
        let all = noticed_tids(ns);
        let tail = noticed_tids(rest);
        if tail.contains(k) {
            let i = choose|i: int| 0 <= i < rest.len() && (#[trigger] rest[i]).thread == Some(k);
            assert(ns[i + 1].thread == Some(k));
            let j = choose|j: int| 0 <= j < tail.len() && tail[j] == k;
            match ns[0].thread {
                Some(_) => {
                    assert(all[j + 1] == k);
                },
                None => {},
            }
        }
        if ns[0].thread == Some(k) {
            assert(all[0] == k);
        }
        if all.contains(k) {
            let j = choose|j: int| 0 <= j < all.len() && all[j] == k;
            match ns[0].thread {
                Some(t) => {
                    if j > 0 {
                        assert(tail[j - 1] == k);
                    } else {
                        assert(ns[0].thread == Some(k));
                    }
                },
                None => {},
            }
        }
        if exists|i: int| 0 <= i < ns.len() && (#[trigger] ns[i]).thread == Some(k) {
            let i = choose|i: int| 0 <= i < ns.len() && (#[trigger] ns[i]).thread == Some(k);
            if i > 0 {
                assert(rest[i - 1].thread == Some(k));
            }
        }
    }
}

/// A notice goes to the inbox of the hart that it is for, behind all others,
/// and to no other; a full inbox takes none.
pub proof fn law_a_notice_goes_to_its_hart(
    inboxes: Seq<Seq<ReadyNotice>>,
    hart: u64,
    tid: u32,
    other: int,
)
    requires
        inboxes.len() == 8,
        0 <= other < 8,
    ensures
        ({
            let r = noticed(inboxes, hart, tid);
            &&& r.len() == 8
            &&& other != hart ==> r[other] == inboxes[other]
            &&& hart < 8 && inboxes[hart as int].len() < 32 ==> r[hart as int].len()
                == inboxes[hart as int].len() + 1 && r[hart as int].last().thread == Some(tid)
                && r[hart as int].drop_last() == inboxes[hart as int]
            &&& hart < 8 && inboxes[hart as int].len() >= 32 ==> r == inboxes
        }),
{
    let r = noticed(inboxes, hart, tid);
    if hart < 8 && inboxes[hart as int].len() < 32 {
        assert(r[hart as int].drop_last() =~= inboxes[hart as int]);
    }
}

/// Bit `h` of the mask of all harts is set exactly if there is a hart `h`.
pub proof fn law_the_mask_has_every_hart(cpu_count: u64, h: u64)
    requires
        h < 64,
    ensures
        harts_mask(cpu_count) & (1u64 << h) != 0 <==> h < cpu_count,
{
    let c = cpu_count;
    if c < 64 {
        assert(1u64 << c >= 1 && (((((1u64 << c) - 1) as u64) & (1u64 << h)) != 0 <==> h < c)) by (bit_vector)
            requires
                c < 64,
                h < 64,
        ;
    } else {
        assert(0xFFFF_FFFF_FFFF_FFFFu64 & (1u64 << h) != 0) by (bit_vector)
            requires
                h < 64,
        ;
    }
}

/// Results wait for their thread, or reach it at once and make it ready. Up to
/// four values arrive, each in its own register and in order; no other register
/// and no other thread changes.
pub proof fn law_results_arrive_in_order(
    threads: Map<u32, Thread>,
    tid: u32,
    vals: Seq<i64>,
    other: u32,
)
    requires
        threads.contains_key(tid),
    ensures
        ({
            let t = threads[tid];
            let waiting = published(threads, tid, vals)[tid];
            let direct = resumed(threads, tid, vals)[tid];
            let late = frame_with_pending(waiting);
            &&& waiting.state == t.state && waiting.frame == t.frame
            &&& direct.state == ThreadState::Ready && direct.pending is None
            &&& direct.frame == late
            &&& late.a0 == (if vals.len() > 0 {
                vals[0] as u64
            } else {
                t.frame.a0
            })
            &&& late.a1 == (if vals.len() > 1 {
                vals[1] as u64
            } else {
                t.frame.a1
            })
            &&& late.a2 == (if vals.len() > 2 {
                vals[2] as u64
            } else {
                t.frame.a2
            })
            &&& late.a3 == (if vals.len() > 3 {
                vals[3] as u64
            } else {
                t.frame.a3
            })
            &&& late.ra == t.frame.ra && late.sp == t.frame.sp && late.tp == t.frame.tp
            &&& other != tid ==> published(threads, tid, vals)[other] == threads[other] && resumed(
                threads,
                tid,
                vals,
            )[other] == threads[other]
        }),
{
}

/// Numbers for processes are tried one after the other; behind the largest
/// comes one, and zero is never tried.
pub proof fn law_process_numbers_follow_each_other(cur: u16, k: int)
    requires
        k >= 0,
    ensures
        pid_at(cur, k) != 0,
        cur < 0xFFFF ==> pid_at(cur, 0) == cur + 1,
        cur == 0xFFFF ==> pid_at(cur, 0) == 1,
        pid_at(cur, k) < 0xFFFF ==> pid_at(cur, k + 1) == pid_at(cur, k) + 1,
        pid_at(cur, k) == 0xFFFF ==> pid_at(cur, k + 1) == 1,
{
}

/// Numbers for threads are tried one after the other; behind the largest
/// comes zero.
pub proof fn law_thread_numbers_follow_each_other(cur: u32, k: int)
    requires
        k >= 0,
    ensures
        cur < u32::MAX ==> tid_at(cur, 0) == cur + 1,
        cur == u32::MAX ==> tid_at(cur, 0) == 0,
        tid_at(cur, k) < u32::MAX ==> tid_at(cur, k + 1) == tid_at(cur, k) + 1,
        tid_at(cur, k) == u32::MAX ==> tid_at(cur, k + 1) == 0,
{
}

/// Parks are filed in the order in which they were noticed.
pub proof fn law_parks_are_filed_in_order(s: SleepState, ns: Seq<SleepNotice>, n: SleepNotice)
    ensures
        filed_all(s, Seq::empty()) == s,
        filed_all(s, ns.push(n)) == filed(filed_all(s, ns), n),
    decreases ns.len(),
{
    let t = ns.push(n);
    if ns.len() == 0 {
        assert(t.skip(1) =~= Seq::<SleepNotice>::empty());
        assert(t[0] == n);
        assert(filed_all(filed(s, n), t.skip(1)) == filed(s, n));
    } else {
        assert(t[0] == ns[0]);
        assert(t.skip(1) =~= ns.skip(1).push(n));
        law_parks_are_filed_in_order(filed(s, ns[0]), ns.skip(1), n);
    }
}

/// Every sleeper whose time has come wakes, however many are due before it.
pub proof fn law_every_due_sleeper_wakes(s: SleepState, now: u64, i: int)
    requires
        crate::sched::sleep_sorted(s.sleeping),
        0 <= i < s.sleeping.len(),
        s.sleeping[i].wake_time <= now,
        entry_current(s.run.threads, s.sleeping[i]),
    ensures
        due_woken(s, now).run.threads[s.sleeping[i].tid].state == ThreadState::Ready,
        due_woken(s, now).run.ready.contains(s.sleeping[i].tid),
    decreases s.sleeping.len(),
{
    let k = s.sleeping[i].tid;
    let e = s.sleeping[0];
    let rest = s.sleeping.skip(1);
    assert(e.wake_time <= now) by {
        if i > 0 {
            assert(crate::sched::sleeps_before(s.sleeping[0], s.sleeping[i]));
        }
    }
    let next = if entry_current(s.run.threads, e) {
        SleepState {
            run: RunState {
                threads: s.run.threads.insert(e.tid, roused(s.run.threads[e.tid])),
                ready: s.run.ready.push(e.tid),
            },
            sleeping: rest,
        }
    } else {
        SleepState { sleeping: rest, ..s }
    };
    assert(due_woken(s, now) == due_woken(next, now));
    law_due_sleepers_wake(next, now, k);
    if e.tid == k && entry_current(s.run.threads, e) {
        let j = next.run.ready.len() - 1;
        assert(next.run.ready[j] == k);
        let r = due_woken(next, now).run.ready;
        assert(next.run.ready == r.take(next.run.ready.len() as int));
        assert(r[j] == k);
    } else {
        assert(i > 0);
        assert(rest[i - 1] == s.sleeping[i]);
        assert(crate::sched::sleep_sorted(rest)) by {
            assert forall|a: int, b: int| 0 <= a <= b < rest.len() implies crate::sched::sleeps_before(
                rest[a],
                rest[b],
            ) by {
                assert(crate::sched::sleeps_before(s.sleeping[a + 1], s.sleeping[b + 1]));
            }
        }
        law_every_due_sleeper_wakes(next, now, i - 1);
    }
}

} // verus!
