//! What tearing processes down touches, as values that contracts can speak of.

use crate::handle::ProcessHandles;
#[allow(unused_imports)]
use crate::handle::HandlesView;
#[allow(unused_imports)]
use crate::net::NetView;
use crate::net::NetPackage;
use crate::orbit::{Effect, FutexWaiter, Orbit, Queues};
use crate::pending_frees::FreeRings;
use crate::process::{
    Creds, Permissions, PhysBacking, Process, SatpValue, Thread, UserMapping,
};
#[allow(unused_imports)]
use crate::rings::WakeView;
use crate::shared_user_ptr::{Leaf, Region, SharedUserPtr, UserLeaves};
#[allow(unused_imports)]
use crate::surface::{ProcessSurfaces, SurfaceEntry};
use std::collections::BTreeMap;
use vstd::prelude::*;

verus! {

broadcast use {vstd::laws_cmp::group_laws_cmp, vstd::std_specs::btree::group_btree_axioms};

/// What a process record holds.
#[verifier::ext_equal]
pub struct ProcView {
    pub pid: u16,
    pub parent_pid: u16,
    pub satp: SatpValue,
    pub threads: Set<u32>,
    pub thread_count: u16,
    pub thread_slots: Set<u16>,
    pub heap_pages: Seq<PhysBacking>,
    pub maps: Map<u64, UserMapping>,
    pub sockets: Set<u64>,
    pub argv_blob: Option<PhysBacking>,
    pub envp_blob: Option<PhysBacking>,
    pub permissions: Permissions,
    pub creds: Creds,
    pub groups: Seq<u32>,
    pub login_name: Option<Seq<u8>>,
    pub cwd: Seq<u8>,
    pub stdout_redirect: Option<u16>,
    pub tls_template: Option<Seq<u8>>,
    pub tls_memsz: u64,
    pub tls_align: u64,
    pub detached: bool,
    pub exit_waiter: Option<u32>,
    pub exit_code: i32,
    pub exit_finalized: bool,
    pub dead_children: Map<u16, i32>,
    pub perm_denials: u64,
    pub role_denials: u64,
}

/// The bytes behind an optional vector.
pub open spec fn opt_bytes(v: Option<Vec<u8>>) -> Option<Seq<u8>> {
    match v {
        Some(b) => Some(b@),
        None => None,
    }
}

impl View for Process {
    type V = ProcView;

    open spec fn view(&self) -> ProcView {
        ProcView {
            pid: self.pid,
            parent_pid: self.parent_pid,
            satp: self.satp,
            threads: self.threads@,
            thread_count: self.thread_count,
            thread_slots: self.thread_slots@,
            heap_pages: self.heap_pages@,
            maps: self.maps@,
            sockets: self.sockets@,
            argv_blob: self.argv_blob,
            envp_blob: self.envp_blob,
            permissions: self.permissions,
            creds: self.creds,
            groups: self.groups@,
            login_name: opt_bytes(self.login_name),
            cwd: self.cwd@,
            stdout_redirect: self.stdout_redirect,
            tls_template: opt_bytes(self.tls_template),
            tls_memsz: self.tls_memsz,
            tls_align: self.tls_align,
            detached: self.detached,
            exit_waiter: self.exit_waiter,
            exit_code: self.exit_code,
            exit_finalized: self.exit_finalized,
            dead_children: self.dead_children@,
            perm_denials: self.perm_denials,
            role_denials: self.role_denials,
        }
    }
}

/// What a surface table holds.
#[verifier::ext_equal]
pub struct SurfacesView {
    pub surfaces: Map<u32, SurfaceEntry>,
    pub next_id: u32,
    pub next_va_cursor: u64,
}

impl View for ProcessSurfaces {
    type V = SurfacesView;

    open spec fn view(&self) -> SurfacesView {
        SurfacesView {
            surfaces: self.surfaces@,
            next_id: self.next_id,
            next_va_cursor: self.next_va_cursor,
        }
    }
}

/// The last-level entries of each page table, by the address of its root.
pub struct LeafTables {
    pub by_root: BTreeMap<u64, UserLeaves>,
}

impl View for LeafTables {
    type V = Map<u64, Map<u64, Leaf>>;

    open spec fn view(&self) -> Map<u64, Map<u64, Leaf>> {
        self.by_root@.map_values(|l: UserLeaves| l@)
    }
}

/// What the manager shares with the rest of the machine, and the work it has
/// for it.
pub struct Machine {
    pub q: Queues,
    pub net: NetPackage,
    pub frees: FreeRings,
    pub tables: LeafTables,
    pub effects: Vec<Effect>,
}

impl Machine {
    /// Empty queues for a machine with `harts` harts.
    pub fn new(harts: usize) -> (r: Self)
        requires
            harts > 0,
        ensures
            r.q.wf(),
            r.q.wakes@ == (WakeView { items: Seq::empty(), peak: 0, drops: 0 }),
            r.net@ == (NetView {
                reqs: Seq::empty(),
                associations: Seq::empty(),
                deletions: Seq::empty(),
            }),
            r.frees@ == Seq::new(harts as nat, |i: int| Seq::<PhysBacking>::empty()),
            r.tables@ == Map::<u64, Map<u64, Leaf>>::empty(),
            r.effects@ == Seq::<Effect>::empty(),
    {
        let r = Machine {
            q: Queues::new(),
            net: NetPackage::new(),
            frees: FreeRings::init(harts),
            tables: LeafTables { by_root: BTreeMap::new() },
            effects: Vec::new(),
        };
        proof {
            assert(r.tables@ =~= Map::<u64, Map<u64, Leaf>>::empty());
        }
        r
    }
}

/// Everything that the life cycle of processes and threads touches.
#[verifier::ext_equal]
pub struct World {
    pub procs: Map<u16, ProcView>,
    pub threads: Map<u32, Thread>,
    pub handles: Map<u16, HandlesView>,
    pub regions: Map<u64, Region>,
    pub surfaces: Map<u16, SurfacesView>,
    pub stdin: Map<u16, Option<u32>>,
    pub key_events: Map<u16, Option<u32>>,
    pub futexes: Map<u64, Seq<FutexWaiter>>,
    pub orphans: Seq<u64>,
    pub wakes: WakeView,
    pub net: NetView,
    pub frees: Seq<Seq<PhysBacking>>,
    pub tables: Map<u64, Map<u64, Leaf>>,
    pub effects: Seq<Effect>,
}

impl Orbit {
    /// The process records.
    pub open spec fn procs(self) -> Map<u16, ProcView> {
        self.processes@.map_values(|p: Process| p@)
    }

    /// The waiters on each futex word, longest waiting first.
    pub open spec fn futexes(self) -> Map<u64, Seq<FutexWaiter>> {
        self.futex_waiters@.map_values(|v: Vec<FutexWaiter>| v@)
    }

    /// The handle tables.
    pub open spec fn handle_tables(self) -> Map<u16, HandlesView> {
        self.process_handles@.map_values(|h: ProcessHandles| h@)
    }

    /// The surface tables.
    pub open spec fn surface_tables(self) -> Map<u16, SurfacesView> {
        self.surfaces.by_pid@.map_values(|s: ProcessSurfaces| s@)
    }
}

/// What the manager and the machine hold.
pub open spec fn world(o: Orbit, m: Machine) -> World {
    World {
        procs: o.procs(),
        threads: o.threads@,
        handles: o.handle_tables(),
        regions: o.regions@,
        surfaces: o.surface_tables(),
        stdin: o.stdin.parked@,
        key_events: o.key_events.parked@,
        futexes: o.futexes(),
        orphans: o.orphaned_sockets@,
        wakes: m.q.wakes@,
        net: m.net@,
        frees: m.frees@,
        tables: m.tables@,
        effects: m.effects@,
    }
}

/// The manager's fields that tearing processes down leaves alone.
pub open spec fn same_rest(a: Orbit, b: Orbit) -> bool {
    b == (Orbit {
        processes: b.processes,
        threads: b.threads,
        process_handles: b.process_handles,
        regions: b.regions,
        surfaces: b.surfaces,
        stdin: b.stdin,
        key_events: b.key_events,
        futex_waiters: b.futex_waiters,
        orphaned_sockets: b.orphaned_sockets,
        ..a
    })
}

/// The machine's queues that tearing processes down leaves alone.
pub open spec fn same_queues(a: Machine, b: Machine) -> bool {
    b.q == (Queues { wakes: b.q.wakes, ..a.q })
}

/// Every region has a holder, lies on the page grid and is filed under its
/// first frame.
pub open spec fn regions_ok(regions: Map<u64, Region>) -> bool {
    forall|pa: u64| #[trigger]
        regions.contains_key(pa) ==> regions[pa].refs > 0 && regions[pa].backing.pa == pa
            && SharedUserPtr::aligned(regions[pa].user_va, regions[pa].len)
}

/// Every mapping is filed under its address and ends inside the address space.
pub open spec fn maps_ok(maps: Map<u64, UserMapping>) -> bool {
    forall|va: u64| #[trigger]
        maps.contains_key(va) ==> maps[va].vaddr == va && va + maps[va].len <= u64::MAX
}

/// Every process is filed under its id, has a page table and sound mappings.
pub open spec fn procs_ok(procs: Map<u16, ProcView>) -> bool {
    forall|pid: u16| #[trigger]
        procs.contains_key(pid) ==> procs[pid].pid == pid && procs[pid].satp.ppn < 0x1000_0000_0000
            && maps_ok(procs[pid].maps)
}

/// Every thread is filed under its id, and the threads that a process lists
/// are exactly its own.
pub open spec fn members_ok(procs: Map<u16, ProcView>, threads: Map<u32, Thread>) -> bool {
    &&& forall|tid: u32| #[trigger] threads.contains_key(tid) ==> threads[tid].tid == tid
    &&& forall|pid: u16, tid: u32|
        #![trigger procs[pid].threads.contains(tid)]
        procs.contains_key(pid) ==> (procs[pid].threads.contains(tid) <==> (threads.contains_key(
            tid,
        ) && threads[tid].pid == pid))
}

/// Every thread is the kernel's or belongs to a process that is there.
pub open spec fn homes_ok(procs: Map<u16, ProcView>, threads: Map<u32, Thread>) -> bool {
    forall|tid: u32| #[trigger]
        threads.contains_key(tid) ==> threads[tid].pid == 0 || procs.contains_key(threads[tid].pid)
}

impl World {
    /// Processes, threads and regions are consistent.
    pub open spec fn wf(self) -> bool {
        &&& procs_ok(self.procs)
        &&& regions_ok(self.regions)
        &&& members_ok(self.procs, self.threads)
    }
}

/// Sound tables of processes and threads stay sound.
pub open spec fn keeps_order(a: Orbit, b: Orbit) -> bool {
    &&& procs_ok(a.procs()) ==> procs_ok(b.procs())
    &&& members_ok(a.procs(), a.threads@) ==> members_ok(b.procs(), b.threads@)
    &&& homes_ok(a.procs(), a.threads@) ==> homes_ok(b.procs(), b.threads@)
}

/// The same processes and threads, each with its id, its page table, its
/// mappings and its process.
pub open spec fn same_places(a: Orbit, b: Orbit) -> bool {
    &&& a.processes@.dom() == b.processes@.dom()
    &&& forall|pid: u16| #[trigger]
        b.processes@.contains_key(pid) ==> {
            let p = a.processes@[pid];
            let q = b.processes@[pid];
            q.pid == p.pid && q.satp == p.satp && q.maps@ == p.maps@ && q.threads@ == p.threads@
        }
    &&& a.threads@.dom() == b.threads@.dom()
    &&& forall|tid: u32| #[trigger]
        b.threads@.contains_key(tid) ==> b.threads@[tid].tid == a.threads@[tid].tid
            && b.threads@[tid].pid == a.threads@[tid].pid
}

pub proof fn lemma_same_places(a: Orbit, b: Orbit)
    requires
        same_places(a, b),
    ensures
        keeps_order(a, b),
{
    assert(a.procs().dom() =~= b.procs().dom());
    assert forall|pid: u16| #[trigger] b.procs().contains_key(pid) implies {
        let p = a.procs()[pid];
        let q = b.procs()[pid];
        &&& a.procs().contains_key(pid)
        &&& q.pid == p.pid && q.satp == p.satp && q.maps == p.maps && q.threads == p.threads
    } by {
        assert(b.processes@.contains_key(pid));
    }
    assert forall|tid: u32| #[trigger] b.threads@.contains_key(tid) implies a.threads@.contains_key(
        tid,
    ) by {
        assert(b.threads@.dom().contains(tid));
    }
    assert forall|tid: u32| #[trigger] a.threads@.contains_key(tid) implies b.threads@.contains_key(
        tid,
    ) by {
        assert(a.threads@.dom().contains(tid));
    }
    if homes_ok(a.procs(), a.threads@) {
        assert forall|tid: u32| #[trigger] b.threads@.contains_key(tid) implies b.threads@[tid].pid
            == 0 || b.procs().contains_key(b.threads@[tid].pid) by {
            assert(a.threads@.contains_key(tid));
            assert(a.procs().dom().contains(b.threads@[tid].pid) == b.procs().dom().contains(
                b.threads@[tid].pid,
            ));
        }
    }
    if members_ok(a.procs(), a.threads@) {
        assert forall|pid: u16, tid: u32|
            #![trigger b.procs()[pid].threads.contains(tid)]
            b.procs().contains_key(pid) implies (b.procs()[pid].threads.contains(tid) <==> (
        b.threads@.contains_key(tid) && b.threads@[tid].pid == pid)) by {
            assert(a.procs()[pid].threads.contains(tid) == b.procs()[pid].threads.contains(tid));
        }
    }
}

/// Address of the page table that a value of the translation register names.
pub open spec fn root_of(satp: SatpValue) -> u64 {
    (satp.ppn * 4096) as u64
}

} // verus!
