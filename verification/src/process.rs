//! Processes and threads as the manager keeps them.

use std::collections::{BTreeMap, BTreeSet};
use vstd::prelude::*;

verus! {

broadcast use {vstd::laws_cmp::group_laws_cmp, vstd::std_specs::btree::group_btree_axioms};

/// Which frame pool a run of frames came from.
#[derive(Clone, Copy, Debug, PartialEq, Eq, Structural)]
pub enum Pool {
    /// Frames the kernel can reach through its direct map.
    Shared,
    /// Frames that only user page tables map.
    User,
}

/// A run of physical frames that somebody owns.
#[derive(Clone, Copy, Debug, PartialEq, Eq, Structural)]
pub struct PhysBacking {
    pub pool: Pool,
    pub pa: u64,
    pub size: u64,
    pub align: u64,
}

/// Frames to ask an allocator for.
#[derive(Clone, Copy, Debug, PartialEq, Eq, Structural)]
pub struct FrameWant {
    pub pool: Pool,
    pub size: u64,
    pub align: u64,
}

impl FrameWant {
    /// The frames, once they were granted at `pa`.
    pub open spec fn at(self, pa: u64) -> PhysBacking {
        PhysBacking { pool: self.pool, pa, size: self.size, align: self.align }
    }

    pub fn granted(self, pa: u64) -> (r: PhysBacking)
        ensures
            r == self.at(pa),
    {
        PhysBacking { pool: self.pool, pa, size: self.size, align: self.align }
    }
}

/// Frames that the kernel shares with user programs: whole pages that it can
/// reach.
pub open spec fn shared_want(size: u64) -> FrameWant {
    FrameWant { pool: Pool::Shared, size, align: 4096 }
}

/// What to ask for where the kernel is to reach `size` bytes: pages of the page
/// cache, argument pages, surfaces, channels and counters.
pub fn shared_frames(size: u64) -> (r: FrameWant)
    ensures
        r == shared_want(size),
{
    FrameWant { pool: Pool::Shared, size, align: 4096 }
}

/// What a range of a process's address space is for.
#[derive(Clone, Copy, Debug, PartialEq, Eq, Structural)]
pub enum MappingKind {
    Elf,
    Anon,
    NetCh,
    Guard { slot: u16 },
    Stack { slot: u16 },
    TrapFrame { slot: u16 },
    Tls { slot: u16 },
}

impl MappingKind {
    /// The thread slot the range belongs to, if any.
    pub open spec fn spec_slot(self) -> Option<u16> {
        match self {
            MappingKind::Guard { slot } => Some(slot),
            MappingKind::Stack { slot } => Some(slot),
            MappingKind::TrapFrame { slot } => Some(slot),
            MappingKind::Tls { slot } => Some(slot),
            _ => None,
        }
    }

    /// The thread slot the range belongs to, if any.
    pub fn slot(&self) -> (r: Option<u16>)
        ensures
            r == self.spec_slot(),
    {
        match *self {
            MappingKind::Guard { slot } => Some(slot),
            MappingKind::Stack { slot } => Some(slot),
            MappingKind::TrapFrame { slot } => Some(slot),
            MappingKind::Tls { slot } => Some(slot),
            _ => None,
        }
    }
}

/// One range of a process's address space.
#[derive(Clone, Copy, Debug, PartialEq, Eq, Structural)]
pub struct UserMapping {
    pub vaddr: u64,
    pub len: u64,
    pub perms: u64,
    pub backing: Option<PhysBacking>,
    pub kind: MappingKind,
}

/// Role and capability masks of a process.
#[derive(Clone, Copy, Debug, PartialEq, Eq, Structural)]
pub struct Permissions {
    pub role: u32,
    pub perms: u64,
    pub allowed_perms: u64,
}

/// Real, effective and saved user and group ids.
#[derive(Clone, Copy, Debug, PartialEq, Eq, Structural)]
pub struct Creds {
    pub uid: u32,
    pub euid: u32,
    pub suid: u32,
    pub gid: u32,
    pub egid: u32,
    pub sgid: u32,
}

/// Scheduling state of a thread.
#[derive(Clone, Copy, Debug, PartialEq, Eq, Structural)]
pub enum ThreadState {
    Ready,
    Assigned,
    Running,
    Suspended,
    Blocking,
    Exited,
}

/// The saved registers that the manager reads or writes.
#[derive(Clone, Copy, Debug, PartialEq, Eq, Structural)]
pub struct TrapFrame {
    pub ra: u64,
    pub sp: u64,
    pub tp: u64,
    pub a0: u64,
    pub a1: u64,
    pub a2: u64,
    pub a3: u64,
    pub asid: u64,
}

/// Up to four return values waiting for a parked thread.
#[derive(Clone, Copy, Debug, PartialEq, Eq, Structural)]
pub struct Rets {
    pub count: u8,
    pub r0: i64,
    pub r1: i64,
    pub r2: i64,
    pub r3: i64,
}

/// Why a thread was killed by a fault.
#[derive(Clone, Copy, Debug, PartialEq, Eq, Structural)]
pub struct FaultInfo {
    pub cause: u64,
    pub epc: u64,
    pub stval: u64,
}

/// Page-table root and address-space id of a thread or process.
#[derive(Clone, Copy, Debug, PartialEq, Eq, Structural)]
pub struct SatpValue {
    pub ppn: u64,
    pub asid: u16,
}

/// A thread.
#[derive(Clone, Copy, Debug, PartialEq, Eq, Structural)]
pub struct Thread {
    pub tid: u32,
    pub pid: u16,
    pub pc: u64,
    pub supervisor: bool,
    pub satp: SatpValue,
    pub frame: TrapFrame,
    pub kernel_stack: Option<PhysBacking>,
    pub kernel_trap_frame: Option<PhysBacking>,
    pub state: ThreadState,
    pub ticks: u64,
    pub wake_time: u64,
    pub wake_override: u64,
    pub last_wake_reason: u64,
    pub sleep_seq: u64,
    pub pending: Option<Rets>,
    pub slot: Option<u16>,
    pub fault_info: Option<FaultInfo>,
    pub allowed_affinity: u64,
    pub affinity: u64,
    pub cpu_ticks_total: u64,
    pub context_switches: u64,
    pub syscall_count: u64,
    pub syscall_ticks: u64,
    pub permissions: Permissions,
    pub creds: Creds,
    pub stdout_redirect: Option<u16>,
}

/// A process.
pub struct Process {
    pub pid: u16,
    pub parent_pid: u16,
    pub satp: SatpValue,
    pub threads: BTreeSet<u32>,
    pub thread_count: u16,
    pub thread_slots: ThreadSlots,
    pub heap_pages: Vec<PhysBacking>,
    pub maps: BTreeMap<u64, UserMapping>,
    pub sockets: BTreeSet<u64>,
    pub argv_blob: Option<PhysBacking>,
    pub envp_blob: Option<PhysBacking>,
    pub permissions: Permissions,
    pub creds: Creds,
    pub groups: Vec<u32>,
    pub login_name: Option<Vec<u8>>,
    pub cwd: Vec<u8>,
    pub stdout_redirect: Option<u16>,
    pub tls_template: Option<Vec<u8>>,
    pub tls_memsz: u64,
    pub tls_align: u64,
    pub detached: bool,
    pub exit_waiter: Option<u32>,
    pub exit_code: i32,
    pub exit_finalized: bool,
    pub dead_children: BTreeMap<u16, i32>,
    pub perm_denials: u64,
    pub role_denials: u64,
}

/// Number of thread slots in an address space.
pub const MAX_THREAD_SLOTS: u16 = 256;

/// The thread slots of one address space that are in use.
pub struct ThreadSlots {
    used: BTreeSet<u16>,
}

/// The lowest slot from `from` on that is not in `used`.
pub open spec fn lowest_free(used: Set<u16>, from: int) -> Option<u16>
    decreases 256 - from,
{
    if from >= 256 {
        None
    } else if !used.contains(from as u16) {
        Some(from as u16)
    } else {
        lowest_free(used, from + 1)
    }
}

impl View for ThreadSlots {
    type V = Set<u16>;

    closed spec fn view(&self) -> Set<u16> {
        self.used@
    }
}

impl ThreadSlots {
    /// All slots free.
    pub fn new() -> (r: Self)
        ensures
            r@ == Set::<u16>::empty(),
    {
        ThreadSlots { used: BTreeSet::new() }
    }

    /// Takes the lowest free slot.
    pub fn take_lowest(&mut self) -> (r: Option<u16>)
        ensures
            r == lowest_free(old(self)@, 0),
            r matches Some(s) ==> !old(self)@.contains(s) && final(self)@ == old(self)@.insert(s),
            r is None ==> final(self)@ == old(self)@,
    {
        let mut i: u16 = 0;
        while i < MAX_THREAD_SLOTS
            invariant
                i <= 256,
                *self == *old(self),
                lowest_free(old(self)@, 0) == lowest_free(old(self)@, i as int),
            decreases 256 - i,
        {
            if !self.used.contains(&i) {
                let _ = self.used.insert(i);
                return Some(i);
            }
            i = i + 1;
        }
        None
    }

    /// Gives a slot back.
    pub fn free(&mut self, slot: u16)
        ensures
            final(self)@ == old(self)@.remove(slot),
    {
        let _ = self.used.remove(&slot);
    }
}

/// The first four of `vals` as return values.
pub open spec fn rets_of(vals: Seq<i64>) -> Rets {
    Rets {
        count: if vals.len() < 4 {
            vals.len() as u8
        } else {
            4
        },
        r0: if vals.len() > 0 {
            vals[0]
        } else {
            0
        },
        r1: if vals.len() > 1 {
            vals[1]
        } else {
            0
        },
        r2: if vals.len() > 2 {
            vals[2]
        } else {
            0
        },
        r3: if vals.len() > 3 {
            vals[3]
        } else {
            0
        },
    }
}

/// Packs up to four return values; more are dropped.
pub fn pack_rets(vals: &[i64]) -> (r: Rets)
    ensures
        r == rets_of(vals@),
{
    let n: usize = vals.len();
    Rets {
        count: if n < 4 {
            n as u8
        } else {
            4
        },
        r0: if n > 0 {
            vals[0]
        } else {
            0
        },
        r1: if n > 1 {
            vals[1]
        } else {
            0
        },
        r2: if n > 2 {
            vals[2]
        } else {
            0
        },
        r3: if n > 3 {
            vals[3]
        } else {
            0
        },
    }
}

/// A frame with return values in its argument registers, from `a0` on.
pub open spec fn delivered(f: TrapFrame, r: Rets) -> TrapFrame {
    TrapFrame {
        a0: if r.count > 0 {
            r.r0 as u64
        } else {
            f.a0
        },
        a1: if r.count > 1 {
            r.r1 as u64
        } else {
            f.a1
        },
        a2: if r.count > 2 {
            r.r2 as u64
        } else {
            f.a2
        },
        a3: if r.count > 3 {
            r.r3 as u64
        } else {
            f.a3
        },
        ..f
    }
}

/// Writes return values into a saved frame.
pub fn deliver(f: TrapFrame, r: Rets) -> (out: TrapFrame)
    ensures
        out == delivered(f, r),
{
    let mut g = f;
    if r.count > 0 {
        g.a0 = r.r0 as u64;
    }
    if r.count > 1 {
        g.a1 = r.r1 as u64;
    }
    if r.count > 2 {
        g.a2 = r.r2 as u64;
    }
    if r.count > 3 {
        g.a3 = r.r3 as u64;
    }
    g
}

/// Masks that a process without capabilities has.
pub open spec fn no_permissions() -> Permissions {
    Permissions { role: 0, perms: 0, allowed_perms: 0 }
}

/// User and group zero throughout.
pub open spec fn root_creds() -> Creds {
    Creds { uid: 0, euid: 0, suid: 0, gid: 0, egid: 0, sgid: 0 }
}

/// A process record as it is first made: no threads, no memory, no
/// capabilities, working directory `/`.
pub open spec fn is_fresh(p: Process, pid: u16, parent_pid: u16, satp: SatpValue) -> bool {
    &&& p.pid == pid
    &&& p.parent_pid == parent_pid
    &&& p.satp == satp
    &&& p.threads@ == Set::<u32>::empty()
    &&& p.thread_count == 0
    &&& p.thread_slots@ == Set::<u16>::empty()
    &&& p.heap_pages@ == Seq::<PhysBacking>::empty()
    &&& p.maps@ == Map::<u64, UserMapping>::empty()
    &&& p.sockets@ == Set::<u64>::empty()
    &&& p.argv_blob is None
    &&& p.envp_blob is None
    &&& p.permissions == no_permissions()
    &&& p.creds == root_creds()
    &&& p.groups@ == Seq::<u32>::empty()
    &&& p.login_name is None
    &&& p.cwd@ == seq![0x2fu8]
    &&& p.stdout_redirect is None
    &&& p.tls_template is None
    &&& p.tls_memsz == 0
    &&& p.tls_align == 0
    &&& !p.detached
    &&& p.exit_waiter is None
    &&& p.exit_code == 0
    &&& !p.exit_finalized
    &&& p.dead_children@ == Map::<u16, i32>::empty()
    &&& p.perm_denials == 0
    &&& p.role_denials == 0
}

impl Process {
    /// A process with nothing in it.
    pub fn new(pid: u16, parent_pid: u16, satp: SatpValue) -> (r: Self)
        ensures
            is_fresh(r, pid, parent_pid, satp),
    {
        let mut cwd: Vec<u8> = Vec::new();
        cwd.push(0x2f);
        let r = Process {
            pid,
            parent_pid,
            satp,
            threads: BTreeSet::new(),
            thread_count: 0,
            thread_slots: ThreadSlots::new(),
            heap_pages: Vec::new(),
            maps: BTreeMap::new(),
            sockets: BTreeSet::new(),
            argv_blob: None,
            envp_blob: None,
            permissions: Permissions { role: 0, perms: 0, allowed_perms: 0 },
            creds: Creds { uid: 0, euid: 0, suid: 0, gid: 0, egid: 0, sgid: 0 },
            groups: Vec::new(),
            login_name: None,
            cwd,
            stdout_redirect: None,
            tls_template: None,
            tls_memsz: 0,
            tls_align: 0,
            detached: false,
            exit_waiter: None,
            exit_code: 0,
            exit_finalized: false,
            dead_children: BTreeMap::new(),
            perm_denials: 0,
            role_denials: 0,
        };
        proof {
            assert(r.cwd@ =~= seq![0x2fu8]);
        }
        r
    }
}

/// A new thread gets the lowest slot that is free; there is none only if all
/// are taken.
pub proof fn law_the_lowest_slot_is_taken(used: Set<u16>, from: int)
    requires
        0 <= from <= 256,
    ensures
        match lowest_free(used, from) {
            Some(s) => {
                &&& from <= s < 256
                &&& !used.contains(s)
                &&& forall|j: u16| from <= j < s ==> #[trigger] used.contains(j)
            },
            None => forall|j: u16| from <= j < 256 ==> #[trigger] used.contains(j),
        },
    decreases 256 - from,
{
    if from < 256 && used.contains(from as u16) {
        law_the_lowest_slot_is_taken(used, from + 1);
    }
}

/// Frames that were granted are those that were asked for, at the address of
/// the grant; shared ones come from the pool that the kernel reaches.
pub proof fn law_a_grant_is_what_was_asked_for(w: FrameWant, pa: u64, size: u64)
    ensures
        w.at(pa).pa == pa,
        w.at(pa).size == w.size && w.at(pa).align == w.align && w.at(pa).pool == w.pool,
        shared_want(size).pool == Pool::Shared,
        shared_want(size).size == size,
        shared_want(size).align == 4096,
{
}

/// A mapping belongs to the slot that its kind names.
pub proof fn law_a_mapping_belongs_to_its_slot(s: u16)
    ensures
        (MappingKind::Guard { slot: s }).spec_slot() == Some(s),
        (MappingKind::Stack { slot: s }).spec_slot() == Some(s),
        (MappingKind::TrapFrame { slot: s }).spec_slot() == Some(s),
        (MappingKind::Tls { slot: s }).spec_slot() == Some(s),
        MappingKind::Elf.spec_slot() is None,
        MappingKind::Anon.spec_slot() is None,
        MappingKind::NetCh.spec_slot() is None,
{
}

/// A process starts with no threads, no memory, no handles on the network,
/// no capabilities and no exit code, as the superuser, in the root
/// directory.
pub proof fn law_a_process_starts_with_nothing(p: Process, pid: u16, parent_pid: u16, satp: SatpValue)
    requires
        is_fresh(p, pid, parent_pid, satp),
    ensures
        p.pid == pid && p.parent_pid == parent_pid && p.satp == satp,
        p.thread_count == 0,
        forall|t: u32| !#[trigger] p.threads@.contains(t),
        forall|s: u16| !#[trigger] p.thread_slots@.contains(s),
        forall|va: u64| !#[trigger] p.maps@.contains_key(va),
        forall|s: u64| !#[trigger] p.sockets@.contains(s),
        forall|c: u16| !#[trigger] p.dead_children@.contains_key(c),
        p.heap_pages@.len() == 0 && p.groups@.len() == 0,
        p.argv_blob is None && p.envp_blob is None && p.login_name is None,
        p.stdout_redirect is None && p.exit_waiter is None,
        p.tls_template is None && p.tls_memsz == 0 && p.tls_align == 0,
        p.permissions.role == 0 && p.permissions.perms == 0 && p.permissions.allowed_perms == 0,
        p.creds.uid == 0 && p.creds.euid == 0 && p.creds.suid == 0,
        p.creds.gid == 0 && p.creds.egid == 0 && p.creds.sgid == 0,
        p.cwd@.len() == 1 && p.cwd@[0] == '/' as u8,
        !p.detached && !p.exit_finalized && p.exit_code == 0,
        p.perm_denials == 0 && p.role_denials == 0,
{
}

} // verus!
