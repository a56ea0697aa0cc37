//! Building threads and processes.
//!
//! A user thread needs a stack, a trap frame and, if its program has
//! thread-local storage, a page for that. Each is allocated and mapped in
//! turn; if a step fails, everything that was granted before goes back.

#[allow(unused_imports)]
use crate::handle::{stdio_slots, HandlesView};
use crate::handle::ProcessHandles;
use crate::orbit::{Effect, Orbit};
#[allow(unused_imports)]
use crate::orbit::harts_mask;
use crate::orbital_elf::ElfInfo;
use crate::process::{
    Creds, FrameWant, MappingKind, Permissions, PhysBacking, Pool, Process, SatpValue, Thread,
    ThreadState, TrapFrame, UserMapping,
};
#[allow(unused_imports)]
use crate::process::{lowest_free, no_permissions, root_creds};
#[allow(unused_imports)]
use crate::reap::lemma_process_dropped_keeps;
#[allow(unused_imports)]
use crate::teardown::free_all;
use crate::uspace::copy_bytes;
use crate::world::Machine;
#[allow(unused_imports)]
use crate::world::{
    homes_ok, keeps_order, maps_ok, members_ok, procs_ok, regions_ok, same_queues, same_rest, world, ProcView,
    SurfacesView, World,
};
use vstd::prelude::*;

verus! {

broadcast use {vstd::laws_cmp::group_laws_cmp, vstd::std_specs::btree::group_btree_axioms};

/// Size and alignment of a kernel thread's stack.
pub const KERNEL_STACK: u64 = 0x20_0000;

/// Size and alignment of a trap frame.
pub const TRAP_FRAME: u64 = 4096;

/// The frames of a kernel thread's stack.
pub open spec fn kernel_stack_want() -> FrameWant {
    FrameWant { pool: Pool::Shared, size: KERNEL_STACK, align: KERNEL_STACK }
}

pub fn kernel_stack_frames() -> (r: FrameWant)
    ensures
        r == kernel_stack_want(),
{
    FrameWant { pool: Pool::Shared, size: KERNEL_STACK, align: KERNEL_STACK }
}

/// The frame of a trap frame.
pub open spec fn trap_frame_want() -> FrameWant {
    FrameWant { pool: Pool::Shared, size: TRAP_FRAME, align: TRAP_FRAME }
}

pub fn trap_frame_frames() -> (r: FrameWant)
    ensures
        r == trap_frame_want(),
{
    FrameWant { pool: Pool::Shared, size: TRAP_FRAME, align: TRAP_FRAME }
}

/// Where the parts of a thread slot lie in the address space.
#[derive(Clone, Copy, Debug, PartialEq, Eq, Structural)]
pub struct ThreadPlacement {
    pub stack_va: u64,
    pub guard_va: u64,
    pub guard_size: u64,
    pub frame_va: u64,
    pub tls_va: u64,
}

/// The parts end inside the address space and the stack has room for a first
/// frame.
pub open spec fn placement_ok(p: ThreadPlacement, stack_size: u64, tls_max: u64) -> bool {
    &&& 16 <= p.stack_va + stack_size <= u64::MAX
    &&& p.guard_va + p.guard_size <= u64::MAX
    &&& p.frame_va + 4096 <= u64::MAX
    &&& p.tls_va + tls_max <= u64::MAX
}

/// What a thread under construction waits for.
#[derive(Clone, Copy, Debug, PartialEq, Eq, Structural)]
pub enum BuildStage {
    Stack,
    TrapFrame,
    MapStack,
    MapTrapFrame,
    Tls,
    MapTls,
    Ready,
    Failed,
}

/// A thread under construction.
#[derive(Clone, Copy, Debug, PartialEq, Eq, Structural)]
pub struct ThreadBuild {
    pub stage: BuildStage,
    pub slot: u16,
    pub stack_size: u64,
    pub grain: u64,
    pub place: ThreadPlacement,
    /// Size of the thread-local storage page, or zero if there is none.
    pub tls_size: u64,
    pub stack_pa: u64,
    pub frame_pa: u64,
    pub tls_pa: u64,
}

/// What the machine is to do for a thread under construction.
#[derive(Clone, Copy, Debug, PartialEq, Eq, Structural)]
pub enum BuildWant {
    /// Zeroed frames.
    Frames { pool: Pool, size: u64, align: u64 },
    /// A mapping.
    Mapping { va: u64, pa: u64, len: u64, page_size: u64, levels: u8, perms: u64 },
    Nothing,
}

pub open spec fn stack_backing(b: ThreadBuild) -> PhysBacking {
    PhysBacking { pool: Pool::User, pa: b.stack_pa, size: b.stack_size, align: b.grain }
}

pub open spec fn frame_backing(b: ThreadBuild) -> PhysBacking {
    PhysBacking { pool: Pool::Shared, pa: b.frame_pa, size: TRAP_FRAME, align: TRAP_FRAME }
}

pub open spec fn tls_backing(b: ThreadBuild) -> PhysBacking {
    PhysBacking { pool: Pool::User, pa: b.tls_pa, size: b.tls_size, align: b.grain }
}

impl ThreadBuild {
    /// The frames granted so far, in the order in which they go back.
    pub open spec fn held(self) -> Seq<PhysBacking> {
        match self.stage {
            BuildStage::Stack => Seq::empty(),
            BuildStage::TrapFrame => seq![stack_backing(self)],
            BuildStage::MapStack | BuildStage::MapTrapFrame | BuildStage::Tls => seq![
                stack_backing(self),
                frame_backing(self),
            ],
            BuildStage::MapTls => seq![
                tls_backing(self),
                stack_backing(self),
                frame_backing(self),
            ],
            BuildStage::Ready => if self.tls_size > 0 {
                seq![tls_backing(self), stack_backing(self), frame_backing(self)]
            } else {
                seq![stack_backing(self), frame_backing(self)]
            },
            BuildStage::Failed => Seq::empty(),
        }
    }

    /// What to ask the machine for.
    pub open spec fn want(self, perms: crate::abi::PagePerms) -> BuildWant {
        let user_rw = perms.u | perms.r | perms.w;
        match self.stage {
            BuildStage::Stack => BuildWant::Frames {
                pool: Pool::User,
                size: self.stack_size,
                align: self.grain,
            },
            BuildStage::TrapFrame => BuildWant::Frames {
                pool: Pool::Shared,
                size: TRAP_FRAME,
                align: TRAP_FRAME,
            },
            BuildStage::MapStack => BuildWant::Mapping {
                va: self.place.stack_va,
                pa: self.stack_pa,
                len: self.stack_size,
                page_size: self.grain,
                levels: 3,
                perms: user_rw,
            },
            BuildStage::MapTrapFrame => BuildWant::Mapping {
                va: self.place.frame_va,
                pa: self.frame_pa,
                len: TRAP_FRAME,
                page_size: TRAP_FRAME,
                levels: 4,
                perms: perms.r,
            },
            BuildStage::Tls => BuildWant::Frames {
                pool: Pool::User,
                size: self.tls_size,
                align: self.grain,
            },
            BuildStage::MapTls => BuildWant::Mapping {
                va: self.place.tls_va,
                pa: self.tls_pa,
                len: self.tls_size,
                page_size: self.grain,
                levels: 3,
                perms: user_rw,
            },
            _ => BuildWant::Nothing,
        }
    }

    /// The build after the machine's answer: the address of the frames, or any
    /// address for a mapping that was made; `None` if it was refused.
    pub open spec fn answered(self, reply: Option<u64>) -> ThreadBuild {
        match reply {
            None => if self.stage == BuildStage::Ready {
                self
            } else {
                ThreadBuild { stage: BuildStage::Failed, ..self }
            },
            Some(pa) => match self.stage {
                BuildStage::Stack => ThreadBuild {
                    stage: BuildStage::TrapFrame,
                    stack_pa: pa,
                    ..self
                },
                BuildStage::TrapFrame => ThreadBuild {
                    stage: BuildStage::MapStack,
                    frame_pa: pa,
                    ..self
                },
                BuildStage::MapStack => ThreadBuild { stage: BuildStage::MapTrapFrame, ..self },
                BuildStage::MapTrapFrame => ThreadBuild {
                    stage: if self.tls_size > 0 {
                        BuildStage::Tls
                    } else {
                        BuildStage::Ready
                    },
                    ..self
                },
                BuildStage::Tls => ThreadBuild { stage: BuildStage::MapTls, tls_pa: pa, ..self },
                BuildStage::MapTls => ThreadBuild { stage: BuildStage::Ready, ..self },
                _ => self,
            },
        }
    }

    /// What to ask the machine for.
    pub fn wanted(&self, perms: crate::abi::PagePerms) -> (r: BuildWant)
        ensures
            r == self.want(perms),
    {
        let user_rw: u64 = perms.u | perms.r | perms.w;
        match self.stage {
            BuildStage::Stack => BuildWant::Frames {
                pool: Pool::User,
                size: self.stack_size,
                align: self.grain,
            },
            BuildStage::TrapFrame => BuildWant::Frames {
                pool: Pool::Shared,
                size: TRAP_FRAME,
                align: TRAP_FRAME,
            },
            BuildStage::MapStack => BuildWant::Mapping {
                va: self.place.stack_va,
                pa: self.stack_pa,
                len: self.stack_size,
                page_size: self.grain,
                levels: 3,
                perms: user_rw,
            },
            BuildStage::MapTrapFrame => BuildWant::Mapping {
                va: self.place.frame_va,
                pa: self.frame_pa,
                len: TRAP_FRAME,
                page_size: TRAP_FRAME,
                levels: 4,
                perms: perms.r,
            },
            BuildStage::Tls => BuildWant::Frames {
                pool: Pool::User,
                size: self.tls_size,
                align: self.grain,
            },
            BuildStage::MapTls => BuildWant::Mapping {
                va: self.place.tls_va,
                pa: self.tls_pa,
                len: self.tls_size,
                page_size: self.grain,
                levels: 3,
                perms: user_rw,
            },
            _ => BuildWant::Nothing,
        }
    }

    /// Takes the machine's answer. A refusal frees everything granted so far.
    pub fn answer(&mut self, m: &mut Machine, reply: Option<u64>)
        ensures
            *final(self) == old(self).answered(reply),
            final(m).effects@ == (if reply is None && old(self).stage != BuildStage::Ready {
                old(m).effects@ + free_all(old(self).held())
            } else {
                old(m).effects@
            }),
            *final(m) == (Machine { effects: final(m).effects, ..*old(m) }),
    {
        match reply {
            None => {
                let stack = PhysBacking {
                    pool: Pool::User,
                    pa: self.stack_pa,
                    size: self.stack_size,
                    align: self.grain,
                };
                let frame = PhysBacking {
                    pool: Pool::Shared,
                    pa: self.frame_pa,
                    size: TRAP_FRAME,
                    align: TRAP_FRAME,
                };
                let tls = PhysBacking {
                    pool: Pool::User,
                    pa: self.tls_pa,
                    size: self.tls_size,
                    align: self.grain,
                };
                let ghost held = self.held();
                match self.stage {
                    BuildStage::TrapFrame => {
                        m.effects.push(Effect::Free(stack));
                    },
                    BuildStage::MapStack | BuildStage::MapTrapFrame | BuildStage::Tls => {
                        m.effects.push(Effect::Free(stack));
                        m.effects.push(Effect::Free(frame));
                    },
                    BuildStage::MapTls => {
                        m.effects.push(Effect::Free(tls));
                        m.effects.push(Effect::Free(stack));
                        m.effects.push(Effect::Free(frame));
                    },
                    BuildStage::Ready => {
                        return ;
                    },
                    _ => {},
                }
                proof {
                    assert(m.effects@ =~= old(m).effects@ + free_all(held));
                }
                self.stage = BuildStage::Failed;
            },
            Some(pa) => {
                match self.stage {
                    BuildStage::Stack => {
                        self.stack_pa = pa;
                        self.stage = BuildStage::TrapFrame;
                    },
                    BuildStage::TrapFrame => {
                        self.frame_pa = pa;
                        self.stage = BuildStage::MapStack;
                    },
                    BuildStage::MapStack => {
                        self.stage = BuildStage::MapTrapFrame;
                    },
                    BuildStage::MapTrapFrame => {
                        self.stage = if self.tls_size > 0 {
                            BuildStage::Tls
                        } else {
                            BuildStage::Ready
                        };
                    },
                    BuildStage::Tls => {
                        self.tls_pa = pa;
                        self.stage = BuildStage::MapTls;
                    },
                    BuildStage::MapTls => {
                        self.stage = BuildStage::Ready;
                    },
                    _ => {},
                }
            },
        }
    }
}

/// A build never loses frames: whatever the machine grants is held until the
/// thread is ready, and a refusal gives back all that was held.
pub proof fn law_build_holds_every_grant(b: ThreadBuild, pa: u64)
    ensures
        b.stage == BuildStage::Stack ==> b.answered(Some(pa)).held() == seq![
            PhysBacking { pool: Pool::User, pa, size: b.stack_size, align: b.grain },
        ],
        b.stage == BuildStage::TrapFrame ==> b.answered(Some(pa)).held() == b.held().push(
            PhysBacking { pool: Pool::Shared, pa, size: TRAP_FRAME, align: TRAP_FRAME },
        ),
        b.stage == BuildStage::Tls ==> b.answered(Some(pa)).held() == seq![
            PhysBacking { pool: Pool::User, pa, size: b.tls_size, align: b.grain },
        ] + b.held(),
        b.stage == BuildStage::MapStack ==> b.answered(Some(pa)).held() == b.held(),
        b.stage == BuildStage::MapTrapFrame ==> b.answered(Some(pa)).held() == b.held(),
        b.stage == BuildStage::MapTls && b.tls_size > 0 ==> b.answered(Some(pa)).held() == b.held(),
        b.stage != BuildStage::Ready ==> b.answered(None).held() == Seq::<PhysBacking>::empty(),
{
    if b.stage == BuildStage::TrapFrame {
        assert(b.answered(Some(pa)).held() =~= b.held().push(
            PhysBacking { pool: Pool::Shared, pa, size: TRAP_FRAME, align: TRAP_FRAME },
        ));
    }
    if b.stage == BuildStage::Tls {
        assert(b.answered(Some(pa)).held() =~= seq![
            PhysBacking { pool: Pool::User, pa, size: b.tls_size, align: b.grain },
        ] + b.held());
    }
}

/// The mappings of a finished thread: the guard, the stack, the trap frame and
/// the thread-local storage.
pub open spec fn with_thread_maps(
    maps: Map<u64, UserMapping>,
    b: ThreadBuild,
    perms: crate::abi::PagePerms,
) -> Map<u64, UserMapping> {
    let user_rw = perms.u | perms.r | perms.w;
    let three = maps.insert(
        b.place.guard_va,
        UserMapping {
            vaddr: b.place.guard_va,
            len: b.place.guard_size,
            perms: 0,
            backing: None,
            kind: MappingKind::Guard { slot: b.slot },
        },
    ).insert(
        b.place.stack_va,
        UserMapping {
            vaddr: b.place.stack_va,
            len: b.stack_size,
            perms: user_rw,
            backing: Some(stack_backing(b)),
            kind: MappingKind::Stack { slot: b.slot },
        },
    ).insert(
        b.place.frame_va,
        UserMapping {
            vaddr: b.place.frame_va,
            len: TRAP_FRAME,
            perms: perms.r,
            backing: Some(frame_backing(b)),
            kind: MappingKind::TrapFrame { slot: b.slot },
        },
    );
    if b.tls_size > 0 {
        three.insert(
            b.place.tls_va,
            UserMapping {
                vaddr: b.place.tls_va,
                len: b.tls_size,
                perms: user_rw,
                backing: Some(tls_backing(b)),
                kind: MappingKind::Tls { slot: b.slot },
            },
        )
    } else {
        three
    }
}

/// What a new thread is made with.
#[derive(Clone, Copy, Debug, PartialEq, Eq, Structural)]
pub struct ThreadStart {
    pub entry: u64,
    pub arg: u64,
    pub allowed_affinity: u64,
    pub affinity: u64,
    /// Frame number of the page table.
    pub root_ppn: u64,
}

/// A user thread as it is first made, with the capabilities and ids that its
/// process has now.
pub open spec fn fresh_thread(
    tid: u32,
    pid: u16,
    b: ThreadBuild,
    s: ThreadStart,
    permissions: Permissions,
    creds: Creds,
    stdout_redirect: Option<u16>,
) -> Thread {
    Thread {
        tid,
        pid,
        pc: s.entry,
        supervisor: false,
        satp: SatpValue { ppn: s.root_ppn, asid: pid },
        frame: TrapFrame {
            ra: s.entry,
            sp: (b.place.stack_va + b.stack_size - 16) as u64,
            tp: b.place.tls_va,
            a0: s.arg,
            a1: 0,
            a2: 0,
            a3: 0,
            asid: pid as u64,
        },
        kernel_stack: None,
        kernel_trap_frame: None,
        state: ThreadState::Ready,
        ticks: 0,
        wake_time: 0,
        wake_override: 0,
        last_wake_reason: 0,
        sleep_seq: 0,
        pending: None,
        slot: Some(b.slot),
        fault_info: None,
        allowed_affinity: s.allowed_affinity,
        affinity: s.affinity,
        cpu_ticks_total: 0,
        context_switches: 0,
        syscall_count: 0,
        syscall_ticks: 0,
        permissions,
        creds,
        stdout_redirect,
    }
}

/// A kernel thread as it is first made.
pub open spec fn fresh_kthread(
    tid: u32,
    satp: SatpValue,
    entry: u64,
    a0: u64,
    stack_pa: u64,
    stack_kva: u64,
    frame_pa: u64,
    mask: u64,
) -> Thread {
    Thread {
        tid,
        pid: 0,
        pc: entry,
        supervisor: true,
        satp,
        frame: TrapFrame {
            ra: entry,
            sp: (stack_kva + KERNEL_STACK) as u64,
            tp: 0,
            a0,
            a1: 0,
            a2: 0,
            a3: 0,
            asid: 0,
        },
        kernel_stack: Some(kernel_stack_want().at(stack_pa)),
        kernel_trap_frame: Some(trap_frame_want().at(frame_pa)),
        state: ThreadState::Ready,
        ticks: 0,
        wake_time: 0,
        wake_override: 0,
        last_wake_reason: 0,
        sleep_seq: 0,
        pending: None,
        slot: None,
        fault_info: None,
        allowed_affinity: mask,
        affinity: mask,
        cpu_ticks_total: 0,
        context_switches: 0,
        syscall_count: 0,
        syscall_ticks: 0,
        permissions: no_permissions(),
        creds: root_creds(),
        stdout_redirect: None,
    }
}

/// A zeroed stack, by physical and kernel address.
#[derive(Clone, Copy, Debug, PartialEq, Eq, Structural)]
pub struct KernelStack {
    pub pa: u64,
    pub kva: u64,
}

impl Orbit {
    /// Room for another thread.
    pub open spec fn has_tid(self) -> bool {
        exists|t: u32| !self.threads@.contains_key(t)
    }

    /// Makes a kernel thread from the stack and the trap frame that the
    /// allocator gave; the second was asked for only after the first came.
    pub fn create_kernel_thread(
        &mut self,
        m: &mut Machine,
        entry: u64,
        a0: Option<u64>,
        stack: Option<KernelStack>,
        frame_pa: Option<u64>,
    ) -> (r: Result<u32, ()>)
        requires
            old(self).has_tid(),
            stack matches Some(s) ==> s.kva + KERNEL_STACK <= u64::MAX,
        ensures
            match (stack, frame_pa) {
                (Some(s), Some(f)) => {
                    &&& r matches Ok(tid)
                    &&& !old(self).threads@.contains_key(tid)
                    &&& final(self).threads@ == old(self).threads@.insert(
                        tid,
                        fresh_kthread(
                            tid,
                            old(self).satp,
                            entry,
                            match a0 {
                                Some(x) => x,
                                None => 0,
                            },
                            s.pa,
                            s.kva,
                            f,
                            harts_mask(old(self).cpu_count),
                        ),
                    )
                    &&& final(self).ready@ == old(self).ready@.push(tid)
                    &&& *final(self) == (Orbit {
                        threads: final(self).threads,
                        ready: final(self).ready,
                        current_thread_id: tid,
                        ..*old(self)
                    })
                    &&& *final(m) == *old(m)
                },
                (Some(s), None) => {
                    &&& r is Err
                    &&& *final(self) == *old(self)
                    &&& final(m).effects@ == old(m).effects@.push(
                        Effect::Free(kernel_stack_want().at(s.pa)),
                    )
                },
                (None, _) => r is Err && *final(self) == *old(self) && *final(m) == *old(m),
            },
            *final(m) == (Machine { effects: final(m).effects, ..*old(m) }),
    {
        let s: KernelStack = match stack {
            Some(s) => s,
            None => {
                return Err(());
            },
        };
        let kernel_stack = kernel_stack_frames().granted(s.pa);
        let f: u64 = match frame_pa {
            Some(f) => f,
            None => {
                m.effects.push(Effect::Free(kernel_stack));
                return Err(());
            },
        };
        let tid: u32 = self.next_tid();
        let mask: u64 = self.all_harts_mask();
        let t = Thread {
            tid,
            pid: 0,
            pc: entry,
            supervisor: true,
            satp: self.satp,
            frame: TrapFrame {
                ra: entry,
                sp: s.kva + KERNEL_STACK,
                tp: 0,
                a0: match a0 {
                    Some(x) => x,
                    None => 0,
                },
                a1: 0,
                a2: 0,
                a3: 0,
                asid: 0,
            },
            kernel_stack: Some(kernel_stack),
            kernel_trap_frame: Some(trap_frame_frames().granted(f)),
            state: ThreadState::Ready,
            ticks: 0,
            wake_time: 0,
            wake_override: 0,
            last_wake_reason: 0,
            sleep_seq: 0,
            pending: None,
            slot: None,
            fault_info: None,
            allowed_affinity: mask,
            affinity: mask,
            cpu_ticks_total: 0,
            context_switches: 0,
            syscall_count: 0,
            syscall_ticks: 0,
            permissions: Permissions { role: 0, perms: 0, allowed_perms: 0 },
            creds: Creds { uid: 0, euid: 0, suid: 0, gid: 0, egid: 0, sgid: 0 },
            stdout_redirect: None,
        };
        let _ = self.threads.insert(tid, t);
        self.ready.push(tid);
        Ok(tid)
    }

    /// Size of the thread-local storage page that threads of `pid` get.
    pub open spec fn tls_size_of(self, pid: u16) -> u64 {
        if self.procs().contains_key(pid) && self.processes@[pid].tls_memsz > 0 {
            self.abi.tls_max
        } else {
            0
        }
    }

    /// Starts building a thread for a slot of `pid`. `stack_ok` tells whether
    /// a stack may have that size.
    pub fn begin_thread(
        &self,
        pid: u16,
        slot: u16,
        stack_size: u64,
        stack_ok: bool,
        place: ThreadPlacement,
    ) -> (r: Result<ThreadBuild, ()>)
        ensures
            r == (if stack_ok {
                Ok::<ThreadBuild, ()>(
                    ThreadBuild {
                        stage: BuildStage::Stack,
                        slot,
                        stack_size,
                        grain: self.abi.stack_grain,
                        place,
                        tls_size: self.tls_size_of(pid),
                        stack_pa: 0,
                        frame_pa: 0,
                        tls_pa: 0,
                    },
                )
            } else {
                Err(())
            }),
    {
        if !stack_ok {
            return Err(());
        }
        let tls_size: u64 = match self.processes.get(&pid) {
            Some(p) => if p.tls_memsz > 0 {
                self.abi.tls_max
            } else {
                0
            },
            None => 0,
        };
        Ok(
            ThreadBuild {
                stage: BuildStage::Stack,
                slot,
                stack_size,
                grain: self.abi.stack_grain,
                place,
                tls_size,
                stack_pa: 0,
                frame_pa: 0,
                tls_pa: 0,
            },
        )
    }

    /// The bytes that a thread-local storage page starts with; the rest of the
    /// page is zero.
    pub fn tls_image(&self, pid: u16) -> (r: Vec<u8>)
        ensures
            r@ == (if self.tls_size_of(pid) == 0 {
                Seq::<u8>::empty()
            } else {
                match self.processes@[pid].tls_template {
                    None => Seq::<u8>::empty(),
                    Some(t) => if t@.len() > self.abi.tls_max {
                        t@.take(self.abi.tls_max as int)
                    } else {
                        t@
                    },
                }
            }),
    {
        match self.processes.get(&pid) {
            Some(p) => {
                if p.tls_memsz > 0 && self.abi.tls_max > 0 {
                    match &p.tls_template {
                        Some(t) => {
                            let n: usize = if t.len() as u64 > self.abi.tls_max {
                                self.abi.tls_max as usize
                            } else {
                                t.len()
                            };
                            let out = crate::orbital_elf::copy_range(t.as_slice(), 0, n);
                            proof {
                                assert(t@.subrange(0, n as int) =~= t@.take(n as int));
                                assert(t@.take(t@.len() as int) =~= t@);
                            }
                            out
                        },
                        None => Vec::new(),
                    }
                } else {
                    Vec::new()
                }
            },
            None => Vec::new(),
        }
    }

    /// Makes the thread once everything was granted and mapped: records its
    /// mappings with the process and gives it an id. The caller files it.
    pub fn create_new_thread(&mut self, pid: u16, b: ThreadBuild, s: ThreadStart) -> (r: Thread)
        requires
            old(self).has_tid(),
            b.stage == BuildStage::Ready,
            placement_ok(b.place, b.stack_size, b.tls_size),
            procs_ok(old(self).procs()),
        ensures
            !old(self).threads@.contains_key(r.tid),
            if old(self).procs().contains_key(pid) {
                let p = old(self).procs()[pid];
                &&& r == fresh_thread(
                    r.tid,
                    pid,
                    b,
                    s,
                    p.permissions,
                    p.creds,
                    p.stdout_redirect,
                )
                &&& final(self).procs() == old(self).procs().insert(
                    pid,
                    ProcView { maps: with_thread_maps(p.maps, b, old(self).abi.page), ..p },
                )
            } else {
                &&& r == fresh_thread(r.tid, pid, b, s, no_permissions(), root_creds(), None)
                &&& final(self).procs() == old(self).procs()
            },
            procs_ok(final(self).procs()),
            final(self).current_thread_id == r.tid,
            *final(self) == (Orbit {
                processes: final(self).processes,
                current_thread_id: final(self).current_thread_id,
                ..*old(self)
            }),
    {
        let mut permissions = Permissions { role: 0, perms: 0, allowed_perms: 0 };
        let mut creds = Creds { uid: 0, euid: 0, suid: 0, gid: 0, egid: 0, sgid: 0 };
        let mut stdout_redirect: Option<u16> = None;
        let page = self.abi.page;
        let user_rw: u64 = page.u | page.r | page.w;
        if self.processes.contains_key(&pid) {
            proof {
                assert(self.procs().contains_key(pid));
            }
            let mut p = self.processes.remove(&pid).unwrap();
            let ghost p0 = p@;
            let _ = p.maps.insert(
                b.place.guard_va,
                UserMapping {
                    vaddr: b.place.guard_va,
                    len: b.place.guard_size,
                    perms: 0,
                    backing: None,
                    kind: MappingKind::Guard { slot: b.slot },
                },
            );
            let _ = p.maps.insert(
                b.place.stack_va,
                UserMapping {
                    vaddr: b.place.stack_va,
                    len: b.stack_size,
                    perms: user_rw,
                    backing: Some(
                        PhysBacking {
                            pool: Pool::User,
                            pa: b.stack_pa,
                            size: b.stack_size,
                            align: b.grain,
                        },
                    ),
                    kind: MappingKind::Stack { slot: b.slot },
                },
            );
            let _ = p.maps.insert(
                b.place.frame_va,
                UserMapping {
                    vaddr: b.place.frame_va,
                    len: TRAP_FRAME,
                    perms: page.r,
                    backing: Some(
                        PhysBacking {
                            pool: Pool::Shared,
                            pa: b.frame_pa,
                            size: TRAP_FRAME,
                            align: TRAP_FRAME,
                        },
                    ),
                    kind: MappingKind::TrapFrame { slot: b.slot },
                },
            );
            if b.tls_size > 0 {
                let _ = p.maps.insert(
                    b.place.tls_va,
                    UserMapping {
                        vaddr: b.place.tls_va,
                        len: b.tls_size,
                        perms: user_rw,
                        backing: Some(
                            PhysBacking {
                                pool: Pool::User,
                                pa: b.tls_pa,
                                size: b.tls_size,
                                align: b.grain,
                            },
                        ),
                        kind: MappingKind::Tls { slot: b.slot },
                    },
                );
            }
            permissions = p.permissions;
            creds = p.creds;
            stdout_redirect = p.stdout_redirect;
            let ghost n = p;
            let _ = self.processes.insert(pid, p);
            proof {
                assert(self.procs() =~= old(self).procs().insert(pid, n@));
                assert(n@ =~= ProcView {
                    maps: with_thread_maps(p0.maps, b, old(self).abi.page),
                    ..p0
                });
                assert(maps_ok(n@.maps));
                assert forall|q: u16| #[trigger] self.procs().contains_key(q) implies {
                    &&& self.procs()[q].pid == q
                    &&& self.procs()[q].satp.ppn < 0x1000_0000_0000
                    &&& maps_ok(self.procs()[q].maps)
                } by {
                    assert(old(self).procs().contains_key(q));
                }
            }
        }
        let tid: u32 = self.next_tid();
        Thread {
            tid,
            pid,
            pc: s.entry,
            supervisor: false,
            satp: SatpValue { ppn: s.root_ppn, asid: pid },
            frame: TrapFrame {
                ra: s.entry,
                sp: b.place.stack_va + b.stack_size - 16,
                tp: b.place.tls_va,
                a0: s.arg,
                a1: 0,
                a2: 0,
                a3: 0,
                asid: pid as u64,
            },
            kernel_stack: None,
            kernel_trap_frame: None,
            state: ThreadState::Ready,
            ticks: 0,
            wake_time: 0,
            wake_override: 0,
            last_wake_reason: 0,
            sleep_seq: 0,
            pending: None,
            slot: Some(b.slot),
            fault_info: None,
            allowed_affinity: s.allowed_affinity,
            affinity: s.affinity,
            cpu_ticks_total: 0,
            context_switches: 0,
            syscall_count: 0,
            syscall_ticks: 0,
            permissions,
            creds,
            stdout_redirect,
        }
    }

    /// Takes a slot for another thread of a process. `None` if the process is
    /// gone or has no slot left.
    pub fn take_slot(&mut self, pid: u16) -> (r: Option<u16>)
        ensures
            ({
                let p = old(self).procs()[pid];
                if !old(self).procs().contains_key(pid) {
                    r is None && *final(self) == *old(self)
                } else {
                    &&& r == lowest_free(p.thread_slots, 0)
                    &&& final(self).procs() == (match r {
                        Some(s) => old(self).procs().insert(
                            pid,
                            ProcView { thread_slots: p.thread_slots.insert(s), ..p },
                        ),
                        None => old(self).procs(),
                    })
                }
            }),
            *final(self) == (Orbit { processes: final(self).processes, ..*old(self) }),
    {
        if !self.processes.contains_key(&pid) {
            return None;
        }
        let mut p = self.processes.remove(&pid).unwrap();
        let r = p.thread_slots.take_lowest();
        let ghost n = p;
        let _ = self.processes.insert(pid, p);
        proof {
            assert(self.procs() =~= old(self).procs().insert(pid, n@));
            if r is None {
                assert(n@ =~= old(self).procs()[pid]);
                assert(self.procs() =~= old(self).procs());
            }
        }
        r
    }

    /// Gives a slot back after its thread could not be built.
    pub fn return_slot(&mut self, pid: u16, slot: u16)
        requires
            old(self).procs().contains_key(pid),
        ensures
            final(self).procs() == old(self).procs().insert(
                pid,
                ProcView {
                    thread_slots: old(self).procs()[pid].thread_slots.remove(slot),
                    ..old(self).procs()[pid]
                },
            ),
            *final(self) == (Orbit { processes: final(self).processes, ..*old(self) }),
    {
        let mut p = self.processes.remove(&pid).unwrap();
        p.thread_slots.free(slot);
        let ghost n = p;
        let _ = self.processes.insert(pid, p);
        proof {
            assert(self.procs() =~= old(self).procs().insert(pid, n@));
        }
    }

    /// Files a new thread with its process and queues it to run.
    pub fn add_new_thread_to_process(&mut self, thread: Thread)
        requires
            old(self).procs().contains_key(thread.pid),
            !old(self).threads@.contains_key(thread.tid),
        ensures
            ({
                let p = old(self).procs()[thread.pid];
                &&& final(self).procs() == old(self).procs().insert(
                    thread.pid,
                    ProcView {
                        threads: p.threads.insert(thread.tid),
                        thread_count: if p.thread_count == u16::MAX {
                            u16::MAX
                        } else {
                            (p.thread_count + 1) as u16
                        },
                        ..p
                    },
                )
                &&& final(self).threads@ == old(self).threads@.insert(thread.tid, thread)
                &&& final(self).ready@ == old(self).ready@.push(thread.tid)
            }),
            keeps_order(*old(self), *final(self)),
            *final(self) == (Orbit {
                processes: final(self).processes,
                threads: final(self).threads,
                ready: final(self).ready,
                ..*old(self)
            }),
    {
        let pid: u16 = thread.pid;
        let tid: u32 = thread.tid;
        let mut p = self.processes.remove(&pid).unwrap();
        let _ = p.threads.insert(tid);
        if p.thread_count < u16::MAX {
            p.thread_count = p.thread_count + 1;
        }
        let ghost n = p;
        let _ = self.processes.insert(pid, p);
        let _ = self.threads.insert(tid, thread);
        self.ready.push(tid);
        proof {
            assert(self.procs() =~= old(self).procs().insert(pid, n@));
            lemma_member_added(*old(self), *self, thread);
        }
    }
}

proof fn lemma_member_added(a: Orbit, b: Orbit, t: Thread)
    requires
        a.procs().contains_key(t.pid),
        !a.threads@.contains_key(t.tid),
        b.threads@ == a.threads@.insert(t.tid, t),
        b.procs().dom() == a.procs().dom(),
        forall|q: u16| #[trigger]
            a.procs().contains_key(q) ==> b.procs()[q] == (ProcView {
                threads: if q == t.pid {
                    a.procs()[q].threads.insert(t.tid)
                } else {
                    a.procs()[q].threads
                },
                thread_count: b.procs()[q].thread_count,
                ..a.procs()[q]
            }),
    ensures
        keeps_order(a, b),
{
    assert forall|q: u16| #[trigger] b.procs().contains_key(q) == a.procs().contains_key(q) by {
        assert(b.procs().dom().contains(q) == a.procs().dom().contains(q));
    }
    if members_ok(a.procs(), a.threads@) {
        assert forall|q: u16, x: u32|
            #![trigger b.procs()[q].threads.contains(x)]
            b.procs().contains_key(q) implies (b.procs()[q].threads.contains(x) <==> (
        b.threads@.contains_key(x) && b.threads@[x].pid == q)) by {
            assert(a.procs().contains_key(q));
            assert(a.procs()[q].threads.contains(x) <==> (a.threads@.contains_key(x)
                && a.threads@[x].pid == q));
        }
    }
}

/// A thread that was added runs with no more than its process has, and no
/// thread of another process is touched.
pub proof fn law_new_thread_has_its_process_rights(
    tid: u32,
    pid: u16,
    b: ThreadBuild,
    s: ThreadStart,
    p: ProcView,
)
    ensures
        fresh_thread(tid, pid, b, s, p.permissions, p.creds, p.stdout_redirect).permissions
            == p.permissions,
        fresh_thread(tid, pid, b, s, p.permissions, p.creds, p.stdout_redirect).creds == p.creds,
        fresh_thread(tid, pid, b, s, p.permissions, p.creds, p.stdout_redirect).state
            == ThreadState::Ready,
{
}

/// What a new process is made with, besides its program.
pub struct ProcessComponents {
    pub parent_pid: u16,
    /// Capabilities; the default ones if absent.
    pub permissions: Option<Permissions>,
    /// Working directory; the parent's if absent.
    pub cwd: Option<Vec<u8>>,
    /// Whose pane the process writes to, if not its own.
    pub stdout_redirect: Option<u16>,
}

/// The working directory that a new process starts in.
pub open spec fn first_cwd(procs: Map<u16, ProcView>, c: ProcessComponents) -> Seq<u8> {
    match c.cwd {
        Some(p) => p@,
        None => if c.parent_pid != 0 && procs.contains_key(c.parent_pid) {
            procs[c.parent_pid].cwd
        } else {
            seq![0x2fu8]
        },
    }
}

/// A process as it is first filed: its program in memory, its first thread
/// slot taken, and no thread yet.
pub open spec fn fresh_process(
    procs: Map<u16, ProcView>,
    pid: u16,
    root_ppn: u64,
    c: ProcessComponents,
    default_perms: Permissions,
    info: ElfInfo,
) -> ProcView {
    ProcView {
        pid,
        parent_pid: c.parent_pid,
        satp: SatpValue { ppn: root_ppn, asid: pid },
        threads: Set::empty(),
        thread_count: 0,
        thread_slots: set![0u16],
        heap_pages: info.segments@,
        maps: Map::empty(),
        sockets: Set::empty(),
        argv_blob: None,
        envp_blob: None,
        permissions: match c.permissions {
            Some(p) => p,
            None => default_perms,
        },
        creds: root_creds(),
        groups: Seq::empty(),
        login_name: None,
        cwd: first_cwd(procs, c),
        stdout_redirect: c.stdout_redirect,
        tls_template: match info.tls {
            Some(t) => Some(t.template@),
            None => None,
        },
        tls_memsz: match info.tls {
            Some(t) => t.memsz,
            None => 0,
        },
        tls_align: match info.tls {
            Some(t) => t.align,
            None => 0,
        },
        detached: false,
        exit_waiter: None,
        exit_code: 0,
        exit_finalized: false,
        dead_children: Map::empty(),
        perm_denials: 0,
        role_denials: 0,
    }
}

/// The handle tables once `pid` has its standard streams.
pub open spec fn with_stdio(handles: Map<u16, HandlesView>, pid: u16) -> Map<u16, HandlesView> {
    if handles.contains_key(pid) && !handles[pid].slots.is_empty() {
        handles
    } else {
        handles.insert(
            pid,
            HandlesView {
                slots: stdio_slots(),
                next_id: if handles.contains_key(pid) && handles[pid].next_id > 3 {
                    handles[pid].next_id
                } else {
                    3
                },
            },
        )
    }
}

/// The numbers from one up to `n`.
spec fn numbers16(n: int) -> Set<u16> {
    Set::new(|p: u16| 1 <= p < n)
}

spec fn numbers32(n: int) -> Set<u32> {
    Set::new(|t: u32| 1 <= t < n)
}

proof fn lemma_numbers16(n: int)
    requires
        1 <= n <= 0x1_0000,
    ensures
        numbers16(n).finite(),
        numbers16(n).len() == n - 1,
    decreases n,
{
    if n == 1 {
        assert(numbers16(n) =~= Set::empty());
    } else {
        lemma_numbers16(n - 1);
        assert(numbers16(n) =~= numbers16(n - 1).insert((n - 1) as u16));
    }
}

proof fn lemma_numbers32(n: int)
    requires
        1 <= n <= 0x1_0000_0000,
    ensures
        numbers32(n).finite(),
        numbers32(n).len() == n - 1,
    decreases n,
{
    if n == 1 {
        assert(numbers32(n) =~= Set::empty());
    } else {
        lemma_numbers32(n - 1);
        assert(numbers32(n) =~= numbers32(n - 1).insert((n - 1) as u32));
    }
}

impl Orbit {
    /// Room for another process.
    pub open spec fn has_pid(self) -> bool {
        exists|p: u16| p != 0 && !self.procs().contains_key(p)
    }

    /// Whether another process can have a number: fewer processes exist than
    /// there are numbers for them.
    pub fn room_for_process(&self) -> (r: bool)
        ensures
            r == (self.processes@.dom().len() < 0xFFFF),
            r ==> self.has_pid(),
    {
        let r: bool = self.processes.len() < 0xFFFF;
        proof {
            if r && !self.has_pid() {
                let all = numbers16(0x1_0000);
                lemma_numbers16(0x1_0000);
                assert forall|p: u16| all.contains(p) implies self.processes@.dom().contains(p) by {
                    assert(self.procs().contains_key(p));
                }
                vstd::set_lib::lemma_len_subset(all, self.processes@.dom());
            }
        }
        r
    }

    /// Whether another thread can have a number.
    pub fn room_for_thread(&self) -> (r: bool)
        ensures
            r == (self.threads@.dom().len() < 0xFFFF_FFFF),
            r ==> self.has_tid(),
    {
        let r: bool = self.threads.len() < 0xFFFF_FFFF;
        proof {
            if r && !self.has_tid() {
                let all = numbers32(0x1_0000_0000);
                lemma_numbers32(0x1_0000_0000);
                assert forall|t: u32| all.contains(t) implies self.threads@.dom().contains(t) by {
                    assert(self.threads@.contains_key(t));
                }
                vstd::set_lib::lemma_len_subset(all, self.threads@.dom());
            }
        }
        r
    }

    /// Files a new process whose program was loaded under the page table with
    /// frame number `root_ppn`. Its first thread uses slot zero; it is built
    /// next, and [`publish_process`](Self::publish_process) or
    /// [`abandon_process`](Self::abandon_process) follows.
    pub fn create_new_process(&mut self, c: ProcessComponents, root_ppn: u64, info: ElfInfo) -> (r:
        u16)
        requires
            old(self).has_pid(),
            root_ppn < 0x1000_0000_0000,
            old(self).handles_ok(),
        ensures
            r != 0,
            !old(self).procs().contains_key(r),
            final(self).procs() == old(self).procs().insert(
                r,
                fresh_process(
                    old(self).procs(),
                    r,
                    root_ppn,
                    c,
                    old(self).abi.default_perms,
                    info,
                ),
            ),
            final(self).handle_tables() == with_stdio(old(self).handle_tables(), r),
            final(self).current_process_id == r,
            procs_ok(old(self).procs()) ==> procs_ok(final(self).procs()),
            final(self).handles_ok(),
            homes_ok(old(self).procs(), old(self).threads@) ==> keeps_order(
                *old(self),
                *final(self),
            ),
            *final(self) == (Orbit {
                processes: final(self).processes,
                process_handles: final(self).process_handles,
                current_process_id: final(self).current_process_id,
                ..*old(self)
            }),
    {
        let pid: u16 = self.next_pid();
        let mut p = Process::new(pid, c.parent_pid, SatpValue { ppn: root_ppn, asid: pid });
        p.permissions = match c.permissions {
            Some(x) => x,
            None => self.abi.default_perms,
        };
        match c.cwd {
            Some(d) => {
                p.cwd = d;
            },
            None => {
                if c.parent_pid != 0 {
                    match self.processes.get(&c.parent_pid) {
                        Some(parent) => {
                            p.cwd = copy_bytes(&parent.cwd);
                        },
                        None => {},
                    }
                }
            },
        }
        p.stdout_redirect = c.stdout_redirect;
        let _ = p.thread_slots.take_lowest();
        p.heap_pages = info.segments;
        match info.tls {
            Some(t) => {
                p.tls_template = Some(t.template);
                p.tls_memsz = t.memsz;
                p.tls_align = t.align;
            },
            None => {},
        }
        let ghost n = p;
        proof {
            let f = fresh_process(
                old(self).procs(),
                pid,
                root_ppn,
                c,
                old(self).abi.default_perms,
                info,
            );
            assert(n@.cwd =~= f.cwd) by {
                if c.cwd is None && c.parent_pid != 0 {
                    assert(old(self).procs().contains_key(c.parent_pid)
                        == old(self).procs().contains_key(c.parent_pid));
                }
            }
            assert(lowest_free(Set::<u16>::empty(), 0) == Some(0u16));
            assert(n@.thread_slots =~= f.thread_slots);
            assert(n@ =~= f);
        }
        let _ = self.processes.insert(pid, p);
        let mut ph = match self.process_handles.remove(&pid) {
            Some(h) => h,
            None => ProcessHandles::new(),
        };
        if ph.is_empty() {
            ph.seed_stdio();
        }
        let ghost h = ph;
        let _ = self.process_handles.insert(pid, ph);
        proof {
            assert(self.procs() =~= old(self).procs().insert(pid, n@));
            assert(self.process_handles@ =~= old(self).process_handles@.insert(pid, h));
            assert(self.handle_tables() =~= old(self).handle_tables().insert(pid, h@));
            let hs = with_stdio(old(self).handle_tables(), pid);
            if old(self).handle_tables().contains_key(pid)
                && !old(self).handle_tables()[pid].slots.is_empty() {
                assert(hs =~= old(self).handle_tables().insert(pid, h@));
            }
            assert(self.handle_tables() =~= hs);
            if procs_ok(old(self).procs()) {
                assert forall|q: u16| #[trigger] self.procs().contains_key(q) implies {
                    &&& self.procs()[q].pid == q
                    &&& self.procs()[q].satp.ppn < 0x1000_0000_0000
                    &&& maps_ok(self.procs()[q].maps)
                } by {
                    if q != pid {
                        assert(old(self).procs().contains_key(q));
                    }
                }
            }
            if homes_ok(old(self).procs(), old(self).threads@) && members_ok(
                old(self).procs(),
                old(self).threads@,
            ) {
                assert forall|q: u16, x: u32|
                    #![trigger self.procs()[q].threads.contains(x)]
                    self.procs().contains_key(q) implies (self.procs()[q].threads.contains(x)
                    <==> (self.threads@.contains_key(x) && self.threads@[x].pid == q)) by {
                    if q != pid {
                        assert(old(self).procs().contains_key(q));
                        assert(old(self).procs()[q].threads.contains(x)
                            == self.procs()[q].threads.contains(x));
                    } else {
                        assert(!n@.threads.contains(x));
                    }
                }
            }
        }
        pid
    }

    /// Takes a process apart again whose first thread could not be built or
    /// whose page table could not be completed. Its parent hears nothing.
    pub fn abandon_process(&mut self, m: &mut Machine, pid: u16, hart: usize)
        requires
            procs_ok(old(self).procs()),
            regions_ok(old(self).regions@),
            hart < old(m).frees@.len(),
        ensures
            world(*final(self), *final(m)) == (if old(self).procs().contains_key(pid) {
                let w = world(*old(self), *old(m));
                (World { procs: w.procs.remove(pid), ..w }).process_dropped(
                    ProcView { parent_pid: 0, ..w.procs[pid] },
                    hart as int,
                )
            } else {
                world(*old(self), *old(m))
            }),
            old(self).handles_ok() ==> final(self).handles_ok(),
            members_ok(old(self).procs(), old(self).threads@) ==> members_ok(
                final(self).procs(),
                final(self).threads@,
            ),
            homes_ok(old(self).procs(), old(self).threads@) && (forall|t: u32| #[trigger]
                old(self).threads@.contains_key(t) ==> old(self).threads@[t].pid != pid)
                ==> homes_ok(final(self).procs(), final(self).threads@),
            procs_ok(final(self).procs()),
            regions_ok(final(self).regions@),
            final(m).frees@.len() == old(m).frees@.len(),
            same_rest(*old(self), *final(self)),
            same_queues(*old(m), *final(m)),
    {
        if !self.processes.contains_key(&pid) {
            return ;
        }
        let ghost w = world(*self, *m);
        proof {
            assert(self.procs().contains_key(pid));
        }
        let mut p = self.processes.remove(&pid).unwrap();
        p.parent_pid = 0;
        proof {
            assert(self.procs() =~= old(self).procs().remove(pid));
            assert(world(*self, *m) =~= World { procs: w.procs.remove(pid), ..w });
            assert forall|q: u16| #[trigger] self.procs().contains_key(q) implies {
                &&& self.procs()[q].pid == q
                &&& self.procs()[q].satp.ppn < 0x1000_0000_0000
                &&& maps_ok(self.procs()[q].maps)
            } by {
                assert(old(self).procs().contains_key(q));
            }
        }
        let ghost v = world(*self, *m);
        self.dealloc_process(m, p, hart);
        proof {
            lemma_process_dropped_keeps(v, p@, hart as int);
            let procs = self.procs();
            let threads = self.threads@;
            assert forall|tid: u32| #[trigger] threads.contains_key(tid) implies w.threads.contains_key(
                tid,
            ) && threads[tid].pid == w.threads[tid].pid && (w.procs.contains_key(threads[tid].pid)
                && threads[tid].pid != pid ==> procs.contains_key(threads[tid].pid)) by {
                assert(threads.dom().contains(tid));
                assert(v.threads.contains_key(tid));
                assert(procs.dom().contains(threads[tid].pid) == v.procs.dom().contains(
                    threads[tid].pid,
                ));
            }
            if members_ok(w.procs, w.threads) {
                assert forall|tid: u32| #[trigger] threads.contains_key(tid) implies threads[tid].tid
                    == tid by {
                    assert(threads.dom().contains(tid));
                    assert(w.threads.contains_key(tid));
                }
                assert forall|q: u16, tid: u32|
                    #![trigger procs[q].threads.contains(tid)]
                    procs.contains_key(q) implies (procs[q].threads.contains(tid) <==> (
                threads.contains_key(tid) && threads[tid].pid == q)) by {
                    assert(procs.dom().contains(q));
                    assert(v.procs.contains_key(q));
                    assert(procs[q].threads.contains(tid) == w.procs[q].threads.contains(tid));
                    assert(threads.dom().contains(tid) == w.threads.dom().contains(tid));
                }
            }
        }
    }

    /// Makes a process run: files its first thread, queues it, and gives the
    /// process its pane, its input and its surfaces. A process whose output
    /// goes elsewhere gets no pane.
    pub fn publish_process(&mut self, m: &mut Machine, thread: Thread)
        requires
            old(self).procs().contains_key(thread.pid),
            !old(self).threads@.contains_key(thread.tid),
        ensures
            ({
                let pid = thread.pid;
                let p = old(self).procs()[pid];
                &&& final(self).procs() == old(self).procs().insert(
                    pid,
                    ProcView { threads: p.threads.insert(thread.tid), thread_count: 1, ..p },
                )
                &&& final(self).threads@ == old(self).threads@.insert(thread.tid, thread)
                &&& final(self).ready@ == old(self).ready@.push(thread.tid)
                &&& final(self).stdin.parked@ == (if old(self).stdin.parked@.contains_key(pid) {
                    old(self).stdin.parked@
                } else {
                    old(self).stdin.parked@.insert(pid, None)
                })
                &&& final(self).key_events.parked@ == (if old(
                    self,
                ).key_events.parked@.contains_key(pid) {
                    old(self).key_events.parked@
                } else {
                    old(self).key_events.parked@.insert(pid, None)
                })
                &&& final(self).surface_tables() == (if old(self).surface_tables().contains_key(
                    pid,
                ) {
                    old(self).surface_tables()
                } else {
                    old(self).surface_tables().insert(
                        pid,
                        SurfacesView {
                            surfaces: Map::empty(),
                            next_id: 1,
                            next_va_cursor: old(self).abi.shared_base,
                        },
                    )
                })
                &&& final(m).effects@ == (if p.stdout_redirect is None {
                    old(m).effects@.push(Effect::InsertSource(pid))
                } else {
                    old(m).effects@
                })
            }),
            keeps_order(*old(self), *final(self)),
            *final(self) == (Orbit {
                processes: final(self).processes,
                threads: final(self).threads,
                ready: final(self).ready,
                stdin: final(self).stdin,
                key_events: final(self).key_events,
                surfaces: final(self).surfaces,
                ..*old(self)
            }),
            *final(m) == (Machine { effects: final(m).effects, ..*old(m) }),
    {
        let pid: u16 = thread.pid;
        let tid: u32 = thread.tid;
        let mut p = self.processes.remove(&pid).unwrap();
        let _ = p.threads.insert(tid);
        p.thread_count = 1;
        let own_pane: bool = p.stdout_redirect.is_none();
        let ghost n = p;
        let _ = self.processes.insert(pid, p);
        let _ = self.threads.insert(tid, thread);
        self.ready.push(tid);
        if own_pane {
            m.effects.push(Effect::InsertSource(pid));
        }
        crate::stdin::register(&mut self.stdin, pid);
        crate::key_events::register(&mut self.key_events, pid);
        let base: u64 = self.abi.shared_base;
        let ghost s0 = self.surface_tables();
        crate::surface::register(&mut self.surfaces, pid, base);
        proof {
            assert(self.procs() =~= old(self).procs().insert(pid, n@));
            lemma_member_added(*old(self), *self, thread);
            if !s0.contains_key(pid) {
                assert(self.surface_tables() =~= s0.insert(
                    pid,
                    SurfacesView {
                        surfaces: Map::empty(),
                        next_id: 1,
                        next_va_cursor: base,
                    },
                ));
            }
        }
    }
}

/// A process that was filed and then abandoned leaves no trace in the process
/// table, and its parent does not hear of a dead child.
pub proof fn law_abandoned_process_leaves_no_record(
    w: World,
    pid: u16,
    p: ProcView,
    hart: int,
)
    requires
        0 <= hart < w.frees.len(),
        !w.procs.contains_key(pid),
        p.pid == pid,
        p.exit_waiter is None,
    ensures
        (World { procs: w.procs.insert(pid, p).remove(pid), ..w }).process_dropped(
            ProcView { parent_pid: 0, ..p },
            hart,
        ).procs == w.procs,
{
    let v = World { procs: w.procs.insert(pid, p).remove(pid), ..w };
    assert(v.procs =~= w.procs);
    crate::reap::lemma_dropped_keeps_procs(v, ProcView { parent_pid: 0, ..p }, hart);
}

/// A thread is built from a stack and a trap frame, and thread-local storage
/// where its program has any: each is first asked for and then mapped at its own
/// place, from the frames that were granted. The user reads and writes the stack
/// and the storage, and does not write the trap frame.
pub proof fn law_a_thread_is_built_of_its_parts(b: ThreadBuild, perms: crate::abi::PagePerms)
    ensures
        match b.want(perms) {
            BuildWant::Frames { pool, size, align } => {
                ||| b.stage == BuildStage::Stack && pool == Pool::User && size == b.stack_size
                    && align == b.grain
                ||| b.stage == BuildStage::TrapFrame && pool == Pool::Shared && size == 4096 && align
                    == 4096
                ||| b.stage == BuildStage::Tls && pool == Pool::User && size == b.tls_size && align
                    == b.grain
            },
            BuildWant::Mapping { va, pa, len, page_size, levels, perms: p } => {
                ||| b.stage == BuildStage::MapStack && va == b.place.stack_va && pa == b.stack_pa
                    && len == b.stack_size && page_size == b.grain && levels == 3 && p == perms.u
                    | perms.r | perms.w
                ||| b.stage == BuildStage::MapTrapFrame && va == b.place.frame_va && pa == b.frame_pa
                    && len == 4096 && page_size == 4096 && levels == 4 && p == perms.r
                ||| b.stage == BuildStage::MapTls && va == b.place.tls_va && pa == b.tls_pa && len
                    == b.tls_size && page_size == b.grain && levels == 3 && p == perms.u | perms.r
                    | perms.w
            },
            BuildWant::Nothing => b.stage == BuildStage::Ready || b.stage == BuildStage::Failed,
        },
{
}

/// A thread whose parts are all granted and mapped is ready; one without
/// thread-local storage needs no part for it; whatever is refused fails it.
pub proof fn law_a_build_ends(b: ThreadBuild, pas: Seq<u64>)
    requires
        b.stage == BuildStage::Stack,
        pas.len() == 6,
    ensures
        ({
            let four = b.answered(Some(pas[0])).answered(Some(pas[1])).answered(
                Some(pas[2]),
            ).answered(Some(pas[3]));
            let six = four.answered(Some(pas[4])).answered(Some(pas[5]));
            &&& b.tls_size == 0 ==> four.stage == BuildStage::Ready
            &&& b.tls_size > 0 ==> four.stage == BuildStage::Tls && six.stage == BuildStage::Ready
                && six.tls_pa == pas[4]
            &&& four.stack_pa == pas[0] && four.frame_pa == pas[1]
            &&& six.slot == b.slot && six.stack_size == b.stack_size && six.place == b.place
            &&& b.answered(None).stage == BuildStage::Failed
            &&& four.stage != BuildStage::Ready ==> four.answered(None).stage == BuildStage::Failed
        }),
{
}

/// The mappings of a new thread: a guard that nothing backs, its stack, its trap
/// frame and, where there is any, its storage. All belong to its slot, each lies
/// at its own place with its own frames, and no other mapping is touched.
pub proof fn law_a_threads_mappings_are_its_own(
    maps: Map<u64, UserMapping>,
    b: ThreadBuild,
    perms: crate::abi::PagePerms,
    other: u64,
)
    requires
        b.place.guard_va != b.place.stack_va,
        b.place.guard_va != b.place.frame_va,
        b.place.guard_va != b.place.tls_va,
        b.place.stack_va != b.place.frame_va,
        b.place.stack_va != b.place.tls_va,
        b.place.frame_va != b.place.tls_va,
    ensures
        ({
            let m = with_thread_maps(maps, b, perms);
            let g = m[b.place.guard_va];
            let s = m[b.place.stack_va];
            let f = m[b.place.frame_va];
            let t = m[b.place.tls_va];
            &&& g.backing is None && g.perms == 0 && g.kind == (MappingKind::Guard { slot: b.slot })
                && g.vaddr == b.place.guard_va && g.len == b.place.guard_size
            &&& s.kind == (MappingKind::Stack { slot: b.slot }) && s.vaddr == b.place.stack_va
                && s.len == b.stack_size
            &&& s.backing matches Some(x) && x.pa == b.stack_pa && x.size == b.stack_size && x.pool
                == Pool::User
            &&& f.kind == (MappingKind::TrapFrame { slot: b.slot }) && f.vaddr == b.place.frame_va
                && f.len == 4096 && f.perms == perms.r
            &&& f.backing matches Some(x) && x.pa == b.frame_pa && x.pool == Pool::Shared
            &&& b.tls_size > 0 ==> t.kind == (MappingKind::Tls { slot: b.slot }) && t.vaddr
                == b.place.tls_va && t.len == b.tls_size && (t.backing matches Some(x) && x.pa
                == b.tls_pa && x.size == b.tls_size && x.pool == Pool::User)
            &&& s.perms == perms.u | perms.r | perms.w
            &&& b.tls_size > 0 ==> t.perms == s.perms
            &&& other != b.place.guard_va && other != b.place.stack_va && other != b.place.frame_va
                && other != b.place.tls_va ==> m.contains_key(other) == maps.contains_key(other)
                && m[other] == maps[other]
        }),
{
}

/// A new thread starts at its entry, with its argument in the first register, its
/// stack pointer sixteen bytes below the end of its stack and its storage in the
/// thread register. It runs as the user, under the tables of its process, on the
/// harts that it was given, and has done nothing yet.
pub proof fn law_a_new_thread_starts_at_its_entry(
    tid: u32,
    pid: u16,
    b: ThreadBuild,
    s: ThreadStart,
    permissions: Permissions,
    creds: Creds,
    out: Option<u16>,
)
    requires
        16 <= b.place.stack_va + b.stack_size <= u64::MAX,
    ensures
        ({
            let t = fresh_thread(tid, pid, b, s, permissions, creds, out);
            &&& t.tid == tid && t.pid == pid && t.slot == Some(b.slot) && !t.supervisor
            &&& t.pc == s.entry && t.frame.a0 == s.arg && t.frame.tp == b.place.tls_va
            &&& t.frame.sp + 16 == b.place.stack_va + b.stack_size
            &&& t.satp.ppn == s.root_ppn && t.satp.asid == pid
            &&& t.allowed_affinity == s.allowed_affinity && t.affinity == s.affinity
            &&& t.permissions == permissions && t.creds == creds && t.stdout_redirect == out
            &&& t.state == ThreadState::Ready && t.pending is None && t.fault_info is None
            &&& t.wake_override == 0 && t.cpu_ticks_total == 0 && t.syscall_count == 0
            &&& t.kernel_stack is None && t.kernel_trap_frame is None
        }),
{
}

/// A new kernel thread starts at its entry, on top of its own stack, in the
/// kernel's address space and on any hart; it owns its stack and trap frame.
pub proof fn law_a_kernel_thread_starts_at_its_entry(
    tid: u32,
    satp: SatpValue,
    entry: u64,
    a0: u64,
    stack_pa: u64,
    stack_kva: u64,
    frame_pa: u64,
    mask: u64,
)
    requires
        stack_kva + KERNEL_STACK <= u64::MAX,
    ensures
        ({
            let t = fresh_kthread(tid, satp, entry, a0, stack_pa, stack_kva, frame_pa, mask);
            &&& t.tid == tid && t.pid == 0 && t.supervisor && t.slot is None && t.satp == satp
            &&& t.pc == entry && t.frame.a0 == a0 && t.frame.sp == stack_kva + KERNEL_STACK
            &&& t.allowed_affinity == mask && t.affinity == mask && t.state == ThreadState::Ready
            &&& t.kernel_stack matches Some(x) && x.pa == stack_pa && x.size == KERNEL_STACK
            &&& t.kernel_trap_frame matches Some(x) && x.pa == frame_pa && x.size == 4096
        }),
{
}

/// A new process has its parent, its page table and the memory of its program,
/// the permissions that it was given or else the default ones, and the storage
/// template of its program. It has no threads, sockets or children yet, and is
/// waited for by nobody.
pub proof fn law_a_new_process_is_what_it_was_made_of(
    procs: Map<u16, ProcView>,
    pid: u16,
    root_ppn: u64,
    c: ProcessComponents,
    default_perms: Permissions,
    info: ElfInfo,
)
    ensures
        ({
            let p = fresh_process(procs, pid, root_ppn, c, default_perms, info);
            &&& p.pid == pid && p.parent_pid == c.parent_pid
            &&& p.satp.ppn == root_ppn && p.satp.asid == pid
            &&& p.heap_pages == info.segments@
            &&& c.permissions matches Some(x) ==> p.permissions == x
            &&& c.permissions is None ==> p.permissions == default_perms
            &&& p.stdout_redirect == c.stdout_redirect
            &&& info.tls matches Some(t) ==> p.tls_memsz == t.memsz && p.tls_align == t.align
                && p.tls_template == Some(t.template@)
            &&& info.tls is None ==> p.tls_memsz == 0 && p.tls_template is None
            &&& p.threads.is_empty() && p.thread_count == 0 && p.sockets.is_empty()
            &&& p.dead_children == Map::<u16, i32>::empty() && p.exit_waiter is None && !p.detached
                && !p.exit_finalized
            &&& p.creds.uid == 0 && p.creds.gid == 0 && p.groups.len() == 0 && p.login_name is None
            &&& p.argv_blob is None && p.envp_blob is None && p.maps == Map::<
                u64,
                UserMapping,
            >::empty()
            &&& p.perm_denials == 0 && p.role_denials == 0
        }),
{
}

/// A new process starts in the directory that it was given, else in its
/// parent's, else in the root.
pub proof fn law_a_new_process_has_a_directory(procs: Map<u16, ProcView>, c: ProcessComponents)
    ensures
        c.cwd matches Some(d) ==> first_cwd(procs, c) == d@,
        c.cwd is None && c.parent_pid != 0 && procs.contains_key(c.parent_pid) ==> first_cwd(procs, c)
            == procs[c.parent_pid].cwd,
        c.cwd is None && (c.parent_pid == 0 || !procs.contains_key(c.parent_pid)) ==> first_cwd(
            procs,
            c,
        ) == seq![0x2fu8],
{
}

/// A process without handles gets the standard streams; the handles of others,
/// and handles that are there, stay.
pub proof fn law_new_processes_get_their_streams(
    handles: Map<u16, HandlesView>,
    pid: u16,
    other: u16,
    fd: u32,
)
    ensures
        ({
            let r = with_stdio(handles, pid);
            &&& !handles.contains_key(pid) ==> r.contains_key(pid) && (r[pid].slots.contains_key(fd)
                <==> fd < 3) && r[pid].next_id == 3
            &&& handles.contains_key(pid) && handles[pid].slots.contains_key(fd) ==> r[pid]
                == handles[pid]
            &&& other != pid ==> r.contains_key(other) == handles.contains_key(other) && r[other]
                == handles[other]
        }),
{
    crate::handle::law_standard_streams_have_their_numbers(fd);
    if handles.contains_key(pid) && handles[pid].slots.contains_key(fd) {
        assert(handles[pid].slots.dom().contains(fd));
    }
}

/// Kernel stacks and trap frames are aligned to their own size and lie where the
/// kernel reaches them.
pub proof fn law_kernel_frames_are_aligned()
    ensures
        kernel_stack_want().size == kernel_stack_want().align,
        trap_frame_want().size == 4096 && trap_frame_want().align == 4096,
        kernel_stack_want().pool == Pool::Shared && trap_frame_want().pool == Pool::Shared,
{
}

/// Threads of a process with thread-local storage get a page for it, and
/// others get none.
pub proof fn law_only_those_with_local_storage_get_a_page(o: Orbit, pid: u16)
    ensures
        o.procs().contains_key(pid) && o.procs()[pid].tls_memsz > 0 ==> o.tls_size_of(pid)
            == o.abi.tls_max,
        o.procs().contains_key(pid) && o.procs()[pid].tls_memsz == 0 ==> o.tls_size_of(pid) == 0,
        !o.procs().contains_key(pid) ==> o.tls_size_of(pid) == 0,
{
}

/// A thread's stack and its local storage are user memory; its trap frame is
/// memory that the kernel reaches too.
pub proof fn law_a_threads_memory_comes_from_its_pools(b: ThreadBuild)
    ensures
        stack_backing(b).pool == Pool::User,
        stack_backing(b).pa == b.stack_pa && stack_backing(b).size == b.stack_size
            && stack_backing(b).align == b.grain,
        tls_backing(b).pool == Pool::User,
        tls_backing(b).pa == b.tls_pa && tls_backing(b).size == b.tls_size && tls_backing(b).align
            == b.grain,
        frame_backing(b).pool == Pool::Shared,
        frame_backing(b).pa == b.frame_pa && frame_backing(b).size == 4096 && frame_backing(b).align
            == 4096,
{
}

/// A new thread has counted nothing, waits for nothing and runs in the
/// address space of its process; it returns to its own entry.
pub proof fn law_a_new_thread_has_done_nothing(
    tid: u32,
    pid: u16,
    b: ThreadBuild,
    s: ThreadStart,
    permissions: Permissions,
    creds: Creds,
    out: Option<u16>,
)
    ensures
        ({
            let t = fresh_thread(tid, pid, b, s, permissions, creds, out);
            &&& t.frame.ra == s.entry && t.frame.asid == pid
            &&& t.frame.a1 == 0 && t.frame.a2 == 0 && t.frame.a3 == 0
            &&& t.ticks == 0 && t.wake_time == 0 && t.last_wake_reason == 0 && t.sleep_seq == 0
            &&& t.context_switches == 0 && t.syscall_ticks == 0
        }),
{
}

/// A new kernel thread has no capabilities and no user's address space, has
/// counted nothing and waits for nothing; its stack is two megabytes.
pub proof fn law_a_new_kernel_thread_has_done_nothing(
    tid: u32,
    satp: SatpValue,
    entry: u64,
    a0: u64,
    stack_pa: u64,
    stack_kva: u64,
    frame_pa: u64,
    mask: u64,
)
    requires
        stack_kva + 0x20_0000 <= u64::MAX,
    ensures
        ({
            let t = fresh_kthread(tid, satp, entry, a0, stack_pa, stack_kva, frame_pa, mask);
            &&& t.frame.sp == stack_kva + 0x20_0000
            &&& t.kernel_stack matches Some(x) && x.size == 0x20_0000 && x.pool == Pool::Shared
            &&& t.kernel_trap_frame matches Some(y) && y.pool == Pool::Shared
            &&& t.frame.ra == entry && t.frame.tp == 0 && t.frame.asid == 0
            &&& t.frame.a1 == 0 && t.frame.a2 == 0 && t.frame.a3 == 0
            &&& t.ticks == 0 && t.wake_time == 0 && t.wake_override == 0 && t.last_wake_reason == 0
            &&& t.sleep_seq == 0 && t.pending is None && t.fault_info is None
            &&& t.cpu_ticks_total == 0 && t.context_switches == 0 && t.syscall_count == 0
                && t.syscall_ticks == 0
            &&& t.permissions.role == 0 && t.permissions.perms == 0 && t.permissions.allowed_perms
                == 0
            &&& t.creds.uid == 0 && t.creds.euid == 0 && t.creds.suid == 0
            &&& t.creds.gid == 0 && t.creds.egid == 0 && t.creds.sgid == 0
            &&& t.stdout_redirect is None
        }),
{
}

/// A new process has its first thread slot taken and no other, all its ids
/// are the superuser's, and it has not ended.
pub proof fn law_a_new_process_has_one_slot(
    procs: Map<u16, ProcView>,
    pid: u16,
    root_ppn: u64,
    c: ProcessComponents,
    default_perms: Permissions,
    info: ElfInfo,
    slot: u16,
)
    ensures
        ({
            let p = fresh_process(procs, pid, root_ppn, c, default_perms, info);
            &&& p.thread_slots.contains(slot) <==> slot == 0
            &&& p.creds.euid == 0 && p.creds.suid == 0 && p.creds.egid == 0 && p.creds.sgid == 0
            &&& p.exit_code == 0
            &&& info.tls is None ==> p.tls_align == 0
            &&& p.cwd == first_cwd(procs, c)
        }),
{
}

} // verus!
