//! Requests that blocking system calls hand to the manager, and audit events.

use vstd::prelude::*;

verus! {

#[derive(Clone, Copy, Debug, PartialEq, Eq, Structural)]
pub struct MemMapReq {
    pub vaddr: u64,
    pub size: u64,
    pub page_permissions: u64,
    pub share_with_kernel: bool,
}

#[derive(Clone, Copy, Debug, PartialEq, Eq, Structural)]
pub struct NetChannelCreationReq {
    pub nc_vaddr: u64,
    pub region_size: u64,
    pub nc_type: u32,
    pub bind: u64,
}

#[derive(Clone, Copy, Debug, PartialEq, Eq, Structural)]
pub struct CloseHandleReq {
    pub fd: u32,
}

#[derive(Clone, Copy, Debug, PartialEq, Eq, Structural)]
pub struct CreateProcessReq {
    pub elf_vaddr: u64,
    pub elf_len: u64,
    pub allowed_affinity: u64,
    pub affinity: u64,
}

#[derive(Clone, Copy, Debug, PartialEq, Eq, Structural)]
pub struct CreateProcessExReq {
    pub elf_vaddr: u64,
    pub elf_len: u64,
    pub argv_vaddr: u64,
    pub argv_len: u64,
    pub envp_vaddr: u64,
    pub allowed_affinity: u64,
    pub affinity: u64,
}

#[derive(Clone, Copy, Debug, PartialEq, Eq, Structural)]
pub struct CreateProcessV2Req {
    pub args_vaddr: u64,
}

#[derive(Clone, Copy, Debug, PartialEq, Eq, Structural)]
pub struct CreateThreadReq {
    pub entry: u64,
    pub arg: u64,
    pub allowed_affinity: u64,
    pub affinity: u64,
}

#[derive(Clone, Copy, Debug, PartialEq, Eq, Structural)]
pub struct FsOpenReq {
    pub path_vaddr: u64,
    pub path_len: u64,
}

#[derive(Clone, Copy, Debug, PartialEq, Eq, Structural)]
pub struct FsReadReq {
    pub fd: u32,
    pub buf_vaddr: u64,
    pub len: u64,
}

#[derive(Clone, Copy, Debug, PartialEq, Eq, Structural)]
pub struct FsStatReq {
    pub path_vaddr: u64,
    pub path_len: u64,
    pub stat_vaddr: u64,
}

#[derive(Clone, Copy, Debug, PartialEq, Eq, Structural)]
pub struct FsReaddirReq {
    pub fd: u32,
    pub buf_vaddr: u64,
    pub len: u64,
}

#[derive(Clone, Copy, Debug, PartialEq, Eq, Structural)]
pub struct WaitPidReq {
    pub target_pid: u16,
}

#[derive(Clone, Copy, Debug, PartialEq, Eq, Structural)]
pub struct FutexWaitReq {
    pub uaddr: u64,
    pub expected: u32,
    pub timeout_ns: u64,
}

#[derive(Clone, Copy, Debug, PartialEq, Eq, Structural)]
pub struct FutexWakeReq {
    pub uaddr: u64,
    pub n: u32,
}

#[derive(Clone, Copy, Debug, PartialEq, Eq, Structural)]
pub struct PledgeReq {
    pub req_vaddr: u64,
}

#[derive(Clone, Copy, Debug, PartialEq, Eq, Structural)]
pub struct FbSurfaceCreateReq {
    pub width: u32,
    pub height: u32,
    pub format_raw: u32,
}

#[derive(Clone, Copy, Debug, PartialEq, Eq, Structural)]
pub struct FbSurfaceDestroyReq {
    pub handle: u32,
}

#[derive(Clone, Copy, Debug, PartialEq, Eq, Structural)]
pub struct EventFdCreateReq {
    pub vaddr_hint: u64,
    pub initval: u64,
    pub flags: u32,
}

#[derive(Clone, Copy, Debug, PartialEq, Eq, Structural)]
pub struct WakeTidReq {
    pub target_tid: u32,
}

/// A request on its way to the manager. `tid` is the thread parked on it and
/// `root_pa` the page table it runs under.
#[allow(inconsistent_fields)]
#[derive(Clone, Copy, Debug, PartialEq, Eq, Structural)]
pub enum PendingWork {
    /// Filler of an empty slot.
    Empty,
    MemMap { req: MemMapReq, pid: u16, root_pa: u64, tid: u32 },
    NetChannelCreation { req: NetChannelCreationReq, pid: u16, root_pa: u64, tid: u32 },
    CloseHandle { req: CloseHandleReq, pid: u16, root_pa: u64, tid: u32 },
    CreateProcess { req: CreateProcessReq, pid: u16, root_pa: u64, tid: u32 },
    CreateThread { req: CreateThreadReq, pid: u16, parent_allowed: u64, tid: u32 },
    FsOpen { req: FsOpenReq, pid: u16, root_pa: u64, tid: u32 },
    FsRead { req: FsReadReq, pid: u16, root_pa: u64, tid: u32 },
    FsStat { req: FsStatReq, pid: u16, root_pa: u64, tid: u32 },
    FsReaddir { req: FsReaddirReq, pid: u16, root_pa: u64, tid: u32 },
    WaitPid { req: WaitPidReq, pid: u16, tid: u32 },
    CreateProcessEx { req: CreateProcessExReq, pid: u16, root_pa: u64, tid: u32 },
    FutexWait { req: FutexWaitReq, pid: u16, root_pa: u64, tid: u32 },
    FutexWake { req: FutexWakeReq, pid: u16, root_pa: u64, tid: u32 },
    Pledge { req: PledgeReq, pid: u16, root_pa: u64, tid: u32 },
    CreateProcessV2 { req: CreateProcessV2Req, pid: u16, root_pa: u64, tid: u32 },
    FbSurfaceCreate { req: FbSurfaceCreateReq, pid: u16, root_pa: u64, tid: u32 },
    FbSurfaceDestroy { req: FbSurfaceDestroyReq, pid: u16, root_pa: u64, tid: u32 },
    EventFdCreate { req: EventFdCreateReq, pid: u16, root_pa: u64, tid: u32 },
    WakeTid { req: WakeTidReq, pid: u16, tid: u32 },
    CacheFill { packed_key: u64, status: u8 },
    ExitGroup { pid: u16, leader_tid: u32, exit_code: i32 },
    QueryDenials { buf_vaddr: u64, buf_len: u64, pid: u16, root_pa: u64, tid: u32 },
    QueryStats { target_pid: u16, buf_vaddr: u64, buf_len: u64, root_pa: u64, tid: u32 },
}

impl Default for PendingWork {
    fn default() -> (r: Self)
        ensures
            r == PendingWork::Empty,
    {
        PendingWork::Empty
    }
}

/// A refused system call or role transition.
#[derive(Clone, Copy, Debug, PartialEq, Eq, Structural)]
pub enum DenialEvent {
    PermDeny {
        required_class: u64,
        perms: u64,
        time_ticks: u64,
        tid: u32,
        sysno: u32,
        source_role: u32,
        pid: u16,
    },
    RoleDeny {
        time_ticks: u64,
        tid: u32,
        source_role: u32,
        target_role: u32,
        deny_reason: u8,
        pid: u16,
    },
}

/// A parked thread on its way to the sleep queue. `thread` is absent in a
/// filler.
#[derive(Clone, Copy, Debug, PartialEq, Eq, Structural)]
pub struct SleepNotice {
    pub wake_time: u64,
    pub sleep_seq: u64,
    pub thread: Option<u32>,
}

impl Default for SleepNotice {
    fn default() -> (r: Self)
        ensures
            r == (SleepNotice { wake_time: 0, sleep_seq: 0, thread: None }),
    {
        SleepNotice { wake_time: 0, sleep_seq: 0, thread: None }
    }
}

/// A thread that became ready on some hart. `thread` is absent in a filler.
#[derive(Clone, Copy, Debug, PartialEq, Eq, Structural)]
pub struct ReadyNotice {
    pub thread: Option<u32>,
}

impl Default for ReadyNotice {
    fn default() -> (r: Self)
        ensures
            r == (ReadyNotice { thread: None }),
    {
        ReadyNotice { thread: None }
    }
}

} // verus!
