//! Spawning processes.
//!
//! A program comes from the memory of its parent or from a file. One from a
//! file is loaded page by page through the page cache; the parent stays parked
//! until the program is complete. What is decided here is whether a spawn may
//! go ahead, as whom the child runs, and which page is loaded next.

#[allow(unused_imports)]
use crate::abi::{errno_ret, refused};
use crate::abi::{
    to_ret, user_range_ok, EAGAIN, EFAULT, EINVAL, EIO, ENAMETOOLONG, ENOEXEC, EPERM, ESRCH,
};
use crate::creds::{Stamp, MAX_LOGIN_NAME};
#[allow(unused_imports)]
use crate::creds::{chdir_target, lemma_one_page_mapped, setgroups_list, threads_stamped};
use crate::fs::{Inode, S_IFMT, S_IFREG};
#[allow(unused_imports)]
use crate::fs::Stat;
#[allow(unused_imports)]
use crate::fsops::{lookup_path, resolved};
use crate::fsread::{BlkSubmit, FillCopy};
use crate::orbit::Orbit;
#[allow(unused_imports)]
use crate::orbit::harts_mask;
use crate::page_cache::{pack, CacheKey, PageCache, SlotState, Waiter};
#[allow(unused_imports)]
use crate::page_cache::{packed, CacheModel};
use crate::process::{Creds, Permissions, Process};
use crate::rings::WakeQueue;
#[allow(unused_imports)]
use crate::sync::WakeState;
use crate::tables::members32;
#[allow(unused_imports)]
use crate::tar::{inode_entry, page_lba};
use crate::tar::Tarfs;
use crate::uspace::{copy_bytes, copy_user_path, decode_words, UserSpace};
#[allow(unused_imports)]
use crate::uspace::{bytes_at, bytes_of, page_dst, range_mapped, user_string, PageView};
use crate::work::{CreateProcessExReq, CreateProcessReq, CreateProcessV2Req, DenialEvent};
#[allow(unused_imports)]
use crate::world::{opt_bytes, ProcView};
use vstd::prelude::*;

verus! {

broadcast use {vstd::laws_cmp::group_laws_cmp, vstd::std_specs::btree::group_btree_axioms};

/// Largest program, in bytes.
pub const MAX_ELF_BYTES: u64 = 0x40_0000;

/// Stands for the parent's id among the arguments of a spawn.
pub const INHERIT_ID: i64 = -1;

/// The harts that a child may use and those it uses. Zero stands for the
/// default; harts that do not exist and an empty choice are refused.
pub open spec fn child_masks(allowed: u64, affinity: u64, all_harts: u64) -> Result<(u64, u64), i64> {
    let a = if allowed == 0 {
        all_harts
    } else {
        allowed
    };
    let f = if affinity == 0 {
        a
    } else {
        affinity
    };
    if a & !all_harts != 0 || f & !a != 0 || f == 0 {
        Err(errno_ret(EINVAL))
    } else {
        Ok((a, f))
    }
}

/// A child always has a hart to run on, and only harts that exist.
pub proof fn law_children_have_a_hart(allowed: u64, affinity: u64, all_harts: u64)
    ensures
        child_masks(allowed, affinity, all_harts) matches Ok((a, f)) ==> {
            &&& a & !all_harts == 0
            &&& f & !all_harts == 0
            &&& f != 0
        },
        all_harts != 0 ==> child_masks(0, 0, all_harts) == Ok::<(u64, u64), i64>(
            (all_harts, all_harts),
        ),
{
    let a = if allowed == 0 {
        all_harts
    } else {
        allowed
    };
    let f = if affinity == 0 {
        a
    } else {
        affinity
    };
    assert(a & !all_harts == 0 && f & !a == 0 ==> f & !all_harts == 0) by (bit_vector);
    assert(all_harts & !all_harts == 0) by (bit_vector);
}

/// The program of `len` bytes at `va` in user memory.
pub open spec fn program_at(m: Map<u64, PageView>, va: u64, len: u64) -> Result<Seq<u8>, i64> {
    if len == 0 || len > 0x40_0000 {
        Err(errno_ret(EINVAL))
    } else if !range_mapped(m, va as int, len as int) {
        Err(errno_ret(EFAULT))
    } else {
        Ok(bytes_at(m, va as int, len as int))
    }
}

/// What a child is made with.
pub struct ChildPlan {
    pub allowed_affinity: u64,
    pub affinity: u64,
    pub cwd: Option<Vec<u8>>,
    pub argv: Option<Vec<u8>>,
    pub envp: Option<Vec<u8>>,
    pub stdout_redirect: Option<u16>,
}

/// What a plan holds.
#[verifier::ext_equal]
pub struct ChildPlanView {
    pub allowed_affinity: u64,
    pub affinity: u64,
    pub cwd: Option<Seq<u8>>,
    pub argv: Option<Seq<u8>>,
    pub envp: Option<Seq<u8>>,
    pub stdout_redirect: Option<u16>,
}

impl View for ChildPlan {
    type V = ChildPlanView;

    open spec fn view(&self) -> ChildPlanView {
        ChildPlanView {
            allowed_affinity: self.allowed_affinity,
            affinity: self.affinity,
            cwd: opt_bytes(self.cwd),
            argv: opt_bytes(self.argv),
            envp: opt_bytes(self.envp),
            stdout_redirect: self.stdout_redirect,
        }
    }
}

/// A program and what its process is made with.
pub struct ProgramPlan {
    pub program: Vec<u8>,
    pub child: ChildPlan,
}

pub open spec fn plan_of(r: Result<ProgramPlan, i64>) -> Result<(Seq<u8>, ChildPlanView), i64> {
    match r {
        Ok(p) => Ok((p.program@, p.child@)),
        Err(e) => Err(e),
    }
}

pub open spec fn child_of(r: Result<ChildPlan, i64>) -> Result<ChildPlanView, i64> {
    match r {
        Ok(p) => Ok(p@),
        Err(e) => Err(e),
    }
}

/// What `create_process` asks for.
pub open spec fn process_plan(m: Map<u64, PageView>, req: CreateProcessReq, all_harts: u64) -> Result<
    (Seq<u8>, ChildPlanView),
    i64,
> {
    match program_at(m, req.elf_vaddr, req.elf_len) {
        Err(e) => Err(e),
        Ok(program) => match child_masks(req.allowed_affinity, req.affinity, all_harts) {
            Err(e) => Err(e),
            Ok((allowed_affinity, affinity)) => Ok(
                (
                    program,
                    ChildPlanView {
                        allowed_affinity,
                        affinity,
                        cwd: None,
                        argv: None,
                        envp: None,
                        stdout_redirect: None,
                    },
                ),
            ),
        },
    }
}

/// What `create_process_ex` asks for: a program with an argument blob, if it
/// has a length, and an environment page, if it has an address.
pub open spec fn process_ex_plan(
    m: Map<u64, PageView>,
    req: CreateProcessExReq,
    all_harts: u64,
) -> Result<(Seq<u8>, ChildPlanView), i64> {
    match program_at(m, req.elf_vaddr, req.elf_len) {
        Err(e) => Err(e),
        Ok(program) => if req.argv_len > 0 && !range_mapped(
            m,
            req.argv_vaddr as int,
            req.argv_len as int,
        ) {
            Err(errno_ret(EFAULT))
        } else if req.envp_vaddr != 0 && !m.contains_key(req.envp_vaddr) {
            Err(errno_ret(EFAULT))
        } else {
            match child_masks(req.allowed_affinity, req.affinity, all_harts) {
                Err(e) => Err(e),
                Ok((allowed_affinity, affinity)) => Ok(
                    (
                        program,
                        ChildPlanView {
                            allowed_affinity,
                            affinity,
                            cwd: None,
                            argv: if req.argv_len > 0 {
                                Some(bytes_at(m, req.argv_vaddr as int, req.argv_len as int))
                            } else {
                                None
                            },
                            envp: if req.envp_vaddr != 0 {
                                Some(bytes_at(m, req.envp_vaddr as int, 4096))
                            } else {
                                None
                            },
                            stdout_redirect: None,
                        },
                    ),
                ),
            }
        },
    }
}

/// A page of user memory.
fn read_page(space: &UserSpace, va: u64) -> (r: Option<Vec<u8>>)
    requires
        space.wf(),
        va % 4096 == 0,
        va + 4096 <= u64::MAX,
    ensures
        r is Some <==> space@.contains_key(va),
        r matches Some(b) ==> b@ == bytes_at(space@, va as int, 4096),
{
    proof {
        assert(crate::uspace::page_base(va as int) == va);
        if space@.contains_key(va) {
            lemma_one_page_mapped(space@, va, 4096);
        }
    }
    space.read(va, 4096)
}

/// What a spawn call hands back for the child that was made, if it was.
pub fn spawn_result(child: Option<u16>) -> (r: i64)
    ensures
        r == (match child {
            Some(pid) => pid as i64,
            None => errno_ret(ENOEXEC),
        }),
{
    match child {
        Some(pid) => pid as i64,
        None => to_ret(ENOEXEC),
    }
}

impl Orbit {
    fn masks_for_child(&self, allowed: u64, affinity: u64) -> (r: Result<(u64, u64), i64>)
        ensures
            r == child_masks(allowed, affinity, harts_mask(self.cpu_count)),
    {
        let all_harts: u64 = self.all_harts_mask();
        let a: u64 = if allowed == 0 {
            all_harts
        } else {
            allowed
        };
        let f: u64 = if affinity == 0 {
            a
        } else {
            affinity
        };
        if a & !all_harts != 0 || f & !a != 0 || f == 0 {
            return Err(to_ret(EINVAL));
        }
        Ok((a, f))
    }

    /// `create_process`: the program and the plan for its process, or the error
    /// that the call hands back. [`spawn_result`] says what it hands back for
    /// the process that was made.
    pub fn run_create_process_req(&self, req: CreateProcessReq, space: &UserSpace) -> (r: Result<
        ProgramPlan,
        i64,
    >)
        requires
            space.wf(),
            req.elf_vaddr + req.elf_len <= u64::MAX,
        ensures
            plan_of(r) == process_plan(space@, req, harts_mask(self.cpu_count)),
    {
        if req.elf_len == 0 || req.elf_len > MAX_ELF_BYTES {
            return Err(to_ret(EINVAL));
        }
        let program = match space.read(req.elf_vaddr, req.elf_len) {
            Some(b) => b,
            None => {
                return Err(to_ret(EFAULT));
            },
        };
        match self.masks_for_child(req.allowed_affinity, req.affinity) {
            Err(e) => Err(e),
            Ok((allowed_affinity, affinity)) => Ok(
                ProgramPlan {
                    program,
                    child: ChildPlan {
                        allowed_affinity,
                        affinity,
                        cwd: None,
                        argv: None,
                        envp: None,
                        stdout_redirect: None,
                    },
                },
            ),
        }
    }

    /// `create_process_ex`: the program and the plan for its process, or the
    /// error that the call hands back.
    pub fn run_create_process_ex_req(&self, req: CreateProcessExReq, space: &UserSpace) -> (r: Result<
        ProgramPlan,
        i64,
    >)
        requires
            space.wf(),
            req.elf_vaddr + req.elf_len <= u64::MAX,
            req.argv_vaddr + req.argv_len <= u64::MAX,
            req.envp_vaddr % 4096 == 0,
            req.envp_vaddr + 4096 <= u64::MAX,
        ensures
            plan_of(r) == process_ex_plan(space@, req, harts_mask(self.cpu_count)),
    {
        if req.elf_len == 0 || req.elf_len > MAX_ELF_BYTES {
            return Err(to_ret(EINVAL));
        }
        let program = match space.read(req.elf_vaddr, req.elf_len) {
            Some(b) => b,
            None => {
                return Err(to_ret(EFAULT));
            },
        };
        let mut argv: Option<Vec<u8>> = None;
        if req.argv_len > 0 {
            match space.read(req.argv_vaddr, req.argv_len) {
                Some(b) => {
                    argv = Some(b);
                },
                None => {
                    return Err(to_ret(EFAULT));
                },
            }
        }
        let mut envp: Option<Vec<u8>> = None;
        if req.envp_vaddr != 0 {
            match read_page(space, req.envp_vaddr) {
                Some(b) => {
                    envp = Some(b);
                },
                None => {
                    return Err(to_ret(EFAULT));
                },
            }
        }
        match self.masks_for_child(req.allowed_affinity, req.affinity) {
            Err(e) => Err(e),
            Ok((allowed_affinity, affinity)) => Ok(
                ProgramPlan {
                    program,
                    child: ChildPlan {
                        allowed_affinity,
                        affinity,
                        cwd: None,
                        argv,
                        envp,
                        stdout_redirect: None,
                    },
                },
            ),
        }
    }
}

/// Arguments of `create_process_v2`.
#[derive(Clone, Copy, Debug, PartialEq, Eq, Structural)]
pub struct SpawnArgs {
    pub target_role: u32,
    pub stdout_capture: u32,
    /// Must be zero.
    pub reserved: u32,
    pub detach: bool,
    /// Ids for the child; [`INHERIT_ID`] for those of the parent.
    pub uid: i64,
    pub gid: i64,
    pub login_vaddr: u64,
    pub login_len: u64,
    pub groups_vaddr: u64,
    pub groups_count: u64,
    /// Path of the program; zero if it comes from memory.
    pub path_vaddr: u64,
    pub path_len: u64,
    pub elf_vaddr: u64,
    pub elf_len: u64,
    pub allowed_affinity: u64,
    pub affinity: u64,
    pub cwd_vaddr: u64,
    pub cwd_len: u64,
    pub argv_vaddr: u64,
    pub argv_len: u64,
    pub envp_vaddr: u64,
}

/// What the role rules say of a spawn.
#[derive(Clone, Copy, Debug, PartialEq, Eq, Structural)]
pub enum RoleVerdict {
    /// The child runs with these permissions.
    Granted(Permissions),
    /// Refused, for this reason.
    Denied(u8),
}

/// As whom a child runs, and the parent's identity for what is inherited.
pub struct SpawnIdentity {
    pub uid: Option<u32>,
    pub gid: Option<u32>,
    pub login: Option<Vec<u8>>,
    pub groups: Option<Vec<u32>>,
    pub parent_perms: Permissions,
    pub parent_creds: Creds,
    pub parent_login: Option<Vec<u8>>,
    pub parent_groups: Vec<u32>,
}

/// What an identity holds.
#[verifier::ext_equal]
pub struct IdentityView {
    pub uid: Option<u32>,
    pub gid: Option<u32>,
    pub login: Option<Seq<u8>>,
    pub groups: Option<Seq<u32>>,
    pub parent_perms: Permissions,
    pub parent_creds: Creds,
    pub parent_login: Option<Seq<u8>>,
    pub parent_groups: Seq<u32>,
}

pub open spec fn opt_words(v: Option<Vec<u32>>) -> Option<Seq<u32>> {
    match v {
        Some(b) => Some(b@),
        None => None,
    }
}

impl View for SpawnIdentity {
    type V = IdentityView;

    open spec fn view(&self) -> IdentityView {
        IdentityView {
            uid: self.uid,
            gid: self.gid,
            login: opt_bytes(self.login),
            groups: opt_words(self.groups),
            parent_perms: self.parent_perms,
            parent_creds: self.parent_creds,
            parent_login: opt_bytes(self.parent_login),
            parent_groups: self.parent_groups@,
        }
    }
}

pub open spec fn identity_of(r: Result<SpawnIdentity, i64>) -> Result<IdentityView, i64> {
    match r {
        Ok(x) => Ok(x@),
        Err(e) => Err(e),
    }
}

/// Whether the arguments give the child any identity of its own.
pub open spec fn stamps_identity(a: SpawnArgs) -> bool {
    a.uid != -1 || a.gid != -1 || a.login_vaddr != 0 || a.groups_vaddr != 0
}

/// An id argument: none if it is inherited.
pub open spec fn id_override(v: i64) -> Result<Option<u32>, i64> {
    if v == -1 {
        Ok(None)
    } else if 0 <= v <= u32::MAX {
        Ok(Some(v as u32))
    } else {
        Err(errno_ret(EINVAL))
    }
}

/// The login name among the arguments.
pub open spec fn login_override(m: Map<u64, PageView>, a: SpawnArgs, end: u64) -> Result<
    Option<Seq<u8>>,
    i64,
> {
    if a.login_vaddr == 0 || a.login_len == 0 {
        Ok(None)
    } else if a.login_len > 32 {
        Err(errno_ret(ENAMETOOLONG))
    } else if a.login_vaddr + a.login_len > end {
        Err(errno_ret(EFAULT))
    } else {
        match user_string(m, a.login_vaddr as int, a.login_len as int) {
            Err(e) => Err(e),
            Ok(s) => Ok(Some(s)),
        }
    }
}

/// The group list among the arguments; a list of length zero is one.
pub open spec fn groups_override(
    m: Map<u64, PageView>,
    a: SpawnArgs,
    max: u64,
    end: u64,
) -> Result<Option<Seq<u32>>, i64> {
    if a.groups_vaddr == 0 {
        Ok(None)
    } else if a.groups_count > max {
        Err(errno_ret(EINVAL))
    } else {
        match setgroups_list(m, a.groups_vaddr, a.groups_count, end) {
            Err(e) => Err(e),
            Ok(gs) => Ok(Some(gs)),
        }
    }
}

fn parse_id(v: i64) -> (r: Result<Option<u32>, i64>)
    ensures
        r == id_override(v),
{
    if v == INHERIT_ID {
        Ok(None)
    } else if 0 <= v && v <= u32::MAX as i64 {
        Ok(Some(v as u32))
    } else {
        Err(to_ret(EINVAL))
    }
}

fn copy_words(b: &Vec<u32>) -> (r: Vec<u32>)
    ensures
        r@ == b@,
{
    let mut out: Vec<u32> = Vec::new();
    let mut i: usize = 0;
    while i < b.len()
        invariant
            i <= b@.len(),
            out@ == b@.take(i as int),
        decreases b@.len() - i,
    {
        out.push(b[i]);
        proof {
            assert(out@ =~= b@.take(i + 1));
        }
        i = i + 1;
    }
    proof {
        assert(b@.take(i as int) =~= b@);
    }
    out
}

fn copy_opt_bytes(b: &Option<Vec<u8>>) -> (r: Option<Vec<u8>>)
    ensures
        opt_bytes(r) == opt_bytes(*b),
{
    match b {
        Some(v) => Some(copy_bytes(v)),
        None => None,
    }
}

impl Orbit {
    /// As whom a child of `parent` is to run, or why that is refused. Only the
    /// loader may give a child an identity of its own.
    pub open spec fn identity_plan(
        self,
        req: CreateProcessV2Req,
        a: SpawnArgs,
        parent: u16,
        m: Map<u64, PageView>,
    ) -> Result<IdentityView, i64> {
        if page_dst(m, req.args_vaddr) is Err {
            Err(errno_ret(EFAULT))
        } else if a.stdout_capture > 1 || a.reserved != 0 {
            Err(errno_ret(EINVAL))
        } else if !self.procs().contains_key(parent) {
            Err(errno_ret(ESRCH))
        } else {
            let p = self.procs()[parent];
            if stamps_identity(a) && p.permissions.role != self.abi.loader_role {
                Err(errno_ret(EPERM))
            } else {
                match (id_override(a.uid), id_override(a.gid)) {
                    (Ok(uid), Ok(gid)) => match login_override(m, a, self.abi.user_end) {
                        Err(e) => Err(e),
                        Ok(login) => match groups_override(
                            m,
                            a,
                            self.abi.ngroups_max,
                            self.abi.user_end,
                        ) {
                            Err(e) => Err(e),
                            Ok(groups) => Ok(
                                IdentityView {
                                    uid,
                                    gid,
                                    login,
                                    groups,
                                    parent_perms: p.permissions,
                                    parent_creds: p.creds,
                                    parent_login: p.login_name,
                                    parent_groups: p.groups,
                                },
                            ),
                        },
                    },
                    _ => Err(errno_ret(EINVAL)),
                }
            }
        }
    }

    /// Decides as whom a child is to run.
    pub fn check_identity(
        &self,
        req: CreateProcessV2Req,
        a: SpawnArgs,
        parent: u16,
        space: &UserSpace,
    ) -> (r: Result<SpawnIdentity, i64>)
        requires
            space.wf(),
            self.abi.ngroups_max <= 0x1000_0000,
        ensures
            identity_of(r) == self.identity_plan(req, a, parent, space@),
    {
        if space.find_page(req.args_vaddr).is_err() {
            return Err(to_ret(EFAULT));
        }
        if a.stdout_capture > 1 || a.reserved != 0 {
            return Err(to_ret(EINVAL));
        }
        let p = match self.processes.get(&parent) {
            Some(p) => p,
            None => {
                return Err(to_ret(ESRCH));
            },
        };
        proof {
            assert(self.procs()[parent] == p@);
        }
        let stamps: bool = a.uid != INHERIT_ID || a.gid != INHERIT_ID || a.login_vaddr != 0
            || a.groups_vaddr != 0;
        if stamps && p.permissions.role != self.abi.loader_role {
            return Err(to_ret(EPERM));
        }
        let uid: Option<u32> = match parse_id(a.uid) {
            Ok(x) => x,
            Err(e) => {
                return Err(e);
            },
        };
        let gid: Option<u32> = match parse_id(a.gid) {
            Ok(x) => x,
            Err(e) => {
                return Err(e);
            },
        };
        let mut login: Option<Vec<u8>> = None;
        if a.login_vaddr != 0 && a.login_len != 0 {
            if a.login_len > MAX_LOGIN_NAME {
                return Err(to_ret(ENAMETOOLONG));
            }
            if !user_range_ok(a.login_vaddr, a.login_len, self.abi.user_end) {
                return Err(to_ret(EFAULT));
            }
            match copy_user_path(space, a.login_vaddr, a.login_len) {
                Ok(s) => {
                    login = Some(s);
                },
                Err(e) => {
                    return Err(e);
                },
            }
        }
        let mut groups: Option<Vec<u32>> = None;
        if a.groups_vaddr != 0 {
            if a.groups_count > self.abi.ngroups_max {
                return Err(to_ret(EINVAL));
            }
            let mut gs: Vec<u32> = Vec::new();
            if a.groups_count > 0 {
                match space.find_user_page(a.groups_vaddr, 4 * a.groups_count, self.abi.user_end) {
                    Err(e) => {
                        return Err(e);
                    },
                    Ok(_) => {},
                }
                proof {
                    lemma_one_page_mapped(space@, a.groups_vaddr, 4 * a.groups_count);
                }
                let b = space.read(a.groups_vaddr, 4 * a.groups_count).unwrap();
                gs = decode_words(&b, a.groups_count);
            }
            proof {
                assert(gs@ =~= setgroups_list(
                    space@,
                    a.groups_vaddr,
                    a.groups_count,
                    self.abi.user_end,
                )->Ok_0);
            }
            groups = Some(gs);
        }
        Ok(
            SpawnIdentity {
                uid,
                gid,
                login,
                groups,
                parent_perms: p.permissions,
                parent_creds: p.creds,
                parent_login: copy_opt_bytes(&p.login_name),
                parent_groups: copy_words(&p.groups),
            },
        )
    }
}


/// Where a program comes from.
pub enum SpawnSource {
    /// A file of `size` bytes.
    File { inode: Inode, size: u64 },
    /// The parent's memory.
    Memory(Vec<u8>),
}

pub enum SourceView {
    File { inode: Inode, size: u64 },
    Memory(Seq<u8>),
}

pub open spec fn source_of(r: Result<SpawnSource, i64>) -> Result<SourceView, i64> {
    match r {
        Ok(SpawnSource::File { inode, size }) => Ok(SourceView::File { inode, size }),
        Ok(SpawnSource::Memory(b)) => Ok(SourceView::Memory(b@)),
        Err(e) => Err(e),
    }
}

impl Orbit {
    /// What the path among the arguments names.
    pub open spec fn program_file(self, a: SpawnArgs, parent: u16, m: Map<u64, PageView>) -> Result<
        (Inode, Stat),
        i64,
    > {
        if a.path_len == 0 || a.path_len > self.abi.max_path {
            Err(errno_ret(ENAMETOOLONG))
        } else if a.path_vaddr + a.path_len > self.abi.user_end {
            Err(errno_ret(EFAULT))
        } else {
            match user_string(m, a.path_vaddr as int, a.path_len as int) {
                Err(e) => Err(e),
                Ok(p) => lookup_path(self.mount@, resolved(self.cwd_of(parent), p)),
            }
        }
    }

    /// Where the program of a spawn comes from, or why it is refused. A program
    /// from a file must be one that the parent may read and execute; only the
    /// loader may spawn from memory. `access` is the verdict of the access
    /// rules on the file.
    pub open spec fn source_plan(
        self,
        a: SpawnArgs,
        parent: u16,
        role: u32,
        m: Map<u64, PageView>,
        access: Result<(), i64>,
    ) -> Result<SourceView, i64> {
        if a.path_vaddr != 0 {
            match self.program_file(a, parent, m) {
                Err(e) => Err(e),
                Ok((inode, st)) => if st.st_mode & S_IFMT != S_IFREG {
                    Err(errno_ret(ENOEXEC))
                } else {
                    match access {
                        Err(e) => Err(e),
                        Ok(()) => if st.st_size <= 0 || st.st_size > 0x40_0000 {
                            Err(errno_ret(EINVAL))
                        } else {
                            Ok(SourceView::File { inode, size: st.st_size as u64 })
                        },
                    }
                },
            }
        } else if role != self.abi.loader_role {
            Err(errno_ret(EPERM))
        } else if a.elf_len == 0 || a.elf_len > 0x40_0000 {
            Err(errno_ret(EINVAL))
        } else if a.elf_vaddr + a.elf_len > self.abi.user_end {
            Err(errno_ret(EFAULT))
        } else {
            match program_at(m, a.elf_vaddr, a.elf_len) {
                Err(e) => Err(e),
                Ok(b) => Ok(SourceView::Memory(b)),
            }
        }
    }

    /// Finds the file that the path among the arguments names, for the access
    /// rules to look at.
    pub fn find_program(&self, a: SpawnArgs, parent: u16, space: &UserSpace) -> (r: Result<
        (Inode, crate::fs::Stat),
        i64,
    >)
        requires
            self.fs_ok(),
            space.wf(),
        ensures
            r == self.program_file(a, parent, space@),
    {
        if a.path_len == 0 || a.path_len > self.abi.max_path {
            return Err(to_ret(ENAMETOOLONG));
        }
        if !user_range_ok(a.path_vaddr, a.path_len, self.abi.user_end) {
            return Err(to_ret(EFAULT));
        }
        let raw = match copy_user_path(space, a.path_vaddr, a.path_len) {
            Ok(p) => p,
            Err(e) => {
                return Err(e);
            },
        };
        let path = self.resolve_fs_path(parent, &raw);
        self.lookup(&path)
    }

    /// Decides where the program of a spawn comes from.
    pub fn find_source(
        &self,
        a: SpawnArgs,
        parent: u16,
        role: u32,
        space: &UserSpace,
        access: Result<(), i64>,
    ) -> (r: Result<SpawnSource, i64>)
        requires
            self.fs_ok(),
            space.wf(),
        ensures
            source_of(r) == self.source_plan(a, parent, role, space@, access),
    {
        if a.path_vaddr != 0 {
            let (inode, st) = match self.find_program(a, parent, space) {
                Ok(x) => x,
                Err(e) => {
                    return Err(e);
                },
            };
            if st.st_mode & S_IFMT != S_IFREG {
                return Err(to_ret(ENOEXEC));
            }
            match access {
                Ok(()) => {},
                Err(e) => {
                    return Err(e);
                },
            }
            if st.st_size <= 0 || st.st_size > MAX_ELF_BYTES as i64 {
                return Err(to_ret(EINVAL));
            }
            return Ok(SpawnSource::File { inode, size: st.st_size as u64 });
        }
        if role != self.abi.loader_role {
            return Err(to_ret(EPERM));
        }
        if a.elf_len == 0 || a.elf_len > MAX_ELF_BYTES {
            return Err(to_ret(EINVAL));
        }
        if !user_range_ok(a.elf_vaddr, a.elf_len, self.abi.user_end) {
            return Err(to_ret(EFAULT));
        }
        match space.read(a.elf_vaddr, a.elf_len) {
            Some(b) => Ok(SpawnSource::Memory(b)),
            None => Err(to_ret(EFAULT)),
        }
    }
}

/// A spawn that was let through.
pub struct SpawnContext {
    pub args: SpawnArgs,
    pub parent_pid: u16,
    pub child_perms: Permissions,
    pub identity: SpawnIdentity,
}

/// What a context holds.
#[verifier::ext_equal]
pub struct ContextView {
    pub args: SpawnArgs,
    pub parent_pid: u16,
    pub child_perms: Permissions,
    pub identity: IdentityView,
}

impl View for SpawnContext {
    type V = ContextView;

    open spec fn view(&self) -> ContextView {
        ContextView {
            args: self.args,
            parent_pid: self.parent_pid,
            child_perms: self.child_perms,
            identity: self.identity@,
        }
    }
}

/// A spawn whose program is being loaded from a file into a kernel buffer.
pub struct SpawnInProgress {
    pub ctx: SpawnContext,
    pub inode: Inode,
    /// Address of the buffer.
    pub blob_kva: u64,
    pub total_size: u64,
    pub pages_done: u64,
    pub total_pages: u64,
}

/// What a spawn in progress holds.
#[verifier::ext_equal]
pub struct SpawnView {
    pub ctx: ContextView,
    pub inode: Inode,
    pub blob_kva: u64,
    pub total_size: u64,
    pub pages_done: u64,
    pub total_pages: u64,
}

impl View for SpawnInProgress {
    type V = SpawnView;

    open spec fn view(&self) -> SpawnView {
        SpawnView {
            ctx: self.ctx@,
            inode: self.inode,
            blob_kva: self.blob_kva,
            total_size: self.total_size,
            pages_done: self.pages_done,
            total_pages: self.total_pages,
        }
    }
}

impl SpawnView {
    /// The pages are those of the program, and the buffer lies in the address
    /// space.
    pub open spec fn sized(self) -> bool {
        &&& 0 < self.total_size <= 0x40_0000
        &&& self.total_pages == (self.total_size + 4095) / 4096
        &&& self.pages_done <= self.total_pages
        &&& self.blob_kva + self.total_size <= u64::MAX
    }

    /// Bytes of page `i` that belong to the program.
    pub open spec fn page_len(self, i: int) -> u32 {
        if self.total_size - i * 4096 < 4096 {
            (self.total_size - i * 4096) as u32
        } else {
            4096
        }
    }
}

/// How a run of page loads ends.
#[derive(Clone, Copy, Debug, PartialEq, Eq, Structural)]
pub enum LoadEnd {
    /// Every page is there.
    Complete,
    /// The next page is on its way.
    Waiting,
    /// The next page has to be read from the device.
    Submit(BlkSubmit),
    /// The spawn fails with this value.
    Failed(i64),
}

/// Page cache, spawn and copies.
#[verifier::ext_equal]
pub struct LoadState {
    pub cache: CacheModel,
    pub spawn: SpawnView,
    pub copies: Seq<FillCopy>,
}

/// The block of the next page of a program, or nothing if the file has no such
/// page.
pub open spec fn next_block(s: SpawnView, fs: Option<Tarfs>) -> Option<u64> {
    match fs {
        None => None,
        Some(t) => match inode_entry(t@, s.inode) {
            None => None,
            Some(e) => match page_lba(e, s.pages_done) {
                Ok(lba) => Some(lba),
                Err(_) => None,
            },
        },
    }
}

pub open spec fn spawn_waiter(s: SpawnView, tid: u32) -> Waiter {
    Waiter::Kernel {
        tid,
        intra: 0,
        dst_kva: (s.blob_kva + s.pages_done * 4096) as u64,
        len: s.page_len(s.pages_done as int),
    }
}

/// A page that the cache has ready is copied to the buffer.
pub open spec fn page_copied(s: LoadState, key: CacheKey) -> LoadState {
    LoadState {
        cache: s.cache.hit().touched(key),
        spawn: SpawnView { pages_done: (s.spawn.pages_done + 1) as u64, ..s.spawn },
        copies: s.copies.push(
            FillCopy::Kernel {
                src_pa: s.cache.slots[key].frame.pa,
                src_off: 0,
                dst_kva: (s.spawn.blob_kva + s.spawn.pages_done * 4096) as u64,
                len: s.spawn.page_len(s.spawn.pages_done as int),
            },
        ),
    }
}

/// Loads pages until one is not ready or none is left.
pub open spec fn load_run(s: LoadState, tid: u32, fs: Option<Tarfs>) -> (LoadState, LoadEnd)
    decreases s.spawn.total_pages - s.spawn.pages_done,
    when s.spawn.sized()
{
    if s.spawn.pages_done >= s.spawn.total_pages {
        (s, LoadEnd::Complete)
    } else {
        match next_block(s.spawn, fs) {
            None => (s, LoadEnd::Failed(errno_ret(EIO))),
            Some(lba) => {
                let key = CacheKey { dev: 1, lba };
                let w = spawn_waiter(s.spawn, tid);
                if s.cache.is_ready(key) {
                    load_run(page_copied(s, key), tid, fs)
                } else if s.cache.is_loading(key) {
                    (LoadState { cache: s.cache.registered(key, w), ..s }, LoadEnd::Waiting)
                } else {
                    let len = s.spawn.page_len(s.spawn.pages_done as int);
                    (
                        LoadState { cache: s.cache.load_begun(key, len, w), ..s },
                        match s.cache.next_frame() {
                            None => LoadEnd::Failed(errno_ret(EAGAIN)),
                            Some(f) => LoadEnd::Submit(
                                BlkSubmit {
                                    key,
                                    pa: f.pa,
                                    packed_key: packed(key),
                                    slice_len: len,
                                },
                            ),
                        },
                    )
                }
            },
        }
    }
}

/// Whether a copy puts page `i` of the program where it belongs.
pub open spec fn page_lands(c: FillCopy, s: SpawnView, i: int) -> bool {
    match c {
        FillCopy::Kernel { src_off, dst_kva, len, .. } => src_off == 0 && dst_kva == s.blob_kva + i
            * 4096 && len == s.page_len(i),
        FillCopy::User(_) => false,
    }
}

/// Loading goes through the program page by page: each page copied lands
/// behind the one before it, none is left out, and a load is complete only
/// once every page is there.
pub proof fn law_program_is_loaded_page_by_page(s: LoadState, tid: u32, fs: Option<Tarfs>, k: int)
    requires
        s.spawn.sized(),
    ensures
        ({
            let (t, end) = load_run(s, tid, fs);
            let n = t.copies.len() - s.copies.len();
            &&& t.spawn == (SpawnView { pages_done: t.spawn.pages_done, ..s.spawn })
            &&& t.spawn.sized()
            &&& n == t.spawn.pages_done - s.spawn.pages_done
            &&& n >= 0
            &&& 0 <= k < n ==> page_lands(
                t.copies[s.copies.len() + k],
                s.spawn,
                s.spawn.pages_done + k,
            )
            &&& t.copies.take(s.copies.len() as int) == s.copies
            &&& end == LoadEnd::Complete <==> t.spawn.pages_done == t.spawn.total_pages
        }),
    decreases s.spawn.total_pages - s.spawn.pages_done,
{
    assert(s.copies.take(s.copies.len() as int) =~= s.copies);
    if s.spawn.pages_done < s.spawn.total_pages {
        match next_block(s.spawn, fs) {
            None => {},
            Some(lba) => {
                let key = CacheKey { dev: 1, lba };
                if s.cache.is_ready(key) {
                    let u = page_copied(s, key);
                    law_program_is_loaded_page_by_page(u, tid, fs, k - 1);
                    let t = load_run(u, tid, fs).0;
                    assert(t.copies.take(s.copies.len() as int) =~= s.copies) by {
                        assert(t.copies.take(u.copies.len() as int) == u.copies);
                        assert forall|i: int| 0 <= i < s.copies.len() implies t.copies[i]
                            == s.copies[i] by {
                            assert(t.copies.take(u.copies.len() as int)[i] == u.copies[i]);
                        }
                    }
                    if k == 0 {
                        assert(t.copies.take(u.copies.len() as int)[s.copies.len() as int]
                            == u.copies[s.copies.len() as int]);
                    }
                }
            },
        }
    }
}

fn load_pages(
    cache: &mut PageCache,
    fs: Option<&Tarfs>,
    spawn: &mut SpawnInProgress,
    tid: u32,
    copies: &mut Vec<FillCopy>,
) -> (r: LoadEnd)
    requires
        old(cache).wf(),
        fs matches Some(t) ==> t.wf(),
        old(spawn)@.sized(),
    ensures
        final(cache).wf(),
        final(spawn)@.sized(),
        final(spawn).ctx == old(spawn).ctx,
        (
            LoadState { cache: final(cache)@, spawn: final(spawn)@, copies: final(copies)@ },
            r,
        ) == load_run(
            LoadState { cache: old(cache)@, spawn: old(spawn)@, copies: old(copies)@ },
            tid,
            match fs {
                Some(t) => Some(*t),
                None => None,
            },
        ),
{
    let ghost mounted: Option<Tarfs> = match fs {
        Some(t) => Some(*t),
        None => None,
    };
    let ghost goal = load_run(
        LoadState { cache: cache@, spawn: spawn@, copies: copies@ },
        tid,
        mounted,
    );
    loop
        invariant
            cache.wf(),
            fs matches Some(t) ==> t.wf(),
            mounted == (match fs {
                Some(t) => Some(*t),
                None => None,
            }),
            spawn@.sized(),
            spawn.ctx == old(spawn).ctx,
            goal == load_run(
                LoadState { cache: old(cache)@, spawn: old(spawn)@, copies: old(copies)@ },
                tid,
                mounted,
            ),
            goal == load_run(
                LoadState { cache: cache@, spawn: spawn@, copies: copies@ },
                tid,
                mounted,
            ),
        decreases spawn.total_pages - spawn.pages_done,
    {
        let ghost s = LoadState { cache: cache@, spawn: spawn@, copies: copies@ };
        proof {
            reveal_with_fuel(load_run, 2);
        }
        if spawn.pages_done >= spawn.total_pages {
            return LoadEnd::Complete;
        }
        let lba: u64 = match fs {
            None => {
                return LoadEnd::Failed(to_ret(EIO));
            },
            Some(t) => match t.lba_for_page(spawn.inode, spawn.pages_done) {
                Ok(l) => l,
                Err(_) => {
                    return LoadEnd::Failed(to_ret(EIO));
                },
            },
        };
        let off: u64 = spawn.pages_done * 4096;
        let left: u64 = spawn.total_size - off;
        let len: u32 = if left < 4096 {
            left as u32
        } else {
            4096
        };
        let dst_kva: u64 = spawn.blob_kva + off;
        let key = CacheKey { dev: 1, lba };
        let found: Option<u64> = match cache.lookup(key) {
            Some(SlotState::Ready { frame, .. }) => Some(frame.pa),
            _ => None,
        };
        let loading: bool = match cache.lookup(key) {
            Some(x) => x.is_loading(),
            None => false,
        };
        match found {
            Some(src_pa) => {
                copies.push(FillCopy::Kernel { src_pa, src_off: 0, dst_kva, len });
                cache.record_hit();
                cache.touch_lru(key);
                spawn.pages_done = spawn.pages_done + 1;
                proof {
                    assert(LoadState { cache: cache@, spawn: spawn@, copies: copies@ }
                        =~= page_copied(s, key));
                }
            },
            None => {
                let waiter = Waiter::Kernel { tid, intra: 0, dst_kva, len };
                if loading {
                    let _ = cache.register_waiter(key, waiter);
                    return LoadEnd::Waiting;
                }
                match cache.begin_load(key, len, waiter) {
                    Ok(pa) => {
                        return LoadEnd::Submit(
                            BlkSubmit { key, pa, packed_key: pack(key), slice_len: len },
                        );
                    },
                    Err(_) => {
                        return LoadEnd::Failed(to_ret(EAGAIN));
                    },
                }
            },
        }
    }
}

/// What a spawn request comes to.
pub enum SpawnPlan {
    /// Refused with this value.
    Refused(i64),
    /// Refused by the role rules, which is recorded.
    Denied(DenialEvent),
    /// The program is to be loaded from a file.
    Load(SpawnView),
    /// The program is at hand.
    Install(ContextView, Seq<u8>),
}

/// What is to be done about a spawn request.
pub enum SpawnNext {
    /// Nothing; the parent has its answer.
    Answered,
    /// The program is to be loaded.
    Load,
    /// The child is to be made.
    Install { ctx: SpawnContext, program: Vec<u8> },
}

/// A program that was loaded: `total_size` bytes at `blob_kva`.
pub struct LoadedProgram {
    pub ctx: SpawnContext,
    pub blob_kva: u64,
    pub total_size: u64,
}

/// What is to be done about a spawn in progress.
pub enum SpawnStep {
    /// There is no such spawn.
    Gone,
    /// Nothing until the page cache calls.
    Parked,
    /// The parent has its answer; the program's buffer is free again.
    Answered { blob_kva: u64 },
    /// A page has to be read from the device.
    Submit(BlkSubmit),
    /// The child is to be made.
    Loaded(LoadedProgram),
}

/// The event that a refused role transition leaves behind. The thread that
/// asked is not known here; zero stands for it.
pub open spec fn role_denial(role: u32, target: u32, reason: u8, pid: u16, now: u64) -> DenialEvent {
    DenialEvent::RoleDeny {
        time_ticks: now,
        tid: 0,
        source_role: role,
        target_role: target,
        deny_reason: reason,
        pid,
    }
}

/// How a spawn in progress goes on after a run of loads.
pub open spec fn load_settled(
    before: Orbit,
    after: Orbit,
    wakes_before: WakeQueue,
    wakes_after: WakeQueue,
    tid: u32,
    t: LoadState,
    end: LoadEnd,
    r: SpawnStep,
) -> bool {
    &&& after.page_cache is Some && after.cache_model() == t.cache
    &&& after.spawns() == (match end {
        LoadEnd::Complete => before.spawns().remove(tid),
        LoadEnd::Failed(_) => before.spawns().remove(tid),
        _ => before.spawns().insert(tid, t.spawn),
    })
    &&& after.wake_state(wakes_after) == (match end {
        LoadEnd::Failed(e) => before.wake_state(wakes_before).answered(tid, seq![e]),
        _ => before.wake_state(wakes_before),
    })
    &&& match end {
        LoadEnd::Complete => match r {
            SpawnStep::Loaded(p) => p.ctx@ == t.spawn.ctx && p.blob_kva == t.spawn.blob_kva
                && p.total_size == t.spawn.total_size,
            _ => false,
        },
        LoadEnd::Waiting => r is Parked,
        LoadEnd::Submit(b) => r == SpawnStep::Submit(b),
        LoadEnd::Failed(_) => r == (SpawnStep::Answered { blob_kva: t.spawn.blob_kva }),
    }
}

impl Orbit {
    /// The spawns whose programs are being loaded, by the parent's thread.
    pub open spec fn spawns(self) -> Map<u32, SpawnView> {
        self.spawns_in_progress@.map_values(|s: SpawnInProgress| s@)
    }

    /// Every spawn in progress has a page to wait for.
    pub open spec fn spawns_ok(self) -> bool {
        forall|tid: u32| #[trigger]
            self.spawns().contains_key(tid) ==> self.spawns()[tid].sized()
                && self.spawns()[tid].pages_done < self.spawns()[tid].total_pages
    }

    /// What `create_process_v2` comes to. `verdict` is what the role rules say
    /// of the parent's role and the target role, `access` what the access rules
    /// say of the program's file.
    pub open spec fn spawn_plan(
        self,
        req: CreateProcessV2Req,
        a: SpawnArgs,
        parent: u16,
        m: Map<u64, PageView>,
        verdict: RoleVerdict,
        access: Result<(), i64>,
        now: u64,
        blob_kva: u64,
    ) -> SpawnPlan {
        match self.identity_plan(req, a, parent, m) {
            Err(e) => SpawnPlan::Refused(e),
            Ok(identity) => match verdict {
                RoleVerdict::Denied(reason) => SpawnPlan::Denied(
                    role_denial(identity.parent_perms.role, a.target_role, reason, parent, now),
                ),
                RoleVerdict::Granted(child_perms) => {
                    let ctx = ContextView { args: a, parent_pid: parent, child_perms, identity };
                    match self.source_plan(a, parent, identity.parent_perms.role, m, access) {
                        Err(e) => SpawnPlan::Refused(e),
                        Ok(SourceView::Memory(b)) => SpawnPlan::Install(ctx, b),
                        Ok(SourceView::File { inode, size }) => SpawnPlan::Load(
                            SpawnView {
                                ctx,
                                inode,
                                blob_kva,
                                total_size: size,
                                pages_done: 0,
                                total_pages: ((size + 4095) / 4096) as u64,
                            },
                        ),
                    }
                },
            },
        }
    }

    /// `create_process_v2`: decides whether the spawn may go ahead. A refusal is
    /// answered at once, one by the role rules is also recorded and counted
    /// against the parent. A program from a file is loaded by
    /// [`issue_next_spawn_page`](Self::issue_next_spawn_page) into the buffer at
    /// `blob_kva`, which has room for any program.
    pub fn run_create_process_v2_req(
        &mut self,
        wakes: &mut WakeQueue,
        req: CreateProcessV2Req,
        args: SpawnArgs,
        parent_pid: u16,
        space: &UserSpace,
        caller_tid: u32,
        verdict: RoleVerdict,
        access: Result<(), i64>,
        now: u64,
        blob_kva: u64,
    ) -> (r: SpawnNext)
        requires
            old(self).fs_ok(),
            old(self).spawns_ok(),
            space.wf(),
            old(self).abi.ngroups_max <= 0x1000_0000,
            old(self).denial_ring@.len() <= 50,
            blob_kva + 0x40_0000 <= u64::MAX,
        ensures
            final(self).spawns_ok(),
            final(self).denial_ring@.len() <= 50,
            ({
                let plan = old(self).spawn_plan(
                    req,
                    args,
                    parent_pid,
                    space@,
                    verdict,
                    access,
                    now,
                    blob_kva,
                );
                &&& final(self).audit() == (match plan {
                    SpawnPlan::Denied(ev) => old(self).audit().logged(Some(ev)),
                    _ => old(self).audit(),
                })
                &&& final(self).spawns() == (match plan {
                    SpawnPlan::Load(s) => old(self).spawns().insert(caller_tid, s),
                    _ => old(self).spawns(),
                })
                &&& final(self).wake_state(*final(wakes)) == (match plan {
                    SpawnPlan::Refused(e) => old(self).wake_state(*old(wakes)).answered(
                        caller_tid,
                        seq![e],
                    ),
                    SpawnPlan::Denied(_) => old(self).wake_state(*old(wakes)).answered(
                        caller_tid,
                        seq![errno_ret(EPERM)],
                    ),
                    _ => old(self).wake_state(*old(wakes)),
                })
                &&& match plan {
                    SpawnPlan::Load(_) => r is Load,
                    SpawnPlan::Install(c, b) => match r {
                        SpawnNext::Install { ctx, program } => ctx@ == c && program@ == b,
                        _ => false,
                    },
                    _ => r is Answered,
                }
            }),
            *final(self) == (Orbit {
                threads: final(self).threads,
                processes: final(self).processes,
                denial_ring: final(self).denial_ring,
                spawns_in_progress: final(self).spawns_in_progress,
                ..*old(self)
            }),
    {
        let identity = match self.check_identity(req, args, parent_pid, space) {
            Ok(i) => i,
            Err(e) => {
                self.answer(wakes, caller_tid, e);
                return SpawnNext::Answered;
            },
        };
        let role: u32 = identity.parent_perms.role;
        let child_perms = match verdict {
            RoleVerdict::Granted(p) => p,
            RoleVerdict::Denied(reason) => {
                self.log_denial(
                    DenialEvent::RoleDeny {
                        time_ticks: now,
                        tid: 0,
                        source_role: role,
                        target_role: args.target_role,
                        deny_reason: reason,
                        pid: parent_pid,
                    },
                );
                self.answer(wakes, caller_tid, to_ret(EPERM));
                return SpawnNext::Answered;
            },
        };
        match self.find_source(args, parent_pid, role, space, access) {
            Err(e) => {
                self.answer(wakes, caller_tid, e);
                SpawnNext::Answered
            },
            Ok(SpawnSource::Memory(program)) => {
                SpawnNext::Install {
                    ctx: SpawnContext { args, parent_pid, child_perms, identity },
                    program,
                }
            },
            Ok(SpawnSource::File { inode, size }) => {
                let s = SpawnInProgress {
                    ctx: SpawnContext { args, parent_pid, child_perms, identity },
                    inode,
                    blob_kva,
                    total_size: size,
                    pages_done: 0,
                    total_pages: (size + 4095) / 4096,
                };
                let ghost v = s@;
                let _ = self.spawns_in_progress.insert(caller_tid, s);
                proof {
                    assert(self.spawns() =~= old(self).spawns().insert(caller_tid, v));
                    assert forall|t: u32| #[trigger] self.spawns().contains_key(t) implies
                        self.spawns()[t].sized() && self.spawns()[t].pages_done
                        < self.spawns()[t].total_pages by {
                        if t != caller_tid {
                            assert(old(self).spawns().contains_key(t));
                        }
                    }
                }
                SpawnNext::Load
            },
        }
    }

    /// Loads on for a spawn that was taken out of the table.
    fn continue_spawn(
        &mut self,
        wakes: &mut WakeQueue,
        tid: u32,
        spawn: SpawnInProgress,
        copies: &mut Vec<FillCopy>,
    ) -> (r: SpawnStep)
        requires
            old(self).fs_ok(),
            old(self).cache_ok(),
            old(self).spawns_ok(),
            old(self).page_cache is Some,
            !old(self).spawns().contains_key(tid),
            spawn@.sized(),
        ensures
            final(self).cache_ok(),
            final(self).spawns_ok(),
            ({
                let (t, end) = load_run(
                    LoadState {
                        cache: old(self).cache_model(),
                        spawn: spawn@,
                        copies: old(copies)@,
                    },
                    tid,
                    old(self).mount@,
                );
                &&& final(copies)@ == t.copies
                &&& load_settled(
                    *old(self),
                    *final(self),
                    *old(wakes),
                    *final(wakes),
                    tid,
                    t,
                    end,
                    r,
                )
            }),
            *final(self) == (Orbit {
                threads: final(self).threads,
                page_cache: final(self).page_cache,
                spawns_in_progress: final(self).spawns_in_progress,
                ..*old(self)
            }),
    {
        let mut s = spawn;
        let ghost st = LoadState { cache: self.cache_model(), spawn: s@, copies: copies@ };
        proof {
            law_program_is_loaded_page_by_page(st, tid, self.mount@, 0);
        }
        let mut cache = self.page_cache.take().unwrap();
        let end = load_pages(&mut cache, self.mount.mounted(), &mut s, tid, copies);
        self.page_cache = Some(cache);
        let ghost t = load_run(st, tid, self.mount@).0;
        proof {
            assert(s@ =~= t.spawn);
            assert(self.spawns() =~= old(self).spawns());
            assert(self.spawns() =~= old(self).spawns().remove(tid));
        }
        match end {
            LoadEnd::Complete => {
                let loaded = LoadedProgram {
                    blob_kva: s.blob_kva,
                    total_size: s.total_size,
                    ctx: s.ctx,
                };
                SpawnStep::Loaded(loaded)
            },
            LoadEnd::Failed(e) => {
                self.answer(wakes, tid, e);
                SpawnStep::Answered { blob_kva: s.blob_kva }
            },
            LoadEnd::Waiting => {
                let _ = self.spawns_in_progress.insert(tid, s);
                proof {
                    assert(self.spawns() =~= old(self).spawns().insert(tid, t.spawn));
                    assert forall|x: u32| #[trigger] self.spawns().contains_key(x) implies
                        self.spawns()[x].sized() && self.spawns()[x].pages_done
                        < self.spawns()[x].total_pages by {
                        if x != tid {
                            assert(old(self).spawns().contains_key(x));
                        }
                    }
                }
                SpawnStep::Parked
            },
            LoadEnd::Submit(b) => {
                let _ = self.spawns_in_progress.insert(tid, s);
                proof {
                    assert(self.spawns() =~= old(self).spawns().insert(tid, t.spawn));
                    assert forall|x: u32| #[trigger] self.spawns().contains_key(x) implies
                        self.spawns()[x].sized() && self.spawns()[x].pages_done
                        < self.spawns()[x].total_pages by {
                        if x != tid {
                            assert(old(self).spawns().contains_key(x));
                        }
                    }
                }
                SpawnStep::Submit(b)
            },
        }
    }

    /// Loads the pages of a program that the cache has ready, and asks for the
    /// first one that it does not have. The device's answer to a request goes to
    /// [`spawn_submitted`](Self::spawn_submitted). A complete program is handed
    /// over with the spawn that it is for.
    pub fn issue_next_spawn_page(
        &mut self,
        wakes: &mut WakeQueue,
        tid: u32,
        copies: &mut Vec<FillCopy>,
    ) -> (r: SpawnStep)
        requires
            old(self).fs_ok(),
            old(self).cache_ok(),
            old(self).spawns_ok(),
            old(self).page_cache is Some,
        ensures
            final(self).cache_ok(),
            final(self).spawns_ok(),
            if old(self).spawns().contains_key(tid) {
                let (t, end) = load_run(
                    LoadState {
                        cache: old(self).cache_model(),
                        spawn: old(self).spawns()[tid],
                        copies: old(copies)@,
                    },
                    tid,
                    old(self).mount@,
                );
                &&& final(copies)@ == t.copies
                &&& load_settled(
                    *old(self),
                    *final(self),
                    *old(wakes),
                    *final(wakes),
                    tid,
                    t,
                    end,
                    r,
                )
            } else {
                r is Gone && *final(self) == *old(self) && *final(wakes) == *old(wakes)
                    && final(copies)@ == old(copies)@
            },
            *final(self) == (Orbit {
                threads: final(self).threads,
                page_cache: final(self).page_cache,
                spawns_in_progress: final(self).spawns_in_progress,
                ..*old(self)
            }),
    {
        if !self.spawns_in_progress.contains_key(&tid) {
            return SpawnStep::Gone;
        }
        let s = self.spawns_in_progress.remove(&tid).unwrap();
        proof {
            assert(old(self).spawns().contains_key(tid));
            assert(self.spawns() =~= old(self).spawns().remove(tid));
            assert forall|x: u32| #[trigger] self.spawns().contains_key(x) implies
                self.spawns()[x].sized() && self.spawns()[x].pages_done
                < self.spawns()[x].total_pages by {
                assert(old(self).spawns().contains_key(x));
            }
            assert forall|v: SpawnView| #[trigger]
                self.spawns().insert(tid, v) == old(self).spawns().insert(tid, v) by {
                assert(self.spawns().insert(tid, v) =~= old(self).spawns().insert(tid, v));
            }
            assert(self.spawns().remove(tid) =~= old(self).spawns().remove(tid));
        }
        self.continue_spawn(wakes, tid, s, copies)
    }

    /// Takes the device's answer to a request for a page of a program. A refused
    /// request ends the spawn; the result is the buffer that is free again then.
    pub fn spawn_submitted(
        &mut self,
        wakes: &mut WakeQueue,
        tid: u32,
        b: BlkSubmit,
        ok: bool,
    ) -> (r: Option<u64>)
        requires
            old(self).cache_ok(),
            old(self).spawns_ok(),
            old(self).page_cache is Some,
        ensures
            final(self).cache_ok(),
            final(self).spawns_ok(),
            r == (if !ok && old(self).spawns().contains_key(tid) {
                Some(old(self).spawns()[tid].blob_kva)
            } else {
                None
            }),
            if ok {
                *final(self) == *old(self) && *final(wakes) == *old(wakes)
            } else {
                &&& final(self).page_cache is Some
                &&& final(self).cache_model() == old(self).cache_model().completed(b.key, 1)
                &&& final(self).spawns() == old(self).spawns().remove(tid)
                &&& final(self).wake_state(*final(wakes)) == old(self).wake_state(
                    *old(wakes),
                ).answered(tid, seq![errno_ret(EIO)])
            },
            *final(self) == (Orbit {
                threads: final(self).threads,
                page_cache: final(self).page_cache,
                spawns_in_progress: final(self).spawns_in_progress,
                ..*old(self)
            }),
    {
        if ok {
            return None;
        }
        let mut cache = self.page_cache.take().unwrap();
        let _ = cache.complete_slot(b.key, 1);
        self.page_cache = Some(cache);
        let room: Option<u64> = match self.spawns_in_progress.remove(&tid) {
            Some(s) => Some(s.blob_kva),
            None => None,
        };
        proof {
            assert(old(self).spawns().contains_key(tid) == room.is_some());
            assert(self.spawns() =~= old(self).spawns().remove(tid));
            assert forall|x: u32| #[trigger] self.spawns().contains_key(x) implies
                self.spawns()[x].sized() && self.spawns()[x].pages_done
                < self.spawns()[x].total_pages by {
                assert(old(self).spawns().contains_key(x));
            }
        }
        self.answer(wakes, tid, to_ret(EIO));
        proof {
            assert(self.spawns() == old(self).spawns().remove(tid));
        }
        room
    }

    /// A page that a spawn waited for came in, or could not be read.
    pub fn advance_spawn(
        &mut self,
        wakes: &mut WakeQueue,
        tid: u32,
        status: u8,
        copies: &mut Vec<FillCopy>,
    ) -> (r: SpawnStep)
        requires
            old(self).fs_ok(),
            old(self).cache_ok(),
            old(self).spawns_ok(),
            old(self).page_cache is Some,
        ensures
            final(self).cache_ok(),
            final(self).spawns_ok(),
            if !old(self).spawns().contains_key(tid) {
                r is Gone && *final(self) == *old(self) && *final(wakes) == *old(wakes)
                    && final(copies)@ == old(copies)@
            } else if status != 0 {
                &&& r == (SpawnStep::Answered { blob_kva: old(self).spawns()[tid].blob_kva })
                &&& final(copies)@ == old(copies)@
                &&& final(self).page_cache == old(self).page_cache
                &&& final(self).spawns() == old(self).spawns().remove(tid)
                &&& final(self).wake_state(*final(wakes)) == old(self).wake_state(
                    *old(wakes),
                ).answered(tid, seq![errno_ret(EIO)])
            } else {
                let s = old(self).spawns()[tid];
                let (t, end) = load_run(
                    LoadState {
                        cache: old(self).cache_model(),
                        spawn: SpawnView { pages_done: (s.pages_done + 1) as u64, ..s },
                        copies: old(copies)@,
                    },
                    tid,
                    old(self).mount@,
                );
                &&& final(copies)@ == t.copies
                &&& load_settled(
                    *old(self),
                    *final(self),
                    *old(wakes),
                    *final(wakes),
                    tid,
                    t,
                    end,
                    r,
                )
            },
            *final(self) == (Orbit {
                threads: final(self).threads,
                page_cache: final(self).page_cache,
                spawns_in_progress: final(self).spawns_in_progress,
                ..*old(self)
            }),
    {
        if !self.spawns_in_progress.contains_key(&tid) {
            return SpawnStep::Gone;
        }
        let mut s = self.spawns_in_progress.remove(&tid).unwrap();
        proof {
            assert(old(self).spawns().contains_key(tid));
            assert(self.spawns() =~= old(self).spawns().remove(tid));
            assert forall|x: u32| #[trigger] self.spawns().contains_key(x) implies
                self.spawns()[x].sized() && self.spawns()[x].pages_done
                < self.spawns()[x].total_pages by {
                assert(old(self).spawns().contains_key(x));
            }
            assert forall|v: SpawnView| #[trigger]
                self.spawns().insert(tid, v) == old(self).spawns().insert(tid, v) by {
                assert(self.spawns().insert(tid, v) =~= old(self).spawns().insert(tid, v));
            }
            assert(self.spawns().remove(tid) =~= old(self).spawns().remove(tid));
        }
        if status != 0 {
            self.answer(wakes, tid, to_ret(EIO));
            return SpawnStep::Answered { blob_kva: s.blob_kva };
        }
        s.pages_done = s.pages_done + 1;
        self.continue_spawn(wakes, tid, s, copies)
    }
}

/// The working directory among the arguments; none if the parent's is
/// inherited.
pub open spec fn cwd_override(
    fs: Option<Tarfs>,
    m: Map<u64, PageView>,
    a: SpawnArgs,
    max: u64,
    end: u64,
) -> Result<Option<Seq<u8>>, i64> {
    if a.cwd_vaddr == 0 || a.cwd_len == 0 {
        Ok(None)
    } else {
        match chdir_target(fs, m, a.cwd_vaddr, a.cwd_len, max, end) {
            Err(e) => Err(e),
            Ok(d) => Ok(Some(d)),
        }
    }
}

/// The argument blob among the arguments.
pub open spec fn argv_of(m: Map<u64, PageView>, a: SpawnArgs, end: u64) -> Result<
    Option<Seq<u8>>,
    i64,
> {
    if a.argv_vaddr == 0 || a.argv_len == 0 {
        Ok(None)
    } else if a.argv_len > 4096 {
        Err(errno_ret(EINVAL))
    } else if a.argv_vaddr + a.argv_len > end || !range_mapped(
        m,
        a.argv_vaddr as int,
        a.argv_len as int,
    ) {
        Err(errno_ret(EFAULT))
    } else {
        Ok(Some(bytes_at(m, a.argv_vaddr as int, a.argv_len as int)))
    }
}

/// The environment page among the arguments.
pub open spec fn envp_of(m: Map<u64, PageView>, a: SpawnArgs, end: u64) -> Result<
    Option<Seq<u8>>,
    i64,
> {
    if a.envp_vaddr == 0 {
        Ok(None)
    } else if a.envp_vaddr % 4096 != 0 {
        Err(errno_ret(EINVAL))
    } else if a.envp_vaddr + 4096 > end || !m.contains_key(a.envp_vaddr) {
        Err(errno_ret(EFAULT))
    } else {
        Ok(Some(bytes_at(m, a.envp_vaddr as int, 4096)))
    }
}

/// Ids of a child: those it was given, all three alike, or the parent's.
pub open spec fn child_creds(i: IdentityView) -> Creds {
    Creds {
        uid: match i.uid {
            Some(x) => x,
            None => i.parent_creds.uid,
        },
        euid: match i.uid {
            Some(x) => x,
            None => i.parent_creds.euid,
        },
        suid: match i.uid {
            Some(x) => x,
            None => i.parent_creds.suid,
        },
        gid: match i.gid {
            Some(x) => x,
            None => i.parent_creds.gid,
        },
        egid: match i.gid {
            Some(x) => x,
            None => i.parent_creds.egid,
        },
        sgid: match i.gid {
            Some(x) => x,
            None => i.parent_creds.sgid,
        },
    }
}

/// A new process with the identity and the permissions of its spawn.
pub open spec fn installed(p: ProcView, c: ContextView) -> ProcView {
    ProcView {
        permissions: c.child_perms,
        creds: child_creds(c.identity),
        login_name: match c.identity.login {
            Some(l) => Some(l),
            None => c.identity.parent_login,
        },
        groups: match c.identity.groups {
            Some(g) => g,
            None => c.identity.parent_groups,
        },
        detached: c.args.detach,
        ..p
    }
}

impl Orbit {
    /// What the child of a spawn is made with, or why it is refused.
    pub open spec fn child_plan(self, a: SpawnArgs, parent: u16, m: Map<u64, PageView>) -> Result<
        ChildPlanView,
        i64,
    > {
        match child_masks(a.allowed_affinity, a.affinity, harts_mask(self.cpu_count)) {
            Err(e) => Err(e),
            Ok((allowed_affinity, affinity)) => match cwd_override(
                self.mount@,
                m,
                a,
                self.abi.max_path,
                self.abi.user_end,
            ) {
                Err(e) => Err(e),
                Ok(cwd) => match argv_of(m, a, self.abi.user_end) {
                    Err(e) => Err(e),
                    Ok(argv) => match envp_of(m, a, self.abi.user_end) {
                        Err(e) => Err(e),
                        Ok(envp) => Ok(
                            ChildPlanView {
                                allowed_affinity,
                                affinity,
                                cwd,
                                argv,
                                envp,
                                stdout_redirect: if a.stdout_capture == 1 {
                                    Some(parent)
                                } else {
                                    None
                                },
                            },
                        ),
                    },
                },
            },
        }
    }

    fn find_cwd(&self, a: SpawnArgs, space: &UserSpace) -> (r: Result<Vec<u8>, i64>)
        requires
            self.fs_ok(),
            space.wf(),
            a.cwd_len != 0,
        ensures
            bytes_of(r) == chdir_target(
                self.mount@,
                space@,
                a.cwd_vaddr,
                a.cwd_len,
                self.abi.max_path,
                self.abi.user_end,
            ),
    {
        if a.cwd_len > self.abi.max_path {
            return Err(to_ret(ENAMETOOLONG));
        }
        if !user_range_ok(a.cwd_vaddr, a.cwd_len, self.abi.user_end) {
            return Err(to_ret(EFAULT));
        }
        let s = match copy_user_path(space, a.cwd_vaddr, a.cwd_len) {
            Ok(s) => s,
            Err(e) => {
                return Err(e);
            },
        };
        if s.len() == 0 || s[0] != 0x2f {
            return Err(to_ret(EINVAL));
        }
        match self.check_dir(&s) {
            Some(e) => Err(e),
            None => Ok(s),
        }
    }

    /// Reads what the child of a spawn is made with out of the parent's memory.
    pub fn plan_child(&self, a: SpawnArgs, parent: u16, space: &UserSpace) -> (r: Result<
        ChildPlan,
        i64,
    >)
        requires
            self.fs_ok(),
            space.wf(),
        ensures
            child_of(r) == self.child_plan(a, parent, space@),
    {
        let (allowed_affinity, affinity) = match self.masks_for_child(
            a.allowed_affinity,
            a.affinity,
        ) {
            Ok(x) => x,
            Err(e) => {
                return Err(e);
            },
        };
        let mut cwd: Option<Vec<u8>> = None;
        if a.cwd_vaddr != 0 && a.cwd_len != 0 {
            match self.find_cwd(a, space) {
                Ok(d) => {
                    cwd = Some(d);
                },
                Err(e) => {
                    return Err(e);
                },
            }
        }
        let mut argv: Option<Vec<u8>> = None;
        if a.argv_vaddr != 0 && a.argv_len != 0 {
            if a.argv_len > 4096 {
                return Err(to_ret(EINVAL));
            }
            if !user_range_ok(a.argv_vaddr, a.argv_len, self.abi.user_end) {
                return Err(to_ret(EFAULT));
            }
            match space.read(a.argv_vaddr, a.argv_len) {
                Some(b) => {
                    argv = Some(b);
                },
                None => {
                    return Err(to_ret(EFAULT));
                },
            }
        }
        let mut envp: Option<Vec<u8>> = None;
        if a.envp_vaddr != 0 {
            if a.envp_vaddr % 4096 != 0 {
                return Err(to_ret(EINVAL));
            }
            if !user_range_ok(a.envp_vaddr, 4096, self.abi.user_end) {
                return Err(to_ret(EFAULT));
            }
            match read_page(space, a.envp_vaddr) {
                Some(b) => {
                    envp = Some(b);
                },
                None => {
                    return Err(to_ret(EFAULT));
                },
            }
        }
        let stdout_redirect: Option<u16> = if a.stdout_capture == 1 {
            Some(parent)
        } else {
            None
        };
        Ok(ChildPlan { allowed_affinity, affinity, cwd, argv, envp, stdout_redirect })
    }

    /// Gives the process that was made for a spawn its identity and its
    /// permissions, and its threads their copies. `child` is the process;
    /// `None` if it could not be made. Returns what the spawn hands back.
    pub fn install_spawn(&mut self, ctx: SpawnContext, child: Option<u16>) -> (r: i64)
        ensures
            match child {
                None => r == errno_ret(ENOEXEC) && *final(self) == *old(self),
                Some(pid) => {
                    &&& r == pid
                    &&& if old(self).procs().contains_key(pid) {
                        let p = old(self).procs()[pid];
                        &&& final(self).procs() == old(self).procs().insert(
                            pid,
                            installed(p, ctx@),
                        )
                        &&& final(self).threads@ == threads_stamped(
                            old(self).threads@,
                            p.threads,
                            Stamp {
                                uids: true,
                                gids: true,
                                creds: child_creds(ctx@.identity),
                                perms: Some(ctx.child_perms),
                            },
                        )
                    } else {
                        *final(self) == *old(self)
                    }
                },
            },
            *final(self) == (Orbit {
                processes: final(self).processes,
                threads: final(self).threads,
                ..*old(self)
            }),
    {
        let pid: u16 = match child {
            Some(p) => p,
            None => {
                return to_ret(ENOEXEC);
            },
        };
        if !self.processes.contains_key(&pid) {
            return pid as i64;
        }
        let ghost c = ctx@;
        let SpawnContext { args, parent_pid: _, child_perms, identity } = ctx;
        let pc: Creds = identity.parent_creds;
        let creds = Creds {
            uid: match identity.uid {
                Some(x) => x,
                None => pc.uid,
            },
            euid: match identity.uid {
                Some(x) => x,
                None => pc.euid,
            },
            suid: match identity.uid {
                Some(x) => x,
                None => pc.suid,
            },
            gid: match identity.gid {
                Some(x) => x,
                None => pc.gid,
            },
            egid: match identity.gid {
                Some(x) => x,
                None => pc.egid,
            },
            sgid: match identity.gid {
                Some(x) => x,
                None => pc.sgid,
            },
        };
        let mut p: Process = self.processes.remove(&pid).unwrap();
        p.permissions = child_perms;
        p.creds = creds;
        p.login_name = match identity.login {
            Some(l) => Some(l),
            None => identity.parent_login,
        };
        p.groups = match identity.groups {
            Some(g) => g,
            None => identity.parent_groups,
        };
        p.detached = args.detach;
        let tids = members32(&p.threads);
        let ghost n = p;
        let _ = self.processes.insert(pid, p);
        proof {
            assert(n@ =~= installed(old(self).procs()[pid], c));
            assert(self.procs() =~= old(self).procs().insert(pid, n@));
            assert(tids@.to_set() =~= n.threads@) by {
                assert forall|x: u32| tids@.to_set().contains(x) <==> n.threads@.contains(x) by {
                    assert(n.threads@.contains(x) <==> tids@.contains(x));
                }
            }
        }
        self.stamp_threads(
            &tids,
            Stamp { uids: true, gids: true, creds, perms: Some(child_perms) },
        );
        pid as i64
    }

    /// Ends a spawn whose program was loaded from a file: gives the child its
    /// identity and the parent its answer.
    pub fn run_spawn_ready(
        &mut self,
        wakes: &mut WakeQueue,
        tid: u32,
        ctx: SpawnContext,
        child: Option<u16>,
    )
        ensures
            ({
                let v = match child {
                    Some(pid) => pid as i64,
                    None => errno_ret(ENOEXEC),
                };
                let (procs, threads) = match child {
                    Some(pid) => if old(self).procs().contains_key(pid) {
                        (
                            old(self).procs().insert(
                                pid,
                                installed(old(self).procs()[pid], ctx@),
                            ),
                            threads_stamped(
                                old(self).threads@,
                                old(self).procs()[pid].threads,
                                Stamp {
                                    uids: true,
                                    gids: true,
                                    creds: child_creds(ctx@.identity),
                                    perms: Some(ctx.child_perms),
                                },
                            ),
                        )
                    } else {
                        (old(self).procs(), old(self).threads@)
                    },
                    None => (old(self).procs(), old(self).threads@),
                };
                &&& final(self).procs() == procs
                &&& final(self).wake_state(*final(wakes)) == (WakeState {
                    threads,
                    wakes: old(wakes)@,
                }).answered(tid, seq![v])
            }),
            *final(self) == (Orbit {
                processes: final(self).processes,
                threads: final(self).threads,
                ..*old(self)
            }),
    {
        let v: i64 = self.install_spawn(ctx, child);
        self.answer(wakes, tid, v);
    }
}

/// Only the loader gives a child an identity of its own or spawns from memory:
/// a child of anybody else has the ids, the groups and the login name of its
/// parent, and its program comes from a file.
pub proof fn law_only_the_loader_stamps_identities(
    o: Orbit,
    req: CreateProcessV2Req,
    a: SpawnArgs,
    parent: u16,
    m: Map<u64, PageView>,
    verdict: RoleVerdict,
    access: Result<(), i64>,
    now: u64,
    blob_kva: u64,
    child: ProcView,
)
    requires
        o.procs().contains_key(parent),
        o.procs()[parent].permissions.role != o.abi.loader_role,
    ensures
        match o.spawn_plan(req, a, parent, m, verdict, access, now, blob_kva) {
            SpawnPlan::Install(_, _) => false,
            SpawnPlan::Load(s) => {
                let p = o.procs()[parent];
                let c = installed(child, s.ctx);
                &&& c.creds == p.creds
                &&& c.groups == p.groups
                &&& c.login_name == p.login_name
                &&& access is Ok
            },
            _ => true,
        },
{
}

/// A spawn that goes ahead was granted by the role rules, and its child has
/// exactly the permissions that they granted.
pub proof fn law_children_have_what_was_granted(
    o: Orbit,
    req: CreateProcessV2Req,
    a: SpawnArgs,
    parent: u16,
    m: Map<u64, PageView>,
    verdict: RoleVerdict,
    access: Result<(), i64>,
    now: u64,
    blob_kva: u64,
    child: ProcView,
)
    ensures
        match o.spawn_plan(req, a, parent, m, verdict, access, now, blob_kva) {
            SpawnPlan::Install(c, _) => verdict == RoleVerdict::Granted(
                installed(child, c).permissions,
            ),
            SpawnPlan::Load(s) => verdict == RoleVerdict::Granted(
                installed(child, s.ctx).permissions,
            ),
            SpawnPlan::Denied(_) => verdict is Denied,
            SpawnPlan::Refused(_) => true,
        },
{
}

/// A child has the ids that its spawn gave it: the user id as its real, its
/// effective and its saved one, and the group id likewise, each for itself. What
/// the spawn did not give is the parent's. Its threads have the same ids as the
/// process, whoever spawns.
pub proof fn law_a_child_has_the_ids_it_was_given(
    p: ProcView,
    c: ContextView,
    threads: Map<u32, crate::process::Thread>,
    tid: u32,
)
    requires
        threads.contains_key(tid),
        p.threads.contains(tid),
    ensures
        ({
            let creds = installed(p, c).creds;
            let parent = c.identity.parent_creds;
            let stamp = Stamp {
                uids: true,
                gids: true,
                creds: child_creds(c.identity),
                perms: Some(c.child_perms),
            };
            let t = threads_stamped(threads, p.threads, stamp)[tid];
            &&& c.identity.uid matches Some(u) ==> creds.uid == u && creds.euid == u && creds.suid == u
            &&& c.identity.uid is None ==> creds.uid == parent.uid && creds.euid == parent.euid
                && creds.suid == parent.suid
            &&& c.identity.gid matches Some(g) ==> creds.gid == g && creds.egid == g && creds.sgid == g
            &&& c.identity.gid is None ==> creds.gid == parent.gid && creds.egid == parent.egid
                && creds.sgid == parent.sgid
            &&& t.creds == creds
            &&& t.permissions == c.child_perms
            &&& t == (crate::process::Thread { creds: t.creds, permissions: t.permissions, ..threads[tid] })
        }),
{
}

/// A child has the groups, the login name and the permissions that its spawn
/// gave it, else the parent's, and is detached exactly if the spawn says so.
/// Everything else of it is as it was made.
pub proof fn law_a_child_has_the_name_it_was_given(p: ProcView, c: ContextView)
    ensures
        ({
            let q = installed(p, c);
            &&& c.identity.groups matches Some(g) ==> q.groups == g
            &&& c.identity.groups is None ==> q.groups == c.identity.parent_groups
            &&& c.identity.login matches Some(l) ==> q.login_name == Some(l)
            &&& c.identity.login is None ==> q.login_name == c.identity.parent_login
            &&& q.permissions == c.child_perms
            &&& q.detached == c.args.detach
            &&& q.pid == p.pid && q.parent_pid == p.parent_pid && q.satp == p.satp
            &&& q.threads == p.threads && q.maps == p.maps && q.cwd == p.cwd
            &&& q.stdout_redirect == p.stdout_redirect && q.heap_pages == p.heap_pages
        }),
{
}

/// The identity of a spawn is what its arguments say: an id is given exactly if
/// it is not -1, and then it is that id. What the parent has is the parent's.
pub proof fn law_a_spawn_reads_its_identity(
    o: Orbit,
    req: CreateProcessV2Req,
    a: SpawnArgs,
    parent: u16,
    m: Map<u64, PageView>,
)
    ensures
        o.identity_plan(req, a, parent, m) matches Ok(i) ==> {
            &&& o.procs().contains_key(parent)
            &&& i.uid is Some <==> a.uid != -1
            &&& i.uid matches Some(u) ==> u == a.uid
            &&& i.gid is Some <==> a.gid != -1
            &&& i.gid matches Some(g) ==> g == a.gid
            &&& i.login is Some <==> a.login_vaddr != 0 && a.login_len != 0
            &&& i.login matches Some(s) ==> s == bytes_at(
                m,
                a.login_vaddr as int,
                a.login_len as int,
            ) && s.len() == a.login_len && s.len() <= 32
            &&& i.groups is Some <==> a.groups_vaddr != 0
            &&& i.groups matches Some(gs) ==> gs.len() == a.groups_count && gs.len()
                <= o.abi.ngroups_max
            &&& i.parent_creds == o.procs()[parent].creds
            &&& i.parent_groups == o.procs()[parent].groups
            &&& i.parent_login == o.procs()[parent].login_name
            &&& i.parent_perms == o.procs()[parent].permissions
            &&& a.uid != -1 || a.gid != -1 || a.login_vaddr != 0 || a.groups_vaddr != 0
                ==> o.procs()[parent].permissions.role == o.abi.loader_role
            &&& a.stdout_capture <= 1 && a.reserved == 0
        },
{
}

/// A spawn of a process that is not there is refused with 3, one that stamps an
/// identity without being the loader's with 1, and an id that no one can have
/// with 22.
pub proof fn law_a_refused_identity_says_why(
    o: Orbit,
    req: CreateProcessV2Req,
    a: SpawnArgs,
    parent: u16,
    m: Map<u64, PageView>,
)
    requires
        page_dst(m, req.args_vaddr) is Ok,
        a.stdout_capture <= 1,
        a.reserved == 0,
    ensures
        ({
            let r = o.identity_plan(req, a, parent, m);
            let stamps = a.uid != -1 || a.gid != -1 || a.login_vaddr != 0 || a.groups_vaddr != 0;
            &&& !o.procs().contains_key(parent) ==> refused(r, 3)
            &&& o.procs().contains_key(parent) && stamps && o.procs()[parent].permissions.role
                != o.abi.loader_role ==> refused(r, 1)
            &&& o.procs().contains_key(parent) && !stamps ==> r is Ok
            &&& o.procs().contains_key(parent) && o.procs()[parent].permissions.role
                == o.abi.loader_role && (a.uid < -1 || a.uid > u32::MAX) ==> refused(r, 22)
        }),
{
}

/// A child gets the harts that its spawn asks for: those it may use, or all if
/// none are named, and of them those it is bound to, or all that it may use.
pub proof fn law_children_get_the_harts_they_ask_for(allowed: u64, affinity: u64, all_harts: u64)
    ensures
        match child_masks(allowed, affinity, all_harts) {
            Ok((a, f)) => {
                &&& allowed != 0 ==> a == allowed
                &&& allowed == 0 ==> a == all_harts
                &&& affinity != 0 ==> f == affinity
                &&& affinity == 0 ==> f == a
            },
            Err(e) => {
                &&& e == -22
                &&& (allowed & !all_harts != 0 || all_harts == 0 || (affinity != 0 && affinity & !(
                if allowed == 0 {
                    all_harts
                } else {
                    allowed
                }) != 0))
            },
        },
{
    let a = if allowed == 0 {
        all_harts
    } else {
        allowed
    };
    assert(a & !a == 0) by (bit_vector);
    assert(0u64 & !all_harts == 0) by (bit_vector);
}

/// A program is the bytes that the caller has in memory where it says, all of
/// them. It is refused with 22 exactly if it is empty or longer than 4 MiB, and
/// else with 14 exactly if not all of it is mapped.
pub proof fn law_a_program_is_read_whole(m: Map<u64, PageView>, va: u64, len: u64)
    ensures
        ({
            let r = program_at(m, va, len);
            &&& refused(r, 22) <==> len == 0 || len > 4 * 1024 * 1024
            &&& refused(r, 14) <==> 0 < len <= 4 * 1024 * 1024 && !range_mapped(
                m,
                va as int,
                len as int,
            )
            &&& r matches Ok(b) ==> b.len() == len && b == bytes_at(m, va as int, len as int)
            &&& r is Ok <==> 0 < len <= 4 * 1024 * 1024 && range_mapped(m, va as int, len as int)
        }),
{
}

/// The simple calls that make a process use its program and its harts; the
/// longer one adds its arguments and its environment, each exactly if it is
/// given, and nothing is inherited or redirected.
pub proof fn law_a_process_starts_with_what_it_is_given(
    m: Map<u64, PageView>,
    a: CreateProcessReq,
    b: CreateProcessExReq,
    all_harts: u64,
)
    ensures
        process_plan(m, a, all_harts) matches Ok((program, c)) ==> {
            &&& program == bytes_at(m, a.elf_vaddr as int, a.elf_len as int)
            &&& child_masks(a.allowed_affinity, a.affinity, all_harts) == Ok::<(u64, u64), i64>(
                (c.allowed_affinity, c.affinity),
            )
            &&& c.argv is None && c.envp is None && c.cwd is None && c.stdout_redirect is None
        },
        process_ex_plan(m, b, all_harts) matches Ok((program, c)) ==> {
            &&& program == bytes_at(m, b.elf_vaddr as int, b.elf_len as int)
            &&& child_masks(b.allowed_affinity, b.affinity, all_harts) == Ok::<(u64, u64), i64>(
                (c.allowed_affinity, c.affinity),
            )
            &&& c.argv is Some <==> b.argv_len > 0
            &&& c.argv matches Some(x) ==> x == bytes_at(m, b.argv_vaddr as int, b.argv_len as int)
            &&& c.envp is Some <==> b.envp_vaddr != 0
            &&& c.envp matches Some(x) ==> x == bytes_at(m, b.envp_vaddr as int, 4096)
            &&& c.cwd is None && c.stdout_redirect is None
        },
{
}

/// The child of a spawn starts with the arguments, the environment and the
/// directory that its spawn names, each exactly if it is named, and its output
/// goes to the parent exactly if the spawn asks for it.
pub proof fn law_a_child_starts_with_what_it_is_given(
    o: Orbit,
    a: SpawnArgs,
    parent: u16,
    m: Map<u64, PageView>,
)
    ensures
        o.child_plan(a, parent, m) matches Ok(c) ==> {
            &&& c.argv is Some <==> a.argv_vaddr != 0 && a.argv_len != 0
            &&& c.argv matches Some(x) ==> x == bytes_at(m, a.argv_vaddr as int, a.argv_len as int)
                && a.argv_len <= 4096
            &&& c.envp is Some <==> a.envp_vaddr != 0
            &&& c.envp matches Some(x) ==> x == bytes_at(m, a.envp_vaddr as int, 4096)
                && a.envp_vaddr % 4096 == 0
            &&& c.cwd is Some <==> a.cwd_vaddr != 0 && a.cwd_len != 0
            &&& c.cwd matches Some(x) ==> x == bytes_at(m, a.cwd_vaddr as int, a.cwd_len as int)
                && x.len() > 0 && x[0] == 0x2f && crate::creds::dir_check(o.mount@, x) is None
            &&& a.stdout_capture == 1 ==> c.stdout_redirect == Some(parent)
            &&& a.stdout_capture != 1 ==> c.stdout_redirect is None
            &&& child_masks(a.allowed_affinity, a.affinity, harts_mask(o.cpu_count)) == Ok::<
                (u64, u64),
                i64,
            >((c.allowed_affinity, c.affinity))
        },
{
}

/// A program comes from the file that its path names, if that is a regular file
/// of a sound size that the caller may execute; without a path it comes from
/// memory, for the loader alone.
pub proof fn law_a_program_has_one_source(
    o: Orbit,
    a: SpawnArgs,
    parent: u16,
    role: u32,
    m: Map<u64, PageView>,
    access: Result<(), i64>,
)
    ensures
        match o.source_plan(a, parent, role, m, access) {
            Ok(SourceView::File { inode, size }) => {
                &&& a.path_vaddr != 0
                &&& access is Ok
                &&& o.program_file(a, parent, m) matches Ok((i, st)) && i == inode && st.st_size
                    == size && st.st_mode & S_IFMT == S_IFREG
                &&& 0 < size <= 4 * 1024 * 1024
            },
            Ok(SourceView::Memory(b)) => {
                &&& a.path_vaddr == 0
                &&& role == o.abi.loader_role
                &&& b == bytes_at(m, a.elf_vaddr as int, a.elf_len as int)
                &&& b.len() == a.elf_len && 0 < a.elf_len <= 4 * 1024 * 1024
                &&& a.elf_vaddr + a.elf_len <= o.abi.user_end
            },
            Err(e) => {
                &&& a.path_vaddr == 0 && role != o.abi.loader_role ==> e == -1
                &&& e < 0 || a.path_vaddr != 0
            },
        },
{
}

/// Where a page of a program comes from: page `i` of the file, for as many
/// pages as the program has, the last one cut to what is left.
pub proof fn law_program_pages_add_up(s: SpawnView, i: int)
    requires
        s.sized(),
        0 <= i < s.total_pages,
    ensures
        0 < s.page_len(i) <= 4096,
        i * 4096 + s.page_len(i) <= s.total_size,
        i + 1 < s.total_pages ==> s.page_len(i) == 4096,
        i + 1 == s.total_pages ==> i * 4096 + s.page_len(i) == s.total_size,
{
}

/// A load of a program goes page by page: the next page is where the file
/// has it, a ready one goes to its place in the buffer, and one that is not
/// there is waited for, for that same place. The load fails with an input
/// error where the file has no such page, and with a request to try again
/// where the cache has no frame.
pub proof fn law_a_load_takes_the_next_page(s: LoadState, tid: u32, t: Tarfs, e: crate::tar::TarEntry)
    requires
        s.spawn.sized(),
        s.spawn.pages_done < s.spawn.total_pages,
        inode_entry(t@, s.spawn.inode) == Some(e),
        crate::tar::entry_small(e),
    ensures
        ({
            let (n, end) = load_run(s, tid, Some(t));
            let at = s.spawn.pages_done * 4096;
            let left = s.spawn.total_size - at;
            let len = if left < 4096 {
                left
            } else {
                4096
            };
            let lba = e.data_sector + s.spawn.pages_done * 8;
            let key = CacheKey { dev: 1, lba: lba as u64 };
            let w = Waiter::Kernel {
                tid,
                intra: 0,
                dst_kva: (s.spawn.blob_kva + at) as u64,
                len: len as u32,
            };
            let there = e.kind == crate::tar::Kind::Reg && at < e.size;
            &&& !there ==> n == s && end == LoadEnd::Failed((-5) as i64)
            &&& there && s.cache.is_ready(key) ==> {
                &&& page_copied(s, key).spawn.pages_done == s.spawn.pages_done + 1
                &&& page_copied(s, key).copies.last() == (FillCopy::Kernel {
                    src_pa: s.cache.slots[key].frame.pa,
                    src_off: 0,
                    dst_kva: (s.spawn.blob_kva + at) as u64,
                    len: len as u32,
                })
                &&& (n, end) == load_run(page_copied(s, key), tid, Some(t))
            }
            &&& there && s.cache.is_loading(key) ==> {
                &&& end == LoadEnd::Waiting
                &&& n.cache == s.cache.registered(key, w)
                &&& n.spawn == s.spawn && n.copies == s.copies
            }
            &&& there && !s.cache.slots.contains_key(key) ==> {
                &&& n.cache == s.cache.load_begun(key, len as u32, w)
                &&& n.spawn == s.spawn && n.copies == s.copies
                &&& s.cache.next_frame() is None ==> end == LoadEnd::Failed((-11) as i64)
                &&& s.cache.next_frame() matches Some(f) ==> end == LoadEnd::Submit(
                    BlkSubmit { key, pa: f.pa, packed_key: packed(key), slice_len: len as u32 },
                )
            }
        }),
{
    assert(s.spawn.pages_done * 4096 < s.spawn.total_size);
}

/// A load is over once every page was copied, and not before.
pub proof fn law_a_load_ends_with_its_last_page(s: LoadState, tid: u32, fs: Option<Tarfs>)
    requires
        s.spawn.sized(),
    ensures
        s.spawn.pages_done >= s.spawn.total_pages ==> load_run(s, tid, fs) == (
            s,
            LoadEnd::Complete,
        ),
        load_run(s, tid, fs).1 == LoadEnd::Complete ==> load_run(s, tid, fs).0.spawn.pages_done
            == s.spawn.total_pages && load_run(s, tid, fs).0.copies.len() == s.copies.len()
            + s.spawn.total_pages - s.spawn.pages_done,
    decreases s.spawn.total_pages - s.spawn.pages_done,
{
    if s.spawn.pages_done < s.spawn.total_pages {
        if let Some(lba) = next_block(s.spawn, fs) {
            let key = CacheKey { dev: 1, lba };
            if s.cache.is_ready(key) {
                law_a_load_ends_with_its_last_page(page_copied(s, key), tid, fs);
            }
        }
    }
}

/// A refused change of role is recorded with the roles it was between, the
/// process and the time.
pub proof fn law_a_refused_role_is_recorded(role: u32, target: u32, reason: u8, pid: u16, now: u64)
    ensures
        role_denial(role, target, reason, pid, now) matches DenialEvent::RoleDeny {
            time_ticks,
            tid,
            source_role,
            target_role,
            deny_reason,
            pid: p,
        } && time_ticks == now && tid == 0 && source_role == role && target_role == target
            && deny_reason == reason && p == pid,
{
}

/// A child gets the arguments, the environment and the directory that are
/// given, and each is refused for its own reason.
pub proof fn law_what_a_child_is_given_is_checked(
    fs: Option<Tarfs>,
    m: Map<u64, PageView>,
    a: SpawnArgs,
    max: u64,
    end: u64,
)
    ensures
        ({
            let r = argv_of(m, a, end);
            let none = a.argv_vaddr == 0 || a.argv_len == 0;
            let inside = a.argv_vaddr + a.argv_len <= end && range_mapped(
                m,
                a.argv_vaddr as int,
                a.argv_len as int,
            );
            &&& (r matches Ok(None)) <==> none
            &&& refused(r, 22) <==> !none && a.argv_len > 4096
            &&& refused(r, 14) <==> !none && a.argv_len <= 4096 && !inside
            &&& (r matches Ok(Some(_))) <==> !none && a.argv_len <= 4096 && inside
            &&& r matches Ok(Some(b)) ==> b == bytes_at(m, a.argv_vaddr as int, a.argv_len as int)
        }),
        ({
            let r = envp_of(m, a, end);
            let inside = a.envp_vaddr + 4096 <= end && m.contains_key(a.envp_vaddr);
            &&& (r matches Ok(None)) <==> a.envp_vaddr == 0
            &&& refused(r, 22) <==> a.envp_vaddr % 4096 != 0
            &&& refused(r, 14) <==> a.envp_vaddr != 0 && a.envp_vaddr % 4096 == 0 && !inside
            &&& (r matches Ok(Some(_))) <==> a.envp_vaddr != 0 && a.envp_vaddr % 4096 == 0 && inside
            &&& r matches Ok(Some(b)) ==> b == bytes_at(m, a.envp_vaddr as int, 4096)
        }),
        ({
            let r = cwd_override(fs, m, a, max, end);
            let none = a.cwd_vaddr == 0 || a.cwd_len == 0;
            let d = chdir_target(fs, m, a.cwd_vaddr, a.cwd_len, max, end);
            &&& (r matches Ok(None)) <==> none
            &&& !none ==> (d matches Ok(x) ==> r == Ok::<Option<Seq<u8>>, i64>(Some(x)))
            &&& !none ==> (d matches Err(x) ==> r == Err::<Option<Seq<u8>>, i64>(x))
        }),
{
}

/// An id is taken if it is one, zero among them; minus one inherits, and
/// anything else is refused.
pub proof fn law_every_id_can_be_given(v: i64)
    ensures
        (id_override(v) matches Ok(None)) <==> v == -1,
        0 <= v <= u32::MAX <==> (id_override(v) matches Ok(Some(_))),
        id_override(v) matches Ok(Some(id)) ==> id == v,
        refused(id_override(v), 22) <==> v < -1 || v > u32::MAX,
{
}

/// The longer call is refused for its program first, then for arguments or
/// an environment that are not there, then for its harts, and only for
/// these.
pub proof fn law_a_refused_process_says_why(
    m: Map<u64, PageView>,
    req: CreateProcessExReq,
    all_harts: u64,
)
    ensures
        ({
            let r = process_ex_plan(m, req, all_harts);
            let program = program_at(m, req.elf_vaddr, req.elf_len);
            let missing = (req.argv_len > 0 && !range_mapped(
                m,
                req.argv_vaddr as int,
                req.argv_len as int,
            )) || (req.envp_vaddr != 0 && !m.contains_key(req.envp_vaddr));
            let masks = child_masks(req.allowed_affinity, req.affinity, all_harts);
            &&& program matches Err(e) ==> r == Err::<(Seq<u8>, ChildPlanView), i64>(e)
            &&& program is Ok && missing ==> refused(r, 14)
            &&& program is Ok && !missing ==> (masks matches Err(e) ==> r == Err::<
                (Seq<u8>, ChildPlanView),
                i64,
            >(e))
            &&& program is Ok && !missing && masks is Ok ==> r is Ok
        }),
{
}

/// A child is bound to harts that it may use, and to no other.
pub proof fn law_children_stay_on_the_harts_they_may_use(allowed: u64, affinity: u64, all_harts: u64)
    ensures
        child_masks(allowed, affinity, all_harts) matches Ok((a, f)) ==> f & !a == 0 && a & !all_harts
            == 0,
        refused(child_masks(allowed, affinity, all_harts), 22) || child_masks(
            allowed,
            affinity,
            all_harts,
        ) is Ok,
{
}

/// A load that waits is kept as far as it has come; one that is complete or
/// has failed is taken off, and only a failure is told to the thread that
/// asked.
pub proof fn law_a_load_is_kept_until_it_ends(
    before: Orbit,
    after: Orbit,
    wakes_before: WakeQueue,
    wakes_after: WakeQueue,
    tid: u32,
    t: LoadState,
    end: LoadEnd,
    r: SpawnStep,
    other: u32,
)
    requires
        load_settled(before, after, wakes_before, wakes_after, tid, t, end, r),
        other != tid,
    ensures
        end is Complete || end is Failed ==> !after.spawns().contains_key(tid),
        end is Waiting || end is Submit ==> after.spawns().contains_key(tid) && after.spawns()[tid]
            == t.spawn,
        after.spawns().contains_key(other) == before.spawns().contains_key(other),
        before.spawns().contains_key(other) ==> after.spawns()[other] == before.spawns()[other],
        !(end is Failed) ==> after.wake_state(wakes_after) == before.wake_state(wakes_before),
        end matches LoadEnd::Failed(e) ==> after.wake_state(wakes_after) == before.wake_state(
            wakes_before,
        ).answered(tid, seq![e]),
        end is Complete <==> r is Loaded,
        end is Waiting <==> r is Parked,
        end matches LoadEnd::Submit(b) ==> r == SpawnStep::Submit(b),
        end is Failed <==> r is Answered,
        r matches SpawnStep::Answered { blob_kva } ==> blob_kva == t.spawn.blob_kva,
        r matches SpawnStep::Loaded(p) ==> p.ctx@ == t.spawn.ctx && p.blob_kva == t.spawn.blob_kva
            && p.total_size == t.spawn.total_size,
{
}

/// The short call is refused for its program first, then for its harts, and
/// only for these.
pub proof fn law_a_simple_process_is_made_or_refused(
    m: Map<u64, PageView>,
    req: CreateProcessReq,
    all_harts: u64,
)
    ensures
        ({
            let r = process_plan(m, req, all_harts);
            let program = program_at(m, req.elf_vaddr, req.elf_len);
            let masks = child_masks(req.allowed_affinity, req.affinity, all_harts);
            &&& program matches Err(e) ==> r == Err::<(Seq<u8>, ChildPlanView), i64>(e)
            &&& program is Ok ==> (masks matches Err(e) ==> r == Err::<
                (Seq<u8>, ChildPlanView),
                i64,
            >(e))
            &&& program is Ok && masks is Ok ==> r is Ok
        }),
{
}

/// A child is refused for its harts, then for its directory, its arguments
/// and its environment, with the number of the first that is unsound.
pub proof fn law_a_refused_child_says_why(
    o: Orbit,
    a: SpawnArgs,
    parent: u16,
    m: Map<u64, PageView>,
)
    ensures
        ({
            let r = o.child_plan(a, parent, m);
            let masks = child_masks(a.allowed_affinity, a.affinity, harts_mask(o.cpu_count));
            let cwd = cwd_override(o.mount@, m, a, o.abi.max_path, o.abi.user_end);
            let argv = argv_of(m, a, o.abi.user_end);
            let envp = envp_of(m, a, o.abi.user_end);
            &&& r is Ok <==> masks is Ok && cwd is Ok && argv is Ok && envp is Ok
            &&& masks matches Err(e) ==> r == Err::<ChildPlanView, i64>(e)
            &&& masks is Ok ==> (cwd matches Err(e) ==> r == Err::<ChildPlanView, i64>(e))
            &&& masks is Ok && cwd is Ok ==> (argv matches Err(e) ==> r == Err::<
                ChildPlanView,
                i64,
            >(e))
            &&& masks is Ok && cwd is Ok && argv is Ok ==> (envp matches Err(e) ==> r == Err::<
                ChildPlanView,
                i64,
            >(e))
        }),
{
}

/// The loader's stamp is granted where every part of it is sound. A login
/// name is at most 32 bytes, lies in user memory and is text; a list of
/// groups is no longer than there can be.
pub proof fn law_a_sound_identity_is_granted(
    o: Orbit,
    req: CreateProcessV2Req,
    a: SpawnArgs,
    parent: u16,
    m: Map<u64, PageView>,
)
    ensures
        ({
            let r = o.identity_plan(req, a, parent, m);
            let login = login_override(m, a, o.abi.user_end);
            let groups = groups_override(m, a, o.abi.ngroups_max, o.abi.user_end);
            let ids = -1 <= a.uid <= u32::MAX && -1 <= a.gid <= u32::MAX;
            let asked = page_dst(m, req.args_vaddr) is Ok && a.stdout_capture <= 1 && a.reserved
                == 0 && o.procs().contains_key(parent) && o.procs()[parent].permissions.role
                == o.abi.loader_role;
            &&& page_dst(m, req.args_vaddr) is Err ==> refused(r, 14)
            &&& page_dst(m, req.args_vaddr) is Ok && (a.stdout_capture > 1 || a.reserved != 0)
                ==> refused(r, 22)
            &&& asked ==> (r is Ok <==> ids && login is Ok && groups is Ok)
            &&& asked && !ids ==> refused(r, 22)
            &&& asked && ids ==> (login matches Err(e) ==> r == Err::<IdentityView, i64>(e))
            &&& asked && ids && login is Ok ==> (groups matches Err(e) ==> r == Err::<
                IdentityView,
                i64,
            >(e))
        }),
        ({
            let r = login_override(m, a, o.abi.user_end);
            let none = a.login_vaddr == 0 || a.login_len == 0;
            &&& (r matches Ok(None)) <==> none
            &&& refused(r, 36) <==> !none && a.login_len > 32
            &&& !none && a.login_len <= 32 && a.login_vaddr + a.login_len > o.abi.user_end
                ==> refused(r, 14)
            &&& !none && a.login_len <= 32 && a.login_vaddr + a.login_len <= o.abi.user_end ==> (
            r is Ok <==> user_string(m, a.login_vaddr as int, a.login_len as int) is Ok)
        }),
        ({
            let r = groups_override(m, a, o.abi.ngroups_max, o.abi.user_end);
            let list = setgroups_list(m, a.groups_vaddr, a.groups_count, o.abi.user_end);
            &&& (r matches Ok(None)) <==> a.groups_vaddr == 0
            &&& a.groups_vaddr != 0 && a.groups_count > o.abi.ngroups_max ==> refused(r, 22)
            &&& a.groups_vaddr != 0 && a.groups_count <= o.abi.ngroups_max ==> (list matches Ok(gs)
                ==> r == Ok::<Option<Seq<u32>>, i64>(Some(gs)))
            &&& a.groups_vaddr != 0 && a.groups_count <= o.abi.ngroups_max ==> (list matches Err(e)
                ==> r == Err::<Option<Seq<u32>>, i64>(e))
        }),
{
}

/// A program from a file is refused where the file is not found, is no
/// regular file, may not be run, or is empty or too large; one from memory
/// where its parent is no loader or where it does not lie in user memory.
pub proof fn law_a_refused_program_says_why(
    o: Orbit,
    a: SpawnArgs,
    parent: u16,
    role: u32,
    m: Map<u64, PageView>,
    access: Result<(), i64>,
)
    ensures
        ({
            let r = o.source_plan(a, parent, role, m, access);
            let file = o.program_file(a, parent, m);
            let st = file->Ok_0.1;
            let regular = st.st_mode & 0o170000u32 == 0o100000;
            let fits = 0 < st.st_size <= 0x40_0000;
            let small = 0 < a.elf_len <= 0x40_0000;
            let inside = a.elf_vaddr + a.elf_len <= o.abi.user_end;
            &&& a.path_vaddr != 0 ==> {
                &&& file matches Err(e) ==> r == Err::<SourceView, i64>(e)
                &&& file is Ok && !regular ==> refused(r, 8)
                &&& file is Ok && regular ==> (access matches Err(e) ==> r == Err::<
                    SourceView,
                    i64,
                >(e))
                &&& file is Ok && regular && access is Ok && !fits ==> refused(r, 22)
                &&& file is Ok && regular && access is Ok && fits ==> r is Ok
            }
            &&& a.path_vaddr == 0 ==> {
                &&& role != o.abi.loader_role ==> refused(r, 1)
                &&& role == o.abi.loader_role && !small ==> refused(r, 22)
                &&& role == o.abi.loader_role && small && !inside ==> refused(r, 14)
                &&& role == o.abi.loader_role && small && inside ==> (r is Ok <==> range_mapped(
                    m,
                    a.elf_vaddr as int,
                    a.elf_len as int,
                ))
            }
        }),
        ({
            let f = o.program_file(a, parent, m);
            let named = 0 < a.path_len <= o.abi.max_path;
            let inside = a.path_vaddr + a.path_len <= o.abi.user_end;
            let text = user_string(m, a.path_vaddr as int, a.path_len as int);
            &&& !named ==> refused(f, 36)
            &&& named && !inside ==> refused(f, 14)
            &&& named && inside ==> (text matches Err(e) ==> f == Err::<(Inode, Stat), i64>(e))
            &&& named && inside ==> (text matches Ok(p) ==> f == crate::fsops::lookup_path(
                o.mount@,
                crate::fsops::resolved(o.cwd_of(parent), p),
            ))
        }),
{
}

/// A spawn is refused for whom it is to run as, then for its role, which
/// leaves a record, and then for its program; otherwise the program is
/// installed or loaded, from its first page on.
pub proof fn law_a_spawn_goes_on_where_it_may(
    o: Orbit,
    req: CreateProcessV2Req,
    a: SpawnArgs,
    parent: u16,
    m: Map<u64, PageView>,
    verdict: RoleVerdict,
    access: Result<(), i64>,
    now: u64,
    blob_kva: u64,
)
    ensures
        ({
            let r = o.spawn_plan(req, a, parent, m, verdict, access, now, blob_kva);
            let who = o.identity_plan(req, a, parent, m);
            let role = o.procs()[parent].permissions.role;
            let source = o.source_plan(a, parent, role, m, access);
            &&& who matches Err(e) ==> r == SpawnPlan::Refused(e)
            &&& who is Ok ==> (verdict matches RoleVerdict::Denied(reason) ==> r == SpawnPlan::Denied(
                DenialEvent::RoleDeny {
                    time_ticks: now,
                    tid: 0,
                    source_role: role,
                    target_role: a.target_role,
                    deny_reason: reason,
                    pid: parent,
                },
            ))
            &&& who is Ok && verdict is Granted ==> {
                &&& source matches Err(e) ==> r == SpawnPlan::Refused(e)
                &&& source matches Ok(SourceView::Memory(b)) ==> {
                    &&& r matches SpawnPlan::Install(c, p)
                    &&& p == b
                    &&& c.args == a && c.parent_pid == parent && c.identity == who->Ok_0
                }
                &&& source matches Ok(SourceView::File { inode, size }) ==> {
                    &&& r matches SpawnPlan::Load(s)
                    &&& s.inode == inode && s.total_size == size && s.blob_kva == blob_kva
                    &&& s.pages_done == 0
                    &&& s.total_pages * 4096 >= size && (s.total_pages - 1) * 4096 < size
                    &&& s.ctx.args == a && s.ctx.parent_pid == parent && s.ctx.identity
                        == who->Ok_0
                }
            }
        }),
{
}

} // verus!
