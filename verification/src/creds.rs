//! User and group identities, login names and working directories.

#[allow(unused_imports)]
use crate::abi::{errno_ret, refused};
use crate::abi::{
    to_ret, user_range_ok, EFAULT, EINVAL, EIO, ENAMETOOLONG, ENOENT, ENOTDIR, EPERM, ERANGE,
    ESRCH, PAGE_SIZE,
};
use crate::fs::{S_IFDIR, S_IFMT};
use crate::orbit::Orbit;
use crate::process::{Creds, Permissions, Process, Thread};
use crate::tables::members32;
#[allow(unused_imports)]
use crate::tar::{find_path, inode_entry, stat_of};
#[allow(unused_imports)]
use crate::uspace::{
    bytes_at, page_dst, range_mapped, user_page, user_string, word_at, words_le, write_of,
    WriteView,
};
use crate::uspace::{copy_bytes, copy_user_path, decode_words, encode_words, UserSpace, UserWrite};
use crate::world::{keeps_order, lemma_same_places};
use vstd::prelude::*;

verus! {

broadcast use {vstd::laws_cmp::group_laws_cmp, vstd::std_specs::btree::group_btree_axioms};

/// Longest login name, in bytes.
pub const MAX_LOGIN_NAME: u64 = 32;

/// What is copied from a process to its threads.
#[derive(Clone, Copy, Debug, PartialEq, Eq, Structural)]
pub struct Stamp {
    pub uids: bool,
    pub gids: bool,
    pub creds: Creds,
    pub perms: Option<Permissions>,
}

/// A thread with the stamped parts of its process's identity.
pub open spec fn stamped(t: Thread, s: Stamp) -> Thread {
    Thread {
        creds: Creds {
            uid: if s.uids {
                s.creds.uid
            } else {
                t.creds.uid
            },
            euid: if s.uids {
                s.creds.euid
            } else {
                t.creds.euid
            },
            suid: if s.uids {
                s.creds.suid
            } else {
                t.creds.suid
            },
            gid: if s.gids {
                s.creds.gid
            } else {
                t.creds.gid
            },
            egid: if s.gids {
                s.creds.egid
            } else {
                t.creds.egid
            },
            sgid: if s.gids {
                s.creds.sgid
            } else {
                t.creds.sgid
            },
        },
        permissions: match s.perms {
            Some(p) => p,
            None => t.permissions,
        },
        ..t
    }
}

/// The threads after those in `members` were stamped.
pub open spec fn threads_stamped(threads: Map<u32, Thread>, members: Set<u32>, s: Stamp) -> Map<
    u32,
    Thread,
> {
    Map::new(
        |k: u32| threads.contains_key(k),
        |k: u32|
            if members.contains(k) {
                stamped(threads[k], s)
            } else {
                threads[k]
            },
    )
}

fn stamp_thread(t: Thread, s: Stamp) -> (r: Thread)
    ensures
        r == stamped(t, s),
{
    let mut n = t;
    if s.uids {
        n.creds.uid = s.creds.uid;
        n.creds.euid = s.creds.euid;
        n.creds.suid = s.creds.suid;
    }
    if s.gids {
        n.creds.gid = s.creds.gid;
        n.creds.egid = s.creds.egid;
        n.creds.sgid = s.creds.sgid;
    }
    match s.perms {
        Some(p) => {
            n.permissions = p;
        },
        None => {},
    }
    n
}

/// Credentials after `setuid(uid)`; `None` if it is not permitted. The
/// superuser sets all three ids; anyone else may make the real or the saved id
/// the effective one.
pub open spec fn setuid_creds(c: Creds, uid: u32) -> Option<Creds> {
    if c.euid == 0 {
        Some(Creds { uid, euid: uid, suid: uid, ..c })
    } else if uid == c.uid || uid == c.suid {
        Some(Creds { euid: uid, ..c })
    } else {
        None
    }
}

/// Credentials after `setgid(gid)`; `None` if it is not permitted.
pub open spec fn setgid_creds(c: Creds, gid: u32) -> Option<Creds> {
    if c.euid == 0 {
        Some(Creds { gid, egid: gid, sgid: gid, ..c })
    } else if gid == c.gid || gid == c.sgid {
        Some(Creds { egid: gid, ..c })
    } else {
        None
    }
}

/// Dropping privileges cannot be undone: once a superuser has become someone
/// else, no `setuid` gives it a user id other than its own again.
pub proof fn law_setuid_drop_is_final(c: Creds, uid: u32, later: u32)
    requires
        c.euid == 0,
        uid != 0,
    ensures
        ({
            let d = setuid_creds(c, uid)->0;
            &&& setuid_creds(c, uid) is Some
            &&& d.uid == uid && d.euid == uid && d.suid == uid
            &&& setuid_creds(d, later) is Some ==> later == uid && setuid_creds(d, later) == Some(d)
        }),
{
}

/// Without privileges, `setuid` and `setgid` never widen an identity: the
/// effective id is always one that was held before, and the real and saved ids
/// stay.
pub proof fn law_unprivileged_ids_do_not_widen(c: Creds, id: u32)
    requires
        c.euid != 0,
    ensures
        setuid_creds(c, id) matches Some(d) ==> d.uid == c.uid && d.suid == c.suid && (d.euid
            == c.uid || d.euid == c.suid) && d.gid == c.gid && d.egid == c.egid && d.sgid == c.sgid,
        setgid_creds(c, id) matches Some(d) ==> d.gid == c.gid && d.sgid == c.sgid && (d.egid
            == c.gid || d.egid == c.sgid) && d.uid == c.uid && d.euid == c.euid && d.suid == c.suid,
{
}

/// The store of a string into a user buffer, and the return value: too long a
/// string gives `ERANGE`.
pub open spec fn string_out(
    m: Map<u64, crate::uspace::PageView>,
    s: Seq<u8>,
    buf_va: u64,
    buf_len: u64,
) -> (i64, Option<WriteView>) {
    if s.len() > buf_len {
        (errno_ret(ERANGE), None)
    } else {
        match page_dst(m, buf_va) {
            Err(e) => (e, None),
            Ok((pa, off)) => (
                s.len() as i64,
                Some(WriteView { page_pa: pa, off, bytes: s }),
            ),
        }
    }
}

/// What the buffer checks of a string copy-out say, before the string is
/// looked at.
pub open spec fn string_buf_check(buf_va: u64, buf_len: u64, end: u64) -> Option<i64> {
    if buf_len == 0 || buf_len > 4096 {
        Some(errno_ret(EINVAL))
    } else if buf_va + buf_len > end {
        Some(errno_ret(EFAULT))
    } else if buf_va % 4096 + buf_len > 4096 {
        Some(errno_ret(EINVAL))
    } else {
        None
    }
}

fn check_string_buf(buf_va: u64, buf_len: u64, end: u64) -> (r: Option<i64>)
    ensures
        r == string_buf_check(buf_va, buf_len, end),
{
    if buf_len == 0 || buf_len > PAGE_SIZE {
        return Some(to_ret(EINVAL));
    }
    if !user_range_ok(buf_va, buf_len, end) {
        return Some(to_ret(EFAULT));
    }
    if buf_va % PAGE_SIZE + buf_len > PAGE_SIZE {
        return Some(to_ret(EINVAL));
    }
    None
}

fn put_string(space: &UserSpace, s: &Vec<u8>, buf_va: u64, buf_len: u64) -> (r: (
    i64,
    Option<UserWrite>,
))
    requires
        buf_len <= 4096,
    ensures
        (r.0, write_of(r.1)) == string_out(space@, s@, buf_va, buf_len),
{
    let n: u64 = s.len() as u64;
    if n > buf_len {
        return (to_ret(ERANGE), None);
    }
    match space.find_page(buf_va) {
        Err(e) => (e, None),
        Ok((pa, off)) => (n as i64, Some(UserWrite { page_pa: pa, off, bytes: copy_bytes(s) })),
    }
}

/// Outcome of `getgroups`.
pub open spec fn getgroups_out(
    groups: Seq<u32>,
    max: u64,
    m: Map<u64, crate::uspace::PageView>,
    buf_va: u64,
    count: u64,
    end: u64,
) -> (i64, Option<WriteView>) {
    if groups.len() > max {
        (errno_ret(EIO), None)
    } else if count == 0 {
        (groups.len() as i64, None)
    } else if count > max {
        (errno_ret(EINVAL), None)
    } else if count < groups.len() {
        (errno_ret(ERANGE), None)
    } else if groups.len() == 0 {
        (0, None)
    } else {
        match user_page(m, buf_va, (4 * groups.len()) as u64, end) {
            Err(e) => (e, None),
            Ok((pa, off)) => (
                groups.len() as i64,
                Some(WriteView { page_pa: pa, off, bytes: words_le(groups) }),
            ),
        }
    }
}

/// The group list that `setgroups` reads.
pub open spec fn setgroups_list(
    m: Map<u64, crate::uspace::PageView>,
    buf_va: u64,
    count: u64,
    end: u64,
) -> Result<Seq<u32>, i64> {
    if count == 0 {
        Ok(Seq::empty())
    } else {
        match user_page(m, buf_va, (4 * count) as u64, end) {
            Err(e) => Err(e),
            Ok(_) => Ok(
                Seq::new(
                    count as nat,
                    |i: int| word_at(bytes_at(m, buf_va as int, 4 * count), i),
                ),
            ),
        }
    }
}

/// Whether `path` names a directory: `None`, or the error.
pub open spec fn dir_check(fs: Option<crate::tar::Tarfs>, path: Seq<u8>) -> Option<i64> {
    match fs {
        None => Some(errno_ret(EIO)),
        Some(t) => match find_path(t@, path) {
            None => Some(errno_ret(ENOENT)),
            Some(i) => match inode_entry(t@, i as u32) {
                None => Some(errno_ret(EIO)),
                Some(e) => if stat_of(e, i as u32).st_mode & S_IFMT != S_IFDIR {
                    Some(errno_ret(ENOTDIR))
                } else {
                    None
                },
            },
        },
    }
}

/// What `chdir` says of its argument: the new directory, or the error.
pub open spec fn chdir_target(
    fs: Option<crate::tar::Tarfs>,
    m: Map<u64, crate::uspace::PageView>,
    va: u64,
    len: u64,
    max: u64,
    end: u64,
) -> Result<Seq<u8>, i64> {
    if len == 0 {
        Err(errno_ret(EINVAL))
    } else if len > max {
        Err(errno_ret(ENAMETOOLONG))
    } else if va + len > end {
        Err(errno_ret(EFAULT))
    } else {
        match user_string(m, va as int, len as int) {
            Err(e) => Err(e),
            Ok(p) => if p.len() == 0 || p[0] != 0x2f {
                Err(errno_ret(EINVAL))
            } else {
                match dir_check(fs, p) {
                    Some(e) => Err(e),
                    None => Ok(p),
                }
            },
        }
    }
}

impl Orbit {
    /// Whether the mounted filesystem, if any, is well formed.
    pub open spec fn fs_ok(self) -> bool {
        self.mount@ matches Some(t) ==> t.wf()
    }

    /// Stamps the listed threads.
    pub fn stamp_threads(&mut self, tids: &Vec<u32>, s: Stamp)
        ensures
            final(self).threads@ == threads_stamped(old(self).threads@, tids@.to_set(), s),
            *final(self) == (Orbit { threads: final(self).threads, ..*old(self) }),
    {
        let ghost start = self.threads@;
        proof {
            assert(self.threads@ =~= threads_stamped(start, tids@.take(0).to_set(), s));
        }
        let mut i: usize = 0;
        while i < tids.len()
            invariant
                i <= tids@.len(),
                start == old(self).threads@,
                self.threads@ == threads_stamped(start, tids@.take(i as int).to_set(), s),
                *self == (Orbit { threads: self.threads, ..*old(self) }),
            decreases tids@.len() - i,
        {
            let tid: u32 = tids[i];
            let ghost before = self.threads@;
            match self.threads.get(&tid) {
                Some(t) => {
                    let n = stamp_thread(*t, s);
                    let _ = self.threads.insert(tid, n);
                },
                None => {},
            }
            proof {
                let a = tids@.take(i as int);
                let b = tids@.take(i + 1);
                assert(b =~= a.push(tid));
                assert(b.to_set() =~= a.to_set().insert(tid)) by {
                    broadcast use vstd::seq_lib::group_seq_properties;

                }
                assert(self.threads@ =~= threads_stamped(start, b.to_set(), s));
            }
            i = i + 1;
        }
        proof {
            assert(tids@.take(i as int) =~= tids@);
        }
    }

    /// `setuid`: changes the process's user ids under the POSIX rules and the
    /// copies its threads keep.
    pub fn run_setuid(&mut self, pid: u16, uid: u32) -> (r: i64)
        ensures
            if !old(self).procs().contains_key(pid) {
                r == errno_ret(ESRCH) && *final(self) == *old(self)
            } else {
                let p = old(self).processes@[pid];
                match setuid_creds(p.creds, uid) {
                    None => r == errno_ret(EPERM) && *final(self) == *old(self),
                    Some(c) => {
                        &&& r == 0
                        &&& final(self).processes@ == old(self).processes@.insert(
                            pid,
                            Process { creds: c, ..p },
                        )
                        &&& final(self).threads@ == threads_stamped(
                            old(self).threads@,
                            p.threads@,
                            Stamp {
                                uids: true,
                                gids: false,
                                creds: c,
                                perms: None,
                            },
                        )
                    },
                }
            },
            keeps_order(*old(self), *final(self)),
            *final(self) == (Orbit {
                processes: final(self).processes,
                threads: final(self).threads,
                ..*old(self)
            }),
    {
        let mut c: Creds = match self.processes.get(&pid) {
            Some(p) => p.creds,
            None => {
                return to_ret(ESRCH);
            },
        };
        if c.euid == 0 {
            c.uid = uid;
            c.euid = uid;
            c.suid = uid;
        } else if uid == c.uid || uid == c.suid {
            c.euid = uid;
        } else {
            return to_ret(EPERM);
        }
        let mut p: Process = self.processes.remove(&pid).unwrap();
        let ghost p0 = p;
        p.creds = c;
        let tids = members32(&p.threads);
        let _ = self.processes.insert(pid, p);
        proof {
            assert(self.processes@ =~= old(self).processes@.insert(pid, Process { creds: c, ..p0 }));
            assert(tids@.to_set() =~= p0.threads@);
        }
        self.stamp_threads(
            &tids,
            Stamp {
                uids: true,
                gids: false,
                creds: c,
                perms: None,
            },
        );
        proof {
            assert(old(self).processes@.dom() =~= self.processes@.dom());
            assert(old(self).threads@.dom() =~= self.threads@.dom());
            lemma_same_places(*old(self), *self);
        }
        0
    }

    /// `setgid`: changes the process's group ids under the POSIX rules and the
    /// copies its threads keep.
    pub fn run_setgid(&mut self, pid: u16, gid: u32) -> (r: i64)
        ensures
            if !old(self).procs().contains_key(pid) {
                r == errno_ret(ESRCH) && *final(self) == *old(self)
            } else {
                let p = old(self).processes@[pid];
                match setgid_creds(p.creds, gid) {
                    None => r == errno_ret(EPERM) && *final(self) == *old(self),
                    Some(c) => {
                        &&& r == 0
                        &&& final(self).processes@ == old(self).processes@.insert(
                            pid,
                            Process { creds: c, ..p },
                        )
                        &&& final(self).threads@ == threads_stamped(
                            old(self).threads@,
                            p.threads@,
                            Stamp {
                                uids: false,
                                gids: true,
                                creds: c,
                                perms: None,
                            },
                        )
                    },
                }
            },
            keeps_order(*old(self), *final(self)),
            *final(self) == (Orbit {
                processes: final(self).processes,
                threads: final(self).threads,
                ..*old(self)
            }),
    {
        let mut c: Creds = match self.processes.get(&pid) {
            Some(p) => p.creds,
            None => {
                return to_ret(ESRCH);
            },
        };
        if c.euid == 0 {
            c.gid = gid;
            c.egid = gid;
            c.sgid = gid;
        } else if gid == c.gid || gid == c.sgid {
            c.egid = gid;
        } else {
            return to_ret(EPERM);
        }
        let mut p: Process = self.processes.remove(&pid).unwrap();
        let ghost p0 = p;
        p.creds = c;
        let tids = members32(&p.threads);
        let _ = self.processes.insert(pid, p);
        proof {
            assert(self.processes@ =~= old(self).processes@.insert(pid, Process { creds: c, ..p0 }));
            assert(tids@.to_set() =~= p0.threads@);
        }
        self.stamp_threads(
            &tids,
            Stamp {
                uids: false,
                gids: true,
                creds: c,
                perms: None,
            },
        );
        proof {
            assert(old(self).processes@.dom() =~= self.processes@.dom());
            assert(old(self).threads@.dom() =~= self.threads@.dom());
            lemma_same_places(*old(self), *self);
        }
        0
    }

    /// `getgroups`: copies the supplementary groups out. A count of zero asks
    /// only how many there are.
    pub fn run_getgroups(&self, pid: u16, space: &UserSpace, buf_vaddr: u64, count: u64) -> (r: (
        i64,
        Option<UserWrite>,
    ))
        requires
            self.abi.ngroups_max <= 0x1000_0000,
        ensures
            (r.0, write_of(r.1)) == (if !self.procs().contains_key(pid) {
                (errno_ret(ESRCH), None::<WriteView>)
            } else {
                getgroups_out(
                    self.processes@[pid].groups@,
                    self.abi.ngroups_max,
                    space@,
                    buf_vaddr,
                    count,
                    self.abi.user_end,
                )
            }),
    {
        let p = match self.processes.get(&pid) {
            Some(p) => p,
            None => {
                return (to_ret(ESRCH), None);
            },
        };
        let n: u64 = p.groups.len() as u64;
        if n > self.abi.ngroups_max {
            return (to_ret(EIO), None);
        }
        if count == 0 {
            return (n as i64, None);
        }
        if count > self.abi.ngroups_max {
            return (to_ret(EINVAL), None);
        }
        if count < n {
            return (to_ret(ERANGE), None);
        }
        if n == 0 {
            return (0, None);
        }
        match space.find_user_page(buf_vaddr, 4 * n, self.abi.user_end) {
            Err(e) => (e, None),
            Ok((pa, off)) => (
                n as i64,
                Some(UserWrite { page_pa: pa, off, bytes: encode_words(&p.groups) }),
            ),
        }
    }

    /// `setgroups`: replaces the supplementary groups; for the superuser only.
    /// A count of zero empties the list.
    pub fn run_setgroups(&mut self, pid: u16, space: &UserSpace, buf_vaddr: u64, count: u64) -> (r:
        i64)
        requires
            old(self).abi.ngroups_max <= 0x1000_0000,
            space.wf(),
        ensures
            if count > old(self).abi.ngroups_max {
                r == errno_ret(EINVAL) && *final(self) == *old(self)
            } else if !old(self).procs().contains_key(pid) {
                r == errno_ret(ESRCH) && *final(self) == *old(self)
            } else if old(self).processes@[pid].creds.euid != 0 {
                r == errno_ret(EPERM) && *final(self) == *old(self)
            } else {
                match setgroups_list(space@, buf_vaddr, count, old(self).abi.user_end) {
                    Err(e) => r == e && *final(self) == *old(self),
                    Ok(gs) => {
                        let p = old(self).processes@[pid];
                        let n = final(self).processes@[pid];
                        &&& r == 0
                        &&& n == (Process { groups: n.groups, ..p })
                        &&& n.groups@ == gs
                        &&& final(self).processes@ == old(self).processes@.insert(pid, n)
                    },
                }
            },
            keeps_order(*old(self), *final(self)),
            *final(self) == (Orbit { processes: final(self).processes, ..*old(self) }),
    {
        if count > self.abi.ngroups_max {
            return to_ret(EINVAL);
        }
        let euid: u32 = match self.processes.get(&pid) {
            Some(p) => p.creds.euid,
            None => {
                return to_ret(ESRCH);
            },
        };
        if euid != 0 {
            return to_ret(EPERM);
        }
        let mut gs: Vec<u32> = Vec::new();
        if count > 0 {
            match space.find_user_page(buf_vaddr, 4 * count, self.abi.user_end) {
                Err(e) => {
                    return e;
                },
                Ok(_) => {},
            }
            proof {
                lemma_one_page_mapped(space@, buf_vaddr, 4 * count);
            }
            let b = space.read(buf_vaddr, 4 * count).unwrap();
            gs = decode_words(&b, count);
        }
        proof {
            assert(gs@ =~= setgroups_list(space@, buf_vaddr, count, self.abi.user_end)->Ok_0);
        }
        let mut p: Process = self.processes.remove(&pid).unwrap();
        p.groups = gs;
        let ghost n = p;
        let _ = self.processes.insert(pid, p);
        proof {
            assert(self.processes@ =~= old(self).processes@.insert(pid, n));
            lemma_same_places(*old(self), *self);
        }
        0
    }

    /// `setlogin`: sets the login name; for the superuser only.
    pub fn run_setlogin(&mut self, pid: u16, space: &UserSpace, name_vaddr: u64, name_len: u64) -> (r:
        i64)
        requires
            space.wf(),
        ensures
            if name_len == 0 || name_len > 32 {
                r == errno_ret(ENAMETOOLONG) && *final(self) == *old(self)
            } else if !old(self).procs().contains_key(pid) {
                r == errno_ret(ESRCH) && *final(self) == *old(self)
            } else if old(self).processes@[pid].creds.euid != 0 {
                r == errno_ret(EPERM) && *final(self) == *old(self)
            } else if name_vaddr + name_len > old(self).abi.user_end {
                r == errno_ret(EFAULT) && *final(self) == *old(self)
            } else {
                match user_string(space@, name_vaddr as int, name_len as int) {
                    Err(e) => r == e && *final(self) == *old(self),
                    Ok(name) => {
                        let p = old(self).processes@[pid];
                        let n = final(self).processes@[pid];
                        &&& r == 0
                        &&& n == (Process { login_name: n.login_name, ..p })
                        &&& n.login_name matches Some(l) && l@ == name
                        &&& final(self).processes@ == old(self).processes@.insert(pid, n)
                    },
                }
            },
            keeps_order(*old(self), *final(self)),
            *final(self) == (Orbit { processes: final(self).processes, ..*old(self) }),
    {
        if name_len == 0 || name_len > MAX_LOGIN_NAME {
            return to_ret(ENAMETOOLONG);
        }
        let euid: u32 = match self.processes.get(&pid) {
            Some(p) => p.creds.euid,
            None => {
                return to_ret(ESRCH);
            },
        };
        if euid != 0 {
            return to_ret(EPERM);
        }
        if !user_range_ok(name_vaddr, name_len, self.abi.user_end) {
            return to_ret(EFAULT);
        }
        let name = match copy_user_path(space, name_vaddr, name_len) {
            Ok(n) => n,
            Err(e) => {
                return e;
            },
        };
        let mut p: Process = self.processes.remove(&pid).unwrap();
        p.login_name = Some(name);
        let ghost n = p;
        let _ = self.processes.insert(pid, p);
        proof {
            assert(self.processes@ =~= old(self).processes@.insert(pid, n));
            lemma_same_places(*old(self), *self);
        }
        0
    }

    /// `getlogin`: copies the login name out, without a terminator; `ENOENT`
    /// if none was set.
    pub fn run_getlogin(&self, pid: u16, space: &UserSpace, buf_vaddr: u64, buf_len: u64) -> (r: (
        i64,
        Option<UserWrite>,
    ))
        ensures
            (r.0, write_of(r.1)) == (match string_buf_check(buf_vaddr, buf_len, self.abi.user_end) {
                Some(e) => (e, None::<WriteView>),
                None => if !self.procs().contains_key(pid) {
                    (errno_ret(ESRCH), None)
                } else {
                    match self.processes@[pid].login_name {
                        None => (errno_ret(ENOENT), None),
                        Some(name) => if name@.len() > 256 {
                            (errno_ret(EIO), None)
                        } else {
                            string_out(space@, name@, buf_vaddr, buf_len)
                        },
                    }
                },
            }),
    {
        match check_string_buf(buf_vaddr, buf_len, self.abi.user_end) {
            Some(e) => {
                return (e, None);
            },
            None => {},
        }
        let p = match self.processes.get(&pid) {
            Some(p) => p,
            None => {
                return (to_ret(ESRCH), None);
            },
        };
        match &p.login_name {
            None => (to_ret(ENOENT), None),
            Some(name) => {
                if name.len() > 256 {
                    return (to_ret(EIO), None);
                }
                put_string(space, name, buf_vaddr, buf_len)
            },
        }
    }

    /// `getcwd`: copies the working directory out, without a terminator.
    pub fn run_getcwd(&self, pid: u16, space: &UserSpace, buf_vaddr: u64, buf_len: u64) -> (r: (
        i64,
        Option<UserWrite>,
    ))
        ensures
            (r.0, write_of(r.1)) == (match string_buf_check(buf_vaddr, buf_len, self.abi.user_end) {
                Some(e) => (e, None::<WriteView>),
                None => if !self.procs().contains_key(pid) {
                    (errno_ret(ESRCH), None)
                } else if self.processes@[pid].cwd@.len() > self.abi.max_path {
                    (errno_ret(EIO), None)
                } else {
                    string_out(space@, self.processes@[pid].cwd@, buf_vaddr, buf_len)
                },
            }),
    {
        match check_string_buf(buf_vaddr, buf_len, self.abi.user_end) {
            Some(e) => {
                return (e, None);
            },
            None => {},
        }
        let p = match self.processes.get(&pid) {
            Some(p) => p,
            None => {
                return (to_ret(ESRCH), None);
            },
        };
        if p.cwd.len() as u64 > self.abi.max_path {
            return (to_ret(EIO), None);
        }
        put_string(space, &p.cwd, buf_vaddr, buf_len)
    }

    /// `chdir`: makes an absolute path that names a directory the working
    /// directory.
    pub fn run_chdir(&mut self, pid: u16, space: &UserSpace, path_vaddr: u64, path_len: u64) -> (r:
        i64)
        requires
            space.wf(),
            old(self).fs_ok(),
        ensures
            match chdir_target(
                old(self).mount@,
                space@,
                path_vaddr,
                path_len,
                old(self).abi.max_path,
                old(self).abi.user_end,
            ) {
                Err(e) => r == e && *final(self) == *old(self),
                Ok(path) => if !old(self).procs().contains_key(pid) {
                    r == errno_ret(ESRCH) && *final(self) == *old(self)
                } else {
                    let p = old(self).processes@[pid];
                    let n = final(self).processes@[pid];
                    &&& r == 0
                    &&& n == (Process { cwd: n.cwd, ..p })
                    &&& n.cwd@ == path
                    &&& final(self).processes@ == old(self).processes@.insert(pid, n)
                },
            },
            keeps_order(*old(self), *final(self)),
            *final(self) == (Orbit { processes: final(self).processes, ..*old(self) }),
    {
        if path_len == 0 {
            return to_ret(EINVAL);
        }
        if path_len > self.abi.max_path {
            return to_ret(ENAMETOOLONG);
        }
        if !user_range_ok(path_vaddr, path_len, self.abi.user_end) {
            return to_ret(EFAULT);
        }
        let path = match copy_user_path(space, path_vaddr, path_len) {
            Ok(p) => p,
            Err(e) => {
                return e;
            },
        };
        if path.len() == 0 || path[0] != 0x2f {
            return to_ret(EINVAL);
        }
        match self.check_dir(&path) {
            Some(e) => {
                return e;
            },
            None => {},
        }
        if !self.processes.contains_key(&pid) {
            return to_ret(ESRCH);
        }
        let mut p: Process = self.processes.remove(&pid).unwrap();
        p.cwd = path;
        let ghost n = p;
        let _ = self.processes.insert(pid, p);
        proof {
            assert(self.processes@ =~= old(self).processes@.insert(pid, n));
            lemma_same_places(*old(self), *self);
        }
        0
    }

    /// Checks that a path names a directory.
    pub fn check_dir(&self, path: &Vec<u8>) -> (r: Option<i64>)
        requires
            self.fs_ok(),
        ensures
            r == dir_check(self.mount@, path@),
    {
        let fs = match self.mount.mounted() {
            Some(fs) => fs,
            None => {
                return Some(to_ret(EIO));
            },
        };
        let ino: u32 = match fs.open(path.as_slice()) {
            Ok(i) => i,
            Err(_) => {
                return Some(to_ret(ENOENT));
            },
        };
        let st = match fs.stat(ino) {
            Ok(s) => s,
            Err(_) => {
                return Some(to_ret(EIO));
            },
        };
        if st.st_mode & S_IFMT != S_IFDIR {
            return Some(to_ret(ENOTDIR));
        }
        None
    }
}

/// A buffer on one mapped page is mapped throughout.
pub proof fn lemma_one_page_mapped(m: Map<u64, crate::uspace::PageView>, va: u64, len: int)
    requires
        va % 4096 + len <= 4096,
        m.contains_key(crate::uspace::page_base(va as int) as u64),
    ensures
        range_mapped(m, va as int, len),
{
    let base = crate::uspace::page_base(va as int);
    assert forall|a: int|
        #![trigger crate::uspace::page_base(a)]
        va <= a < va + len implies m.contains_key(crate::uspace::page_base(a) as u64) by {
        let d = a - base;
        assert(base % 4096 == 0);
        assert(0 <= d < 4096);
        assert(a % 4096 == d);
    }
}

/// `getgroups` after a successful `setgroups` writes the very bytes that were
/// read, so reading them back gives the list that was set.
pub proof fn law_groups_round_trip(
    m: Map<u64, crate::uspace::PageView>,
    buf_va: u64,
    count: u64,
    end: u64,
    max: u64,
    out_va: u64,
)
    requires
        0 < count <= max <= 0x1000_0000,
        setgroups_list(m, buf_va, count, end) is Ok,
        user_page(m, out_va, (4 * count) as u64, end) is Ok,
    ensures
        ({
            let gs = setgroups_list(m, buf_va, count, end)->Ok_0;
            let out = getgroups_out(gs, max, m, out_va, count, end);
            &&& out.0 == count
            &&& out.1 is Some
            &&& forall|i: int| 0 <= i < count ==> #[trigger] word_at(out.1->0.bytes, i) == gs[i]
        }),
{
    let gs = setgroups_list(m, buf_va, count, end)->Ok_0;
    crate::uspace::law_words_round_trip(gs);
}

/// Setting an id with privilege sets all three; without it, only the effective
/// one, and only to the real or the saved one. The other kind of id, and what is
/// refused, stays.
pub proof fn law_ids_are_set_as_posix_says(c: Creds, id: u32)
    ensures
        c.euid == 0 ==> (setuid_creds(c, id) matches Some(d) && d.uid == id && d.euid == id && d.suid
            == id && d.gid == c.gid && d.egid == c.egid && d.sgid == c.sgid),
        c.euid == 0 ==> (setgid_creds(c, id) matches Some(d) && d.gid == id && d.egid == id && d.sgid
            == id && d.uid == c.uid && d.euid == c.euid && d.suid == c.suid),
        c.euid != 0 ==> (setuid_creds(c, id) is Some <==> id == c.uid || id == c.suid),
        c.euid != 0 ==> (setuid_creds(c, id) matches Some(d) ==> d.euid == id),
        c.euid != 0 ==> (setgid_creds(c, id) is Some <==> id == c.gid || id == c.sgid),
        c.euid != 0 ==> (setgid_creds(c, id) matches Some(d) ==> d.egid == id),
{
}

/// A change of ids or permissions reaches every thread of the process, in the
/// parts that change, and no other thread.
pub proof fn law_a_stamp_reaches_every_thread(
    threads: Map<u32, Thread>,
    members: Set<u32>,
    s: Stamp,
    k: u32,
)
    requires
        threads.contains_key(k),
    ensures
        ({
            let r = threads_stamped(threads, members, s);
            let (t, v) = (threads[k], r[k]);
            &&& r.contains_key(k)
            &&& !members.contains(k) ==> v == t
            &&& members.contains(k) && s.uids ==> v.creds.uid == s.creds.uid && v.creds.euid
                == s.creds.euid && v.creds.suid == s.creds.suid
            &&& members.contains(k) && !s.uids ==> v.creds.uid == t.creds.uid && v.creds.euid
                == t.creds.euid && v.creds.suid == t.creds.suid
            &&& members.contains(k) && s.gids ==> v.creds.gid == s.creds.gid && v.creds.egid
                == s.creds.egid && v.creds.sgid == s.creds.sgid
            &&& members.contains(k) && !s.gids ==> v.creds.gid == t.creds.gid && v.creds.egid
                == t.creds.egid && v.creds.sgid == t.creds.sgid
            &&& members.contains(k) && s.perms is Some ==> v.permissions == s.perms->0
            &&& members.contains(k) && s.perms is None ==> v.permissions == t.permissions
            &&& v == (Thread { creds: v.creds, permissions: v.permissions, ..t })
        }),
{
}

/// A string is handed out whole or not at all: it is refused with 34 exactly if
/// the buffer is too small for it.
pub proof fn law_a_string_is_handed_out_whole(
    m: Map<u64, crate::uspace::PageView>,
    s: Seq<u8>,
    buf_va: u64,
    buf_len: u64,
)
    ensures
        ({
            let (r, w) = string_out(m, s, buf_va, buf_len);
            let page = (buf_va - buf_va % 4096) as u64;
            &&& s.len() > buf_len ==> r == -34 && w is None
            &&& s.len() <= buf_len && m.contains_key(page) ==> r == s.len() as i64 && (w matches Some(x)
                && x.bytes == s && x.page_pa == m[page].pa && x.off == buf_va % 4096)
            &&& s.len() <= buf_len && !m.contains_key(page) ==> r == -14 && w is None
        }),
{
}

/// A buffer for a string is sound exactly if it is not empty, no longer than a
/// page, in the user's half and on one page.
pub proof fn law_string_buffers_lie_on_one_page(buf_va: u64, buf_len: u64, end: u64)
    ensures
        ({
            let r = string_buf_check(buf_va, buf_len, end);
            &&& r is None <==> 0 < buf_len && buf_va + buf_len <= end && buf_va % 4096 + buf_len <= 4096
            &&& r is Some && 0 < buf_len <= 4096 && buf_va + buf_len > end ==> r->0 == -14
            &&& r is Some && !(0 < buf_len <= 4096 && buf_va + buf_len > end) ==> r->0 == -22
        }),
{
}

/// Asked with no room, the number of groups comes back; with room for all, the
/// groups themselves. Too little room is refused with 34.
pub proof fn law_groups_are_handed_out_whole(
    groups: Seq<u32>,
    max: u64,
    m: Map<u64, crate::uspace::PageView>,
    buf_va: u64,
    count: u64,
    end: u64,
)
    requires
        groups.len() <= max <= 0x1000_0000,
    ensures
        ({
            let (r, w) = getgroups_out(groups, max, m, buf_va, count, end);
            &&& count == 0 ==> r == groups.len() && w is None
            &&& 0 < count <= max && count < groups.len() ==> r == -34 && w is None
            &&& count > max ==> r == -22 && w is None
            &&& w matches Some(x) ==> r == groups.len() && x.bytes == words_le(groups)
            &&& 0 < groups.len() <= count <= max && user_page(
                m,
                buf_va,
                (4 * groups.len()) as u64,
                end,
            ) is Ok ==> w is Some
            &&& w is None ==> r <= groups.len()
        }),
{
}

/// The groups that are set are the words in the buffer, in order.
pub proof fn law_groups_are_read_in_order(
    m: Map<u64, crate::uspace::PageView>,
    buf_va: u64,
    count: u64,
    end: u64,
    i: int,
)
    requires
        0 <= i < count <= 0x1000_0000,
        setgroups_list(m, buf_va, count, end) is Ok,
    ensures
        ({
            let gs = setgroups_list(m, buf_va, count, end)->Ok_0;
            let b = bytes_at(m, buf_va as int, 4 * count);
            &&& gs.len() == count
            &&& gs[i] == b[4 * i] + 256 * b[4 * i + 1] + 65536 * b[4 * i + 2] + 16777216 * b[4 * i + 3]
            &&& setgroups_list(m, buf_va, 0, end) == Ok::<Seq<u32>, i64>(Seq::empty())
        }),
{
    let b = bytes_at(m, buf_va as int, 4 * count);
    crate::uspace::law_words_are_little_endian(
        b[4 * i],
        b[4 * i + 1],
        b[4 * i + 2],
        b[4 * i + 3],
    );
}

/// A directory can be entered exactly if its path is absolute, names something
/// and that is a directory. The errors are 2 for nothing there and 20 for
/// something else.
pub proof fn law_only_directories_are_entered(
    fs: Option<crate::tar::Tarfs>,
    m: Map<u64, crate::uspace::PageView>,
    va: u64,
    len: u64,
    max: u64,
    end: u64,
)
    ensures
        ({
            let r = chdir_target(fs, m, va, len, max, end);
            &&& r matches Ok(p) ==> p == bytes_at(m, va as int, len as int) && p.len() == len && 0 < len
                <= max && p[0] == 0x2f && va + len <= end && fs is Some && (find_path(
                fs->0@,
                p,
            ) matches Some(i) && inode_entry(fs->0@, i as u32) is Some && stat_of(
                inode_entry(fs->0@, i as u32)->0,
                i as u32,
            ).st_mode & S_IFMT == S_IFDIR)
            &&& len == 0 ==> refused(r, 22)
            &&& len > max && len > 0 ==> refused(r, 36)
            &&& 0 < len <= max && va + len > end ==> refused(r, 14)
        }),
        fs is Some && find_path(fs->0@, bytes_at(m, va as int, len as int)) is None ==> (dir_check(
            fs,
            bytes_at(m, va as int, len as int),
        ) matches Some(e) && e == -2),
{
}

/// A directory that is there, named from the root in legible text, is
/// entered; a name that is not from the root is refused with 22, a file with
/// 20, and without a filesystem nothing is found.
pub proof fn law_a_directory_is_entered_or_refused(
    fs: Option<crate::tar::Tarfs>,
    m: Map<u64, crate::uspace::PageView>,
    va: u64,
    len: u64,
    max: u64,
    end: u64,
)
    requires
        0 < len <= max,
        va + len <= end,
        user_string(m, va as int, len as int) is Ok,
    ensures
        ({
            let r = chdir_target(fs, m, va, len, max, end);
            let p = bytes_at(m, va as int, len as int);
            let rooted = p[0] == '/' as u8;
            let i = find_path(fs->0@, p);
            let e = inode_entry(fs->0@, i->0 as u32);
            &&& !rooted ==> refused(r, 22)
            &&& rooted && fs is None ==> refused(r, 5)
            &&& rooted && fs is Some && i is None ==> refused(r, 2)
            &&& rooted && fs is Some && i is Some && e is Some && stat_of(
                e->0,
                i->0 as u32,
            ).st_mode & 0o170000u32 != 0o040000 ==> refused(r, 20)
            &&& rooted && fs is Some && i is Some && e is Some && stat_of(
                e->0,
                i->0 as u32,
            ).st_mode & 0o170000u32 == 0o040000 ==> r == Ok::<Seq<u8>, i64>(p)
        }),
{
}

/// Groups go to the place behind the buffer, and a buffer that is not there
/// is refused for its own reason. With no groups there is nothing to hand
/// out; more than there can be are an input error.
pub proof fn law_groups_go_where_they_are_asked_for(
    groups: Seq<u32>,
    max: u64,
    m: Map<u64, crate::uspace::PageView>,
    buf_va: u64,
    count: u64,
    end: u64,
)
    ensures
        ({
            let (r, w) = getgroups_out(groups, max, m, buf_va, count, end);
            let place = user_page(m, buf_va, (4 * groups.len()) as u64, end);
            &&& groups.len() > max ==> r == -5 && w is None
            &&& groups.len() == 0 && count <= max ==> r == 0 && w is None
            &&& w matches Some(x) ==> place == Ok::<(u64, u64), i64>((x.page_pa, x.off))
            &&& 0 < groups.len() <= count <= max ==> (place matches Err(e) ==> r == e && w is None)
        }),
        setgroups_list(m, buf_va, count, end) is Ok <==> count == 0 || user_page(
            m,
            buf_va,
            (4 * count) as u64,
            end,
        ) is Ok,
        count > 0 ==> (user_page(m, buf_va, (4 * count) as u64, end) matches Err(e)
            ==> setgroups_list(m, buf_va, count, end) == Err::<Seq<u32>, i64>(e)),
{
}

} // verus!
