//! Opening, inspecting and seeking files.

#[allow(unused_imports)]
use crate::abi::{errno_ret, refused};
use crate::abi::{to_ret, EBADF, EFAULT, EINVAL, EIO, EMFILE, ENOENT, ENOTDIR, ESRCH};
use crate::fs::{FsErr, Inode, Stat, S_IFMT, S_IFREG};
use crate::handle::{Fd, Handle, OpenFile, ProcessHandles};
#[allow(unused_imports)]
use crate::handle::{HandlesView, Slot, FD_MAX};
use crate::orbit::Orbit;
#[allow(unused_imports)]
use crate::tar::{find_path, inode_entry, size_of_entry, stat_of, Tarfs};
use crate::uspace::{copy_bytes, copy_user_path, UserSpace};
#[allow(unused_imports)]
use crate::uspace::{on_one_page, page_dst, user_string, PageView};
use crate::work::{FsOpenReq, FsReaddirReq, FsStatReq};
use vstd::prelude::*;

verus! {

broadcast use {vstd::laws_cmp::group_laws_cmp, vstd::std_specs::btree::group_btree_axioms};

pub const SEEK_SET: u32 = 0;

pub const SEEK_CUR: u32 = 1;

pub const SEEK_END: u32 = 2;

/// A relative path without its leading `.` components.
pub open spec fn strip_dots(s: Seq<u8>) -> Seq<u8>
    decreases s.len(),
{
    if s.len() == 1 && s[0] == 0x2e {
        Seq::empty()
    } else if s.len() >= 2 && s[0] == 0x2e && s[1] == 0x2f {
        strip_dots(s.skip(2))
    } else {
        s
    }
}

/// `path` against the working directory: an absolute path stands for itself, a
/// relative one is joined to the directory with one slash between them.
pub open spec fn resolved(cwd: Seq<u8>, path: Seq<u8>) -> Seq<u8> {
    if path.len() > 0 && path[0] == 0x2f {
        path
    } else {
        let tail = strip_dots(path);
        if tail.len() == 0 {
            cwd
        } else if cwd.len() > 0 && cwd.last() == 0x2f {
            cwd + tail
        } else {
            cwd + seq![0x2fu8] + tail
        }
    }
}

/// The inode and metadata that `path` names.
pub open spec fn lookup_path(fs: Option<Tarfs>, path: Seq<u8>) -> Result<(Inode, Stat), i64> {
    match fs {
        None => Err(errno_ret(EIO)),
        Some(t) => match find_path(t@, path) {
            None => Err(errno_ret(ENOENT)),
            Some(i) => match inode_entry(t@, i as u32) {
                None => Err(errno_ret(EIO)),
                Some(e) => Ok((i as u32, stat_of(e, i as u32))),
            },
        },
    }
}

/// Where a record that is copied out goes, and the record.
#[derive(Clone, Copy, Debug, PartialEq, Eq, Structural)]
pub struct StatCopy {
    pub stat: Stat,
    pub page_pa: u64,
    pub off: u64,
}

/// The absolute offset that a seek asks for. `size` is the file's size, or
/// `None` if the filesystem does not know it.
pub open spec fn seek_target(of: OpenFile, size: Option<u64>, offset: i64, whence: u32) -> Result<
    i64,
    i64,
> {
    if !of.is_regular {
        Err(errno_ret(EBADF))
    } else {
        let target: Result<int, i64> = if whence == SEEK_SET {
            Ok(offset as int)
        } else if whence == SEEK_CUR {
            Ok((of.offset as i64) + offset)
        } else if whence == SEEK_END {
            match size {
                Some(s) => Ok((s as i64) + offset),
                None => Err(errno_ret(EIO)),
            }
        } else {
            Err(errno_ret(EINVAL))
        };
        match target {
            Err(e) => Err(e),
            Ok(t) => if 0 <= t <= i64::MAX {
                Ok(t as i64)
            } else {
                Err(errno_ret(EINVAL))
            },
        }
    }
}

/// Kind of object behind a handle.
#[derive(Clone, Copy, Debug, PartialEq, Eq, Structural)]
pub enum HandleKind {
    NetChannel,
    File,
    Stdin,
    Stdout,
    Stderr,
    EventFd,
}

/// State that the kernel publishes in a channel's header.
#[derive(Clone, Copy, Debug, PartialEq, Eq, Structural)]
pub struct ChannelState {
    pub peer_addr: u32,
    pub peer_port: u32,
    pub state: u32,
}

/// What `ch_inspect` tells about a handle.
#[derive(Clone, Copy, Debug, PartialEq, Eq, Structural)]
pub struct ChInfo {
    pub kind: HandleKind,
    pub region_va: u64,
    pub region_size: u64,
    pub channel: ChannelState,
    pub flags: u32,
}

/// An information record and where it goes.
#[derive(Clone, Copy, Debug, PartialEq, Eq, Structural)]
pub struct ChInfoCopy {
    pub info: ChInfo,
    pub page_pa: u64,
    pub off: u64,
}

pub open spec fn no_channel() -> ChannelState {
    ChannelState { peer_addr: 0, peer_port: 0, state: 0 }
}

/// What there is to tell about a handle. A revoked region shows no state.
pub open spec fn info_of(
    h: Handle,
    regions: Map<u64, crate::shared_user_ptr::Region>,
    channel: ChannelState,
) -> ChInfo {
    match h {
        Handle::NetChannel(sup) => ChInfo {
            kind: HandleKind::NetChannel,
            region_va: regions[sup.pa].user_va,
            region_size: regions[sup.pa].len,
            channel: if regions[sup.pa].revoked {
                no_channel()
            } else {
                channel
            },
            flags: 0,
        },
        Handle::File(_) => ChInfo {
            kind: HandleKind::File,
            region_va: 0,
            region_size: 0,
            channel: no_channel(),
            flags: 0,
        },
        Handle::Stdin => ChInfo {
            kind: HandleKind::Stdin,
            region_va: 0,
            region_size: 0,
            channel: no_channel(),
            flags: 0,
        },
        Handle::Stdout => ChInfo {
            kind: HandleKind::Stdout,
            region_va: 0,
            region_size: 0,
            channel: no_channel(),
            flags: 0,
        },
        Handle::Stderr => ChInfo {
            kind: HandleKind::Stderr,
            region_va: 0,
            region_size: 0,
            channel: no_channel(),
            flags: 0,
        },
        Handle::EventFd(slot) => ChInfo {
            kind: HandleKind::EventFd,
            region_va: regions[slot.region.pa].user_va,
            region_size: regions[slot.region.pa].len,
            channel: no_channel(),
            flags: if regions[slot.region.pa].revoked {
                0
            } else {
                slot.flags
            },
        },
    }
}

/// The region a handle refers to is live.
pub open spec fn handle_live(h: Handle, regions: Map<u64, crate::shared_user_ptr::Region>) -> bool {
    match h {
        Handle::NetChannel(sup) => sup.live(regions) && crate::shared_user_ptr::SharedUserPtr::aligned(
            regions[sup.pa].user_va,
            regions[sup.pa].len,
        ),
        Handle::EventFd(slot) => slot.region.live(regions)
            && crate::shared_user_ptr::SharedUserPtr::aligned(
            regions[slot.region.pa].user_va,
            regions[slot.region.pa].len,
        ),
        _ => true,
    }
}

impl Orbit {
    /// Every handle table is well formed.
    pub open spec fn handles_ok(self) -> bool {
        forall|pid: u16| #[trigger]
            self.process_handles@.contains_key(pid) ==> self.process_handles@[pid]@.wf()
    }

    /// Every handle that refers to a shared region refers to a live one.
    pub open spec fn handle_regions_live(self) -> bool {
        forall|pid: u16, fd: Fd|
            #![trigger self.handle_tables()[pid].slots[fd]]
            self.handle_tables().contains_key(pid) && self.handle_tables()[pid].slots.contains_key(
                fd,
            ) ==> handle_live(self.handle_tables()[pid].slots[fd].handle, self.regions@)
    }

    /// The handles of `pid`; none if it has no table.
    pub open spec fn handles_of(self, pid: u16) -> HandlesView {
        if self.process_handles@.contains_key(pid) {
            self.process_handles@[pid]@
        } else {
            HandlesView { slots: Map::empty(), next_id: 0 }
        }
    }

    /// The open file behind a handle.
    pub open spec fn file_of(self, pid: u16, fd: Fd) -> Option<OpenFile> {
        if self.handles_of(pid).slots.contains_key(fd) {
            match self.handles_of(pid).slots[fd].handle {
                Handle::File(of) => Some(of),
                _ => None,
            }
        } else {
            None
        }
    }

    /// Working directory of `pid`; the root if it is gone.
    pub open spec fn cwd_of(self, pid: u16) -> Seq<u8> {
        if self.procs().contains_key(pid) {
            self.processes@[pid].cwd@
        } else {
            seq![0x2fu8]
        }
    }

    /// Resolves a path against the working directory of `pid`.
    pub fn resolve_fs_path(&self, pid: u16, path: &Vec<u8>) -> (r: Vec<u8>)
        ensures
            r@ == resolved(self.cwd_of(pid), path@),
    {
        if path.len() > 0 && path[0] == 0x2f {
            return copy_bytes(path);
        }
        let n: usize = path.len();
        let mut from: usize = 0;
        proof {
            assert(path@.skip(0) =~= path@);
        }
        loop
            invariant
                from <= n,
                n == path@.len(),
                strip_dots(path@) == strip_dots(path@.skip(from as int)),
            ensures
                from <= n,
                strip_dots(path@) == path@.skip(from as int),
            decreases n - from,
        {
            let ghost t = path@.skip(from as int);
            if n - from == 1 && path[from] == 0x2e {
                proof {
                    assert(strip_dots(t) == Seq::<u8>::empty());
                    assert(path@.skip(n as int) =~= Seq::<u8>::empty());
                }
                from = n;
                break ;
            } else if n - from >= 2 && path[from] == 0x2e && path[from + 1] == 0x2f {
                proof {
                    assert(t.skip(2) =~= path@.skip(from + 2));
                }
                from = from + 2;
            } else {
                break ;
            }
        }
        let ghost tail = strip_dots(path@);
        let mut out: Vec<u8> = match self.processes.get(&pid) {
            Some(p) => copy_bytes(&p.cwd),
            None => {
                let mut v: Vec<u8> = Vec::new();
                v.push(0x2f);
                proof {
                    assert(v@ =~= seq![0x2fu8]);
                }
                v
            },
        };
        let ghost base = out@;
        proof {
            assert(base == self.cwd_of(pid));
        }
        if from < n {
            if out.len() == 0 || out[out.len() - 1] != 0x2f {
                out.push(0x2f);
            }
            let ghost head = out@;
            let mut i: usize = from;
            while i < n
                invariant
                    from <= i <= n,
                    n == path@.len(),
                    out@ == head + path@.subrange(from as int, i as int),
                decreases n - i,
            {
                out.push(path[i]);
                proof {
                    assert(path@.subrange(from as int, i + 1) =~= path@.subrange(
                        from as int,
                        i as int,
                    ).push(path@[i as int]));
                    assert(out@ =~= head + path@.subrange(from as int, i + 1));
                }
                i = i + 1;
            }
            proof {
                assert(path@.subrange(from as int, n as int) =~= tail);
                assert(out@ =~= resolved(base, path@));
            }
        }
        out
    }

    /// Finds the inode and metadata of a path.
    pub fn lookup(&self, path: &Vec<u8>) -> (r: Result<(Inode, Stat), i64>)
        requires
            self.fs_ok(),
        ensures
            r == lookup_path(self.mount@, path@),
    {
        let fs = match self.mount.mounted() {
            Some(fs) => fs,
            None => {
                return Err(to_ret(EIO));
            },
        };
        let ino: u32 = match fs.open(path.as_slice()) {
            Ok(i) => i,
            Err(_) => {
                return Err(to_ret(ENOENT));
            },
        };
        match fs.stat(ino) {
            Ok(s) => Ok((ino, s)),
            Err(_) => Err(to_ret(EIO)),
        }
    }

    /// What a path argument in user memory names.
    pub open spec fn named(self, pid: u16, m: Map<u64, PageView>, va: u64, len: u64) -> Result<
        (Inode, Stat),
        i64,
    > {
        if self.mount@ is None {
            Err(errno_ret(EIO))
        } else {
            match user_string(m, va as int, len as int) {
                Err(e) => Err(e),
                Ok(p) => lookup_path(self.mount@, resolved(self.cwd_of(pid), p)),
            }
        }
    }

    /// Looks up a path argument in user memory.
    pub fn find_named(&self, pid: u16, space: &UserSpace, va: u64, len: u64) -> (r: Result<
        (Inode, Stat),
        i64,
    >)
        requires
            self.fs_ok(),
            space.wf(),
            va + len <= u64::MAX,
        ensures
            r == self.named(pid, space@, va, len),
    {
        if self.mount.mounted().is_none() {
            return Err(to_ret(EIO));
        }
        let raw = match copy_user_path(space, va, len) {
            Ok(p) => p,
            Err(e) => {
                return Err(e);
            },
        };
        let path = self.resolve_fs_path(pid, &raw);
        self.lookup(&path)
    }

    /// The verdict of the access rules on a process that may be gone.
    pub fn vaccess_pid(&self, pid: u16, verdict: Result<(), i64>) -> (r: Result<(), i64>)
        ensures
            r == (if self.procs().contains_key(pid) {
                verdict
            } else {
                Err(errno_ret(ESRCH))
            }),
    {
        if self.processes.contains_key(&pid) {
            verdict
        } else {
            Err(to_ret(ESRCH))
        }
    }

    /// `fs_open`: resolves the path, asks the access rules, and puts the file
    /// into the handle table. `verdict` is what the access rules say of reading
    /// the inode that [`find_named`](Self::find_named) finds, for the
    /// credentials of `pid`.
    pub fn run_fs_open_req(
        &mut self,
        req: FsOpenReq,
        pid: u16,
        space: &UserSpace,
        verdict: Result<(), i64>,
    ) -> (r: i64)
        requires
            old(self).fs_ok(),
            old(self).handles_ok(),
            space.wf(),
            req.path_vaddr + req.path_len <= u64::MAX,
        ensures
            final(self).handles_ok(),
            match old(self).named(pid, space@, req.path_vaddr, req.path_len) {
                Err(e) => r == e && *final(self) == *old(self),
                Ok((ino, st)) => if !old(self).procs().contains_key(pid) {
                    r == errno_ret(ESRCH) && *final(self) == *old(self)
                } else {
                    match verdict {
                        Err(e) => r == e && *final(self) == *old(self),
                        Ok(()) => {
                            let h = old(self).handles_of(pid);
                            let of = OpenFile {
                                inode: ino,
                                offset: 0,
                                dir_cursor: 0,
                                is_regular: st.st_mode & S_IFMT == S_IFREG,
                            };
                            &&& r == (if h.next_id > FD_MAX {
                                errno_ret(EMFILE)
                            } else {
                                h.next_id as i64
                            })
                            &&& final(self).process_handles@ == old(self).process_handles@.insert(
                                pid,
                                final(self).process_handles@[pid],
                            )
                            &&& final(self).handles_of(pid) == h.inserted(
                                Slot { handle: Handle::File(of), cloexec: false, nonblock: false },
                            )
                        },
                    }
                },
            },
            *final(self) == (Orbit { process_handles: final(self).process_handles, ..*old(self) }),
    {
        let (inode, stat) = match self.find_named(pid, space, req.path_vaddr, req.path_len) {
            Ok(x) => x,
            Err(e) => {
                return e;
            },
        };
        match self.vaccess_pid(pid, verdict) {
            Ok(()) => {},
            Err(e) => {
                return e;
            },
        }
        let is_regular: bool = stat.st_mode & S_IFMT == S_IFREG;
        let of = OpenFile { inode, offset: 0, dir_cursor: 0, is_regular };
        match self.add_handle(pid, Handle::File(of), false, false) {
            Some(fd) => fd as i64,
            None => to_ret(EMFILE),
        }
    }

    /// Adds a handle to the table of `pid`, which is made if there is none.
    pub fn add_handle(&mut self, pid: u16, handle: Handle, cloexec: bool, nonblock: bool) -> (r:
        Option<Fd>)
        requires
            old(self).handles_ok(),
        ensures
            final(self).handles_ok(),
            r == (if old(self).handles_of(pid).next_id > FD_MAX {
                None::<Fd>
            } else {
                Some(old(self).handles_of(pid).next_id)
            }),
            final(self).process_handles@ == old(self).process_handles@.insert(
                pid,
                final(self).process_handles@[pid],
            ),
            final(self).handles_of(pid) == old(self).handles_of(pid).inserted(
                Slot { handle, cloexec, nonblock },
            ),
            *final(self) == (Orbit { process_handles: final(self).process_handles, ..*old(self) }),
    {
        let mut ph: ProcessHandles = match self.process_handles.remove(&pid) {
            Some(p) => p,
            None => ProcessHandles::new(),
        };
        let r = ph.insert_with_flags(handle, cloexec, nonblock);
        let ghost n = ph;
        let _ = self.process_handles.insert(pid, ph);
        proof {
            assert(self.process_handles@ =~= old(self).process_handles@.insert(pid, n));
        }
        r
    }

    /// `fs_stat`: the metadata of a path and where it goes.
    pub fn run_fs_stat_req(&self, req: FsStatReq, pid: u16, space: &UserSpace) -> (r: Result<
        StatCopy,
        i64,
    >)
        requires
            self.fs_ok(),
            space.wf(),
            req.path_vaddr + req.path_len <= u64::MAX,
            self.abi.stat_size <= 4096,
        ensures
            r == (match self.named(pid, space@, req.path_vaddr, req.path_len) {
                Err(e) => Err::<StatCopy, i64>(e),
                Ok((ino, stat)) => if !on_one_page(req.stat_vaddr, self.abi.stat_size as int) {
                    Err(errno_ret(EINVAL))
                } else {
                    match page_dst(space@, req.stat_vaddr) {
                        Err(e) => Err(e),
                        Ok((page_pa, off)) => Ok(StatCopy { stat, page_pa, off }),
                    }
                },
            }),
    {
        let (_inode, stat) = match self.find_named(pid, space, req.path_vaddr, req.path_len) {
            Ok(x) => x,
            Err(e) => {
                return Err(e);
            },
        };
        if req.stat_vaddr % 4096 + self.abi.stat_size > 4096 {
            return Err(to_ret(EINVAL));
        }
        match space.find_page(req.stat_vaddr) {
            Err(e) => Err(e),
            Ok((page_pa, off)) => Ok(StatCopy { stat, page_pa, off }),
        }
    }

    /// `fs_fstat`: the metadata of an open file and where it goes.
    pub fn run_fs_fstat(&self, pid: u16, space: &UserSpace, fd: Fd, stat_vaddr: u64) -> (r: Result<
        StatCopy,
        i64,
    >)
        requires
            self.fs_ok(),
        ensures
            r == (if stat_vaddr + self.abi.stat_size > self.abi.user_end {
                Err::<StatCopy, i64>(errno_ret(EFAULT))
            } else if !on_one_page(stat_vaddr, self.abi.stat_size as int) {
                Err(errno_ret(EINVAL))
            } else {
                match self.file_of(pid, fd) {
                    None => Err(errno_ret(EBADF)),
                    Some(of) => match self.mount@ {
                        None => Err(errno_ret(EIO)),
                        Some(t) => match inode_entry(t@, of.inode) {
                            None => Err(errno_ret(EIO)),
                            Some(e) => match page_dst(space@, stat_vaddr) {
                                Err(x) => Err(x),
                                Ok((page_pa, off)) => Ok(
                                    StatCopy { stat: stat_of(e, of.inode), page_pa, off },
                                ),
                            },
                        },
                    },
                }
            }),
    {
        if !crate::abi::user_range_ok(stat_vaddr, self.abi.stat_size, self.abi.user_end) {
            return Err(to_ret(EFAULT));
        }
        if self.abi.stat_size > 4096 || stat_vaddr % 4096 + self.abi.stat_size > 4096 {
            return Err(to_ret(EINVAL));
        }
        let of = match self.open_file(pid, fd) {
            Some(of) => of,
            None => {
                return Err(to_ret(EBADF));
            },
        };
        let fs = match self.mount.mounted() {
            Some(fs) => fs,
            None => {
                return Err(to_ret(EIO));
            },
        };
        let stat = match fs.stat(of.inode) {
            Ok(s) => s,
            Err(_) => {
                return Err(to_ret(EIO));
            },
        };
        match space.find_page(stat_vaddr) {
            Err(e) => Err(e),
            Ok((page_pa, off)) => Ok(StatCopy { stat, page_pa, off }),
        }
    }

    /// The open file behind a handle.
    pub fn open_file(&self, pid: u16, fd: Fd) -> (r: Option<OpenFile>)
        ensures
            r == self.file_of(pid, fd),
    {
        let ph = match self.process_handles.get(&pid) {
            Some(p) => p,
            None => {
                return None;
            },
        };
        match ph.get(fd) {
            Some(Handle::File(of)) => Some(*of),
            _ => None,
        }
    }

    /// Replaces the open file behind a handle that refers to one.
    pub fn set_open_file(&mut self, pid: u16, fd: Fd, of: OpenFile)
        requires
            old(self).handles_ok(),
        ensures
            final(self).handles_ok(),
            old(self).file_of(pid, fd) is None ==> *final(self) == *old(self),
            old(self).file_of(pid, fd) is Some ==> {
                let h = old(self).handles_of(pid);
                &&& final(self).process_handles@ == old(self).process_handles@.insert(
                    pid,
                    final(self).process_handles@[pid],
                )
                &&& final(self).handles_of(pid) == h.replaced(
                    fd,
                    Slot { handle: Handle::File(of), ..h.slots[fd] },
                )
            },
            *final(self) == (Orbit { process_handles: final(self).process_handles, ..*old(self) }),
    {
        if self.open_file(pid, fd).is_none() {
            return ;
        }
        let mut ph: ProcessHandles = self.process_handles.remove(&pid).unwrap();
        let _ = ph.set(fd, Handle::File(of));
        let ghost n = ph;
        let _ = self.process_handles.insert(pid, ph);
        proof {
            assert(self.process_handles@ =~= old(self).process_handles@.insert(pid, n));
        }
    }

    /// Size of an open file, if the filesystem knows it.
    pub open spec fn file_size(self, ino: Inode) -> Option<u64> {
        match self.mount@ {
            None => None,
            Some(t) => match inode_entry(t@, ino) {
                None => None,
                Some(e) => Some(size_of_entry(e)),
            },
        }
    }

    pub fn get_file_size(&self, ino: Inode) -> (r: Option<u64>)
        requires
            self.fs_ok(),
        ensures
            r == self.file_size(ino),
            r matches Some(s) ==> s < 0x10_0000_0000,
    {
        match self.mount.mounted() {
            Some(fs) => {
                proof {
                    fs.lemma_entries_small();
                    if 1 <= ino <= fs@.len() {
                        assert(crate::tar::entry_small(fs@[ino - 1]));
                    }
                }
                match fs.size(ino) {
                    Ok(s) => Some(s),
                    Err(_) => None,
                }
            },
            None => None,
        }
    }

    /// `fs_seek`: moves the offset of an open file and returns it.
    pub fn run_fs_seek(&mut self, pid: u16, fd: Fd, offset: i64, whence: u32) -> (r: i64)
        requires
            old(self).fs_ok(),
            old(self).handles_ok(),
        ensures
            final(self).handles_ok(),
            match old(self).file_of(pid, fd) {
                None => r == errno_ret(EBADF) && *final(self) == *old(self),
                Some(of) => match seek_target(
                    of,
                    old(self).file_size(of.inode),
                    offset,
                    whence,
                ) {
                    Err(e) => r == e && *final(self) == *old(self),
                    Ok(t) => {
                        let h = old(self).handles_of(pid);
                        &&& r == t
                        &&& final(self).process_handles@ == old(self).process_handles@.insert(
                            pid,
                            final(self).process_handles@[pid],
                        )
                        &&& final(self).handles_of(pid) == h.replaced(
                            fd,
                            Slot {
                                handle: Handle::File(OpenFile { offset: t as u64, ..of }),
                                ..h.slots[fd]
                            },
                        )
                    },
                },
            },
            *final(self) == (Orbit { process_handles: final(self).process_handles, ..*old(self) }),
    {
        let of = match self.open_file(pid, fd) {
            Some(of) => of,
            None => {
                return to_ret(EBADF);
            },
        };
        if !of.is_regular {
            return to_ret(EBADF);
        }
        let target: i64 = if whence == SEEK_SET {
            offset
        } else if whence == SEEK_CUR {
            match (of.offset as i64).checked_add(offset) {
                Some(n) => n,
                None => {
                    return to_ret(EINVAL);
                },
            }
        } else if whence == SEEK_END {
            let size: u64 = match self.get_file_size(of.inode) {
                Some(s) => s,
                None => {
                    return to_ret(EIO);
                },
            };
            match (size as i64).checked_add(offset) {
                Some(n) => n,
                None => {
                    return to_ret(EINVAL);
                },
            }
        } else {
            return to_ret(EINVAL);
        };
        if target < 0 {
            return to_ret(EINVAL);
        }
        let mut n = of;
        n.offset = target as u64;
        self.set_open_file(pid, fd, n);
        target
    }

    /// `ch_inspect`: what there is to tell about a handle and where it goes.
    /// `channel` is what the channel's header holds.
    pub fn run_ch_inspect_req(
        &self,
        pid: u16,
        space: &UserSpace,
        fd: Fd,
        info_vaddr: u64,
        channel: ChannelState,
    ) -> (r: Result<ChInfoCopy, i64>)
        requires
            self.handle_regions_live(),
        ensures
            r == (if info_vaddr + self.abi.ch_info_size > self.abi.user_end {
                Err::<ChInfoCopy, i64>(errno_ret(EFAULT))
            } else if !on_one_page(info_vaddr, self.abi.ch_info_size as int) {
                Err(errno_ret(EINVAL))
            } else if !self.handles_of(pid).slots.contains_key(fd) {
                Err(errno_ret(EBADF))
            } else {
                match page_dst(space@, info_vaddr) {
                    Err(e) => Err(e),
                    Ok((page_pa, off)) => Ok(
                        ChInfoCopy {
                            info: info_of(
                                self.handles_of(pid).slots[fd].handle,
                                self.regions@,
                                channel,
                            ),
                            page_pa,
                            off,
                        },
                    ),
                }
            }),
    {
        if !crate::abi::user_range_ok(info_vaddr, self.abi.ch_info_size, self.abi.user_end) {
            return Err(to_ret(EFAULT));
        }
        if self.abi.ch_info_size > 4096 || info_vaddr % 4096 + self.abi.ch_info_size > 4096 {
            return Err(to_ret(EINVAL));
        }
        let ph = match self.process_handles.get(&pid) {
            Some(p) => p,
            None => {
                return Err(to_ret(EBADF));
            },
        };
        let h = match ph.get(fd) {
            Some(h) => *h,
            None => {
                return Err(to_ret(EBADF));
            },
        };
        proof {
            assert(self.handle_tables().contains_key(pid));
            assert(handle_live(self.handle_tables()[pid].slots[fd].handle, self.regions@));
        }
        let quiet = ChannelState { peer_addr: 0, peer_port: 0, state: 0 };
        let info: ChInfo = match h {
            Handle::NetChannel(sup) => ChInfo {
                kind: HandleKind::NetChannel,
                region_va: sup.user_va(&self.regions),
                region_size: sup.len(&self.regions),
                channel: match sup.try_as_ref(&self.regions) {
                    Some(_) => channel,
                    None => quiet,
                },
                flags: 0,
            },
            Handle::File(_) => ChInfo {
                kind: HandleKind::File,
                region_va: 0,
                region_size: 0,
                channel: quiet,
                flags: 0,
            },
            Handle::Stdin => ChInfo {
                kind: HandleKind::Stdin,
                region_va: 0,
                region_size: 0,
                channel: quiet,
                flags: 0,
            },
            Handle::Stdout => ChInfo {
                kind: HandleKind::Stdout,
                region_va: 0,
                region_size: 0,
                channel: quiet,
                flags: 0,
            },
            Handle::Stderr => ChInfo {
                kind: HandleKind::Stderr,
                region_va: 0,
                region_size: 0,
                channel: quiet,
                flags: 0,
            },
            Handle::EventFd(slot) => ChInfo {
                kind: HandleKind::EventFd,
                region_va: slot.region.user_va(&self.regions),
                region_size: slot.region.len(&self.regions),
                channel: quiet,
                flags: match slot.region.try_as_ref(&self.regions) {
                    Some(_) => slot.flags,
                    None => 0,
                },
            },
        };
        match space.find_page(info_vaddr) {
            Err(e) => Err(e),
            Ok((page_pa, off)) => Ok(ChInfoCopy { info, page_pa, off }),
        }
    }
}

/// What a directory listing starts from and where it goes.
#[derive(Clone, Copy, Debug, PartialEq, Eq, Structural)]
pub struct DirTarget {
    pub inode: Inode,
    pub cursor: u64,
    pub page_pa: u64,
    pub off: u64,
}

/// The error number for a listing that failed.
pub open spec fn listing_errno(e: FsErr) -> i32 {
    match e {
        FsErr::NotADirectory => ENOTDIR,
        FsErr::BadInode => EBADF,
        FsErr::BadRange => EINVAL,
        FsErr::IoError => EIO,
        FsErr::NotFound => ENOENT,
        FsErr::NotRegular => ENOTDIR,
    }
}

impl Orbit {
    /// Directory, cursor and user page of a listing, or why it is refused.
    pub open spec fn listing_plan(self, req: FsReaddirReq, pid: u16, m: Map<u64, PageView>) -> Result<
        DirTarget,
        i64,
    > {
        match self.file_of(pid, req.fd) {
            None => Err(errno_ret(EBADF)),
            Some(of) => if !on_one_page(req.buf_vaddr, req.len as int) {
                Err(errno_ret(EINVAL))
            } else {
                match page_dst(m, req.buf_vaddr) {
                    Err(e) => Err(e),
                    Ok((page_pa, off)) => Ok(
                        DirTarget { inode: of.inode, cursor: of.dir_cursor, page_pa, off },
                    ),
                }
            },
        }
    }

    /// Finds what a listing is to be made of.
    pub fn readdir_target(&self, req: FsReaddirReq, pid: u16, space: &UserSpace) -> (r: Result<
        DirTarget,
        i64,
    >)
        ensures
            r == self.listing_plan(req, pid, space@),
    {
        let of = match self.open_file(pid, req.fd) {
            Some(of) => of,
            None => {
                return Err(to_ret(EBADF));
            },
        };
        if req.len > 4096 || req.buf_vaddr % 4096 + req.len > 4096 {
            return Err(to_ret(EINVAL));
        }
        match space.find_page(req.buf_vaddr) {
            Err(e) => Err(e),
            Ok((page_pa, off)) => Ok(
                DirTarget { inode: of.inode, cursor: of.dir_cursor, page_pa, off },
            ),
        }
    }

    /// `fs_readdir`: lists a directory from the handle's cursor on. `listed` is
    /// what the filesystem made of [`readdir_target`](Self::readdir_target):
    /// the number of bytes it stored and the cursor behind them. The handle
    /// keeps the cursor for the next call; a listing that failed leaves it.
    pub fn run_fs_readdir_req(
        &mut self,
        req: FsReaddirReq,
        pid: u16,
        space: &UserSpace,
        listed: Result<(u64, u64), FsErr>,
    ) -> (r: i64)
        requires
            old(self).handles_ok(),
            listed matches Ok((written, _)) ==> written <= req.len,
        ensures
            final(self).handles_ok(),
            match old(self).listing_plan(req, pid, space@) {
                Err(e) => r == e && *final(self) == *old(self),
                Ok(_) => match listed {
                    Err(e) => r == errno_ret(listing_errno(e)) && *final(self) == *old(self),
                    Ok((written, next)) => {
                        let h = old(self).handles_of(pid);
                        let of = old(self).file_of(pid, req.fd)->0;
                        &&& r == written
                        &&& final(self).process_handles@ == old(self).process_handles@.insert(
                            pid,
                            final(self).process_handles@[pid],
                        )
                        &&& final(self).handles_of(pid) == h.replaced(
                            req.fd,
                            Slot {
                                handle: Handle::File(OpenFile { dir_cursor: next, ..of }),
                                ..h.slots[req.fd]
                            },
                        )
                    },
                },
            },
            *final(self) == (Orbit { process_handles: final(self).process_handles, ..*old(self) }),
    {
        match self.readdir_target(req, pid, space) {
            Ok(_) => {},
            Err(e) => {
                return e;
            },
        }
        let (written, next) = match listed {
            Ok(x) => x,
            Err(e) => {
                return to_ret(
                    match e {
                        FsErr::NotADirectory => ENOTDIR,
                        FsErr::BadInode => EBADF,
                        FsErr::BadRange => EINVAL,
                        FsErr::IoError => EIO,
                        FsErr::NotFound => ENOENT,
                        FsErr::NotRegular => ENOTDIR,
                    },
                );
            },
        };
        let mut of = self.open_file(pid, req.fd).unwrap();
        of.dir_cursor = next;
        self.set_open_file(pid, req.fd, of);
        written as i64
    }
}

/// An absolute path resolves to itself, whatever the working directory.
pub proof fn law_absolute_paths_resolve_to_themselves(cwd: Seq<u8>, path: Seq<u8>)
    requires
        path.len() > 0,
        path[0] == 0x2f,
    ensures
        resolved(cwd, path) == path,
{
}

/// A relative path resolves to a path that starts with the working directory,
/// and `.` resolves to the working directory itself.
pub proof fn law_relative_paths_stay_under_cwd(cwd: Seq<u8>, path: Seq<u8>)
    requires
        path.len() == 0 || path[0] != 0x2f,
    ensures
        cwd.is_prefix_of(resolved(cwd, path)),
        resolved(cwd, seq![0x2eu8]) == cwd,
        resolved(cwd, seq![0x2eu8, 0x2fu8] + path) == resolved(cwd, path),
{
    let d = seq![0x2eu8, 0x2fu8] + path;
    assert(d.skip(2) =~= path);
    assert(strip_dots(d) == strip_dots(path));
    let tail = strip_dots(path);
    let r = resolved(cwd, path);
    assert(cwd =~= r.take(cwd.len() as int));
}

/// After a seek to an absolute offset, a seek by zero from the current offset
/// gives that offset.
pub proof fn law_seek_set_then_cur(of: OpenFile, size: Option<u64>, offset: i64)
    requires
        of.is_regular,
        offset >= 0,
    ensures
        seek_target(of, size, offset, SEEK_SET) == Ok::<i64, i64>(offset),
        seek_target(OpenFile { offset: offset as u64, ..of }, size, 0, SEEK_CUR) == Ok::<i64, i64>(
            offset,
        ),
{
}

/// A relative path goes below the directory, after one separator: what is joined
/// is the directory, a slash unless it ends in one, and the path without leading
/// dots.
pub proof fn law_relative_paths_are_joined_once(cwd: Seq<u8>, path: Seq<u8>)
    requires
        path.len() > 0,
        path[0] != 0x2f,
        path[0] != 0x2e,
        cwd.len() > 0,
    ensures
        ({
            let r = resolved(cwd, path);
            let n = r.len() - path.len();
            &&& r.skip(n) == path
            &&& r[n - 1] == 0x2f
            &&& cwd.last() == 0x2f ==> r.take(n) == cwd
            &&& cwd.last() != 0x2f ==> r.take(n) == cwd.push(0x2f)
        }),
{
    let r = resolved(cwd, path);
    let n = r.len() - path.len();
    assert(strip_dots(path) == path);
    assert(r.skip(n) =~= path);
    if cwd.last() == 0x2f {
        assert(r.take(n) =~= cwd);
    } else {
        assert(r.take(n) =~= cwd.push(0x2f));
    }
}

/// Seeking goes to the offset itself, to so far from the present place, or to so
/// far from the end; never before the beginning. Only regular files can be
/// sought in, and an unknown origin is refused with 22.
pub proof fn law_seeking_goes_where_it_says(of: OpenFile, size: u64, offset: i64, whence: u32)
    requires
        of.offset <= i64::MAX,
        size <= i64::MAX,
    ensures
        ({
            let r = seek_target(of, Some(size), offset, whence);
            &&& !of.is_regular ==> refused(r, 9)
            &&& of.is_regular && whence == 0 && offset >= 0 ==> r == Ok::<i64, i64>(offset)
            &&& of.is_regular && whence == 1 && 0 <= of.offset + offset <= i64::MAX ==> r is Ok
                && r->Ok_0 == of.offset + offset
            &&& of.is_regular && whence == 2 && 0 <= size + offset <= i64::MAX ==> r is Ok && r->Ok_0
                == size + offset
            &&& of.is_regular && whence > 2 ==> refused(r, 22)
            &&& r matches Ok(v) ==> v >= 0
            &&& r is Ok || refused(r, 9) || refused(r, 22)
            &&& of.is_regular && whence == 2 ==> refused(seek_target(of, None, offset, whence), 5)
        }),
{
}

/// What there is to tell about a handle: its kind, and for a region where it
/// lies. A region that was revoked, and everything that is no channel, shows no
/// peer.
pub proof fn law_a_handle_is_told_as_it_is(
    h: Handle,
    regions: Map<u64, crate::shared_user_ptr::Region>,
    channel: ChannelState,
)
    ensures
        ({
            let i = info_of(h, regions, channel);
            &&& i.kind == HandleKind::NetChannel <==> h is NetChannel
            &&& i.kind == HandleKind::File <==> h is File
            &&& i.kind == HandleKind::Stdin <==> h is Stdin
            &&& i.kind == HandleKind::Stdout <==> h is Stdout
            &&& i.kind == HandleKind::Stderr <==> h is Stderr
            &&& i.kind == HandleKind::EventFd <==> h is EventFd
            &&& h matches Handle::NetChannel(s) ==> i.region_va == regions[s.pa].user_va
                && i.region_size == regions[s.pa].len && (!regions[s.pa].revoked ==> i.channel
                == channel)
            &&& h matches Handle::EventFd(s) ==> i.region_va == regions[s.region.pa].user_va
                && i.region_size == regions[s.region.pa].len && (!regions[s.region.pa].revoked
                ==> i.flags == s.flags)
            &&& !(h is NetChannel) || regions[h->NetChannel_0.pa].revoked ==> i.channel.peer_addr == 0
                && i.channel.peer_port == 0 && i.channel.state == 0
            &&& !(h is NetChannel) && !(h is EventFd) ==> i.region_va == 0 && i.region_size == 0
            &&& !(h is EventFd) || regions[h->EventFd_0.region.pa].revoked ==> i.flags == 0
        }),
{
}

/// A path names what the filesystem has under it: it is refused with 2 exactly if
/// the filesystem has nothing there, and with 5 without a filesystem.
pub proof fn law_a_path_names_what_is_there(fs: Option<Tarfs>, path: Seq<u8>)
    ensures
        ({
            let r = lookup_path(fs, path);
            &&& fs is None ==> refused(r, 5)
            &&& fs is Some && find_path(fs->0@, path) is None ==> refused(r, 2)
            &&& r matches Ok((i, st)) ==> fs is Some && (find_path(fs->0@, path) matches Some(k) && i
                == k as u32) && inode_entry(fs->0@, i) is Some && st.st_ino == i
            &&& refused(r, 2) ==> find_path(fs->0@, path) is None
        }),
{
}

/// A number is a file's exactly if that process has a file under it.
pub proof fn law_a_number_is_its_processs_own(o: Orbit, pid: u16, fd: Fd)
    ensures
        o.file_of(pid, fd) matches Some(of) ==> o.process_handles@.contains_key(pid)
            && o.process_handles@[pid]@.slots.contains_key(fd)
            && o.process_handles@[pid]@.slots[fd].handle == Handle::File(of),
        o.process_handles@.contains_key(pid) && o.process_handles@[pid]@.slots.contains_key(fd)
            && o.process_handles@[pid]@.slots[fd].handle is File ==> o.file_of(pid, fd) is Some,
        o.procs().contains_key(pid) ==> o.cwd_of(pid) == o.procs()[pid].cwd,
        !o.procs().contains_key(pid) ==> o.cwd_of(pid) == seq![0x2fu8],
{
}

/// Listing needs an open number and a buffer on one page that is mapped; it goes
/// on at the place where the number stands and writes to that page.
pub proof fn law_a_listing_goes_to_its_buffer(
    o: Orbit,
    req: FsReaddirReq,
    pid: u16,
    m: Map<u64, PageView>,
)
    ensures
        ({
            let r = o.listing_plan(req, pid, m);
            let file = o.file_of(pid, req.fd);
            &&& file is None ==> refused(r, 9)
            &&& file is Some && req.buf_vaddr % 4096 + req.len > 4096 ==> refused(r, 22)
            &&& r matches Ok(d) ==> file is Some && d.inode == file->0.inode && d.cursor
                == file->0.dir_cursor && d.off == req.buf_vaddr % 4096 && d.off + req.len <= 4096
                && m.contains_key((req.buf_vaddr - req.buf_vaddr % 4096) as u64) && d.page_pa == m[(
            req.buf_vaddr - req.buf_vaddr % 4096) as u64].pa
            &&& file is Some && req.buf_vaddr % 4096 + req.len <= 4096 && m.contains_key(
                (req.buf_vaddr - req.buf_vaddr % 4096) as u64,
            ) ==> r is Ok
        }),
{
}

/// Each failure of a listing has its own number.
pub proof fn law_listing_failures_have_their_numbers()
    ensures
        listing_errno(FsErr::NotADirectory) == 20,
        listing_errno(FsErr::BadInode) == 9,
        listing_errno(FsErr::BadRange) == 22,
        listing_errno(FsErr::IoError) == 5,
        listing_errno(FsErr::NotFound) == 2,
        listing_errno(FsErr::NotRegular) == 20,
{
}

/// A seek to before the start of the file, or beyond the largest offset, is
/// refused with 22 and not cut short.
pub proof fn law_a_seek_out_of_range_is_refused(of: OpenFile, size: u64, offset: i64, whence: u32)
    requires
        of.is_regular,
        of.offset <= i64::MAX,
        size <= i64::MAX,
    ensures
        ({
            let r = seek_target(of, Some(size), offset, whence);
            &&& whence == 0 && offset < 0 ==> refused(r, 22)
            &&& whence == 1 && !(0 <= of.offset + offset <= i64::MAX) ==> refused(r, 22)
            &&& whence == 2 && !(0 <= size + offset <= i64::MAX) ==> refused(r, 22)
        }),
{
}

/// A path that names an entry gets the entry's own inode and what is told of
/// it.
pub proof fn law_a_named_entry_is_told_of(fs: Tarfs, path: Seq<u8>)
    requires
        find_path(fs@, path) is Some,
        inode_entry(fs@, find_path(fs@, path)->0 as u32) is Some,
    ensures
        ({
            let i = find_path(fs@, path)->0 as u32;
            lookup_path(Some(fs), path) == Ok::<(Inode, Stat), i64>(
                (i, stat_of(inode_entry(fs@, i)->0, i)),
            )
        }),
{
}

/// A listing into a buffer that is not mapped is refused with 14.
pub proof fn law_a_listing_needs_its_buffer(
    o: Orbit,
    req: FsReaddirReq,
    pid: u16,
    m: Map<u64, PageView>,
)
    requires
        o.file_of(pid, req.fd) is Some,
        req.buf_vaddr % 4096 + req.len <= 4096,
    ensures
        !m.contains_key((req.buf_vaddr - req.buf_vaddr % 4096) as u64) ==> refused(
            o.listing_plan(req, pid, m),
            14,
        ),
{
}

/// A process without a table of handles counts as one with an empty table,
/// whose first number is zero.
pub proof fn law_a_missing_table_is_empty(o: Orbit, pid: u16, fd: Fd)
    ensures
        !o.process_handles@.contains_key(pid) ==> !o.handles_of(pid).slots.contains_key(fd)
            && o.handles_of(pid).next_id == 0,
        o.process_handles@.contains_key(pid) ==> o.handles_of(pid) == o.process_handles@[pid]@,
{
}

/// A path in user memory is looked up from the caller's directory, once it
/// has been read; without a filesystem it is an input error.
pub proof fn law_a_path_argument_is_looked_up(
    o: Orbit,
    pid: u16,
    m: Map<u64, PageView>,
    va: u64,
    len: u64,
)
    ensures
        ({
            let r = o.named(pid, m, va, len);
            let text = user_string(m, va as int, len as int);
            &&& o.mount@ is None ==> refused(r, 5)
            &&& o.mount@ is Some ==> (text matches Err(e) ==> r == Err::<(Inode, Stat), i64>(e))
            &&& o.mount@ is Some ==> (text matches Ok(p) ==> r == lookup_path(
                o.mount@,
                resolved(o.cwd_of(pid), p),
            ))
        }),
{
}

} // verus!
