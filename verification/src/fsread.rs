//! Reading files through the page cache.
//!
//! A read walks its range slice by slice. A slice lies on one cached page and
//! one user page. Slices on ready pages are copied at once, those on loading
//! pages wait, and an absent page has to be requested from the device; the
//! walk pauses for the device's answer and goes on with it.

#[allow(unused_imports)]
use crate::abi::{errno_ret, refused};
use crate::abi::{to_ret, EAGAIN, EBADF, EIO, EISDIR};
use crate::fs::Inode;
use crate::handle::OpenFile;
#[allow(unused_imports)]
use crate::handle::{Handle, Slot};
#[allow(unused_imports)]
use crate::orbit::{noticed, resumed};
use crate::orbit::{Effect, FsReadInProgress, Orbit, Queues, PAGE_CACHE_CAPACITY};
use crate::page_cache::{pack, unpack, CacheKey, PageCache, SharedFrame, SlotState, Waiter};
#[allow(unused_imports)]
use crate::page_cache::{empty_cache, packed, unpacked, CacheModel};
use crate::process::shared_frames;
#[allow(unused_imports)]
use crate::process::{shared_want, PhysBacking};
#[allow(unused_imports)]
use crate::tar::{entry_small, inode_entry, page_lba, TarEntry};
use crate::tar::Tarfs;
#[allow(unused_imports)]
use crate::teardown::free_all;
use crate::uspace::UserSpace;
#[allow(unused_imports)]
use crate::uspace::{page_base, PageView};
use crate::work::FsReadReq;
use crate::world::{keeps_order, lemma_same_places, Machine};
use vstd::prelude::*;

verus! {

broadcast use {vstd::laws_cmp::group_laws_cmp, vstd::std_specs::btree::group_btree_axioms};

/// Bytes to move from a cached page to a user page.
#[derive(Clone, Copy, Debug, PartialEq, Eq, Structural)]
pub struct PageCopy {
    pub src_pa: u64,
    pub src_off: u32,
    pub dst_page_pa: u64,
    pub dst_off: u32,
    pub len: u32,
}

/// A read on its way through the page cache.
#[derive(Clone, Copy, Debug, PartialEq, Eq, Structural)]
pub struct ReadWalk {
    pub tid: u32,
    pub pid: u16,
    pub fd: u32,
    pub inode: Inode,
    pub prev_off: u64,
    pub file_size: u64,
    pub end_off: u64,
    pub buf_va: u64,
    /// Bytes copied.
    pub done: u32,
    /// Bytes that wait for a page.
    pub pending: u32,
    pub failed: bool,
    pub stopped: bool,
}

impl ReadWalk {
    /// File offset of the next byte.
    pub open spec fn pos(self) -> int {
        self.prev_off + self.done + self.pending
    }

    /// The range lies inside the file and the buffer in the address space.
    pub open spec fn wf(self) -> bool {
        &&& self.prev_off <= self.end_off <= self.file_size < 0x10_0000_0000
        &&& self.end_off - self.prev_off <= u32::MAX
        &&& self.pos() <= self.end_off
        &&& self.buf_va + (self.end_off - self.prev_off) <= u64::MAX
    }

    pub open spec fn over(self) -> bool {
        self.stopped || self.pos() >= self.end_off
    }

    pub open spec fn moved_on(self, copied: int, waiting: int) -> ReadWalk {
        ReadWalk { done: (self.done + copied) as u32, pending: (self.pending + waiting) as u32, ..self }
    }
}

/// The part of a read that lies on one cached page and one user page.
#[derive(Clone, Copy, Debug, PartialEq, Eq, Structural)]
pub struct ReadSlice {
    pub key: CacheKey,
    /// Bytes of the cached page that belong to the file.
    pub valid: u32,
    /// Offset on the cached page.
    pub intra: u32,
    pub page_pa: u64,
    pub page_off: u32,
    pub len: u32,
}

pub open spec fn min3(a: int, b: int, c: int) -> int {
    let d = if a < b {
        a
    } else {
        b
    };
    if d < c {
        d
    } else {
        c
    }
}

/// The next slice of a walk. There is none if the file has no such page or the
/// buffer is not mapped there.
pub open spec fn next_slice(w: ReadWalk, e: TarEntry, m: Map<u64, PageView>) -> Option<ReadSlice> {
    let pos = w.pos();
    let page = pos / 4096;
    let intra = pos % 4096;
    let va = w.buf_va + w.done + w.pending;
    match page_lba(e, page as u64) {
        Err(_) => None,
        Ok(lba) => if !m.contains_key(page_base(va) as u64) {
            None
        } else {
            Some(
                ReadSlice {
                    key: CacheKey { dev: 1, lba },
                    valid: if w.file_size - page * 4096 < 4096 {
                        (w.file_size - page * 4096) as u32
                    } else {
                        4096
                    },
                    intra: intra as u32,
                    page_pa: m[page_base(va) as u64].pa,
                    page_off: (va % 4096) as u32,
                    len: min3(4096 - va % 4096, w.end_off - pos, 4096 - intra) as u32,
                },
            )
        },
    }
}

/// A page for the device to read. `slice_len` bytes of it were asked for.
#[derive(Clone, Copy, Debug, PartialEq, Eq, Structural)]
pub struct BlkSubmit {
    pub key: CacheKey,
    pub pa: u64,
    pub packed_key: u64,
    pub slice_len: u32,
}

/// Page cache, walk and copies so far.
#[verifier::ext_equal]
pub struct ReadState {
    pub cache: CacheModel,
    pub walk: ReadWalk,
    pub copies: Seq<PageCopy>,
}

pub open spec fn user_waiter(w: ReadWalk, s: ReadSlice) -> Waiter {
    Waiter::User {
        tid: w.tid,
        pid: w.pid,
        intra: s.intra,
        user_page_pa: s.page_pa,
        user_page_off: s.page_off,
        len: s.len,
    }
}

pub open spec fn walk_failed(s: ReadState) -> ReadState {
    ReadState { walk: ReadWalk { failed: true, stopped: true, ..s.walk }, ..s }
}

/// Bytes of a slice that a ready page can give.
pub open spec fn available(s: ReadSlice, valid: u32) -> int {
    if valid <= s.intra {
        0
    } else if valid - s.intra < s.len {
        valid - s.intra
    } else {
        s.len as int
    }
}

/// One slice of a walk. With a device request the walk pauses.
pub open spec fn read_step(s: ReadState, e: TarEntry, m: Map<u64, PageView>) -> (
    ReadState,
    Option<BlkSubmit>,
) {
    match next_slice(s.walk, e, m) {
        None => (walk_failed(s), None),
        Some(sl) => if s.cache.is_ready(sl.key) {
            let slot = s.cache.slots[sl.key];
            let n = available(sl, slot.valid_bytes);
            let copies = if n > 0 {
                s.copies.push(
                    PageCopy {
                        src_pa: slot.frame.pa,
                        src_off: sl.intra,
                        dst_page_pa: sl.page_pa,
                        dst_off: sl.page_off,
                        len: n as u32,
                    },
                )
            } else {
                s.copies
            };
            let w = s.walk.moved_on(n, 0);
            (
                ReadState {
                    cache: s.cache.hit().touched(sl.key),
                    walk: ReadWalk { stopped: w.stopped || n < sl.len, ..w },
                    copies,
                },
                None,
            )
        } else if s.cache.is_loading(sl.key) {
            (
                ReadState {
                    cache: s.cache.registered(sl.key, user_waiter(s.walk, sl)),
                    walk: s.walk.moved_on(0, sl.len as int),
                    ..s
                },
                None,
            )
        } else {
            let begun = ReadState {
                cache: s.cache.load_begun(sl.key, sl.valid, user_waiter(s.walk, sl)),
                ..s
            };
            match s.cache.next_frame() {
                None => (walk_failed(begun), None),
                Some(f) => (
                    begun,
                    Some(
                        BlkSubmit {
                            key: sl.key,
                            pa: f.pa,
                            packed_key: packed(sl.key),
                            slice_len: sl.len,
                        },
                    ),
                ),
            }
        },
    }
}

/// A walk up to the next device request or its end.
pub open spec fn read_run(s: ReadState, e: TarEntry, m: Map<u64, PageView>) -> (
    ReadState,
    Option<BlkSubmit>,
)
    decreases
            (if s.walk.over() {
                0
            } else {
                s.walk.end_off - s.walk.pos()
            }),
    when s.walk.wf()
{
    if s.walk.over() {
        (s, None)
    } else {
        let (next, sub) = read_step(s, e, m);
        if sub is Some {
            (next, sub)
        } else {
            read_run(next, e, m)
        }
    }
}

/// A paused walk after the device's answer. A refused request drops the page
/// again and ends the walk.
pub open spec fn walk_answered(w: ReadWalk, b: BlkSubmit, ok: bool) -> ReadWalk {
    if ok {
        w.moved_on(0, b.slice_len as int)
    } else {
        ReadWalk { failed: true, stopped: true, ..w }
    }
}

pub open spec fn cache_answered(c: CacheModel, b: BlkSubmit, ok: bool) -> CacheModel {
    if ok {
        c
    } else {
        c.completed(b.key, 1)
    }
}

/// The request that a walk is paused at fits in what is left of the range.
pub open spec fn paused_at(w: ReadWalk, b: BlkSubmit) -> bool {
    !w.stopped && 0 < b.slice_len && w.pos() + b.slice_len <= w.end_off
}

proof fn lemma_step(s: ReadState, e: TarEntry, m: Map<u64, PageView>)
    requires
        s.walk.wf(),
        !s.walk.over(),
    ensures
        read_step(s, e, m).0.walk.wf(),
        read_step(s, e, m).1 is None ==> read_step(s, e, m).0.walk.over() || read_step(
            s,
            e,
            m,
        ).0.walk.pos() > s.walk.pos(),
        read_step(s, e, m).1 matches Some(b) ==> paused_at(read_step(s, e, m).0.walk, b),
{
}

fn slice_next(w: &ReadWalk, fs: &Tarfs, space: &UserSpace, Ghost(e): Ghost<TarEntry>) -> (r: Option<
    ReadSlice,
>)
    requires
        w.wf(),
        !w.over(),
        fs.wf(),
        inode_entry(fs@, w.inode) == Some(e),
    ensures
        r == next_slice(*w, e, space@),
{
    let committed: u64 = w.done as u64 + w.pending as u64;
    let pos: u64 = w.prev_off + committed;
    let page: u64 = pos / 4096;
    let intra: u64 = pos % 4096;
    let lba: u64 = match fs.lba_for_page(w.inode, page) {
        Ok(l) => l,
        Err(_) => {
            return None;
        },
    };
    let va: u64 = w.buf_va + committed;
    let off: u64 = va % 4096;
    let page_pa: u64 = match space.translate(va - off) {
        Some(pa) => pa,
        None => {
            return None;
        },
    };
    let left_in_file: u64 = w.file_size - page * 4096;
    let mut len: u64 = 4096 - off;
    if w.end_off - pos < len {
        len = w.end_off - pos;
    }
    if 4096 - intra < len {
        len = 4096 - intra;
    }
    Some(
        ReadSlice {
            key: CacheKey { dev: fs.dev_id(), lba },
            valid: if left_in_file < 4096 {
                left_in_file as u32
            } else {
                4096
            },
            intra: intra as u32,
            page_pa,
            page_off: off as u32,
            len: len as u32,
        },
    )
}

/// Walks on until the device is needed or the read is over. The request for
/// the device is returned; its answer goes to [`submit_answered`].
pub fn advance_read(
    cache: &mut PageCache,
    fs: &Tarfs,
    space: &UserSpace,
    walk: &mut ReadWalk,
    copies: &mut Vec<PageCopy>,
) -> (r: Option<BlkSubmit>)
    requires
        old(cache).wf(),
        fs.wf(),
        old(walk).wf(),
        inode_entry(fs@, old(walk).inode) is Some,
    ensures
        final(cache).wf(),
        final(walk).wf(),
        (ReadState { cache: final(cache)@, walk: *final(walk), copies: final(copies)@ }, r)
            == read_run(
            ReadState { cache: old(cache)@, walk: *old(walk), copies: old(copies)@ },
            inode_entry(fs@, old(walk).inode)->0,
            space@,
        ),
        r is None ==> final(walk).over(),
        r matches Some(b) ==> paused_at(*final(walk), b) && final(cache)@.is_loading(b.key),
        final(walk).inode == old(walk).inode,
{
    let ghost e = inode_entry(fs@, walk.inode)->0;
    let ghost goal = read_run(
        ReadState { cache: cache@, walk: *walk, copies: copies@ },
        e,
        space@,
    );
    loop
        invariant
            cache.wf(),
            fs.wf(),
            walk.wf(),
            walk.inode == old(walk).inode,
            inode_entry(fs@, walk.inode) == Some(e),
            goal == read_run(
                ReadState { cache: old(cache)@, walk: *old(walk), copies: old(copies)@ },
                e,
                space@,
            ),
            goal == read_run(
                ReadState { cache: cache@, walk: *walk, copies: copies@ },
                e,
                space@,
            ),
        decreases
                (if walk.over() {
                    0
                } else {
                    walk.end_off - walk.pos()
                }),
    {
        let ghost s = ReadState { cache: cache@, walk: *walk, copies: copies@ };
        if walk.stopped || walk.prev_off + walk.done as u64 + walk.pending as u64 >= walk.end_off {
            return None;
        }
        proof {
            lemma_step(s, e, space@);
            reveal_with_fuel(read_run, 2);
        }
        let sl = match slice_next(walk, fs, space, Ghost(e)) {
            Some(sl) => sl,
            None => {
                walk.failed = true;
                walk.stopped = true;
                return None;
            },
        };
        let found: Option<(u64, u32)> = match cache.lookup(sl.key) {
            Some(SlotState::Ready { frame, valid_bytes }) => Some((frame.pa, *valid_bytes)),
            _ => None,
        };
        let loading: bool = match cache.lookup(sl.key) {
            Some(s) => s.is_loading(),
            None => false,
        };
        match found {
            Some((src_pa, valid)) => {
                let n: u32 = if valid <= sl.intra {
                    0
                } else if valid - sl.intra < sl.len {
                    valid - sl.intra
                } else {
                    sl.len
                };
                if n > 0 {
                    copies.push(
                        PageCopy {
                            src_pa,
                            src_off: sl.intra,
                            dst_page_pa: sl.page_pa,
                            dst_off: sl.page_off,
                            len: n,
                        },
                    );
                }
                cache.record_hit();
                cache.touch_lru(sl.key);
                walk.done = walk.done + n;
                if n < sl.len {
                    walk.stopped = true;
                }
                proof {
                    assert(ReadState { cache: cache@, walk: *walk, copies: copies@ } =~= read_step(
                        s,
                        e,
                        space@,
                    ).0);
                }
            },
            None => {
                let waiter = Waiter::User {
                    tid: walk.tid,
                    pid: walk.pid,
                    intra: sl.intra,
                    user_page_pa: sl.page_pa,
                    user_page_off: sl.page_off,
                    len: sl.len,
                };
                if loading {
                    let _ = cache.register_waiter(sl.key, waiter);
                    walk.pending = walk.pending + sl.len;
                } else {
                    match cache.begin_load(sl.key, sl.valid, waiter) {
                        Ok(pa) => {
                            return Some(
                                BlkSubmit {
                                    key: sl.key,
                                    pa,
                                    packed_key: pack(sl.key),
                                    slice_len: sl.len,
                                },
                            );
                        },
                        Err(_) => {
                            walk.failed = true;
                            walk.stopped = true;
                            return None;
                        },
                    }
                }
            },
        }
    }
}

/// Takes the device's answer to a request.
pub fn submit_answered(cache: &mut PageCache, walk: &mut ReadWalk, b: BlkSubmit, ok: bool)
    requires
        old(cache).wf(),
        old(walk).wf(),
        paused_at(*old(walk), b),
    ensures
        final(cache).wf(),
        final(walk).wf(),
        final(cache)@ == cache_answered(old(cache)@, b, ok),
        *final(walk) == walk_answered(*old(walk), b, ok),
        final(walk).inode == old(walk).inode,
{
    if ok {
        walk.pending = walk.pending + b.slice_len;
    } else {
        let _ = cache.complete_slot(b.key, 1);
        walk.failed = true;
        walk.stopped = true;
    }
}

/// How a read starts: a walk over the range it asks for, or the value that its
/// caller is resumed with at once.
pub open spec fn read_plan(
    file: Option<OpenFile>,
    cached: bool,
    size: Option<u64>,
    req: FsReadReq,
    pid: u16,
    tid: u32,
) -> Result<ReadWalk, i64> {
    match file {
        None => Err(errno_ret(EBADF)),
        Some(of) => if !of.is_regular {
            Err(errno_ret(EISDIR))
        } else if !cached {
            Err(errno_ret(EAGAIN))
        } else {
            match size {
                None => Err(errno_ret(EIO)),
                Some(s) => if of.offset >= s {
                    Err(0)
                } else {
                    let want = if req.len < s - of.offset {
                        req.len
                    } else {
                        (s - of.offset) as u64
                    };
                    Ok(
                        ReadWalk {
                            tid,
                            pid,
                            fd: req.fd,
                            inode: of.inode,
                            prev_off: of.offset,
                            file_size: s,
                            end_off: (of.offset + (want as u32)) as u64,
                            buf_va: req.buf_vaddr,
                            done: 0,
                            pending: 0,
                            failed: false,
                            stopped: false,
                        },
                    )
                },
            }
        },
    }
}

/// What a read that left nothing waiting hands back.
pub open spec fn read_result(w: ReadWalk) -> i64 {
    if w.failed && w.done == 0 {
        errno_ret(EIO)
    } else {
        w.done as i64
    }
}

/// A waiting read after one of its slices came in.
pub open spec fn slice_in(p: FsReadInProgress, status: u8, len: u32) -> FsReadInProgress {
    FsReadInProgress {
        bytes_pending: if p.bytes_pending < len {
            0
        } else {
            (p.bytes_pending - len) as u32
        },
        bytes_done: if status == 0 && !p.failed {
            if p.bytes_done + len > u32::MAX {
                u32::MAX
            } else {
                (p.bytes_done + len) as u32
            }
        } else {
            p.bytes_done
        },
        failed: p.failed || status != 0,
    }
}

/// What a waiting read hands back once nothing is pending.
pub open spec fn waited_result(p: FsReadInProgress) -> i64 {
    if p.failed {
        errno_ret(EIO)
    } else {
        p.bytes_done as i64
    }
}

/// A waiting read after a run of slices came in.
pub open spec fn slices_in(p: FsReadInProgress, got: Seq<(u8, u32)>) -> FsReadInProgress
    decreases got.len(),
{
    if got.len() == 0 {
        p
    } else {
        slices_in(slice_in(p, got[0].0, got[0].1), got.skip(1))
    }
}

pub open spec fn len_sum(got: Seq<(u8, u32)>) -> int
    decreases got.len(),
{
    if got.len() == 0 {
        0
    } else {
        got[0].1 + len_sum(got.skip(1))
    }
}

/// What is kept of a read that left slices waiting. A walk that was cut short has
/// shortened the read; only a slice that cannot be filled fails it.
pub open spec fn waiting_read(w: ReadWalk) -> FsReadInProgress {
    FsReadInProgress { bytes_pending: w.pending, bytes_done: w.done, failed: false }
}

proof fn lemma_slices_in(p: FsReadInProgress, got: Seq<(u8, u32)>)
    requires
        len_sum(got) == p.bytes_pending,
        p.bytes_done + p.bytes_pending <= u32::MAX,
    ensures
        slices_in(p, got).bytes_pending == 0,
        !p.failed && (forall|i: int| 0 <= i < got.len() ==> (#[trigger] got[i]).0 == 0)
            ==> waited_result(slices_in(p, got)) == p.bytes_done + p.bytes_pending,
        p.failed || (exists|i: int| 0 <= i < got.len() && (#[trigger] got[i]).0 != 0)
            ==> waited_result(slices_in(p, got)) == errno_ret(EIO),
    decreases got.len(),
{
    if got.len() > 0 {
        let rest = got.skip(1);
        lemma_len_sum_nonneg(rest);
        let q = slice_in(p, got[0].0, got[0].1);
        lemma_slices_in(q, rest);
        if exists|i: int| 0 <= i < got.len() && (#[trigger] got[i]).0 != 0 {
            let i = choose|i: int| 0 <= i < got.len() && (#[trigger] got[i]).0 != 0;
            if i > 0 {
                assert(rest[i - 1] == got[i]);
            }
        }
        assert forall|i: int| 0 <= i < rest.len() implies (#[trigger] rest[i]) == got[i + 1] by {}
    }
}

/// A waiting read hands back every byte it reached once all its slices are in,
/// also where its walk was cut short: as many as the file's offset has moved on.
/// If any slice fails, it hands back `EIO`.
pub proof fn law_waiting_read_returns_all_or_eio(w: ReadWalk, got: Seq<(u8, u32)>)
    requires
        w.wf(),
        len_sum(got) == w.pending,
    ensures
        slices_in(waiting_read(w), got).bytes_pending == 0,
        (forall|i: int| 0 <= i < got.len() ==> (#[trigger] got[i]).0 == 0) ==> waited_result(
            slices_in(waiting_read(w), got),
        ) == w.pos() - w.prev_off,
        (exists|i: int| 0 <= i < got.len() && (#[trigger] got[i]).0 != 0) ==> waited_result(
            slices_in(waiting_read(w), got),
        ) == errno_ret(EIO),
{
    lemma_slices_in(waiting_read(w), got);
}

proof fn lemma_len_sum_nonneg(got: Seq<(u8, u32)>)
    ensures
        len_sum(got) >= 0,
    decreases got.len(),
{
    if got.len() > 0 {
        lemma_len_sum_nonneg(got.skip(1));
    }
}

/// Every byte that a walk has passed was copied or waits: walking on and
/// taking answers moves forward inside the range and loses nothing.
pub proof fn law_walk_accounts_for_every_byte(
    s: ReadState,
    e: TarEntry,
    m: Map<u64, PageView>,
    ok: bool,
)
    requires
        s.walk.wf(),
    ensures
        ({
            let (t, sub) = read_run(s, e, m);
            &&& t.walk.wf()
            &&& s.walk.pos() <= t.walk.pos() <= s.walk.end_off
            &&& t.walk.prev_off == s.walk.prev_off && t.walk.end_off == s.walk.end_off
            &&& sub is None ==> t.walk.over()
            &&& sub is None && !t.walk.stopped ==> t.walk.done + t.walk.pending == s.walk.end_off
                - s.walk.prev_off
            &&& sub matches Some(b) ==> paused_at(t.walk, b) && walk_answered(t.walk, b, ok).wf()
        }),
    decreases
            (if s.walk.over() {
                0
            } else {
                s.walk.end_off - s.walk.pos()
            }),
{
    if !s.walk.over() {
        lemma_step(s, e, m);
        let (next, sub) = read_step(s, e, m);
        if sub is None {
            law_walk_accounts_for_every_byte(next, e, m, ok);
        }
    }
}

/// A slice is the part of the file that comes next, at the place of the buffer
/// that is for it: `sl` starts at byte `pos` of the file and at the buffer's
/// byte `pos - prev_off`, and stays on one page on both sides.
pub open spec fn slice_right(w: ReadWalk, e: TarEntry, m: Map<u64, PageView>, sl: ReadSlice) -> bool {
    let pos = w.pos();
    let va = w.buf_va + (pos - w.prev_off);
    &&& sl.key.lba * 512 + sl.intra == e.data_sector * 512 + pos
    &&& m.contains_key(page_base(va) as u64)
    &&& sl.page_pa == m[page_base(va) as u64].pa
    &&& sl.page_off == va % 4096
    &&& 0 < sl.len
    &&& sl.intra + sl.len <= 4096
    &&& sl.page_off + sl.len <= 4096
    &&& pos + sl.len <= w.end_off
}

/// Every slice of a read is the part of the file that comes next.
pub proof fn law_slices_follow_the_file(w: ReadWalk, e: TarEntry, m: Map<u64, PageView>)
    requires
        w.wf(),
        !w.over(),
        entry_small(e),
    ensures
        next_slice(w, e, m) matches Some(sl) ==> slice_right(w, e, m, sl),
{
    let pos = w.pos();
    let page = pos / 4096;
    assert(pos == page * 4096 + pos % 4096);
    assert(page as u64 == page);
    assert(w.buf_va + w.done + w.pending == w.buf_va + (pos - w.prev_off));
}

/// What a byte of a file is, on a disk given byte by byte.
pub open spec fn file_byte(disk: spec_fn(int) -> u8, e: TarEntry, off: int) -> u8 {
    disk(e.data_sector * 512 + off)
}

/// The ready pages of the cache hold what the disk holds. `frames` gives the
/// bytes of the page frames.
pub open spec fn cache_holds(
    c: CacheModel,
    frames: spec_fn(u64, int) -> u8,
    disk: spec_fn(int) -> u8,
) -> bool {
    forall|key: CacheKey, i: int|
        #![trigger c.slots[key], disk(key.lba * 512 + i)]
        c.is_ready(key) && 0 <= i < c.slots[key].valid_bytes ==> frames(c.slots[key].frame.pa, i)
            == disk(key.lba * 512 + i)
}

/// A copy that moves bytes of the file from offset `off` on to where the user
/// address `va` and those behind it are mapped.
pub open spec fn copy_right(
    c: PageCopy,
    off: int,
    va: int,
    e: TarEntry,
    m: Map<u64, PageView>,
    frames: spec_fn(u64, int) -> u8,
    disk: spec_fn(int) -> u8,
) -> bool {
    &&& c.dst_page_pa == m[page_base(va) as u64].pa
    &&& c.dst_off == va % 4096
    &&& c.dst_off + c.len <= 4096
    &&& forall|i: int|
        0 <= i < c.len ==> #[trigger] frames(c.src_pa, c.src_off + i) == file_byte(disk, e, off + i)
}

/// Copies that together fill the buffer of a read from its start to byte `end`
/// with the bytes of the file from the read's offset on, one after the other.
pub open spec fn copies_right(
    cs: Seq<PageCopy>,
    end: int,
    w: ReadWalk,
    e: TarEntry,
    m: Map<u64, PageView>,
    frames: spec_fn(u64, int) -> u8,
    disk: spec_fn(int) -> u8,
) -> bool
    decreases cs.len(),
{
    if cs.len() == 0 {
        end == 0
    } else {
        let start = end - cs.last().len;
        &&& copy_right(cs.last(), w.prev_off + start, w.buf_va + start, e, m, frames, disk)
        &&& copies_right(cs.drop_last(), start, w, e, m, frames, disk)
    }
}

proof fn lemma_copies_frame(
    cs: Seq<PageCopy>,
    end: int,
    a: ReadWalk,
    b: ReadWalk,
    e: TarEntry,
    m: Map<u64, PageView>,
    frames: spec_fn(u64, int) -> u8,
    disk: spec_fn(int) -> u8,
)
    requires
        a.prev_off == b.prev_off,
        a.buf_va == b.buf_va,
        copies_right(cs, end, a, e, m, frames, disk),
    ensures
        copies_right(cs, end, b, e, m, frames, disk),
    decreases cs.len(),
{
    if cs.len() > 0 {
        lemma_copies_frame(cs.drop_last(), end - cs.last().len, a, b, e, m, frames, disk);
    }
}

/// A read whose pages are all in the cache puts the bytes of the file into the
/// buffer: if nothing waits, the copies fill it from its start with as many
/// bytes as the read hands back, and they are those of the file from the
/// read's offset on.
pub proof fn law_cached_read_copies_the_file(
    s: ReadState,
    e: TarEntry,
    m: Map<u64, PageView>,
    frames: spec_fn(u64, int) -> u8,
    disk: spec_fn(int) -> u8,
)
    requires
        s.walk.wf(),
        s.walk.pending == 0,
        entry_small(e),
        cache_holds(s.cache, frames, disk),
        copies_right(s.copies, s.walk.done as int, s.walk, e, m, frames, disk),
    ensures
        ({
            let (t, sub) = read_run(s, e, m);
            sub is None && t.walk.pending == 0 ==> copies_right(
                t.copies,
                t.walk.done as int,
                s.walk,
                e,
                m,
                frames,
                disk,
            )
        }),
    decreases
            (if s.walk.over() {
                0
            } else {
                s.walk.end_off - s.walk.pos()
            }),
{
    if !s.walk.over() {
        lemma_step(s, e, m);
        let (next, sub) = read_step(s, e, m);
        law_slices_follow_the_file(s.walk, e, m);
        match next_slice(s.walk, e, m) {
            None => {
                reveal_with_fuel(read_run, 2);
            },
            Some(sl) => {
                if s.cache.is_ready(sl.key) {
                    lemma_hit_is_right(s, e, m, frames, disk);
                    law_cached_read_copies_the_file(next, e, m, frames, disk);
                    let (t, sub2) = read_run(next, e, m);
                    if sub2 is None && t.walk.pending == 0 {
                        lemma_copies_frame(
                            t.copies,
                            t.walk.done as int,
                            next.walk,
                            s.walk,
                            e,
                            m,
                            frames,
                            disk,
                        );
                    }
                } else if s.cache.is_loading(sl.key) {
                    lemma_pending_stays(next, e, m);
                } else {
                    reveal_with_fuel(read_run, 2);
                }
            },
        }
    }
}

proof fn lemma_pending_stays(s: ReadState, e: TarEntry, m: Map<u64, PageView>)
    requires
        s.walk.wf(),
    ensures
        read_run(s, e, m).0.walk.pending >= s.walk.pending,
    decreases
            (if s.walk.over() {
                0
            } else {
                s.walk.end_off - s.walk.pos()
            }),
{
    if !s.walk.over() {
        lemma_step(s, e, m);
        let (next, sub) = read_step(s, e, m);
        if sub is None {
            lemma_pending_stays(next, e, m);
        }
    }
}

proof fn lemma_hit_is_right(
    s: ReadState,
    e: TarEntry,
    m: Map<u64, PageView>,
    frames: spec_fn(u64, int) -> u8,
    disk: spec_fn(int) -> u8,
)
    requires
        s.walk.wf(),
        !s.walk.over(),
        s.walk.pending == 0,
        cache_holds(s.cache, frames, disk),
        copies_right(s.copies, s.walk.done as int, s.walk, e, m, frames, disk),
        next_slice(s.walk, e, m) matches Some(sl) && slice_right(s.walk, e, m, sl)
            && s.cache.is_ready(sl.key),
    ensures
        ({
            let next = read_step(s, e, m).0;
            &&& next.walk.wf()
            &&& next.walk.pending == 0
            &&& next.walk.prev_off == s.walk.prev_off
            &&& next.walk.buf_va == s.walk.buf_va
            &&& cache_holds(next.cache, frames, disk)
            &&& copies_right(
                next.copies,
                next.walk.done as int,
                next.walk,
                e,
                m,
                frames,
                disk,
            )
        }),
{
    lemma_step(s, e, m);
    let sl = next_slice(s.walk, e, m)->0;
    let next = read_step(s, e, m).0;
    let slot = s.cache.slots[sl.key];
    let n = available(sl, slot.valid_bytes);
    assert(next.cache.slots == s.cache.slots);
    lemma_copies_frame(s.copies, s.walk.done as int, s.walk, next.walk, e, m, frames, disk);
    if n > 0 {
        let c = next.copies.last();
        assert(next.copies.drop_last() =~= s.copies);
        let off = s.walk.pos();
        assert forall|i: int| 0 <= i < c.len implies #[trigger] frames(c.src_pa, c.src_off + i)
            == file_byte(disk, e, off + i) by {
            let j = sl.intra + i;
            assert(0 <= j < slot.valid_bytes);
            assert(frames(s.cache.slots[sl.key].frame.pa, j) == disk(sl.key.lba * 512 + j));
            assert(sl.key.lba * 512 + j == e.data_sector * 512 + (off + i));
        }
    }
}

/// A waiting slice is filled like a copied one: once its page is in frame
/// `src_pa` and holds what the disk holds, the copy for its waiter moves the
/// bytes of the file to their place.
pub proof fn law_waiting_slice_gets_its_bytes(
    w: ReadWalk,
    e: TarEntry,
    m: Map<u64, PageView>,
    sl: ReadSlice,
    src_pa: u64,
    frames: spec_fn(u64, int) -> u8,
    disk: spec_fn(int) -> u8,
)
    requires
        w.wf(),
        slice_right(w, e, m, sl),
        forall|i: int|
            0 <= i < 4096 ==> #[trigger] frames(src_pa, i) == disk(sl.key.lba * 512 + i),
    ensures
        match user_waiter(w, sl) {
            Waiter::User { intra, user_page_pa, user_page_off, len, .. } => copy_right(
                PageCopy {
                    src_pa,
                    src_off: intra,
                    dst_page_pa: user_page_pa,
                    dst_off: user_page_off,
                    len,
                },
                w.pos(),
                w.buf_va + (w.pos() - w.prev_off),
                e,
                m,
                frames,
                disk,
            ),
            _ => false,
        },
{
    let c = PageCopy {
        src_pa,
        src_off: sl.intra,
        dst_page_pa: sl.page_pa,
        dst_off: sl.page_off,
        len: sl.len,
    };
    assert forall|i: int| 0 <= i < c.len implies #[trigger] frames(c.src_pa, c.src_off + i)
        == file_byte(disk, e, w.pos() + i) by {
        let j = sl.intra + i;
        assert(frames(src_pa, j) == disk(sl.key.lba * 512 + j));
        assert(sl.key.lba * 512 + j == e.data_sector * 512 + (w.pos() + i));
    }
}

/// Where the bytes of a finished load go.
#[derive(Clone, Copy, Debug, PartialEq, Eq, Structural)]
pub enum FillCopy {
    User(PageCopy),
    Kernel { src_pa: u64, src_off: u32, dst_kva: u64, len: u32 },
}

/// A finished load whose waiters are being served.
pub struct CacheFill {
    pub status: u8,
    pub src_pa: u64,
    pub waiters: Vec<Waiter>,
    pub next: usize,
}

/// Page frames as the allocator knows them.
pub open spec fn page_backings(frames: Seq<SharedFrame>) -> Seq<PhysBacking> {
    frames.map_values(
        |f: SharedFrame|
            shared_want(4096).at(f.pa),
    )
}

impl Orbit {
    pub open spec fn cache_ok(self) -> bool {
        self.page_cache matches Some(c) ==> c.wf()
    }

    /// The page cache's contents.
    pub open spec fn cache_model(self) -> CacheModel {
        self.page_cache->0@
    }

    /// Makes the page cache from the frames that the allocator granted. Without
    /// enough of them there is none and reads are put off. Frames that are not
    /// used go back.
    pub fn setup_page_cache(&mut self, m: &mut Machine, granted: &Vec<SharedFrame>)
        requires
            old(self).cache_ok(),
        ensures
            final(self).cache_ok(),
            granted@.len() < PAGE_CACHE_CAPACITY ==> {
                &&& *final(self) == *old(self)
                &&& final(m).effects@ == old(m).effects@ + free_all(page_backings(granted@))
            },
            granted@.len() >= PAGE_CACHE_CAPACITY ==> {
                &&& final(self).page_cache is Some
                &&& final(self).cache_model() == empty_cache(
                    granted@.take(PAGE_CACHE_CAPACITY as int),
                )
                &&& final(m).effects@ == old(m).effects@ + free_all(
                    page_backings(granted@.skip(PAGE_CACHE_CAPACITY as int)),
                )
            },
            *final(self) == (Orbit { page_cache: final(self).page_cache, ..*old(self) }),
            *final(m) == (Machine { effects: final(m).effects, ..*old(m) }),
    {
        let used: usize = match PageCache::with_capacity(granted, PAGE_CACHE_CAPACITY) {
            Some(c) => {
                self.page_cache = Some(c);
                PAGE_CACHE_CAPACITY
            },
            None => 0,
        };
        let ghost rest = page_backings(granted@.skip(used as int));
        let ghost start = m.effects@;
        let mut i: usize = used;
        proof {
            assert(granted@.skip(0) =~= granted@);
            assert(start + free_all(rest.take(0)) =~= start);
        }
        while i < granted.len()
            invariant
                used <= i <= granted@.len(),
                rest == page_backings(granted@.skip(used as int)),
                m.effects@ == start + free_all(rest.take(i - used)),
                *m == (Machine { effects: m.effects, ..*old(m) }),
            decreases granted@.len() - i,
        {
            let b = shared_frames(4096).granted(granted[i].pa);
            m.effects.push(Effect::Free(b));
            proof {
                let k = i - used;
                assert(rest[k] == b);
                assert(rest.take(k + 1) =~= rest.take(k).push(b));
                assert(free_all(rest.take(k + 1)) =~= free_all(rest.take(k)).push(
                    Effect::Free(b),
                ));
                assert(m.effects@ =~= start + free_all(rest.take(k + 1)));
            }
            i = i + 1;
        }
        proof {
            assert(rest.take(rest.len() as int) =~= rest);
        }
    }

    /// How the read starts.
    pub open spec fn fs_read_plan(self, req: FsReadReq, pid: u16, tid: u32) -> Result<
        ReadWalk,
        i64,
    > {
        let file = self.file_of(pid, req.fd);
        read_plan(
            file,
            self.page_cache is Some,
            match file {
                Some(of) => self.file_size(of.inode),
                None => None,
            },
            req,
            pid,
            tid,
        )
    }

    /// A walk is for a file that is there, and there is a cache to walk.
    pub open spec fn can_walk(self, w: ReadWalk) -> bool {
        &&& w.wf()
        &&& self.page_cache is Some
        &&& self.mount@ is Some
        &&& inode_entry(self.mount@->0@, w.inode) is Some
    }

    /// `fs_read`: starts reading from an open file at its offset. A read that
    /// needs no walk resumes its caller at once, with an error or zero at the
    /// end of the file. Otherwise the walk goes to
    /// [`advance_fs_read`](Self::advance_fs_read).
    pub fn run_fs_read_req(
        &mut self,
        q: &mut Queues,
        hart: u64,
        req: FsReadReq,
        pid: u16,
        tid: u32,
    ) -> (r: Option<ReadWalk>)
        requires
            old(self).fs_ok(),
            old(q).wf(),
            req.buf_vaddr + req.len <= u64::MAX,
        ensures
            final(q).wf(),
            match old(self).fs_read_plan(req, pid, tid) {
                Ok(w) => r == Some(w) && *final(self) == *old(self) && *final(q) == *old(q)
                    && final(self).can_walk(w),
                Err(v) => {
                    &&& r is None
                    &&& final(self).threads@ == resumed(old(self).threads@, tid, seq![v])
                    &&& final(q).inboxes() == (if old(self).threads@.contains_key(tid) {
                        noticed(old(q).inboxes(), hart, tid)
                    } else {
                        old(q).inboxes()
                    })
                },
            },
            *final(self) == (Orbit { threads: final(self).threads, ..*old(self) }),
            *final(q) == (Queues { ready: final(q).ready, ..*old(q) }),
    {
        let of = match self.open_file(pid, req.fd) {
            Some(of) => of,
            None => {
                self.resume_thread_with_value(q, hart, tid, to_ret(EBADF));
                return None;
            },
        };
        if !of.is_regular {
            self.resume_thread_with_value(q, hart, tid, to_ret(EISDIR));
            return None;
        }
        if self.page_cache.is_none() {
            self.resume_thread_with_value(q, hart, tid, to_ret(EAGAIN));
            return None;
        }
        let size: u64 = match self.get_file_size(of.inode) {
            Some(s) => s,
            None => {
                self.resume_thread_with_value(q, hart, tid, to_ret(EIO));
                return None;
            },
        };
        if of.offset >= size {
            self.resume_thread_with_value(q, hart, tid, 0);
            return None;
        }
        let left: u64 = size - of.offset;
        let want: u64 = if req.len < left {
            req.len
        } else {
            left
        };
        proof {
            assert((want as u32) as u64 <= want) by (bit_vector);
        }
        let cap: u32 = want as u32;
        Some(
            ReadWalk {
                tid,
                pid,
                fd: req.fd,
                inode: of.inode,
                prev_off: of.offset,
                file_size: size,
                end_off: of.offset + cap as u64,
                buf_va: req.buf_vaddr,
                done: 0,
                pending: 0,
                failed: false,
                stopped: false,
            },
        )
    }

    /// Walks on until the device is needed or the read is over.
    pub fn advance_fs_read(
        &mut self,
        space: &UserSpace,
        walk: &mut ReadWalk,
        copies: &mut Vec<PageCopy>,
    ) -> (r: Option<BlkSubmit>)
        requires
            old(self).fs_ok(),
            old(self).cache_ok(),
            old(self).can_walk(*old(walk)),
        ensures
            final(self).cache_ok(),
            final(self).can_walk(*final(walk)),
            (
                ReadState {
                    cache: final(self).cache_model(),
                    walk: *final(walk),
                    copies: final(copies)@,
                },
                r,
            ) == read_run(
                ReadState {
                    cache: old(self).cache_model(),
                    walk: *old(walk),
                    copies: old(copies)@,
                },
                inode_entry(old(self).mount@->0@, old(walk).inode)->0,
                space@,
            ),
            r is None ==> final(walk).over(),
            r matches Some(b) ==> paused_at(*final(walk), b),
            *final(self) == (Orbit { page_cache: final(self).page_cache, ..*old(self) }),
    {
        let mut cache = self.page_cache.take().unwrap();
        let fs = self.mount.mounted().unwrap();
        let r = advance_read(&mut cache, fs, space, walk, copies);
        self.page_cache = Some(cache);
        r
    }

    /// Takes the device's answer to a request of a walk.
    pub fn fs_read_submitted(&mut self, walk: &mut ReadWalk, b: BlkSubmit, ok: bool)
        requires
            old(self).cache_ok(),
            old(self).can_walk(*old(walk)),
            paused_at(*old(walk), b),
        ensures
            final(self).cache_ok(),
            final(self).can_walk(*final(walk)),
            final(self).cache_model() == cache_answered(old(self).cache_model(), b, ok),
            *final(walk) == walk_answered(*old(walk), b, ok),
            *final(self) == (Orbit { page_cache: final(self).page_cache, ..*old(self) }),
    {
        let mut cache = self.page_cache.take().unwrap();
        submit_answered(&mut cache, walk, b, ok);
        self.page_cache = Some(cache);
    }

    /// Ends a walk. If nothing waits, the file offset moves past the bytes that
    /// were copied and the caller is resumed with their number. Otherwise it
    /// moves past everything that was asked for and the caller stays parked.
    pub fn finish_fs_read(&mut self, q: &mut Queues, hart: u64, walk: ReadWalk)
        requires
            old(self).handles_ok(),
            old(q).wf(),
            walk.wf(),
        ensures
            final(self).handles_ok(),
            final(q).wf(),
            match old(self).file_of(walk.pid, walk.fd) {
                None => final(self).process_handles == old(self).process_handles,
                Some(of) => {
                    let h = old(self).handles_of(walk.pid);
                    &&& final(self).process_handles@ == old(self).process_handles@.insert(
                        walk.pid,
                        final(self).process_handles@[walk.pid],
                    )
                    &&& final(self).handles_of(walk.pid) == h.replaced(
                        walk.fd,
                        Slot {
                            handle: Handle::File(OpenFile { offset: walk.pos() as u64, ..of }),
                            ..h.slots[walk.fd]
                        },
                    )
                },
            },
            walk.pending == 0 ==> {
                &&& final(self).threads@ == resumed(
                    old(self).threads@,
                    walk.tid,
                    seq![read_result(walk)],
                )
                &&& final(self).fs_reads_in_progress@ == old(self).fs_reads_in_progress@
                &&& final(q).inboxes() == (if old(self).threads@.contains_key(walk.tid) {
                    noticed(old(q).inboxes(), hart, walk.tid)
                } else {
                    old(q).inboxes()
                })
            },
            walk.pending != 0 ==> {
                &&& final(self).threads@ == old(self).threads@
                &&& final(self).fs_reads_in_progress@ == old(self).fs_reads_in_progress@.insert(
                    walk.tid,
                    waiting_read(walk),
                )
                &&& final(q).inboxes() == old(q).inboxes()
            },
            *final(self) == (Orbit {
                process_handles: final(self).process_handles,
                threads: final(self).threads,
                fs_reads_in_progress: final(self).fs_reads_in_progress,
                ..*old(self)
            }),
            *final(q) == (Queues { ready: final(q).ready, ..*old(q) }),
    {
        let new_off: u64 = walk.prev_off + walk.done as u64 + walk.pending as u64;
        match self.open_file(walk.pid, walk.fd) {
            Some(of) => {
                let mut n = of;
                n.offset = new_off;
                self.set_open_file(walk.pid, walk.fd, n);
            },
            None => {},
        }
        if walk.pending == 0 {
            let v: i64 = if walk.failed && walk.done == 0 {
                to_ret(EIO)
            } else {
                walk.done as i64
            };
            self.resume_thread_with_value(q, hart, walk.tid, v);
        } else {
            let _ = self.fs_reads_in_progress.insert(
                walk.tid,
                FsReadInProgress {
                    bytes_pending: walk.pending,
                    bytes_done: walk.done,
                    failed: false,
                },
            );
        }
    }

    /// One slice of a waiting read came in. The last one resumes the reader.
    pub fn complete_fs_read_waiter(
        &mut self,
        q: &mut Queues,
        hart: u64,
        tid: u32,
        status: u8,
        len: u32,
    )
        requires
            old(q).wf(),
        ensures
            final(q).wf(),
            (final(self).threads@, final(self).fs_reads_in_progress@, final(q).inboxes())
                == waiter_done(
                (old(self).threads@, old(self).fs_reads_in_progress@, old(q).inboxes()),
                hart,
                tid,
                status,
                len,
            ),
            keeps_order(*old(self), *final(self)),
            *final(self) == (Orbit {
                threads: final(self).threads,
                fs_reads_in_progress: final(self).fs_reads_in_progress,
                ..*old(self)
            }),
            *final(q) == (Queues { ready: final(q).ready, ..*old(q) }),
    {
        let mut p: FsReadInProgress = match self.fs_reads_in_progress.get(&tid) {
            Some(p) => *p,
            None => {
                return ;
            },
        };
        p.bytes_pending = if p.bytes_pending < len {
            0
        } else {
            p.bytes_pending - len
        };
        if status == 0 {
            if !p.failed {
                p.bytes_done = if p.bytes_done > u32::MAX - len {
                    u32::MAX
                } else {
                    p.bytes_done + len
                };
            }
        } else {
            p.failed = true;
        }
        if p.bytes_pending == 0 {
            let _ = self.fs_reads_in_progress.remove(&tid);
            let v: i64 = if p.failed {
                to_ret(EIO)
            } else {
                p.bytes_done as i64
            };
            self.resume_thread_with_value(q, hart, tid, v);
        } else {
            let _ = self.fs_reads_in_progress.insert(tid, p);
        }
        proof {
            assert(old(self).threads@.dom() =~= self.threads@.dom());
            lemma_same_places(*old(self), *self);
        }
    }

    /// A load finished: the page becomes ready or is dropped, and its waiters
    /// are handed over to [`advance_cache_fill`](Self::advance_cache_fill).
    /// `None` for a word that is no key, without a cache, and for a page that
    /// the cache does not have.
    pub fn run_cache_fill(&mut self, packed_key: u64, status: u8) -> (r: Option<CacheFill>)
        requires
            old(self).cache_ok(),
        ensures
            final(self).cache_ok(),
            match unpacked(packed_key) {
                Some(key) => if old(self).page_cache is Some
                    && old(self).cache_model().slots.contains_key(key) {
                    let c = old(self).cache_model();
                    &&& final(self).page_cache is Some
                    &&& final(self).cache_model() == c.completed(key, status)
                    &&& r matches Some(f)
                    &&& f.status == status
                    &&& f.src_pa == c.slots[key].frame.pa
                    &&& f.waiters@ == (if c.is_loading(key) {
                        c.slots[key].waiters->0
                    } else {
                        Seq::<Waiter>::empty()
                    })
                    &&& f.next == 0
                } else {
                    r is None && *final(self) == *old(self)
                },
                None => r is None && *final(self) == *old(self),
            },
            *final(self) == (Orbit { page_cache: final(self).page_cache, ..*old(self) }),
    {
        let key = match unpack(packed_key) {
            Some(k) => k,
            None => {
                return None;
            },
        };
        let src_pa: u64 = match &self.page_cache {
            Some(c) => match c.lookup(key) {
                Some(s) => s.frame().pa,
                None => {
                    return None;
                },
            },
            None => {
                return None;
            },
        };
        let mut cache = self.page_cache.take().unwrap();
        let waiters = cache.complete_slot(key, status);
        self.page_cache = Some(cache);
        Some(CacheFill { status, src_pa, waiters, next: 0 })
    }

    /// Serves the waiters of a finished load one after another. Stops after the
    /// copy for a waiting spawn and returns its thread, for the spawn to go on;
    /// `None` once all are served.
    pub fn advance_cache_fill(
        &mut self,
        q: &mut Queues,
        hart: u64,
        fill: &mut CacheFill,
        copies: &mut Vec<FillCopy>,
    ) -> (r: Option<u32>)
        requires
            old(q).wf(),
            old(fill).next <= old(fill).waiters@.len(),
        ensures
            final(q).wf(),
            final(fill).waiters@ == old(fill).waiters@,
            final(fill).status == old(fill).status,
            final(fill).src_pa == old(fill).src_pa,
            final(fill).next <= final(fill).waiters@.len(),
            r is None ==> final(fill).next == final(fill).waiters@.len(),
            (
                FillState {
                    threads: final(self).threads@,
                    reads: final(self).fs_reads_in_progress@,
                    inboxes: final(q).inboxes(),
                    copies: final(copies)@,
                    next: final(fill).next as int,
                },
                r,
            ) == fill_run(
                FillState {
                    threads: old(self).threads@,
                    reads: old(self).fs_reads_in_progress@,
                    inboxes: old(q).inboxes(),
                    copies: old(copies)@,
                    next: old(fill).next as int,
                },
                old(fill).waiters@,
                old(fill).status,
                old(fill).src_pa,
                old(self).processes@.dom(),
                old(self).spawns_in_progress@.dom(),
                hart,
            ),
            keeps_order(*old(self), *final(self)),
            *final(self) == (Orbit {
                threads: final(self).threads,
                fs_reads_in_progress: final(self).fs_reads_in_progress,
                ..*old(self)
            }),
            *final(q) == (Queues { ready: final(q).ready, ..*old(q) }),
    {
        let ghost alive = self.processes@.dom();
        let ghost spawning = self.spawns_in_progress@.dom();
        let ghost goal = fill_run(
            FillState {
                threads: self.threads@,
                reads: self.fs_reads_in_progress@,
                inboxes: q.inboxes(),
                copies: copies@,
                next: fill.next as int,
            },
            fill.waiters@,
            fill.status,
            fill.src_pa,
            alive,
            spawning,
            hart,
        );
        while fill.next < fill.waiters.len()
            invariant
                q.wf(),
                fill.next <= fill.waiters@.len(),
                fill.waiters@ == old(fill).waiters@,
                fill.status == old(fill).status,
                fill.src_pa == old(fill).src_pa,
                alive == old(self).processes@.dom(),
                spawning == old(self).spawns_in_progress@.dom(),
                keeps_order(*old(self), *self),
                *self == (Orbit {
                    threads: self.threads,
                    fs_reads_in_progress: self.fs_reads_in_progress,
                    ..*old(self)
                }),
                *q == (Queues { ready: q.ready, ..*old(q) }),
                goal == fill_run(
                    FillState {
                        threads: old(self).threads@,
                        reads: old(self).fs_reads_in_progress@,
                        inboxes: old(q).inboxes(),
                        copies: old(copies)@,
                        next: old(fill).next as int,
                    },
                    old(fill).waiters@,
                    old(fill).status,
                    old(fill).src_pa,
                    alive,
                    spawning,
                    hart,
                ),
                goal == fill_run(
                    FillState {
                        threads: self.threads@,
                        reads: self.fs_reads_in_progress@,
                        inboxes: q.inboxes(),
                        copies: copies@,
                        next: fill.next as int,
                    },
                    fill.waiters@,
                    fill.status,
                    fill.src_pa,
                    alive,
                    spawning,
                    hart,
                ),
            decreases fill.waiters@.len() - fill.next,
        {
            let w: Waiter = fill.waiters[fill.next];
            fill.next = fill.next + 1;
            match w {
                Waiter::User { tid, pid, intra, user_page_pa, user_page_off, len } => {
                    if fill.status == 0 && self.processes.contains_key(&pid) {
                        copies.push(
                            FillCopy::User(
                                PageCopy {
                                    src_pa: fill.src_pa,
                                    src_off: intra,
                                    dst_page_pa: user_page_pa,
                                    dst_off: user_page_off,
                                    len,
                                },
                            ),
                        );
                    }
                    self.complete_fs_read_waiter(q, hart, tid, fill.status, len);
                },
                Waiter::Kernel { tid, intra, dst_kva, len } => {
                    if fill.status == 0 {
                        copies.push(
                            FillCopy::Kernel {
                                src_pa: fill.src_pa,
                                src_off: intra,
                                dst_kva,
                                len,
                            },
                        );
                    }
                    if self.spawns_in_progress.contains_key(&tid) {
                        return Some(tid);
                    }
                    let v: i64 = if fill.status == 0 {
                        len as i64
                    } else {
                        to_ret(EIO)
                    };
                    let ghost before = *self;
                    self.resume_thread_with_value(q, hart, tid, v);
                    proof {
                        assert(before.threads@.dom() =~= self.threads@.dom());
                        lemma_same_places(before, *self);
                    }
                },
            }
        }
        None
    }
}

/// Threads, waiting reads and ready inboxes after one slice of a waiting read
/// came in.
pub open spec fn waiter_done(
    s: (
        Map<u32, crate::process::Thread>,
        Map<u32, FsReadInProgress>,
        Seq<Seq<crate::work::ReadyNotice>>,
    ),
    hart: u64,
    tid: u32,
    status: u8,
    len: u32,
) -> (
    Map<u32, crate::process::Thread>,
    Map<u32, FsReadInProgress>,
    Seq<Seq<crate::work::ReadyNotice>>,
) {
    let (threads, reads, inboxes) = s;
    if !reads.contains_key(tid) {
        s
    } else {
        let p = slice_in(reads[tid], status, len);
        if p.bytes_pending == 0 {
            (
                resumed(threads, tid, seq![waited_result(p)]),
                reads.remove(tid),
                if threads.contains_key(tid) {
                    noticed(inboxes, hart, tid)
                } else {
                    inboxes
                },
            )
        } else {
            (threads, reads.insert(tid, p), inboxes)
        }
    }
}

/// What serving the waiters of a load changes. `next` is the next waiter.
#[verifier::ext_equal]
pub struct FillState {
    pub threads: Map<u32, crate::process::Thread>,
    pub reads: Map<u32, FsReadInProgress>,
    pub inboxes: Seq<Seq<crate::work::ReadyNotice>>,
    pub copies: Seq<FillCopy>,
    pub next: int,
}

/// The state after waiter `w` of a load was served. Bytes go only to processes
/// that are still there, and only if the load succeeded.
pub open spec fn served(
    s: FillState,
    w: Waiter,
    status: u8,
    src_pa: u64,
    alive: Set<u16>,
    spawning: Set<u32>,
    hart: u64,
) -> FillState {
    match w {
        Waiter::User { tid, pid, intra, user_page_pa, user_page_off, len } => {
            let (threads, reads, inboxes) = waiter_done(
                (s.threads, s.reads, s.inboxes),
                hart,
                tid,
                status,
                len,
            );
            FillState {
                threads,
                reads,
                inboxes,
                copies: if status == 0 && alive.contains(pid) {
                    s.copies.push(
                        FillCopy::User(
                            PageCopy {
                                src_pa,
                                src_off: intra,
                                dst_page_pa: user_page_pa,
                                dst_off: user_page_off,
                                len,
                            },
                        ),
                    )
                } else {
                    s.copies
                },
                next: s.next + 1,
            }
        },
        Waiter::Kernel { tid, intra, dst_kva, len } => {
            let copies = if status == 0 {
                s.copies.push(FillCopy::Kernel { src_pa, src_off: intra, dst_kva, len })
            } else {
                s.copies
            };
            if spawning.contains(tid) {
                FillState { copies, next: s.next + 1, ..s }
            } else {
                FillState {
                    threads: resumed(
                        s.threads,
                        tid,
                        seq![
                            if status == 0 {
                                len as i64
                            } else {
                                errno_ret(EIO)
                            },
                        ],
                    ),
                    inboxes: if s.threads.contains_key(tid) {
                        noticed(s.inboxes, hart, tid)
                    } else {
                        s.inboxes
                    },
                    copies,
                    next: s.next + 1,
                    ..s
                }
            }
        },
    }
}

/// The state after the waiters from `s.next` on were served, up to and with
/// the first one that belongs to a spawn.
pub open spec fn fill_run(
    s: FillState,
    waiters: Seq<Waiter>,
    status: u8,
    src_pa: u64,
    alive: Set<u16>,
    spawning: Set<u32>,
    hart: u64,
) -> (FillState, Option<u32>)
    decreases waiters.len() - s.next,
{
    if s.next < 0 || s.next >= waiters.len() {
        (s, None)
    } else {
        let w = waiters[s.next];
        let t = served(s, w, status, src_pa, alive, spawning, hart);
        match w {
            Waiter::Kernel { tid, .. } => if spawning.contains(tid) {
                (t, Some(tid))
            } else {
                fill_run(t, waiters, status, src_pa, alive, spawning, hart)
            },
            Waiter::User { .. } => fill_run(t, waiters, status, src_pa, alive, spawning, hart),
        }
    }
}

/// A read of a regular file that is cached takes what is asked for, as far as
/// the file has it from the file's offset on. It is answered at once, with 0,
/// exactly if the offset is at the end of the file or beyond.
pub proof fn law_a_read_takes_what_is_left(
    of: OpenFile,
    size: u64,
    req: FsReadReq,
    pid: u16,
    tid: u32,
)
    requires
        of.is_regular,
    ensures
        match read_plan(Some(of), true, Some(size), req, pid, tid) {
            Err(v) => v == 0 && of.offset >= size,
            Ok(w) => {
                let n = w.end_off - w.prev_off;
                &&& of.offset < size
                &&& w.prev_off == of.offset
                &&& w.prev_off <= w.end_off <= size
                &&& req.len < 0x1_0000_0000 ==> n <= req.len && (n == req.len || w.end_off == size)
                &&& size - of.offset < 0x1_0000_0000 ==> n <= req.len && (n == req.len || w.end_off
                    == size)
                &&& w.inode == of.inode && w.file_size == size
                &&& w.fd == req.fd && w.buf_va == req.buf_vaddr
                &&& w.tid == tid && w.pid == pid
                &&& w.done == 0 && w.pending == 0 && !w.failed && !w.stopped
            },
        },
{
}

/// A read that cannot start is answered with the reason: 9 for a number without
/// a file, 21 for a directory, 11 without a cache, 5 for a file without a size.
pub proof fn law_a_refused_read_says_why(
    file: Option<OpenFile>,
    cached: bool,
    size: Option<u64>,
    req: FsReadReq,
    pid: u16,
    tid: u32,
)
    ensures
        ({
            let r = read_plan(file, cached, size, req, pid, tid);
            &&& refused(r, 9) <==> file is None
            &&& refused(r, 21) <==> file is Some && !file->0.is_regular
            &&& refused(r, 11) <==> file is Some && file->0.is_regular && !cached
            &&& refused(r, 5) <==> file is Some && file->0.is_regular && cached
                && size is None
            &&& r is Ok ==> file is Some && cached && size is Some
        }),
{
}

/// A read that left nothing waiting hands back the number of bytes that it
/// copied. It fails, with 5, exactly if something went wrong before the first.
pub proof fn law_a_finished_read_returns_its_count(w: ReadWalk)
    ensures
        w.done > 0 || !w.failed ==> read_result(w) == w.done,
        w.done == 0 && w.failed ==> read_result(w) == -5,
{
}

/// A slice that comes in is taken off what is awaited, and its bytes count
/// exactly if neither it nor an earlier one went wrong. A failure stays.
pub proof fn law_a_slice_counts_once(p: FsReadInProgress, status: u8, len: u32)
    requires
        p.bytes_pending >= len,
        p.bytes_done + len <= u32::MAX,
    ensures
        ({
            let q = slice_in(p, status, len);
            &&& p.bytes_pending - q.bytes_pending == len
            &&& q.failed <==> p.failed || status != 0
            &&& !q.failed ==> q.bytes_done == p.bytes_done + len && waited_result(q) == q.bytes_done
            &&& q.failed ==> q.bytes_done == p.bytes_done && waited_result(q) == -5
        }),
{
}

/// Once a block was asked for, its slice is awaited; if it could not be asked
/// for, the walk stops as failed and awaits nothing more.
pub proof fn law_an_asked_block_is_awaited(w: ReadWalk, b: BlkSubmit, ok: bool)
    requires
        w.wf(),
        paused_at(w, b),
    ensures
        ({
            let v = walk_answered(w, b, ok);
            &&& ok ==> v.pending == w.pending + b.slice_len && v.failed == w.failed && v.stopped
                == w.stopped
            &&& !ok ==> v.pending == w.pending && v.failed && v.stopped && v.over()
            &&& v.done == w.done && v.prev_off == w.prev_off && v.end_off == w.end_off
            &&& v.tid == w.tid && v.inode == w.inode && v.buf_va == w.buf_va
        }),
{
}

/// A waiting read that got its last slice returns: its thread is ready with
/// the count of bytes read, or with an input error where a slice failed, and
/// its hart learns. Before that it goes on waiting, for less.
pub proof fn law_a_read_returns_with_its_last_slice(
    threads: Map<u32, crate::process::Thread>,
    reads: Map<u32, FsReadInProgress>,
    inboxes: Seq<Seq<crate::work::ReadyNotice>>,
    hart: u64,
    tid: u32,
    status: u8,
    len: u32,
    other: u32,
)
    requires
        reads.contains_key(tid),
        other != tid,
        reads[tid].bytes_pending >= len,
    ensures
        ({
            let r = reads[tid];
            let (t2, r2, i2) = waiter_done((threads, reads, inboxes), hart, tid, status, len);
            &&& r.bytes_pending > len ==> {
                &&& t2 == threads && i2 == inboxes
                &&& r2.contains_key(tid) && r2[tid].bytes_pending == r.bytes_pending - len
            }
            &&& r.bytes_pending == len ==> {
                &&& !r2.contains_key(tid)
                &&& t2 == resumed(threads, tid, seq![waited_result(slice_in(r, status, len))])
                &&& threads.contains_key(tid) ==> i2 == noticed(inboxes, hart, tid)
                &&& !threads.contains_key(tid) ==> i2 == inboxes
            }
            &&& r2.contains_key(other) == reads.contains_key(other)
            &&& reads.contains_key(other) ==> r2[other] == reads[other]
        }),
{
}

/// What a page brings for a waiting thread is copied from where it lies in
/// the page to where it was asked for, if the read succeeded and the process
/// is still there; every waiter is served once.
pub proof fn law_a_waiter_gets_its_bytes(
    s: FillState,
    w: Waiter,
    status: u8,
    src_pa: u64,
    alive: Set<u16>,
    spawning: Set<u32>,
    hart: u64,
)
    ensures
        ({
            let n = served(s, w, status, src_pa, alive, spawning, hart);
            &&& n.next == s.next + 1
            &&& status != 0 ==> n.copies == s.copies
            &&& w matches Waiter::User { tid, pid, intra, user_page_pa, user_page_off, len } ==> {
                &&& !alive.contains(pid) ==> n.copies == s.copies
                &&& status == 0 && alive.contains(pid) ==> {
                    &&& n.copies.len() == s.copies.len() + 1
                    &&& n.copies.drop_last() == s.copies
                    &&& n.copies.last() matches FillCopy::User(c)
                    &&& c.src_pa == src_pa && c.src_off == intra && c.len == len
                    &&& c.dst_page_pa == user_page_pa && c.dst_off == user_page_off
                }
                &&& (n.threads, n.reads, n.inboxes) == waiter_done(
                    (s.threads, s.reads, s.inboxes),
                    hart,
                    tid,
                    status,
                    len,
                )
            }
            &&& w matches Waiter::Kernel { tid, intra, dst_kva, len } ==> {
                &&& n.reads == s.reads
                &&& status == 0 ==> {
                    &&& n.copies.len() == s.copies.len() + 1
                    &&& n.copies.drop_last() == s.copies
                    &&& n.copies.last() == (FillCopy::Kernel {
                        src_pa,
                        src_off: intra,
                        dst_kva,
                        len,
                    })
                }
                &&& spawning.contains(tid) ==> n.threads == s.threads && n.inboxes == s.inboxes
                &&& !spawning.contains(tid) && s.threads.contains_key(tid) ==> {
                    &&& n.inboxes == noticed(s.inboxes, hart, tid)
                    &&& status == 0 ==> n.threads == resumed(s.threads, tid, seq![len as i64])
                    &&& status != 0 ==> n.threads == resumed(s.threads, tid, seq![-5i64])
                }
                &&& !s.threads.contains_key(tid) ==> n.threads == s.threads && n.inboxes
                    == s.inboxes
            }
        }),
{
    let n = served(s, w, status, src_pa, alive, spawning, hart);
    assert(forall|c: FillCopy| s.copies.push(c).drop_last() =~= s.copies);
}

/// Those who wait for a page are served in their order, from the first on,
/// up to one that belongs to a program being loaded, and that one is named.
pub proof fn law_waiters_are_served_in_order(
    s: FillState,
    waiters: Seq<Waiter>,
    status: u8,
    src_pa: u64,
    alive: Set<u16>,
    spawning: Set<u32>,
    hart: u64,
)
    requires
        0 <= s.next <= waiters.len(),
    ensures
        ({
            let (t, stop) = fill_run(s, waiters, status, src_pa, alive, spawning, hart);
            &&& s.next <= t.next <= waiters.len()
            &&& stop is None ==> t.next == waiters.len()
            &&& stop matches Some(tid) ==> {
                &&& t.next > s.next
                &&& spawning.contains(tid)
                &&& waiters[t.next - 1] matches Waiter::Kernel { tid: k, .. } && k == tid
            }
            &&& forall|i: int|
                s.next <= i < t.next - (if stop is Some {
                    1int
                } else {
                    0
                }) ==> !((#[trigger] waiters[i]) matches Waiter::Kernel { tid, .. }
                    && spawning.contains(tid))
            &&& s.next < waiters.len() && (waiters[s.next] is User) ==> (t, stop) == fill_run(
                served(s, waiters[s.next], status, src_pa, alive, spawning, hart),
                waiters,
                status,
                src_pa,
                alive,
                spawning,
                hart,
            )
        }),
    decreases waiters.len() - s.next,
{
    if s.next < waiters.len() {
        let t = served(s, waiters[s.next], status, src_pa, alive, spawning, hart);
        law_waiters_are_served_in_order(t, waiters, status, src_pa, alive, spawning, hart);
    }
}

/// One step of a read takes the next slice: from a ready page it is copied,
/// as far as the page holds the file; a page on its way is waited for; one
/// that is not there is asked for. A slice that cannot be had ends the read.
pub proof fn law_a_read_takes_the_next_slice(s: ReadState, e: TarEntry, m: Map<u64, PageView>)
    ensures
        ({
            let (n, ask) = read_step(s, e, m);
            &&& next_slice(s.walk, e, m) is None ==> n.walk.failed && n.walk.stopped && n.copies
                == s.copies && n.cache == s.cache && ask is None
            &&& next_slice(s.walk, e, m) matches Some(sl) ==> {
                let w = Waiter::User {
                    tid: s.walk.tid,
                    pid: s.walk.pid,
                    intra: sl.intra,
                    user_page_pa: sl.page_pa,
                    user_page_off: sl.page_off,
                    len: sl.len,
                };
                &&& s.cache.is_ready(sl.key) ==> {
                    let slot = s.cache.slots[sl.key];
                    let got = n.walk.done - s.walk.done;
                    &&& ask is None
                    &&& slot.valid_bytes >= sl.intra + sl.len && s.walk.done + sl.len <= u32::MAX
                        ==> {
                        &&& got == sl.len
                        &&& n.walk.stopped == s.walk.stopped
                        &&& sl.len > 0 ==> n.copies.last() == (PageCopy {
                            src_pa: slot.frame.pa,
                            src_off: sl.intra,
                            dst_page_pa: sl.page_pa,
                            dst_off: sl.page_off,
                            len: sl.len,
                        })
                    }
                    &&& slot.valid_bytes <= sl.intra ==> n.copies == s.copies
                    &&& slot.valid_bytes < sl.intra + sl.len && sl.len > 0 ==> n.walk.stopped
                    &&& n.walk.pending == s.walk.pending
                    &&& n.walk.failed == s.walk.failed
                    &&& n.cache == s.cache.hit().touched(sl.key)
                }
                &&& s.cache.is_loading(sl.key) ==> {
                    &&& ask is None
                    &&& n.cache == s.cache.registered(sl.key, w)
                    &&& n.copies == s.copies && n.walk.done == s.walk.done
                    &&& s.walk.pending + sl.len <= u32::MAX ==> n.walk.pending == s.walk.pending
                        + sl.len
                }
                &&& !s.cache.slots.contains_key(sl.key) ==> {
                    &&& n.cache == s.cache.load_begun(sl.key, sl.valid, w)
                    &&& n.copies == s.copies
                    &&& s.cache.next_frame() is None ==> ask is None && n.walk.failed
                        && n.walk.stopped
                    &&& s.cache.next_frame() matches Some(f) ==> {
                        &&& n.walk == s.walk
                        &&& ask matches Some(b)
                        &&& b.key == sl.key && b.pa == f.pa && b.slice_len == sl.len
                        &&& b.packed_key == crate::page_cache::packed(sl.key)
                    }
                }
            }
        }),
{
}

/// The frames of the page cache are shared pages.
pub proof fn law_cache_frames_are_shared_pages(frames: Seq<SharedFrame>, i: int)
    requires
        0 <= i < frames.len(),
    ensures
        page_backings(frames).len() == frames.len(),
        page_backings(frames)[i].pa == frames[i].pa,
        page_backings(frames)[i].pool == crate::process::Pool::Shared,
        page_backings(frames)[i].size == 4096,
        page_backings(frames)[i].align == 4096,
{
}

/// More than was waited for leaves nothing to wait for, and a count stops at
/// the largest.
pub proof fn law_counts_of_a_read_do_not_wrap(p: FsReadInProgress, status: u8, len: u32)
    ensures
        p.bytes_pending <= len ==> slice_in(p, status, len).bytes_pending == 0,
        status == 0 && !p.failed && p.bytes_done + len > u32::MAX ==> slice_in(
            p,
            status,
            len,
        ).bytes_done == u32::MAX,
{
}

/// Serving a page's waiters goes on behind each one, and stops behind one
/// that belongs to a program being loaded.
pub proof fn law_serving_goes_on_until_a_program_waits(
    s: FillState,
    waiters: Seq<Waiter>,
    status: u8,
    src_pa: u64,
    alive: Set<u16>,
    spawning: Set<u32>,
    hart: u64,
)
    requires
        0 <= s.next < waiters.len(),
    ensures
        ({
            let r = fill_run(s, waiters, status, src_pa, alive, spawning, hart);
            let t = served(s, waiters[s.next], status, src_pa, alive, spawning, hart);
            match waiters[s.next] {
                Waiter::Kernel { tid, .. } if spawning.contains(tid) => r == (t, Some(tid)),
                _ => r == fill_run(t, waiters, status, src_pa, alive, spawning, hart),
            }
        }),
{
}

} // verus!
