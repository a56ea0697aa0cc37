//! System calls that are answered on the spot.

#[allow(unused_imports)]
use crate::abi::{errno_ret, refused};
use crate::abi::{to_ret, user_range_ok, EAGAIN, EBADF, EFAULT, EINVAL};
#[allow(unused_imports)]
use crate::audit::log_refusal;
use crate::hart::TICKS_PER_MICRO;
use crate::orbit::Orbit;
use crate::process::Thread;
use crate::rings::{wake_queue_push, WakeEvent, WakeQueue};
#[allow(unused_imports)]
use crate::surface::{snapshot_of, SurfaceSnapshot};
#[allow(unused_imports)]
use crate::uspace::on_one_page;
use vstd::prelude::*;

verus! {

broadcast use {vstd::laws_cmp::group_laws_cmp, vstd::std_specs::btree::group_btree_axioms};

/// `get_micros`: time since boot.
pub fn handle_get_micros(now_ticks: u64) -> (r: i64)
    ensures
        r == now_ticks / 10,
{
    (now_ticks / TICKS_PER_MICRO) as i64
}

/// `get_realtime`: seconds and nanoseconds of a wall clock reading.
pub fn handle_get_realtime(nanos: u64) -> (r: (i64, i64))
    ensures
        r.0 * 1_000_000_000 + r.1 == nanos,
        0 <= r.1 < 1_000_000_000,
{
    ((nanos / 1_000_000_000) as i64, (nanos % 1_000_000_000) as i64)
}

/// `get_micros` never runs backward.
pub proof fn law_time_does_not_run_backward(a: u64, b: u64)
    requires
        a <= b,
    ensures
        a / 10 <= b / 10,
{
}

/// `get_hart_id`: the hart that the call came in on.
pub fn handle_get_hart_id(hart: u16) -> (r: i64)
    ensures
        r == hart,
{
    hart as i64
}

/// `getpid`, `gettid`, and the ids of the thread's identity.
pub fn handle_getpid(t: &Thread) -> (r: i64)
    ensures
        r == t.pid,
{
    t.pid as i64
}

pub fn handle_gettid(t: &Thread) -> (r: i64)
    ensures
        r == t.tid,
{
    t.tid as i64
}

pub fn handle_getuid(t: &Thread) -> (r: i64)
    ensures
        r == t.creds.uid,
{
    t.creds.uid as i64
}

pub fn handle_geteuid(t: &Thread) -> (r: i64)
    ensures
        r == t.creds.euid,
{
    t.creds.euid as i64
}

pub fn handle_getgid(t: &Thread) -> (r: i64)
    ensures
        r == t.creds.gid,
{
    t.creds.gid as i64
}

pub fn handle_getegid(t: &Thread) -> (r: i64)
    ensures
        r == t.creds.egid,
{
    t.creds.egid as i64
}

/// `nc_yield`: wakes the network thread. Returns how long the caller sleeps, in
/// milliseconds; `None` if it goes on at once with zero.
pub fn handle_nc_yield(wakes: &mut WakeQueue, timeout_ms: u64) -> (r: Option<u64>)
    ensures
        final(wakes)@ == old(wakes)@.pushed(WakeEvent::Net),
        r == (if timeout_ms == 0 {
            None
        } else {
            Some(timeout_ms)
        }),
{
    let _ = wake_queue_push(wakes, WakeEvent::Net);
    if timeout_ms == 0 {
        None
    } else {
        Some(timeout_ms)
    }
}

/// How often a system call was made and how long it took.
#[derive(Clone, Copy, Debug, PartialEq, Eq, Structural)]
pub struct SyscallEntry {
    pub count: u64,
    pub total_ticks: u64,
    pub max_ticks: u64,
}

/// Sizes of the records that system call statistics are made of.
#[derive(Clone, Copy, Debug, PartialEq, Eq, Structural)]
pub struct StatsLayout {
    pub header: u64,
    pub entry: u64,
    /// Shortest buffer that is accepted.
    pub min_len: u64,
}

/// System call statistics for a user buffer. `size` bytes: a header that holds
/// the size and the number of entries, and the entries.
pub struct SyscallStats {
    pub size: u64,
    pub entries: Vec<SyscallEntry>,
}

/// How many of `n` entries a buffer takes, whole entries only.
pub open spec fn entries_in(n: nat, buf_len: u64, l: StatsLayout) -> int {
    let native = l.header + n * l.entry;
    let room = if native < buf_len {
        native
    } else {
        buf_len as int
    };
    let fit = if room >= l.header {
        (room - l.header) / l.entry as int
    } else {
        0
    };
    if fit < n {
        fit
    } else {
        n as int
    }
}

/// `query_syscall_stats`: the statistics that fit in the buffer, first call
/// first. `va` is the buffer's address, `None` if it is no user address, and
/// `mapped` says whether it translates.
pub fn handle_query_syscall_stats(
    slots: &Vec<SyscallEntry>,
    l: StatsLayout,
    user_end: u64,
    va: Option<u64>,
    buf_len: u64,
    mapped: bool,
) -> (r: Result<SyscallStats, i64>)
    requires
        0 < l.entry <= 4096,
        l.header <= 4096,
        slots@.len() <= 4096,
    ensures
        match log_refusal(va, buf_len, l.min_len, user_end, mapped) {
            Some(e) => r matches Err(x) && x == e,
            None => {
                let n = entries_in(slots@.len(), buf_len, l);
                r matches Ok(s) && s.entries@ == slots@.take(n) && s.size == l.header + n * l.entry
            },
        },
{
    let v: u64 = match va {
        Some(v) => v,
        None => {
            return Err(to_ret(EFAULT));
        },
    };
    if buf_len < l.min_len {
        return Err(to_ret(EINVAL));
    }
    if !user_range_ok(v, buf_len, user_end) || !mapped {
        return Err(to_ret(EFAULT));
    }
    let n: u64 = slots.len() as u64;
    proof {
        assert(n * l.entry <= 4096 * 4096) by (nonlinear_arith)
            requires
                n <= 4096,
                l.entry <= 4096,
        ;
    }
    let native: u64 = l.header + n * l.entry;
    let room: u64 = if native < buf_len {
        native
    } else {
        buf_len
    };
    let fit: u64 = if room >= l.header {
        (room - l.header) / l.entry
    } else {
        0
    };
    let count: u64 = if fit < n {
        fit
    } else {
        n
    };
    proof {
        assert(count * l.entry <= 4096 * 4096) by (nonlinear_arith)
            requires
                count <= 4096,
                l.entry <= 4096,
        ;
        assert(count == entries_in(slots@.len(), buf_len, l));
    }
    let mut entries: Vec<SyscallEntry> = Vec::new();
    let mut i: usize = 0;
    while i < count as usize
        invariant
            i <= count <= slots@.len(),
            entries@ == slots@.take(i as int),
        decreases count - i,
    {
        entries.push(slots[i]);
        proof {
            assert(entries@ =~= slots@.take(i + 1));
        }
        i = i + 1;
    }
    Ok(SyscallStats { size: l.header + count * l.entry, entries })
}

/// The framebuffer as user programs see it.
#[derive(Clone, Copy, Debug, PartialEq, Eq, Structural)]
pub struct FbInfo {
    pub width: u32,
    pub height: u32,
    pub format: u32,
    pub flags: u32,
}

/// `fb_query`: what the framebuffer is like. `size` is the size of the record
/// that goes to `va`, `None` if that is no user address; `fb` are the width and
/// the height once the compositor is up.
pub fn handle_fb_query(
    va: Option<u64>,
    size: u64,
    user_end: u64,
    mapped: bool,
    fb: Option<(u32, u32)>,
    format: u32,
) -> (r: Result<FbInfo, i64>)
    requires
        size <= 4096,
    ensures
        r == (match va {
            None => Err::<FbInfo, i64>(errno_ret(EFAULT)),
            Some(v) => if v + size > user_end {
                Err(errno_ret(EFAULT))
            } else if !on_one_page(v, size as int) {
                Err(errno_ret(EINVAL))
            } else if !mapped {
                Err(errno_ret(EFAULT))
            } else {
                match fb {
                    None => Err(errno_ret(EAGAIN)),
                    Some((width, height)) => Ok(FbInfo { width, height, format, flags: 0 }),
                }
            },
        }),
{
    let v: u64 = match va {
        Some(v) => v,
        None => {
            return Err(to_ret(EFAULT));
        },
    };
    if !user_range_ok(v, size, user_end) {
        return Err(to_ret(EFAULT));
    }
    if v % 4096 + size > 4096 {
        return Err(to_ret(EINVAL));
    }
    if !mapped {
        return Err(to_ret(EFAULT));
    }
    match fb {
        None => Err(to_ret(EAGAIN)),
        Some((width, height)) => Ok(FbInfo { width, height, format, flags: 0 }),
    }
}

/// A part of a surface.
#[derive(Clone, Copy, Debug, PartialEq, Eq, Structural)]
pub struct Rect {
    pub x: u32,
    pub y: u32,
    pub w: u32,
    pub h: u32,
}

/// A part of a surface for the compositor to draw.
#[derive(Clone, Copy, Debug, PartialEq, Eq, Structural)]
pub struct PresentArgs {
    pub surface: SurfaceSnapshot,
    pub rect: Rect,
}

/// Where a stretch ends, at most at the largest coordinate.
pub open spec fn end_of(from: u32, len: u32) -> int {
    if from + len > u32::MAX {
        u32::MAX as int
    } else {
        from + len
    }
}

/// Whether a part lies in a surface.
pub open spec fn rect_inside(s: SurfaceSnapshot, rect: Rect) -> bool {
    end_of(rect.x, rect.w) <= s.width && end_of(rect.y, rect.h) <= s.height
}

impl Orbit {
    /// What `fb_present` asks the compositor to draw, or why it is refused.
    pub open spec fn present_plan(self, pid: u16, handle: u32, rect: Rect) -> Result<
        PresentArgs,
        i64,
    > {
        if rect.w == 0 || rect.h == 0 {
            Err(errno_ret(EINVAL))
        } else if !self.surface_tables().contains_key(pid) {
            Err(errno_ret(EBADF))
        } else if !self.surface_tables()[pid].surfaces.contains_key(handle) {
            Err(errno_ret(EBADF))
        } else {
            let s = snapshot_of(self.surface_tables()[pid].surfaces[handle]);
            if !rect_inside(s, rect) {
                Err(errno_ret(EINVAL))
            } else {
                Ok(PresentArgs { surface: s, rect })
            }
        }
    }

    /// `fb_present`: what the compositor is to draw.
    pub fn handle_fb_present(&self, pid: u16, handle: u32, rect: Rect) -> (r: Result<PresentArgs, i64>)
        ensures
            r == self.present_plan(pid, handle, rect),
    {
        if rect.w == 0 || rect.h == 0 {
            return Err(to_ret(EINVAL));
        }
        let ps = match crate::surface::get(&self.surfaces, pid) {
            Some(s) => s,
            None => {
                return Err(to_ret(EBADF));
            },
        };
        proof {
            assert(self.surface_tables().contains_key(pid));
            assert(self.surface_tables()[pid] == ps@);
        }
        let s = match ps.snapshot(handle) {
            Some(s) => s,
            None => {
                return Err(to_ret(EBADF));
            },
        };
        let x_end: u32 = rect.x.saturating_add(rect.w);
        let y_end: u32 = rect.y.saturating_add(rect.h);
        if x_end > s.width || y_end > s.height {
            return Err(to_ret(EINVAL));
        }
        Ok(PresentArgs { surface: s, rect })
    }
}

/// What `fb_present` hands back, given whether the compositor's ring had room.
pub fn present_result(queued: bool) -> (r: i64)
    ensures
        r == (if queued {
            0
        } else {
            errno_ret(EAGAIN)
        }),
{
    if queued {
        0
    } else {
        to_ret(EAGAIN)
    }
}

/// What is drawn lies in the surface, whatever coordinates a caller asks for.
/// Surfaces are smaller than the largest coordinate.
pub proof fn law_presented_parts_lie_in_the_surface(o: Orbit, pid: u16, handle: u32, rect: Rect)
    requires
        o.surface_tables()[pid].surfaces[handle].width < u32::MAX,
        o.surface_tables()[pid].surfaces[handle].height < u32::MAX,
    ensures
        o.present_plan(pid, handle, rect) matches Ok(a) ==> {
            &&& a.rect == rect
            &&& 0 < rect.w && rect.x + rect.w <= a.surface.width
            &&& 0 < rect.h && rect.y + rect.h <= a.surface.height
        },
{
}

/// A reader gets whole entries behind the header, as many as its buffer holds,
/// or all there are.
pub proof fn law_statistics_come_in_whole_entries(n: nat, buf_len: u64, l: StatsLayout)
    requires
        l.entry > 0,
        buf_len >= l.header,
    ensures
        ({
            let k = entries_in(n, buf_len, l);
            &&& 0 <= k <= n
            &&& l.header + k * l.entry <= buf_len
            &&& k == n || l.header + (k + 1) * l.entry > buf_len
        }),
{
    let k = entries_in(n, buf_len, l);
    let e = l.entry as int;
    let native = l.header + n * l.entry;
    let room = if native < buf_len {
        native
    } else {
        buf_len as int
    };
    let d = room - l.header;
    assert(n * e >= 0) by (nonlinear_arith)
        requires
            e > 0,
    ;
    let q = d / e;
    vstd::arithmetic::div_mod::lemma_fundamental_div_mod(d, e);
    vstd::arithmetic::div_mod::lemma_mod_bound(d, e);
    assert(q * e <= d < (q + 1) * e && q >= 0) by (nonlinear_arith)
        requires
            d == e * q + (d % e),
            0 <= d % e < e,
            d >= 0,
    ;
    assert(k * e <= q * e) by (nonlinear_arith)
        requires
            k <= q,
            e > 0,
    ;
    if k < n && native < buf_len {
        assert(d == n * e);
        assert(q >= n) by (nonlinear_arith)
            requires
                n * e < (q + 1) * e,
                e > 0,
        ;
    }
}

/// A part of a surface is presented exactly if it is not empty, the surface is
/// the caller's and the part lies in it. It is refused with 9 for a surface that
/// is not there, and else with 22.
pub proof fn law_a_part_is_presented_if_it_is_there(o: Orbit, pid: u16, handle: u32, rect: Rect)
    ensures
        ({
            let r = o.present_plan(pid, handle, rect);
            let there = o.surface_tables().contains_key(pid)
                && o.surface_tables()[pid].surfaces.contains_key(handle);
            let e = o.surface_tables()[pid].surfaces[handle];
            &&& there && rect.w > 0 && rect.h > 0 && rect.x + rect.w <= e.width && rect.y + rect.h
                <= e.height ==> r is Ok
            &&& r matches Ok(a) ==> there && a.rect == rect && a.surface.width == e.width
                && a.surface.height == e.height && a.surface.kdmap_kva == e.kdmap_kva
                && a.surface.format == e.format
            &&& rect.w > 0 && rect.h > 0 && !there ==> refused(r, 9)
            &&& rect.w == 0 || rect.h == 0 ==> refused(r, 22)
            &&& there && (rect.x + rect.w > e.width || rect.y + rect.h > e.height) && e.width
                < u32::MAX && e.height < u32::MAX ==> refused(r, 22)
        }),
{
}

} // verus!
