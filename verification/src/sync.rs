//! Waiting and waking: futexes, the end of child processes, pledges and new
//! threads.

#[allow(unused_imports)]
use crate::abi::{errno_ret, refused};
use crate::abi::{
    to_ret, EAGAIN, EBUSY, ECHILD, EFAULT, EINVAL, ENOMEM, EPERM, ESRCH,
};
use crate::creds::Stamp;
#[allow(unused_imports)]
use crate::creds::threads_stamped;
use crate::orbit::{push_ready_notice, FutexWaiter, Orbit, Queues};
#[allow(unused_imports)]
use crate::orbit::{harts_mask, noticed, published};
use crate::process::{deliver, Permissions, Rets, Thread, ThreadState};
#[allow(unused_imports)]
use crate::process::{delivered, rets_of};
use crate::rings::WakeQueue;
#[allow(unused_imports)]
use crate::rings::{WakeEvent, WakeView};
use crate::tables::members32;
use crate::uspace::UserSpace;
#[allow(unused_imports)]
use crate::uspace::{of_le32, page_base, page_dst, PageView};
use crate::work::{CreateThreadReq, FutexWaitReq, FutexWakeReq, PledgeReq, WaitPidReq};
#[allow(unused_imports)]
use crate::world::{
    keeps_order, lemma_same_places, same_places, ProcView, World,
};
use vstd::prelude::*;

verus! {

broadcast use {vstd::laws_cmp::group_laws_cmp, vstd::std_specs::btree::group_btree_axioms};

/// Threads and wake queue.
#[verifier::ext_equal]
pub struct WakeState {
    pub threads: Map<u32, Thread>,
    pub wakes: WakeView,
}

impl WakeState {
    /// Return values are left with a thread and its wake-up is queued.
    pub open spec fn answered(self, tid: u32, vals: Seq<i64>) -> WakeState {
        WakeState {
            threads: published(self.threads, tid, vals),
            wakes: if self.threads.contains_key(tid) {
                self.wakes.pushed(WakeEvent::Tid(tid))
            } else {
                self.wakes
            },
        }
    }

    /// A list of waiters is woken with zero, the first one first.
    pub open spec fn all_woken(self, ws: Seq<FutexWaiter>) -> WakeState
        decreases ws.len(),
    {
        if ws.len() == 0 {
            self
        } else {
            self.all_woken(ws.drop_last()).answered(ws.last().tid, seq![0i64])
        }
    }
}

/// The word at a futex address: its physical address and its value.
pub open spec fn futex_cell(m: Map<u64, PageView>, uaddr: u64) -> Option<(u64, u32)> {
    match page_dst(m, uaddr) {
        Err(_) => None,
        Ok((page_pa, off)) => {
            let b = m[page_base(uaddr as int) as u64].bytes;
            Some(
                (
                    vstd::wrapping::u64_specs::wrapping_add(page_pa, off),
                    of_le32(b[off as int], b[off + 1], b[off + 2], b[off + 3]),
                ),
            )
        },
    }
}

/// The waiters on a word.
pub open spec fn waiters_on(f: Map<u64, Seq<FutexWaiter>>, pa: u64) -> Seq<FutexWaiter> {
    if f.contains_key(pa) {
        f[pa]
    } else {
        Seq::empty()
    }
}

/// The waiters after one more parked on the word at `pa`.
pub open spec fn parked_on(f: Map<u64, Seq<FutexWaiter>>, pa: u64, w: FutexWaiter) -> Map<
    u64,
    Seq<FutexWaiter>,
> {
    f.insert(pa, waiters_on(f, pa).push(w))
}

/// How many waiters a wake of `n` reaches.
pub open spec fn reach(f: Map<u64, Seq<FutexWaiter>>, pa: u64, n: u32) -> int {
    if n < waiters_on(f, pa).len() {
        n as int
    } else {
        waiters_on(f, pa).len() as int
    }
}

/// The waiters left after a wake of `n`: those that parked last.
pub open spec fn left_on(f: Map<u64, Seq<FutexWaiter>>, pa: u64, n: u32) -> Map<
    u64,
    Seq<FutexWaiter>,
> {
    let ws = waiters_on(f, pa);
    let k = reach(f, pa, n);
    if !f.contains_key(pa) {
        f
    } else if k == ws.len() {
        f.remove(pa)
    } else {
        f.insert(pa, ws.skip(k))
    }
}

/// A wake reaches waiters in the order in which they parked, and loses none:
/// those it wakes followed by those it leaves are all that waited.
pub proof fn law_futex_wakes_in_order(f: Map<u64, Seq<FutexWaiter>>, pa: u64, n: u32, other: u64)
    ensures
        waiters_on(f, pa).take(reach(f, pa, n)) + waiters_on(left_on(f, pa, n), pa) == waiters_on(
            f,
            pa,
        ),
        other != pa ==> waiters_on(left_on(f, pa, n), other) == waiters_on(f, other),
{
    let ws = waiters_on(f, pa);
    assert(ws.take(reach(f, pa, n)) + waiters_on(left_on(f, pa, n), pa) =~= ws);
}

/// A thread that parks on a word is reached by a wake that is large enough,
/// and only after everybody who parked there before it.
pub proof fn law_parked_waiter_is_woken(
    f: Map<u64, Seq<FutexWaiter>>,
    pa: u64,
    w: FutexWaiter,
    n: u32,
)
    requires
        n > waiters_on(f, pa).len(),
    ensures
        waiters_on(parked_on(f, pa, w), pa).take(reach(parked_on(f, pa, w), pa, n)).last() == w,
        waiters_on(parked_on(f, pa, w), pa).take(reach(parked_on(f, pa, w), pa, n)).drop_last()
            == waiters_on(f, pa),
{
    let g = parked_on(f, pa, w);
    let ws = waiters_on(g, pa);
    assert(ws.take(reach(g, pa, n)) =~= ws);
    assert(ws.drop_last() =~= waiters_on(f, pa));
}

/// What `wait_pid` comes to: the values for the caller, or `None` if it stays
/// parked until the child ends.
pub open spec fn wait_answer(
    procs: Map<u16, ProcView>,
    target: u16,
    caller: u16,
) -> Option<Seq<i64>> {
    if procs.contains_key(caller) && procs[caller].dead_children.contains_key(target) {
        Some(seq![0i64, procs[caller].dead_children[target] as i64])
    } else if !procs.contains_key(target) {
        Some(seq![errno_ret(ECHILD), 0i64])
    } else if procs[target].parent_pid != caller {
        Some(seq![errno_ret(EPERM), 0i64])
    } else if procs[target].exit_waiter is Some {
        Some(seq![errno_ret(EBUSY), 0i64])
    } else {
        None
    }
}

/// The process table after `wait_pid`: a dead child that was told of is
/// forgotten, and a live one remembers who waits.
pub open spec fn procs_after_wait(
    procs: Map<u16, ProcView>,
    target: u16,
    caller: u16,
    tid: u32,
) -> Map<u16, ProcView> {
    if procs.contains_key(caller) && procs[caller].dead_children.contains_key(target) {
        procs.insert(
            caller,
            ProcView {
                dead_children: procs[caller].dead_children.remove(target),
                ..procs[caller]
            },
        )
    } else if wait_answer(procs, target, caller) is None {
        procs.insert(target, ProcView { exit_waiter: Some(tid), ..procs[target] })
    } else {
        procs
    }
}

/// A parent that waits for its child gets the child's exit code, whether the
/// child ends first or the parent waits first. `p` is the child.
pub proof fn law_wait_gets_the_exit_code(w: World, p: ProcView, tid: u32)
    requires
        !p.detached,
        p.exit_waiter is None,
        p.parent_pid != 0,
        p.parent_pid != p.pid,
        w.procs.contains_key(p.parent_pid),
        !w.procs.contains_key(p.pid),
        w.threads.contains_key(tid),
        !w.procs[p.parent_pid].dead_children.contains_key(p.pid),
    ensures
        wait_answer(w.exit_told(p).procs, p.pid, p.parent_pid) == Some(
            seq![0i64, p.exit_code as i64],
        ),
        wait_answer(w.procs.insert(p.pid, p), p.pid, p.parent_pid) is None,
        ({
            let parked = procs_after_wait(w.procs.insert(p.pid, p), p.pid, p.parent_pid, tid)[p.pid];
            w.exit_told(parked).threads[tid].pending == Some(
                rets_of(seq![0i64, p.exit_code as i64]),
            )
        }),
{
}

/// A child's exit code is handed out once: after a wait that got it, another
/// wait for the same child finds none.
pub proof fn law_exit_code_is_handed_out_once(
    procs: Map<u16, ProcView>,
    target: u16,
    caller: u16,
    tid: u32,
)
    requires
        procs.contains_key(caller),
        procs[caller].dead_children.contains_key(target),
        !procs.contains_key(target),
        target != caller,
    ensures
        wait_answer(procs_after_wait(procs, target, caller, tid), target, caller) == Some(
            seq![errno_ret(ECHILD), 0i64],
        ),
{
}

/// Affinity masks of a new thread. Zero stands for the default.
pub open spec fn thread_masks(req: CreateThreadReq, parent_allowed: u64) -> (u64, u64) {
    let allowed = if req.allowed_affinity == 0 {
        parent_allowed
    } else {
        req.allowed_affinity
    };
    (
        allowed,
        if req.affinity == 0 {
            allowed
        } else {
            req.affinity
        },
    )
}

/// Whether a thread may be made with the masks it asks for: the error, or the
/// masks.
pub open spec fn thread_reach(
    req: CreateThreadReq,
    parent_allowed: u64,
    all_harts: u64,
    alive: bool,
) -> Result<(u64, u64), i64> {
    let (allowed, affinity) = thread_masks(req, parent_allowed);
    if allowed & !parent_allowed != 0 {
        Err(errno_ret(EPERM))
    } else if affinity & !allowed != 0 || affinity == 0 || allowed & !all_harts != 0 {
        Err(errno_ret(EINVAL))
    } else if !alive {
        Err(errno_ret(ESRCH))
    } else {
        Ok((allowed, affinity))
    }
}

/// A new thread never reaches a hart that its parent does not, and always has
/// one to run on.
pub proof fn law_threads_do_not_widen_affinity(
    req: CreateThreadReq,
    parent_allowed: u64,
    all_harts: u64,
    alive: bool,
)
    ensures
        thread_reach(req, parent_allowed, all_harts, alive) matches Ok((allowed, affinity)) ==> {
            &&& allowed & !parent_allowed == 0
            &&& affinity & !parent_allowed == 0
            &&& affinity != 0
            &&& allowed & !all_harts == 0
        },
{
    let (allowed, affinity) = thread_masks(req, parent_allowed);
    assert(allowed & !parent_allowed == 0 && affinity & !allowed == 0 ==> affinity & !parent_allowed
        == 0) by (bit_vector);
}

impl Orbit {
    pub open spec fn wake_state(self, wakes: WakeQueue) -> WakeState {
        WakeState { threads: self.threads@, wakes: wakes@ }
    }

    /// Wakes a parked thread with the values of the completion it waited for.
    /// A thread without one is left alone.
    pub fn wake_blocked_inline(&mut self, q: &mut Queues, hart: u64, tid: u32, rets: Option<Rets>)
        requires
            old(q).wf(),
        ensures
            final(q).wf(),
            match rets {
                Some(r) => if old(self).threads@.contains_key(tid) {
                    let t = old(self).threads@[tid];
                    &&& final(self).threads@ == old(self).threads@.insert(
                        tid,
                        Thread { frame: delivered(t.frame, r), state: ThreadState::Ready, ..t },
                    )
                    &&& final(q).inboxes() == noticed(old(q).inboxes(), hart, tid)
                } else {
                    *final(self) == *old(self) && *final(q) == *old(q)
                },
                None => *final(self) == *old(self) && *final(q) == *old(q),
            },
            *final(self) == (Orbit { threads: final(self).threads, ..*old(self) }),
            *final(q) == (Queues { ready: final(q).ready, ..*old(q) }),
    {
        let r: Rets = match rets {
            Some(r) => r,
            None => {
                return ;
            },
        };
        let mut t: Thread = match self.threads.get(&tid) {
            Some(t) => *t,
            None => {
                return ;
            },
        };
        t.frame = deliver(t.frame, r);
        t.state = ThreadState::Ready;
        let _ = self.threads.insert(tid, t);
        let _ = push_ready_notice(q, hart, tid);
    }

    /// Leaves one value with a thread.
    pub fn answer(&mut self, wakes: &mut WakeQueue, tid: u32, value: i64)
        ensures
            final(self).wake_state(*final(wakes)) == old(self).wake_state(*old(wakes)).answered(
                tid,
                seq![value],
            ),
            *final(self) == (Orbit { threads: final(self).threads, ..*old(self) }),
    {
        let mut v: Vec<i64> = Vec::new();
        v.push(value);
        proof {
            assert(v@ =~= seq![value]);
        }
        self.publish_pending_for_tid(wakes, tid, v.as_slice());
    }

    /// Leaves two values with a thread.
    pub fn answer_pair(&mut self, wakes: &mut WakeQueue, tid: u32, a: i64, b: i64)
        ensures
            final(self).wake_state(*final(wakes)) == old(self).wake_state(*old(wakes)).answered(
                tid,
                seq![a, b],
            ),
            *final(self) == (Orbit { threads: final(self).threads, ..*old(self) }),
    {
        let mut v: Vec<i64> = Vec::new();
        v.push(a);
        v.push(b);
        proof {
            assert(v@ =~= seq![a, b]);
        }
        self.publish_pending_for_tid(wakes, tid, v.as_slice());
    }

    /// `wait_pid`: answers at once if the child has ended or cannot be waited
    /// for; otherwise the caller stays parked and the child's end answers.
    pub fn run_wait_pid_req(
        &mut self,
        wakes: &mut WakeQueue,
        req: WaitPidReq,
        caller_pid: u16,
        caller_tid: u32,
    )
        ensures
            final(self).procs() == procs_after_wait(
                old(self).procs(),
                req.target_pid,
                caller_pid,
                caller_tid,
            ),
            final(self).wake_state(*final(wakes)) == (match wait_answer(
                old(self).procs(),
                req.target_pid,
                caller_pid,
            ) {
                Some(vals) => old(self).wake_state(*old(wakes)).answered(caller_tid, vals),
                None => old(self).wake_state(*old(wakes)),
            }),
            *final(self) == (Orbit {
                processes: final(self).processes,
                threads: final(self).threads,
                ..*old(self)
            }),
    {
        let dead: Option<i32> = match self.processes.get(&caller_pid) {
            Some(p) => match p.dead_children.get(&req.target_pid) {
                Some(c) => Some(*c),
                None => None,
            },
            None => None,
        };
        proof {
            assert(old(self).procs().contains_key(caller_pid)
                == old(self).procs().contains_key(caller_pid));
            assert(old(self).procs().contains_key(req.target_pid)
                == old(self).procs().contains_key(req.target_pid));
        }
        match dead {
            Some(code) => {
                let mut p = self.processes.remove(&caller_pid).unwrap();
                let _ = p.dead_children.remove(&req.target_pid);
                let ghost n = p;
                let _ = self.processes.insert(caller_pid, p);
                proof {
                    assert(self.procs() =~= old(self).procs().insert(caller_pid, n@));
                }
                self.answer_pair(wakes, caller_tid, 0, code as i64);
                return ;
            },
            None => {},
        }
        let refusal: i64 = match self.processes.get(&req.target_pid) {
            None => to_ret(ECHILD),
            Some(t) => {
                if t.parent_pid != caller_pid {
                    to_ret(EPERM)
                } else if t.exit_waiter.is_some() {
                    to_ret(EBUSY)
                } else {
                    0
                }
            },
        };
        if refusal != 0 {
            self.answer_pair(wakes, caller_tid, refusal, 0);
            return ;
        }
        let mut t = self.processes.remove(&req.target_pid).unwrap();
        t.exit_waiter = Some(caller_tid);
        let ghost n = t;
        let _ = self.processes.insert(req.target_pid, t);
        proof {
            assert(self.procs() =~= old(self).procs().insert(req.target_pid, n@));
        }
    }

    /// Looks at a futex word.
    pub fn read_futex(space: &UserSpace, uaddr: u64) -> (r: Option<(u64, u32)>)
        requires
            space.wf(),
            uaddr % 4 == 0,
        ensures
            r == futex_cell(space@, uaddr),
    {
        let (page_pa, off) = match space.find_page(uaddr) {
            Ok(x) => x,
            Err(_) => {
                return None;
            },
        };
        let base: u64 = uaddr - off;
        let page = space.page(base);
        proof {
            space.lemma_wf();
            assert(page_base(uaddr as int) == base);
            assert(space@.contains_key(base));
            assert(off <= 4092);
        }
        let o: usize = off as usize;
        let v: u32 = (page[o] as u32) | ((page[o + 1] as u32) << 8u32) | ((page[o + 2] as u32)
            << 16u32) | ((page[o + 3] as u32) << 24u32);
        Some((page_pa.wrapping_add(off), v))
    }

    /// `futex_wait`: parks the caller on the word if it still holds the
    /// expected value.
    pub fn run_futex_wait_req(
        &mut self,
        wakes: &mut WakeQueue,
        req: FutexWaitReq,
        pid: u16,
        space: &UserSpace,
        tid: u32,
    )
        requires
            space.wf(),
            req.uaddr % 4 == 0,
        ensures
            match futex_cell(space@, req.uaddr) {
                None => {
                    &&& final(self).futexes() == old(self).futexes()
                    &&& final(self).wake_state(*final(wakes)) == old(self).wake_state(
                        *old(wakes),
                    ).answered(tid, seq![errno_ret(EFAULT)])
                },
                Some((pa, v)) => if v != req.expected {
                    &&& final(self).futexes() == old(self).futexes()
                    &&& final(self).wake_state(*final(wakes)) == old(self).wake_state(
                        *old(wakes),
                    ).answered(tid, seq![errno_ret(EAGAIN)])
                } else {
                    &&& final(self).futexes() == parked_on(
                        old(self).futexes(),
                        pa,
                        FutexWaiter { tid, pid, deadline_ticks: 0 },
                    )
                    &&& final(self).wake_state(*final(wakes)) == old(self).wake_state(*old(wakes))
                },
            },
            *final(self) == (Orbit {
                threads: final(self).threads,
                futex_waiters: final(self).futex_waiters,
                ..*old(self)
            }),
    {
        let (pa, observed) = match Self::read_futex(space, req.uaddr) {
            Some(x) => x,
            None => {
                self.answer(wakes, tid, to_ret(EFAULT));
                return ;
            },
        };
        if observed != req.expected {
            self.answer(wakes, tid, to_ret(EAGAIN));
            return ;
        }
        let mut ws: Vec<FutexWaiter> = match self.futex_waiters.remove(&pa) {
            Some(v) => v,
            None => Vec::new(),
        };
        proof {
            assert(ws@ =~= waiters_on(old(self).futexes(), pa));
        }
        ws.push(FutexWaiter { tid, pid, deadline_ticks: 0 });
        let ghost n = ws@;
        let _ = self.futex_waiters.insert(pa, ws);
        proof {
            assert(self.futexes() =~= old(self).futexes().insert(pa, n));
        }
    }

    /// `futex_wake`: wakes up to `n` of the threads parked on the word, those
    /// that parked first, and returns how many.
    pub fn run_futex_wake_req(
        &mut self,
        wakes: &mut WakeQueue,
        req: FutexWakeReq,
        space: &UserSpace,
    ) -> (r: i64)
        requires
            space.wf(),
            req.uaddr % 4 == 0,
        ensures
            match futex_cell(space@, req.uaddr) {
                None => {
                    &&& r == errno_ret(EFAULT)
                    &&& final(self).futexes() == old(self).futexes()
                    &&& final(self).wake_state(*final(wakes)) == old(self).wake_state(*old(wakes))
                },
                Some((pa, _)) => {
                    let f = old(self).futexes();
                    let k = reach(f, pa, req.n);
                    &&& r == k
                    &&& final(self).futexes() == left_on(f, pa, req.n)
                    &&& final(self).wake_state(*final(wakes)) == old(self).wake_state(
                        *old(wakes),
                    ).all_woken(waiters_on(f, pa).take(k))
                },
            },
            keeps_order(*old(self), *final(self)),
            *final(self) == (Orbit {
                threads: final(self).threads,
                futex_waiters: final(self).futex_waiters,
                ..*old(self)
            }),
    {
        let (pa, _observed) = match Self::read_futex(space, req.uaddr) {
            Some(x) => x,
            None => {
                return to_ret(EFAULT);
            },
        };
        let ghost f = self.futexes();
        let ghost ws0 = waiters_on(f, pa);
        let ws: Vec<FutexWaiter> = match self.futex_waiters.remove(&pa) {
            Some(v) => v,
            None => {
                proof {
                    assert(self.futexes() =~= f);
                    assert(ws0.take(0) =~= Seq::<FutexWaiter>::empty());
                }
                return 0;
            },
        };
        let take: usize = if (req.n as u64) < ws.len() as u64 {
            req.n as usize
        } else {
            ws.len()
        };
        let mut left: Vec<FutexWaiter> = Vec::new();
        let mut j: usize = take;
        while j < ws.len()
            invariant
                take <= j <= ws@.len(),
                left@ == ws@.subrange(take as int, j as int),
            decreases ws@.len() - j,
        {
            left.push(ws[j]);
            proof {
                assert(left@ =~= ws@.subrange(take as int, j + 1));
            }
            j = j + 1;
        }
        let ghost lv = left@;
        proof {
            assert(lv =~= ws@.skip(take as int));
        }
        if left.len() > 0 {
            let _ = self.futex_waiters.insert(pa, left);
            proof {
                assert(self.futexes() =~= f.insert(pa, lv));
            }
        } else {
            proof {
                assert(self.futexes() =~= f.remove(pa));
            }
        }
        let ghost s0 = self.wake_state(*wakes);
        let ghost mid = *self;
        let mut i: usize = 0;
        while i < take
            invariant
                i <= take <= ws@.len(),
                self.wake_state(*wakes) == s0.all_woken(ws@.take(i as int)),
                same_places(mid, *self),
                *self == (Orbit { threads: self.threads, ..mid }),
            decreases take - i,
        {
            proof {
                let t = ws@.take(i + 1);
                assert(t.drop_last() =~= ws@.take(i as int));
                assert(t.last() == ws@[i as int]);
            }
            self.answer(wakes, ws[i].tid, 0);
            proof {
                assert(mid.threads@.dom() =~= self.threads@.dom());
            }
            i = i + 1;
        }
        proof {
            lemma_same_places(*old(self), *self);
        }
        take as i64
    }

    /// `pledge`: gives a process and all its threads fewer capabilities.
    /// `pledged` is what the request at `req_vaddr` makes of those it has.
    pub fn run_pledge_req(
        &mut self,
        req: PledgeReq,
        pid: u16,
        space: &UserSpace,
        pledged: Permissions,
    ) -> (r: i64)
        ensures
            if page_dst(space@, req.req_vaddr) is Err {
                r == errno_ret(EFAULT) && *final(self) == *old(self)
            } else if !old(self).procs().contains_key(pid) {
                r == errno_ret(ESRCH) && *final(self) == *old(self)
            } else {
                let p = old(self).procs()[pid];
                &&& r == 0
                &&& final(self).procs() == old(self).procs().insert(
                    pid,
                    ProcView { permissions: pledged, ..p },
                )
                &&& final(self).threads@ == threads_stamped(
                    old(self).threads@,
                    p.threads,
                    Stamp { uids: false, gids: false, creds: p.creds, perms: Some(pledged) },
                )
            },
            *final(self) == (Orbit {
                processes: final(self).processes,
                threads: final(self).threads,
                ..*old(self)
            }),
    {
        match space.find_page(req.req_vaddr) {
            Ok(_) => {},
            Err(_) => {
                return to_ret(EFAULT);
            },
        }
        if !self.processes.contains_key(&pid) {
            return to_ret(ESRCH);
        }
        let mut p = self.processes.remove(&pid).unwrap();
        p.permissions = pledged;
        let tids = members32(&p.threads);
        let creds = p.creds;
        let ghost n = p;
        let _ = self.processes.insert(pid, p);
        proof {
            assert(self.procs() =~= old(self).procs().insert(pid, n@));
            assert(tids@.to_set() =~= n.threads@) by {
                assert forall|x: u32| tids@.to_set().contains(x) <==> n.threads@.contains(x) by {
                    assert(n.threads@.contains(x) <==> tids@.contains(x));
                }
            }
        }
        self.stamp_threads(
            &tids,
            Stamp { uids: false, gids: false, creds, perms: Some(pledged) },
        );
        0
    }

    /// Checks the masks that a new thread asks for.
    pub fn create_thread_plan(&self, req: CreateThreadReq, pid: u16, parent_allowed: u64) -> (r:
        Result<(u64, u64), i64>)
        ensures
            r == thread_reach(
                req,
                parent_allowed,
                harts_mask(self.cpu_count),
                self.procs().contains_key(pid),
            ),
    {
        let all_harts: u64 = self.all_harts_mask();
        let allowed: u64 = if req.allowed_affinity == 0 {
            parent_allowed
        } else {
            req.allowed_affinity
        };
        let affinity: u64 = if req.affinity == 0 {
            allowed
        } else {
            req.affinity
        };
        if allowed & !parent_allowed != 0 {
            return Err(to_ret(EPERM));
        }
        if affinity & !allowed != 0 || affinity == 0 || allowed & !all_harts != 0 {
            return Err(to_ret(EINVAL));
        }
        if !self.processes.contains_key(&pid) {
            return Err(to_ret(ESRCH));
        }
        Ok((allowed, affinity))
    }

    /// `create_thread`: files the thread that was built with the masks of
    /// [`create_thread_plan`](Self::create_thread_plan) and returns its id.
    /// `built` is `None` if it could not be built.
    pub fn run_create_thread_req(&mut self, built: Option<Thread>) -> (r: i64)
        requires
            built matches Some(t) ==> old(self).procs().contains_key(t.pid) && !old(
                self,
            ).threads@.contains_key(t.tid),
        ensures
            match built {
                None => r == errno_ret(ENOMEM) && *final(self) == *old(self),
                Some(t) => {
                    let p = old(self).procs()[t.pid];
                    &&& r == t.tid
                    &&& final(self).procs() == old(self).procs().insert(
                        t.pid,
                        ProcView {
                            threads: p.threads.insert(t.tid),
                            thread_count: if p.thread_count == u16::MAX {
                                u16::MAX
                            } else {
                                (p.thread_count + 1) as u16
                            },
                            ..p
                        },
                    )
                    &&& final(self).threads@ == old(self).threads@.insert(t.tid, t)
                    &&& final(self).ready@ == old(self).ready@.push(t.tid)
                },
            },
            keeps_order(*old(self), *final(self)),
            *final(self) == (Orbit {
                processes: final(self).processes,
                threads: final(self).threads,
                ready: final(self).ready,
                ..*old(self)
            }),
    {
        let t: Thread = match built {
            Some(t) => t,
            None => {
                return to_ret(ENOMEM);
            },
        };
        self.add_new_thread_to_process(t);
        t.tid as i64
    }
}

/// A granted thread may use the harts that its request names, or those of its
/// parent if it names none, and is bound to exactly the harts that it asks for,
/// or to all that it may use if it asks for none.
pub proof fn law_threads_get_the_harts_they_ask_for(
    req: CreateThreadReq,
    parent_allowed: u64,
    all_harts: u64,
    alive: bool,
)
    ensures
        thread_reach(req, parent_allowed, all_harts, alive) matches Ok((allowed, affinity)) ==> {
            &&& req.allowed_affinity != 0 ==> allowed == req.allowed_affinity
            &&& req.allowed_affinity == 0 ==> allowed == parent_allowed
            &&& req.affinity != 0 ==> affinity == req.affinity
            &&& req.affinity == 0 ==> affinity == allowed
            &&& alive
        },
{
}

/// A thread is granted whenever its process is alive and the harts that it asks
/// for exist, are its parent's, and lie within those that it may use.
pub proof fn law_a_sound_thread_request_is_granted(
    req: CreateThreadReq,
    parent_allowed: u64,
    all_harts: u64,
    alive: bool,
)
    ensures
        ({
            let allowed = if req.allowed_affinity == 0 {
                parent_allowed
            } else {
                req.allowed_affinity
            };
            let r = thread_reach(req, parent_allowed, all_harts, alive);
            &&& allowed & !parent_allowed != 0 <==> refused(r, 1)
            &&& refused(r, 3) ==> !alive
            &&& alive && allowed != 0 && allowed & !parent_allowed == 0 && allowed & !all_harts == 0
                && req.affinity & !allowed == 0 ==> r is Ok
            &&& r is Ok || refused(r, 1) || refused(r, 22)
                || refused(r, 3)
        }),
{
    let allowed = if req.allowed_affinity == 0 {
        parent_allowed
    } else {
        req.allowed_affinity
    };
    assert(allowed & !allowed == 0) by (bit_vector);
}

/// A thread that waits on a word stands at the end of that word's queue, behind
/// all that came before, and in no other.
pub proof fn law_a_waiter_queues_at_its_word(
    f: Map<u64, Seq<FutexWaiter>>,
    pa: u64,
    w: FutexWaiter,
    other: u64,
)
    ensures
        ({
            let g = parked_on(f, pa, w);
            &&& g.contains_key(pa) && g[pa].last() == w
            &&& f.contains_key(pa) ==> g[pa].drop_last() == f[pa]
            &&& !f.contains_key(pa) ==> g[pa].len() == 1
            &&& other != pa ==> g.contains_key(other) == f.contains_key(other) && g[other] == f[other]
        }),
{
    if f.contains_key(pa) {
        assert(parked_on(f, pa, w)[pa].drop_last() =~= f[pa]);
    }
}

/// A wake takes as many waiters as it is asked to, or all there are, and leaves
/// no queue behind that is empty.
pub proof fn law_a_wake_takes_as_many_as_asked(f: Map<u64, Seq<FutexWaiter>>, pa: u64, n: u32)
    requires
        f.contains_key(pa),
    ensures
        reach(f, pa, n) <= n,
        reach(f, pa, n) <= f[pa].len(),
        reach(f, pa, n) == n || reach(f, pa, n) == f[pa].len(),
        left_on(f, pa, n).contains_key(pa) <==> n < f[pa].len(),
        left_on(f, pa, n).contains_key(pa) ==> left_on(f, pa, n)[pa].len() == f[pa].len() - n,
{
}

/// Every thread that a wake takes is left the result 0 and is queued to be
/// woken; no other thread changes.
pub proof fn law_woken_waiters_return_zero(s: WakeState, ws: Seq<FutexWaiter>, k: u32)
    requires
        s.threads.contains_key(k),
    ensures
        ({
            let t = s.all_woken(ws);
            &&& t.threads.dom() == s.threads.dom()
            &&& (exists|i: int| 0 <= i < ws.len() && (#[trigger] ws[i]).tid == k) ==> {
                &&& t.threads[k].pending matches Some(r) && r.count == 1 && r.r0 == 0
                &&& t.threads[k] == (Thread { pending: t.threads[k].pending, ..s.threads[k] })
            }
            &&& (forall|i: int| 0 <= i < ws.len() ==> (#[trigger] ws[i]).tid != k) ==> t.threads[k]
                == s.threads[k]
        }),
    decreases ws.len(),
{
    if ws.len() > 0 {
        let front = ws.drop_last();
        law_woken_waiters_return_zero(s, front, k);
        let t = s.all_woken(ws);
        assert(t.threads.dom() =~= s.threads.dom());
        if ws.last().tid != k {
            if exists|i: int| 0 <= i < ws.len() && (#[trigger] ws[i]).tid == k {
                let i = choose|i: int| 0 <= i < ws.len() && (#[trigger] ws[i]).tid == k;
                assert(front[i].tid == k);
            }
            if forall|i: int| 0 <= i < ws.len() ==> (#[trigger] ws[i]).tid != k {
                assert forall|i: int| 0 <= i < front.len() implies (#[trigger] front[i]).tid
                    != k by {
                    assert(ws[i].tid != k);
                }
            }
        } else {
            assert(ws[ws.len() - 1].tid == k);
            if exists|i: int| 0 <= i < front.len() && (#[trigger] front[i]).tid == k {
                assert(s.all_woken(front).threads[k] == (Thread {
                    pending: s.all_woken(front).threads[k].pending,
                    ..s.threads[k]
                }));
            } else {
                assert(s.all_woken(front).threads[k] == s.threads[k]);
            }
        }
    }
}

/// Answering a thread leaves it the values and queues its wake-up, at the end of
/// the wake queue and by its own number. Nobody else is touched.
pub proof fn law_an_answer_reaches_its_thread(s: WakeState, tid: u32, vals: Seq<i64>, other: u32)
    requires
        vals.len() <= 4,
    ensures
        ({
            let t = s.answered(tid, vals);
            &&& s.threads.contains_key(tid) ==> {
                &&& t.threads.contains_key(tid)
                &&& t.threads[tid].pending matches Some(r) && r.count == vals.len() && (vals.len()
                    > 0 ==> r.r0 == vals[0]) && (vals.len() > 1 ==> r.r1 == vals[1])
                &&& t.threads[tid].state == s.threads[tid].state
                &&& s.wakes.items.len() < 128 ==> t.wakes.items.len() == s.wakes.items.len() + 1
                    && t.wakes.items.last() == WakeEvent::Tid(tid)
            }
            &&& !s.threads.contains_key(tid) ==> t == s
            &&& other != tid ==> t.threads.contains_key(other) == s.threads.contains_key(other)
                && t.threads[other] == s.threads[other]
        }),
{
}

/// A wait was refused with error number `e`.
pub open spec fn refused_wait(r: Option<Seq<i64>>, e: int) -> bool {
    r matches Some(v) && v.len() == 2 && v[0] == -e && v[1] == 0
}

/// Waiting for a child: a code that is there is handed over, a running child of
/// the caller parks it, and everything else is refused, with 10 for a process
/// that is not there, 1 for one that is no child, 16 for one that is awaited.
pub proof fn law_only_a_parent_waits(procs: Map<u16, ProcView>, target: u16, caller: u16, tid: u32)
    ensures
        ({
            let dead = procs.contains_key(caller) && procs[caller].dead_children.contains_key(
                target,
            );
            let r = wait_answer(procs, target, caller);
            let after = procs_after_wait(procs, target, caller, tid);
            &&& dead ==> r == Some(seq![0i64, procs[caller].dead_children[target] as i64])
            &&& r is None <==> !dead && procs.contains_key(target) && procs[target].parent_pid
                == caller && procs[target].exit_waiter is None
            &&& r is None ==> after[target].exit_waiter == Some(tid)
            &&& !dead && !procs.contains_key(target) ==> refused_wait(r, 10)
            &&& !dead && procs.contains_key(target) && procs[target].parent_pid != caller ==> refused_wait(r, 1)
            &&& !dead && procs.contains_key(target) && procs[target].parent_pid == caller
                && procs[target].exit_waiter is Some ==> refused_wait(r, 16)
            &&& !dead && r is Some ==> after == procs
            &&& dead ==> !after[caller].dead_children.contains_key(target)
        }),
{
}

/// The word at an address is there if its page is; it lies in the frame
/// behind the page, as far in as the address lies in the page, and has the
/// value of its four bytes, the lowest first.
pub proof fn law_a_word_is_found_behind_its_address(m: Map<u64, PageView>, uaddr: u64)
    requires
        uaddr % 4 == 0,
    ensures
        ({
            let page = (uaddr - uaddr % 4096) as u64;
            let off = uaddr as int % 4096;
            &&& futex_cell(m, uaddr) is Some <==> m.contains_key(page)
            &&& futex_cell(m, uaddr) matches Some((pa, v)) ==> {
                &&& m[page].pa + off <= u64::MAX ==> pa == m[page].pa + off
                &&& v == m[page].bytes[off] + 0x100 * m[page].bytes[off + 1] + 0x1_0000
                    * m[page].bytes[off + 2] + 0x100_0000 * m[page].bytes[off + 3]
            }
        }),
{
    if futex_cell(m, uaddr) is Some {
        let page = page_base(uaddr as int) as u64;
        let off = uaddr as int % 4096;
        let b = m[page].bytes;
        crate::uspace::law_words_are_little_endian(
            b[off],
            b[off + 1],
            b[off + 2],
            b[off + 3],
        );
    }
}

/// A thread is bound to harts that it may use. One that asks for others, for
/// none or for harts that do not exist is refused with 22, and a sound
/// request of a process that has gone with 3.
pub proof fn law_a_refused_thread_says_why(
    req: CreateThreadReq,
    parent_allowed: u64,
    all_harts: u64,
    alive: bool,
)
    ensures
        ({
            let r = thread_reach(req, parent_allowed, all_harts, alive);
            let allowed = if req.allowed_affinity == 0 {
                parent_allowed
            } else {
                req.allowed_affinity
            };
            let bound = if req.affinity == 0 {
                allowed
            } else {
                req.affinity
            };
            let within = allowed & !parent_allowed == 0;
            let sound = bound & !allowed == 0 && bound != 0 && allowed & !all_harts == 0;
            &&& refused(r, 22) <==> within && !sound
            &&& refused(r, 3) <==> within && sound && !alive
            &&& r is Ok <==> within && sound && alive
        }),
{
}

} // verus!
