//! The manager's turn: serving requests, waking threads and handing them out.

#[allow(unused_imports)]
use crate::holds::{lemma_times_add, lemma_times_push, times_in};
use crate::orbit::{Orbit, Queues};
#[allow(unused_imports)]
use crate::orbit::{
    after_event, after_events, due_woken, entry_current, event_target, filed, filed_all, hits,
    inbox_tids, made_ready, parked, roused, woken, RunState, SleepState, WakeTarget, WAKE_TICKLE,
};
#[allow(unused_imports)]
use crate::process::{Thread, ThreadState};
use crate::rings::WakeQueue;
#[allow(unused_imports)]
use crate::rings::WakeView;
#[allow(unused_imports)]
use crate::sync::WakeState;
#[allow(unused_imports)]
use crate::tables::{lemma_listed32, sorted32};
use crate::work::PendingWork;
#[allow(unused_imports)]
use crate::work::{ReadyNotice, SleepNotice};
#[allow(unused_imports)]
use crate::world::{keeps_order, lemma_same_places};
use vstd::prelude::*;

verus! {

broadcast use {vstd::laws_cmp::group_laws_cmp, vstd::std_specs::btree::group_btree_axioms};

/// Longest time a hart waits without running the manager.
pub const WFI_HEARTBEAT_CYCLES: u64 = 100_000;

/// Time slice of a thread.
pub const TIME_SLICE_CYCLES: u64 = 1_000_000;

/// To whom the outcome of a request goes, and how many values it has. `None`
/// for requests that answer their thread themselves, now or later, and for
/// those that nobody waits for.
pub open spec fn answered_to(w: PendingWork) -> Option<(u32, int)> {
    match w {
        PendingWork::MemMap { tid, .. } => Some((tid, 1)),
        PendingWork::NetChannelCreation { tid, .. } => Some((tid, 2)),
        PendingWork::CloseHandle { tid, .. } => Some((tid, 1)),
        PendingWork::CreateProcess { tid, .. } => Some((tid, 1)),
        PendingWork::CreateThread { tid, .. } => Some((tid, 1)),
        PendingWork::FsOpen { tid, .. } => Some((tid, 1)),
        PendingWork::FsStat { tid, .. } => Some((tid, 1)),
        PendingWork::FsReaddir { tid, .. } => Some((tid, 1)),
        PendingWork::CreateProcessEx { tid, .. } => Some((tid, 1)),
        PendingWork::FutexWake { tid, .. } => Some((tid, 1)),
        PendingWork::Pledge { tid, .. } => Some((tid, 1)),
        PendingWork::FbSurfaceCreate { tid, .. } => Some((tid, 2)),
        PendingWork::FbSurfaceDestroy { tid, .. } => Some((tid, 1)),
        PendingWork::EventFdCreate { tid, .. } => Some((tid, 2)),
        PendingWork::WakeTid { tid, .. } => Some((tid, 1)),
        PendingWork::QueryDenials { tid, .. } => Some((tid, 1)),
        PendingWork::QueryStats { tid, .. } => Some((tid, 1)),
        PendingWork::Empty => None,
        PendingWork::FsRead { .. } => None,
        PendingWork::WaitPid { .. } => None,
        PendingWork::FutexWait { .. } => None,
        PendingWork::CreateProcessV2 { .. } => None,
        PendingWork::CacheFill { .. } => None,
        PendingWork::ExitGroup { .. } => None,
    }
}

impl Orbit {
    /// Hands the outcome of a request to the thread that waits for it.
    pub fn finish_request(&mut self, wakes: &mut WakeQueue, work: PendingWork, v0: i64, v1: i64)
        ensures
            final(self).wake_state(*final(wakes)) == (match answered_to(work) {
                Some((tid, n)) => old(self).wake_state(*old(wakes)).answered(
                    tid,
                    if n == 1 {
                        seq![v0]
                    } else {
                        seq![v0, v1]
                    },
                ),
                None => old(self).wake_state(*old(wakes)),
            }),
            *final(self) == (Orbit { threads: final(self).threads, ..*old(self) }),
    {
        match work {
            PendingWork::NetChannelCreation { tid, .. } => self.answer_pair(wakes, tid, v0, v1),
            PendingWork::FbSurfaceCreate { tid, .. } => self.answer_pair(wakes, tid, v0, v1),
            PendingWork::EventFdCreate { tid, .. } => self.answer_pair(wakes, tid, v0, v1),
            PendingWork::MemMap { tid, .. } => self.answer(wakes, tid, v0),
            PendingWork::CloseHandle { tid, .. } => self.answer(wakes, tid, v0),
            PendingWork::CreateProcess { tid, .. } => self.answer(wakes, tid, v0),
            PendingWork::CreateThread { tid, .. } => self.answer(wakes, tid, v0),
            PendingWork::FsOpen { tid, .. } => self.answer(wakes, tid, v0),
            PendingWork::FsStat { tid, .. } => self.answer(wakes, tid, v0),
            PendingWork::FsReaddir { tid, .. } => self.answer(wakes, tid, v0),
            PendingWork::CreateProcessEx { tid, .. } => self.answer(wakes, tid, v0),
            PendingWork::FutexWake { tid, .. } => self.answer(wakes, tid, v0),
            PendingWork::Pledge { tid, .. } => self.answer(wakes, tid, v0),
            PendingWork::FbSurfaceDestroy { tid, .. } => self.answer(wakes, tid, v0),
            PendingWork::WakeTid { tid, .. } => self.answer(wakes, tid, v0),
            PendingWork::QueryDenials { tid, .. } => self.answer(wakes, tid, v0),
            PendingWork::QueryStats { tid, .. } => self.answer(wakes, tid, v0),
            _ => {},
        }
    }
}

/// A request that is served by an answer reaches its thread: the thread holds
/// the values, its wake-up is queued or counted as lost, and no other thread is
/// touched.
pub proof fn law_outcome_reaches_its_thread(
    s: WakeState,
    w: PendingWork,
    tid: u32,
    vals: Seq<i64>,
)
    requires
        answered_to(w) == Some((tid, vals.len() as int)),
        s.threads.contains_key(tid),
    ensures
        s.answered(tid, vals).threads[tid].pending == Some(crate::process::rets_of(vals)),
        s.answered(tid, vals).wakes == s.wakes.pushed(crate::rings::WakeEvent::Tid(tid)),
        forall|x: u32|
            x != tid && #[trigger] s.threads.contains_key(x) ==> s.answered(tid, vals).threads[x]
                == s.threads[x],
{
}

/// A thread that serves the whole machine.
#[derive(Clone, Copy, Debug, PartialEq, Eq, Structural)]
pub enum Service {
    Net,
    Gpu,
    Serial,
}

/// The service threads, and whether the rings of the compositor and of the UART
/// thread are empty.
pub struct Services {
    pub net: Option<u32>,
    pub gpu: Option<u32>,
    pub serial: Option<u32>,
    pub gpu_idle: bool,
    pub serial_idle: bool,
}

/// A service thread is woken unless its ring is empty.
pub open spec fn nudged(s: RunState, tid: Option<u32>, idle: bool) -> RunState {
    match tid {
        Some(t) => if idle {
            s
        } else {
            woken(s, WakeTarget::Tid(t), WAKE_TICKLE)
        },
        None => s,
    }
}

/// Threads and queues after the wakes of a turn: queued events first, then the
/// service threads, then the sleepers, and last what other harts reported.
pub open spec fn turn(
    s: SleepState,
    events: Seq<crate::rings::WakeEvent>,
    sv: Services,
    parked: Seq<SleepNotice>,
    now: u64,
    inboxes: Seq<Seq<ReadyNotice>>,
) -> SleepState {
    let a = after_events(s.run, events, sv.net, sv.gpu, sv.serial);
    let b = nudged(nudged(a, sv.gpu, sv.gpu_idle), sv.serial, sv.serial_idle);
    let c = due_woken(filed_all(SleepState { run: b, sleeping: s.sleeping }, parked), now);
    SleepState {
        run: RunState { threads: c.run.threads, ready: c.run.ready + inbox_tids(inboxes, 0) },
        ..c
    }
}

impl Orbit {
    /// What the manager knows of the service threads.
    pub open spec fn services(self, gpu_idle: bool, serial_idle: bool) -> Services {
        Services {
            net: self.net_thread_tid,
            gpu: self.gpu_thread_tid,
            serial: self.serial_thread_tid,
            gpu_idle,
            serial_idle,
        }
    }

    /// Takes note of the thread that serves `which`, so that its wakes reach
    /// only it. A thread that could not be made leaves things as they were.
    pub fn adopt_service(&mut self, which: Service, tid: Option<u32>)
        ensures
            *final(self) == (match tid {
                None => *old(self),
                Some(_) => match which {
                    Service::Net => Orbit { net_thread_tid: tid, ..*old(self) },
                    Service::Gpu => Orbit { gpu_thread_tid: tid, ..*old(self) },
                    Service::Serial => Orbit { serial_thread_tid: tid, ..*old(self) },
                },
            }),
    {
        if tid.is_none() {
            return ;
        }
        match which {
            Service::Net => {
                self.net_thread_tid = tid;
            },
            Service::Gpu => {
                self.gpu_thread_tid = tid;
            },
            Service::Serial => {
                self.serial_thread_tid = tid;
            },
        }
    }

    /// Makes every thread ready that is to run: after this the ready queue
    /// holds them all and handing them out only takes from it.
    pub fn assign_threads(&mut self, q: &mut Queues, now: u64)
        requires
            old(q).wf(),
        ensures
            final(q).wf(),
            ({
                let c = due_woken(filed_all(old(self).sleep_state(), old(q).sleeps@), now);
                final(self).sleep_state() == (SleepState {
                    run: RunState {
                        threads: c.run.threads,
                        ready: c.run.ready + inbox_tids(old(q).inboxes(), 0),
                    },
                    ..c
                })
            }),
            final(q).sleeps@ == Seq::<SleepNotice>::empty(),
            final(q).inboxes() == Seq::new(8, |i: int| Seq::<ReadyNotice>::empty()),
            *final(q) == (Queues { sleeps: final(q).sleeps, ready: final(q).ready, ..*old(q) }),
            *final(self) == (Orbit {
                threads: final(self).threads,
                ready: final(self).ready,
                sleeping: final(self).sleeping,
                ..*old(self)
            }),
    {
        self.drain_sleeps(&mut q.sleeps, now);
        self.drain_ready_inboxes(q);
    }

    /// The scheduling part of the manager's turn, after requests were served.
    /// The last parameters say whether the rings of the compositor and of the
    /// UART thread are empty.
    pub fn run_turn(&mut self, q: &mut Queues, now: u64, gpu_idle: bool, serial_idle: bool)
        requires
            old(q).wf(),
        ensures
            final(q).wf(),
            final(self).sleep_state() == turn(
                old(self).sleep_state(),
                old(q).wakes@.items,
                old(self).services(gpu_idle, serial_idle),
                old(q).sleeps@,
                now,
                old(q).inboxes(),
            ),
            final(q).wakes@ == (WakeView { items: Seq::empty(), ..old(q).wakes@ }),
            final(q).sleeps@ == Seq::<SleepNotice>::empty(),
            final(q).inboxes() == Seq::new(8, |i: int| Seq::<ReadyNotice>::empty()),
            keeps_order(*old(self), *final(self)),
            *final(q) == (Queues {
                wakes: final(q).wakes,
                sleeps: final(q).sleeps,
                ready: final(q).ready,
                ..*old(q)
            }),
            *final(self) == (Orbit {
                threads: final(self).threads,
                ready: final(self).ready,
                sleeping: final(self).sleeping,
                ..*old(self)
            }),
    {
        proof {
            lemma_turn_identities(
                self.sleep_state(),
                q.wakes@.items,
                self.services(gpu_idle, serial_idle),
                q.sleeps@,
                now,
                q.inboxes(),
            );
        }
        self.drain_wakes(&mut q.wakes);
        self.nudge_gpu_if_pending(gpu_idle);
        self.nudge_serial_if_pending(serial_idle);
        self.assign_threads(q, now);
        proof {
            lemma_same_places(*old(self), *self);
        }
    }

    /// How long an idle hart may wait: until the earliest deadline, and a
    /// heartbeat at most. `now` is the time after threads were handed out, which
    /// is later than the one at which sleepers were woken.
    pub fn idle_wait(&self, now: u64) -> (r: u64)
        ensures
            r == (if self.sleeping@.len() == 0 {
                WFI_HEARTBEAT_CYCLES
            } else if self.sleeping@[0].wake_time <= now {
                0
            } else if self.sleeping@[0].wake_time - now < WFI_HEARTBEAT_CYCLES {
                (self.sleeping@[0].wake_time - now) as u64
            } else {
                WFI_HEARTBEAT_CYCLES
            }),
    {
        self.next_sleep_in_cycles(now, WFI_HEARTBEAT_CYCLES)
    }

    /// The harts other than `me`, in ascending order.
    pub fn other_harts(&self, me: u64) -> (r: Vec<u64>)
        ensures
            r@ == Seq::new(self.cpu_count as nat, |i: int| i as u64).filter(|h: u64| h != me),
    {
        let n: u64 = self.cpu_count;
        let ghost all = Seq::new(n as nat, |i: int| i as u64);
        let ghost f = |h: u64| h != me;
        let mut out: Vec<u64> = Vec::new();
        let mut i: u64 = 0;
        proof {
            assert(all.take(0).filter(f) =~= Seq::<u64>::empty()) by {
                reveal(Seq::filter);
            }
        }
        while i < n
            invariant
                i <= n,
                all == Seq::new(n as nat, |i: int| i as u64),
                f == (|h: u64| h != me),
                out@ == all.take(i as int).filter(f),
            decreases n - i,
        {
            proof {
                let t = all.take(i + 1);
                assert(t.drop_last() =~= all.take(i as int));
                assert(t.last() == i);
                reveal(Seq::filter);
            }
            if i != me {
                out.push(i);
            }
            i = i + 1;
        }
        proof {
            assert(all.take(n as int) =~= all);
        }
        out
    }
}

proof fn lemma_events_extend(
    s: RunState,
    evs: Seq<crate::rings::WakeEvent>,
    net: Option<u32>,
    gpu: Option<u32>,
    serial: Option<u32>,
)
    ensures
        s.ready.is_prefix_of(after_events(s, evs, net, gpu, serial).ready),
    decreases evs.len(),
{
    if evs.len() > 0 {
        let t = crate::orbit::after_event(s, evs[0], net, gpu, serial);
        lemma_events_extend(t, evs.skip(1), net, gpu, serial);
        assert(s.ready =~= t.ready.take(s.ready.len() as int));
        lemma_prefix(s.ready, t.ready, after_events(s, evs, net, gpu, serial).ready);
    }
}

proof fn lemma_filed_extend(s: SleepState, ns: Seq<SleepNotice>)
    ensures
        s.run.ready.is_prefix_of(filed_all(s, ns).run.ready),
    decreases ns.len(),
{
    if ns.len() > 0 {
        let t = crate::orbit::filed(s, ns[0]);
        lemma_filed_extend(t, ns.skip(1));
        assert(s.run.ready =~= t.run.ready.take(s.run.ready.len() as int));
        lemma_prefix(s.run.ready, t.run.ready, filed_all(s, ns).run.ready);
    }
}

proof fn lemma_due_extend(s: SleepState, now: u64)
    ensures
        s.run.ready.is_prefix_of(due_woken(s, now).run.ready),
        ({
            let t = due_woken(s, now);
            t.sleeping.len() == 0 || t.sleeping[0].wake_time > now
        }),
    decreases s.sleeping.len(),
{
    if s.sleeping.len() != 0 && s.sleeping[0].wake_time <= now {
        let e = s.sleeping[0];
        let rest = s.sleeping.skip(1);
        let t = if crate::orbit::entry_current(s.run.threads, e) {
            SleepState {
                run: RunState {
                    threads: s.run.threads.insert(
                        e.tid,
                        crate::orbit::roused(s.run.threads[e.tid]),
                    ),
                    ready: s.run.ready.push(e.tid),
                },
                sleeping: rest,
            }
        } else {
            SleepState { sleeping: rest, ..s }
        };
        lemma_due_extend(t, now);
        assert(s.run.ready =~= t.run.ready.take(s.run.ready.len() as int));
        lemma_prefix(s.run.ready, t.run.ready, due_woken(s, now).run.ready);
    } else {
        assert(s.run.ready =~= s.run.ready.take(s.run.ready.len() as int));
    }
}

proof fn lemma_prefix(a: Seq<u32>, b: Seq<u32>, c: Seq<u32>)
    requires
        a.is_prefix_of(b),
        b.is_prefix_of(c),
    ensures
        a.is_prefix_of(c),
{
    assert(a =~= c.take(a.len() as int)) by {
        assert forall|i: int| 0 <= i < a.len() implies a[i] == c[i] by {
            assert(b.take(a.len() as int)[i] == b[i]);
            assert(c.take(b.len() as int)[i] == c[i]);
        }
    }
}

/// The ready queue is first come, first served: a turn only appends to it. The
/// threads that other harts reported are all in it afterwards, and no sleeper
/// is left whose deadline has passed.
pub proof fn law_turn_only_appends(
    s: SleepState,
    events: Seq<crate::rings::WakeEvent>,
    sv: Services,
    parked: Seq<SleepNotice>,
    now: u64,
    inboxes: Seq<Seq<ReadyNotice>>,
)
    ensures
        ({
            let t = turn(s, events, sv, parked, now, inboxes);
            &&& s.run.ready.is_prefix_of(t.run.ready)
            &&& inbox_tids(inboxes, 0).is_suffix_of(t.run.ready)
            &&& t.sleeping.len() == 0 || t.sleeping[0].wake_time > now
        }),
{
    let a = after_events(s.run, events, sv.net, sv.gpu, sv.serial);
    lemma_events_extend(s.run, events, sv.net, sv.gpu, sv.serial);
    let b1 = nudged(a, sv.gpu, sv.gpu_idle);
    assert(a.ready =~= b1.ready.take(a.ready.len() as int));
    let b = nudged(b1, sv.serial, sv.serial_idle);
    assert(b1.ready =~= b.ready.take(b1.ready.len() as int));
    let f = filed_all(SleepState { run: b, sleeping: s.sleeping }, parked);
    lemma_filed_extend(SleepState { run: b, sleeping: s.sleeping }, parked);
    lemma_due_extend(f, now);
    let c = due_woken(f, now);
    let t = turn(s, events, sv, parked, now, inboxes);
    assert(c.run.ready =~= t.run.ready.take(c.run.ready.len() as int));
    lemma_prefix(s.run.ready, a.ready, b1.ready);
    lemma_prefix(s.run.ready, b1.ready, b.ready);
    lemma_prefix(s.run.ready, b.ready, f.run.ready);
    lemma_prefix(s.run.ready, f.run.ready, c.run.ready);
    lemma_prefix(s.run.ready, c.run.ready, t.run.ready);
    let tail = inbox_tids(inboxes, 0);
    assert(tail =~= t.run.ready.subrange(
        t.run.ready.len() - tail.len(),
        t.run.ready.len() as int,
    ));
}

/// A wake that comes while a thread is still on its way to sleep is not lost:
/// filing the notice of its park makes it ready at once, with the reason.
pub proof fn law_wake_before_park_is_kept(
    s: SleepState,
    t: crate::process::Thread,
    reason: u64,
    n: SleepNotice,
)
    requires
        !crate::orbit::parked(t),
        reason != 0,
        n.thread == Some(t.tid),
        s.run.threads.contains_key(t.tid),
        s.run.threads[t.tid] == (crate::process::Thread {
            state: crate::process::ThreadState::Suspended,
            ..crate::orbit::tickled(t, reason)
        }),
    ensures
        ({
            let u = crate::orbit::filed(s, n);
            &&& u.run.ready == s.run.ready.push(t.tid)
            &&& u.run.threads[t.tid].state == crate::process::ThreadState::Ready
            &&& u.run.threads[t.tid].last_wake_reason == t.wake_override | reason
            &&& u.sleeping == s.sleeping
        }),
{
    let w = t.wake_override;
    assert(reason != 0 ==> w | reason != 0) by (bit_vector);
}

/// The same threads, each with its id and its process.
pub open spec fn same_identities(a: Map<u32, Thread>, b: Map<u32, Thread>) -> bool {
    &&& a.dom() == b.dom()
    &&& forall|x: u32| #[trigger]
        b.contains_key(x) ==> b[x].tid == a[x].tid && b[x].pid == a[x].pid
}

proof fn lemma_woken_identities(s: RunState, w: WakeTarget, reason: u64)
    ensures
        same_identities(s.threads, woken(s, w, reason).threads),
{
    assert(s.threads.dom() =~= woken(s, w, reason).threads.dom());
}

proof fn lemma_events_identities(s: RunState, evs: Seq<crate::rings::WakeEvent>, sv: Services)
    ensures
        same_identities(s.threads, after_events(s, evs, sv.net, sv.gpu, sv.serial).threads),
    decreases evs.len(),
{
    if evs.len() > 0 {
        match event_target(evs[0], sv.net, sv.gpu, sv.serial) {
            Some((w, reason)) => {
                lemma_woken_identities(s, w, reason);
            },
            None => {},
        }
        lemma_events_identities(
            after_event(s, evs[0], sv.net, sv.gpu, sv.serial),
            evs.skip(1),
            sv,
        );
    }
}

proof fn lemma_filed_identities(s: SleepState, ns: Seq<SleepNotice>)
    ensures
        same_identities(s.run.threads, filed_all(s, ns).run.threads),
    decreases ns.len(),
{
    if ns.len() > 0 {
        assert(filed(s, ns[0]).run.threads.dom() =~= s.run.threads.dom());
        lemma_filed_identities(filed(s, ns[0]), ns.skip(1));
    }
}

proof fn lemma_due_identities(s: SleepState, now: u64)
    ensures
        same_identities(s.run.threads, due_woken(s, now).run.threads),
    decreases s.sleeping.len(),
{
    if s.sleeping.len() > 0 && s.sleeping[0].wake_time <= now {
        let e = s.sleeping[0];
        let rest = s.sleeping.skip(1);
        if entry_current(s.run.threads, e) {
            let threads = s.run.threads.insert(e.tid, roused(s.run.threads[e.tid]));
            assert(threads.dom() =~= s.run.threads.dom());
            lemma_due_identities(
                SleepState {
                    run: RunState { threads, ready: s.run.ready.push(e.tid) },
                    sleeping: rest,
                },
                now,
            );
        } else {
            lemma_due_identities(SleepState { sleeping: rest, ..s }, now);
        }
    }
}

proof fn lemma_turn_identities(
    s: SleepState,
    events: Seq<crate::rings::WakeEvent>,
    sv: Services,
    notices: Seq<SleepNotice>,
    now: u64,
    inboxes: Seq<Seq<ReadyNotice>>,
)
    ensures
        same_identities(
            s.run.threads,
            turn(s, events, sv, notices, now, inboxes).run.threads,
        ),
{
    lemma_events_identities(s.run, events, sv);
    let a = after_events(s.run, events, sv.net, sv.gpu, sv.serial);
    let g = nudged(a, sv.gpu, sv.gpu_idle);
    if sv.gpu is Some && !sv.gpu_idle {
        lemma_woken_identities(a, WakeTarget::Tid(sv.gpu->0), WAKE_TICKLE);
    }
    let b = nudged(g, sv.serial, sv.serial_idle);
    if sv.serial is Some && !sv.serial_idle {
        lemma_woken_identities(g, WakeTarget::Tid(sv.serial->0), WAKE_TICKLE);
    }
    let d = SleepState { run: b, sleeping: s.sleeping };
    lemma_filed_identities(d, notices);
    lemma_due_identities(filed_all(d, notices), now);
}

/// Every ready thread waits exactly once to be run, in the ready queue or in the
/// list `tail` of threads that other harts reported, and nobody waits who is
/// parked or running. A thread that ended may still be queued.
pub open spec fn queue_ok(s: RunState, tail: Seq<u32>) -> bool {
    forall|x: u32|
        {
            let n = #[trigger] times_in(s.ready, x) + times_in(tail, x);
            &&& n <= 1
            &&& s.threads.contains_key(x) && s.threads[x].state == ThreadState::Ready ==> n == 1
            &&& n > 0 && s.threads.contains_key(x) ==> s.threads[x].state == ThreadState::Ready
                || s.threads[x].state == ThreadState::Exited
        }
}

proof fn lemma_times_listed(tids: Seq<u32>, x: u32)
    requires
        forall|i: int, j: int| 0 <= i < j < tids.len() ==> tids[i] < tids[j],
    ensures
        times_in(tids, x) == (if tids.contains(x) {
            1nat
        } else {
            0nat
        }),
    decreases tids.len(),
{
    if tids.len() > 0 {
        let t = tids.drop_last();
        lemma_times_listed(t, x);
        if tids.last() == x {
            if t.contains(x) {
                let i = choose|i: int| 0 <= i < t.len() && t[i] == x;
                assert(tids[i] < tids[tids.len() - 1]);
            }
        } else if tids.contains(x) {
            let i = choose|i: int| 0 <= i < tids.len() && tids[i] == x;
            assert(t[i] == x);
        } else if t.contains(x) {
            let i = choose|i: int| 0 <= i < t.len() && t[i] == x;
            assert(tids[i] == x);
        }
    }
}

proof fn lemma_times_made_ready(
    tids: Seq<u32>,
    threads: Map<u32, Thread>,
    w: WakeTarget,
    x: u32,
)
    ensures
        times_in(made_ready(tids, threads, w), x) == (if hits(threads[x], w) && parked(threads[x]) {
            times_in(tids, x)
        } else {
            0nat
        }),
    decreases tids.len(),
{
    if tids.len() > 0 {
        lemma_times_made_ready(tids.drop_last(), threads, w, x);
        let rest = made_ready(tids.drop_last(), threads, w);
        let t = threads[tids.last()];
        if hits(t, w) && parked(t) {
            lemma_times_push(rest, tids.last(), x);
        }
    }
}

proof fn lemma_woken_queue(s: RunState, w: WakeTarget, reason: u64, tail: Seq<u32>)
    requires
        queue_ok(s, tail),
    ensures
        queue_ok(woken(s, w, reason), tail),
{
    let t = woken(s, w, reason);
    let tids = sorted32(s.threads.dom());
    lemma_listed32(s.threads.dom());
    assert forall|x: u32|
        {
            let n = #[trigger] times_in(t.ready, x) + times_in(tail, x);
            &&& n <= 1
            &&& t.threads.contains_key(x) && t.threads[x].state == ThreadState::Ready ==> n == 1
            &&& n > 0 && t.threads.contains_key(x) ==> t.threads[x].state == ThreadState::Ready
                || t.threads[x].state == ThreadState::Exited
        } by {
        lemma_times_add(s.ready, made_ready(tids, s.threads, w), x);
        lemma_times_made_ready(tids, s.threads, w, x);
        lemma_times_listed(tids, x);
        let n = times_in(s.ready, x) + times_in(tail, x);
        assert(n <= 1);
        assert(s.threads.dom().contains(x) <==> tids.contains(x));
    }
}

proof fn lemma_events_queue(
    s: RunState,
    evs: Seq<crate::rings::WakeEvent>,
    sv: Services,
    tail: Seq<u32>,
)
    requires
        queue_ok(s, tail),
    ensures
        queue_ok(after_events(s, evs, sv.net, sv.gpu, sv.serial), tail),
    decreases evs.len(),
{
    if evs.len() > 0 {
        match event_target(evs[0], sv.net, sv.gpu, sv.serial) {
            Some((w, reason)) => {
                lemma_woken_queue(s, w, reason, tail);
            },
            None => {},
        }
        lemma_events_queue(
            after_event(s, evs[0], sv.net, sv.gpu, sv.serial),
            evs.skip(1),
            sv,
            tail,
        );
    }
}

proof fn lemma_roused_queue(s: RunState, tid: u32, tail: Seq<u32>)
    requires
        queue_ok(s, tail),
        s.threads.contains_key(tid),
        s.threads[tid].state == ThreadState::Suspended,
    ensures
        queue_ok(
            RunState {
                threads: s.threads.insert(tid, roused(s.threads[tid])),
                ready: s.ready.push(tid),
            },
            tail,
        ),
{
    let t = RunState {
        threads: s.threads.insert(tid, roused(s.threads[tid])),
        ready: s.ready.push(tid),
    };
    assert forall|x: u32|
        {
            let n = #[trigger] times_in(t.ready, x) + times_in(tail, x);
            &&& n <= 1
            &&& t.threads.contains_key(x) && t.threads[x].state == ThreadState::Ready ==> n == 1
            &&& n > 0 && t.threads.contains_key(x) ==> t.threads[x].state == ThreadState::Ready
                || t.threads[x].state == ThreadState::Exited
        } by {
        lemma_times_push(s.ready, tid, x);
        assert(times_in(s.ready, x) + times_in(tail, x) <= 1);
    }
}

proof fn lemma_filed_queue(s: SleepState, ns: Seq<SleepNotice>, tail: Seq<u32>)
    requires
        queue_ok(s.run, tail),
    ensures
        queue_ok(filed_all(s, ns).run, tail),
    decreases ns.len(),
{
    if ns.len() > 0 {
        match ns[0].thread {
            Some(tid) => {
                if s.run.threads.contains_key(tid) && s.run.threads[tid].wake_override != 0
                    && s.run.threads[tid].state == ThreadState::Suspended {
                    lemma_roused_queue(s.run, tid, tail);
                }
            },
            None => {},
        }
        lemma_filed_queue(filed(s, ns[0]), ns.skip(1), tail);
    }
}

proof fn lemma_due_queue(s: SleepState, now: u64, tail: Seq<u32>)
    requires
        queue_ok(s.run, tail),
    ensures
        queue_ok(due_woken(s, now).run, tail),
    decreases s.sleeping.len(),
{
    if s.sleeping.len() > 0 && s.sleeping[0].wake_time <= now {
        let e = s.sleeping[0];
        let rest = s.sleeping.skip(1);
        if entry_current(s.run.threads, e) {
            lemma_roused_queue(s.run, e.tid, tail);
            lemma_due_queue(
                SleepState {
                    run: RunState {
                        threads: s.run.threads.insert(e.tid, roused(s.run.threads[e.tid])),
                        ready: s.run.ready.push(e.tid),
                    },
                    sleeping: rest,
                },
                now,
                tail,
            );
        } else {
            lemma_due_queue(SleepState { sleeping: rest, ..s }, now, tail);
        }
    }
}

/// After a turn the ready queue holds every thread that is to run, each once: a
/// thread that several events, its deadline or a report of its hart make ready
/// is not queued a second time, and none is left out.
pub proof fn law_every_ready_thread_is_queued_once(
    s: SleepState,
    events: Seq<crate::rings::WakeEvent>,
    sv: Services,
    notices: Seq<SleepNotice>,
    now: u64,
    inboxes: Seq<Seq<ReadyNotice>>,
)
    requires
        queue_ok(s.run, inbox_tids(inboxes, 0)),
    ensures
        queue_ok(turn(s, events, sv, notices, now, inboxes).run, Seq::empty()),
{
    let tail = inbox_tids(inboxes, 0);
    lemma_events_queue(s.run, events, sv, tail);
    let a = after_events(s.run, events, sv.net, sv.gpu, sv.serial);
    let g = nudged(a, sv.gpu, sv.gpu_idle);
    if sv.gpu is Some && !sv.gpu_idle {
        lemma_woken_queue(a, WakeTarget::Tid(sv.gpu->0), WAKE_TICKLE, tail);
    }
    let b = nudged(g, sv.serial, sv.serial_idle);
    if sv.serial is Some && !sv.serial_idle {
        lemma_woken_queue(g, WakeTarget::Tid(sv.serial->0), WAKE_TICKLE, tail);
    }
    let d = SleepState { run: b, sleeping: s.sleeping };
    lemma_filed_queue(d, notices, tail);
    lemma_due_queue(filed_all(d, notices), now, tail);
    let c = due_woken(filed_all(d, notices), now);
    let t = turn(s, events, sv, notices, now, inboxes);
    assert forall|x: u32|
        {
            let n = #[trigger] times_in(t.run.ready, x) + times_in(Seq::<u32>::empty(), x);
            &&& n <= 1
            &&& t.run.threads.contains_key(x) && t.run.threads[x].state == ThreadState::Ready ==> n
                == 1
            &&& n > 0 && t.run.threads.contains_key(x) ==> t.run.threads[x].state
                == ThreadState::Ready || t.run.threads[x].state == ThreadState::Exited
        } by {
        lemma_times_add(c.run.ready, tail, x);
        assert(times_in(c.run.ready, x) + times_in(tail, x) <= 1);
    }
}

/// The lock under which the manager runs.
pub struct ManagerLock {
    held: bool,
}

impl View for ManagerLock {
    type V = bool;

    closed spec fn view(&self) -> bool {
        self.held
    }
}

impl ManagerLock {
    /// A free lock.
    pub fn new() -> (r: Self)
        ensures
            !r@,
    {
        ManagerLock { held: false }
    }
}

/// Takes the manager's lock if it is free.
pub fn try_acquire_manager(lock: &mut ManagerLock) -> (r: bool)
    ensures
        r == !old(lock)@,
        final(lock)@,
{
    let free: bool = !lock.held;
    lock.held = true;
    free
}

/// Frees the manager's lock.
pub fn release_manager(lock: &mut ManagerLock)
    ensures
        !final(lock)@,
{
    lock.held = false;
}

/// Where a hart is in its loop.
#[derive(Clone, Copy, Debug, PartialEq, Eq, Structural)]
pub enum HartPoint {
    /// At the top. `has_thread` says whether a thread was assigned.
    Top { has_thread: bool },
    /// After trying to become the manager.
    Locked { won: bool },
    /// After the manager's turn, with how long an idle hart may wait.
    Served { has_thread: bool, wait: u64 },
}

/// What a hart does next.
#[derive(Clone, Copy, Debug, PartialEq, Eq, Structural)]
pub enum HartAction {
    /// Enters its thread for a time slice.
    Enter { cycles: u64 },
    /// Tries to become the manager.
    TryLock,
    /// Runs the manager's turn.
    Serve,
    /// Waits for an interrupt, at most this long.
    Wait { cycles: u64 },
}

/// The loop of a hart: its thread first, else the manager's turn, else waiting.
pub fn hart_loop_step(at: HartPoint) -> (r: HartAction)
    ensures
        r == (match at {
            HartPoint::Top { has_thread } => if has_thread {
                HartAction::Enter { cycles: TIME_SLICE_CYCLES }
            } else {
                HartAction::TryLock
            },
            HartPoint::Locked { won } => if won {
                HartAction::Serve
            } else {
                HartAction::Wait { cycles: WFI_HEARTBEAT_CYCLES }
            },
            HartPoint::Served { has_thread, wait } => if has_thread {
                HartAction::Enter { cycles: TIME_SLICE_CYCLES }
            } else {
                HartAction::Wait { cycles: wait }
            },
        }),
{
    match at {
        HartPoint::Top { has_thread } => {
            if has_thread {
                HartAction::Enter { cycles: TIME_SLICE_CYCLES }
            } else {
                HartAction::TryLock
            }
        },
        HartPoint::Locked { won } => {
            if won {
                HartAction::Serve
            } else {
                HartAction::Wait { cycles: WFI_HEARTBEAT_CYCLES }
            }
        },
        HartPoint::Served { has_thread, wait } => {
            if has_thread {
                HartAction::Enter { cycles: TIME_SLICE_CYCLES }
            } else {
                HartAction::Wait { cycles: wait }
            }
        },
    }
}

/// The thread that is parked on a request.
pub open spec fn parked_on_it(w: PendingWork) -> Option<u32> {
    match w {
        PendingWork::MemMap { tid, .. } => Some(tid),
        PendingWork::NetChannelCreation { tid, .. } => Some(tid),
        PendingWork::CloseHandle { tid, .. } => Some(tid),
        PendingWork::CreateProcess { tid, .. } => Some(tid),
        PendingWork::CreateThread { tid, .. } => Some(tid),
        PendingWork::FsOpen { tid, .. } => Some(tid),
        PendingWork::FsRead { tid, .. } => Some(tid),
        PendingWork::FsStat { tid, .. } => Some(tid),
        PendingWork::FsReaddir { tid, .. } => Some(tid),
        PendingWork::WaitPid { tid, .. } => Some(tid),
        PendingWork::CreateProcessEx { tid, .. } => Some(tid),
        PendingWork::FutexWait { tid, .. } => Some(tid),
        PendingWork::FutexWake { tid, .. } => Some(tid),
        PendingWork::Pledge { tid, .. } => Some(tid),
        PendingWork::CreateProcessV2 { tid, .. } => Some(tid),
        PendingWork::FbSurfaceCreate { tid, .. } => Some(tid),
        PendingWork::FbSurfaceDestroy { tid, .. } => Some(tid),
        PendingWork::EventFdCreate { tid, .. } => Some(tid),
        PendingWork::WakeTid { tid, .. } => Some(tid),
        PendingWork::QueryDenials { tid, .. } => Some(tid),
        PendingWork::QueryStats { tid, .. } => Some(tid),
        PendingWork::Empty => None,
        PendingWork::CacheFill { .. } => None,
        PendingWork::ExitGroup { .. } => None,
    }
}

/// The outcome of a request goes to the thread that is parked on it: two values
/// where an address and a number come back, else one. Requests that park their
/// thread further, and those that nobody waits for, have none.
pub proof fn law_a_request_is_answered_to_its_caller(w: PendingWork)
    ensures
        answered_to(w) matches Some((tid, n)) ==> parked_on_it(w) == Some(tid) && (n == 2 <==> (
        w is NetChannelCreation || w is FbSurfaceCreate || w is EventFdCreate)) && (n == 1 || n == 2),
        answered_to(w) is None <==> (parked_on_it(w) is None || w is FsRead || w is WaitPid
            || w is FutexWait || w is CreateProcessV2),
{
}

/// A service thread is nudged exactly if there is one and its ring holds
/// something: parked, it is then ready and queued; otherwise it has the nudge
/// noted. Nobody else is touched.
pub proof fn law_a_busy_service_is_nudged(s: RunState, tid: u32, idle: bool, other: u32)
    requires
        s.threads.contains_key(tid),
        s.threads[tid].tid == tid,
        s.threads.contains_key(other),
        s.threads[other].tid == other,
        other != tid,
    ensures
        ({
            let r = nudged(s, Some(tid), idle);
            let t = s.threads[tid];
            &&& idle ==> r == s
            &&& nudged(s, None, idle) == s
            &&& !idle && (t.state == ThreadState::Suspended || t.state == ThreadState::Blocking) ==> {
                &&& r.threads[tid].state == ThreadState::Ready
                &&& r.threads[tid].last_wake_reason == t.wake_override | 1
                &&& r.ready.contains(tid)
            }
            &&& !idle && t.state != ThreadState::Suspended && t.state != ThreadState::Blocking
                ==> r.threads[tid] == (Thread { wake_override: t.wake_override | 1, ..t })
            &&& r.threads[other] == s.threads[other]
            &&& s.ready.is_prefix_of(r.ready)
        }),
{
    let ev = crate::rings::WakeEvent::Gpu;
    let r = nudged(s, Some(tid), idle);
    assert(s.ready =~= s.ready.take(s.ready.len() as int));
    if !idle {
        crate::orbit::law_an_event_wakes_those_it_is_meant_for(s, ev, None, Some(tid), None, tid);
        crate::orbit::law_an_event_wakes_those_it_is_meant_for(s, ev, None, Some(tid), None, other);
        assert(r == crate::orbit::after_event(s, ev, None, Some(tid), None));
        let added = r.ready.skip(s.ready.len() as int);
        if added.contains(tid) {
            let i = choose|i: int| 0 <= i < added.len() && added[i] == tid;
            assert(r.ready[s.ready.len() + i] == tid);
        }
    }
}

/// A thread that is ready stays ready, whatever events come.
proof fn lemma_events_keep_ready(
    s: RunState,
    evs: Seq<crate::rings::WakeEvent>,
    net: Option<u32>,
    gpu: Option<u32>,
    serial: Option<u32>,
    k: u32,
)
    requires
        s.threads.contains_key(k),
        s.threads[k].state == ThreadState::Ready,
    ensures
        after_events(s, evs, net, gpu, serial).threads.contains_key(k),
        after_events(s, evs, net, gpu, serial).threads[k].state == ThreadState::Ready,
    decreases evs.len(),
{
    if evs.len() > 0 {
        crate::orbit::law_an_event_wakes_those_it_is_meant_for(s, evs[0], net, gpu, serial, k);
        let t = crate::orbit::after_event(s, evs[0], net, gpu, serial);
        assert(t.threads.dom().contains(k));
        lemma_events_keep_ready(t, evs.skip(1), net, gpu, serial, k);
    }
}

proof fn lemma_filed_keep_ready(s: SleepState, ns: Seq<SleepNotice>, k: u32)
    requires
        s.run.threads.contains_key(k),
        s.run.threads[k].state == ThreadState::Ready,
    ensures
        filed_all(s, ns).run.threads.contains_key(k),
        filed_all(s, ns).run.threads[k].state == ThreadState::Ready,
    decreases ns.len(),
{
    if ns.len() > 0 {
        let t = crate::orbit::filed(s, ns[0]);
        assert(t.run.threads.contains_key(k) && t.run.threads[k].state == ThreadState::Ready);
        lemma_filed_keep_ready(t, ns.skip(1), k);
    }
}

proof fn lemma_event_wakes(
    s: RunState,
    evs: Seq<crate::rings::WakeEvent>,
    i: int,
    net: Option<u32>,
    gpu: Option<u32>,
    serial: Option<u32>,
    k: u32,
)
    requires
        0 <= i < evs.len(),
        s.threads.contains_key(k),
        s.threads[k].state == ThreadState::Ready || ((s.threads[k].state == ThreadState::Suspended
            || s.threads[k].state == ThreadState::Blocking) && crate::orbit::meant_for(
            evs[i],
            s.threads[k],
            net,
            gpu,
            serial,
        )),
    ensures
        after_events(s, evs, net, gpu, serial).threads.contains_key(k),
        after_events(s, evs, net, gpu, serial).threads[k].state == ThreadState::Ready,
    decreases evs.len(),
{
    crate::orbit::law_an_event_wakes_those_it_is_meant_for(s, evs[0], net, gpu, serial, k);
    let t = crate::orbit::after_event(s, evs[0], net, gpu, serial);
    assert(t.threads.dom().contains(k));
    if t.threads[k].state == ThreadState::Ready {
        lemma_events_keep_ready(t, evs.skip(1), net, gpu, serial, k);
    } else {
        assert(i > 0);
        assert(evs.skip(1)[i - 1] == evs[i]);
        lemma_event_wakes(t, evs.skip(1), i - 1, net, gpu, serial, k);
    }
}

/// A parked thread that any event in the queue is meant for is ready when the
/// manager's turn is over.
pub proof fn law_a_turn_wakes_whom_events_name(
    s: SleepState,
    events: Seq<crate::rings::WakeEvent>,
    i: int,
    sv: Services,
    notices: Seq<SleepNotice>,
    now: u64,
    inboxes: Seq<Seq<ReadyNotice>>,
    k: u32,
)
    requires
        0 <= i < events.len(),
        s.run.threads.contains_key(k),
        s.run.threads[k].state == ThreadState::Suspended || s.run.threads[k].state
            == ThreadState::Blocking,
        crate::orbit::meant_for(events[i], s.run.threads[k], sv.net, sv.gpu, sv.serial),
    ensures
        turn(s, events, sv, notices, now, inboxes).run.threads[k].state == ThreadState::Ready,
{
    lemma_event_wakes(s.run, events, i, sv.net, sv.gpu, sv.serial, k);
    let a = after_events(s.run, events, sv.net, sv.gpu, sv.serial);
    let b1 = nudged(a, sv.gpu, sv.gpu_idle);
    let b = nudged(b1, sv.serial, sv.serial_idle);
    assert(b1.threads.contains_key(k) && b1.threads[k].state == ThreadState::Ready);
    assert(b.threads.contains_key(k) && b.threads[k].state == ThreadState::Ready);
    let f = filed_all(SleepState { run: b, sleeping: s.sleeping }, notices);
    lemma_filed_keep_ready(SleepState { run: b, sleeping: s.sleeping }, notices, k);
    crate::orbit::law_due_sleepers_wake(f, now, k);
}

/// Whatever else a turn does, a thread that nobody wakes, that is not in the
/// sleep queue and that sends no notice is as it was.
pub proof fn law_a_turn_leaves_others_alone(s: SleepState, sv: Services, now: u64, k: u32)
    requires
        s.run.threads.contains_key(k),
        forall|i: int| 0 <= i < s.sleeping.len() ==> (#[trigger] s.sleeping[i]).tid != k,
        sv.gpu_idle,
        sv.serial_idle,
    ensures
        turn(s, Seq::empty(), sv, Seq::empty(), now, Seq::empty()).run.threads[k]
            == s.run.threads[k],
{
    crate::orbit::law_due_sleepers_wake(s, now, k);
    assert(SleepState { run: s.run, sleeping: s.sleeping } == s);
}

} // verus!
