//! Where the wall time of a hart goes, and how long system calls take.
//!
//! A hart is in one of four buckets at a time. When it goes over to another,
//! the ticks since it entered the one it leaves are credited to that one; ticks
//! of user code are also charged to the thread that ran.

use crate::orbit::Orbit;
#[allow(unused_imports)]
use crate::process::Thread;
use crate::syscalls::SyscallEntry;
#[allow(unused_imports)]
use crate::world::{keeps_order, lemma_same_places};
use vstd::prelude::*;

verus! {

broadcast use {vstd::laws_cmp::group_laws_cmp, vstd::std_specs::btree::group_btree_axioms};

/// Sum of the numbers in `xs`.
pub open spec fn total(xs: Seq<u64>) -> int
    decreases xs.len(),
{
    if xs.len() == 0 {
        0
    } else {
        total(xs.drop_last()) + xs.last()
    }
}

/// Sum of the numbers in `xs`, modulo two to the 64.
pub open spec fn wrapped_total(xs: Seq<u64>) -> u64 {
    (total(xs) % 0x1_0000_0000_0000_0000) as u64
}

/// Adds up numbers with wrap-around.
pub fn wrapping_total(xs: &Vec<u64>) -> (r: u64)
    ensures
        r == wrapped_total(xs@),
{
    let mut acc: u64 = 0;
    let mut i: usize = 0;
    while i < xs.len()
        invariant
            i <= xs@.len(),
            acc == total(xs@.take(i as int)) % 0x1_0000_0000_0000_0000,
        decreases xs@.len() - i,
    {
        proof {
            let t = xs@.take(i + 1);
            assert(t.drop_last() =~= xs@.take(i as int));
            assert(t.last() == xs@[i as int]);
        }
        acc = acc.wrapping_add(xs[i]);
        i = i + 1;
    }
    proof {
        assert(xs@.take(xs@.len() as int) =~= xs@);
    }
    acc
}

/// What a hart spends its time on.
#[derive(Clone, Copy, Debug, PartialEq, Eq, Structural)]
pub enum HartBucket {
    User,
    Kernel,
    Scheduler,
    Idle,
}

/// Ticks that harts spent in user code, in the kernel, in the scheduler and
/// idle.
#[derive(Clone, Copy, Debug, PartialEq, Eq, Structural)]
pub struct HartTicks {
    pub user: u64,
    pub kernel: u64,
    pub scheduler: u64,
    pub idle: u64,
}

/// Adds up one tick count over all harts.
pub fn sum_hart_counter(harts: &Vec<HartTicks>) -> (r: HartTicks)
    ensures
        r.user == wrapped_total(harts@.map_values(|h: HartTicks| h.user)),
        r.kernel == wrapped_total(harts@.map_values(|h: HartTicks| h.kernel)),
        r.scheduler == wrapped_total(harts@.map_values(|h: HartTicks| h.scheduler)),
        r.idle == wrapped_total(harts@.map_values(|h: HartTicks| h.idle)),
{
    let mut user: Vec<u64> = Vec::new();
    let mut kernel: Vec<u64> = Vec::new();
    let mut scheduler: Vec<u64> = Vec::new();
    let mut idle: Vec<u64> = Vec::new();
    let mut i: usize = 0;
    while i < harts.len()
        invariant
            i <= harts@.len(),
            user@ =~= harts@.take(i as int).map_values(|h: HartTicks| h.user),
            kernel@ =~= harts@.take(i as int).map_values(|h: HartTicks| h.kernel),
            scheduler@ =~= harts@.take(i as int).map_values(|h: HartTicks| h.scheduler),
            idle@ =~= harts@.take(i as int).map_values(|h: HartTicks| h.idle),
        decreases harts@.len() - i,
    {
        user.push(harts[i].user);
        kernel.push(harts[i].kernel);
        scheduler.push(harts[i].scheduler);
        idle.push(harts[i].idle);
        i = i + 1;
    }
    proof {
        assert(harts@.take(harts@.len() as int) =~= harts@);
    }
    HartTicks {
        user: wrapping_total(&user),
        kernel: wrapping_total(&kernel),
        scheduler: wrapping_total(&scheduler),
        idle: wrapping_total(&idle),
    }
}

/// The wall time of one hart.
#[derive(Clone, Copy, Debug, PartialEq, Eq, Structural)]
pub struct HartClock {
    pub ticks: HartTicks,
    pub current_bucket: HartBucket,
    /// When the hart entered the bucket it is in.
    pub bucket_enter_tick: u64,
}

/// Ticks from `start` to `now`.
pub open spec fn elapsed(start: u64, now: u64) -> u64 {
    (now - start) as u64
}

/// A counter that `d` more ticks were added to. Counters wrap around.
pub open spec fn counted_on(x: u64, d: u64) -> u64 {
    vstd::wrapping::u64_specs::wrapping_add(x, d)
}

impl HartTicks {
    /// `d` more ticks in a bucket.
    pub open spec fn credited(self, b: HartBucket, d: u64) -> HartTicks {
        match b {
            HartBucket::User => HartTicks { user: counted_on(self.user, d), ..self },
            HartBucket::Kernel => HartTicks { kernel: counted_on(self.kernel, d), ..self },
            HartBucket::Scheduler => HartTicks { scheduler: counted_on(self.scheduler, d), ..self },
            HartBucket::Idle => HartTicks { idle: counted_on(self.idle, d), ..self },
        }
    }

    /// Ticks in all four buckets.
    pub open spec fn all(self) -> int {
        self.user + self.kernel + self.scheduler + self.idle
    }
}

impl HartClock {
    /// The hart goes over to bucket `new`.
    pub open spec fn switched(self, new: HartBucket, now: u64) -> HartClock {
        HartClock {
            ticks: self.ticks.credited(self.current_bucket, elapsed(self.bucket_enter_tick, now)),
            current_bucket: new,
            bucket_enter_tick: now,
        }
    }

    /// The hart goes over to one bucket after another.
    pub open spec fn switched_all(self, turns: Seq<(HartBucket, u64)>) -> HartClock
        decreases turns.len(),
    {
        if turns.len() == 0 {
            self
        } else {
            self.switched_all(turns.drop_last()).switched(turns.last().0, turns.last().1)
        }
    }
}

/// The threads after a hart that ran `current` has left the bucket it was in:
/// time in user code is the thread's.
pub open spec fn charged(
    threads: Map<u32, Thread>,
    h: HartClock,
    current: Option<u32>,
    now: u64,
) -> Map<u32, Thread> {
    match current {
        Some(tid) => if h.current_bucket == HartBucket::User && threads.contains_key(tid) {
            let t = threads[tid];
            threads.insert(
                tid,
                Thread {
                    cpu_ticks_total: counted_on(
                        t.cpu_ticks_total,
                        elapsed(h.bucket_enter_tick, now),
                    ),
                    ..t
                },
            )
        } else {
            threads
        },
        None => threads,
    }
}

/// Starts the clock of a hart that is about to take part.
pub fn init_hart_bucket(clock: &mut HartClock, bucket: HartBucket, now: u64)
    ensures
        *final(clock) == (HartClock {
            current_bucket: bucket,
            bucket_enter_tick: now,
            ..*old(clock)
        }),
{
    clock.current_bucket = bucket;
    clock.bucket_enter_tick = now;
}

/// An entry of the histogram after a call that took `d` ticks.
pub open spec fn bumped(e: SyscallEntry, d: u64) -> SyscallEntry {
    SyscallEntry {
        count: counted_on(e.count, 1),
        total_ticks: counted_on(e.total_ticks, d),
        max_ticks: if d > e.max_ticks {
            d
        } else {
            e.max_ticks
        },
    }
}

impl Orbit {
    /// Credits the ticks since the hart's last change of bucket, and goes over
    /// to another. `current` is the thread on the hart. The time source does
    /// not run backward.
    pub fn switch_bucket(
        &mut self,
        clock: &mut HartClock,
        current: Option<u32>,
        new: HartBucket,
        now: u64,
    )
        requires
            old(clock).bucket_enter_tick <= now,
        ensures
            *final(clock) == old(clock).switched(new, now),
            final(self).threads@ == charged(old(self).threads@, *old(clock), current, now),
            keeps_order(*old(self), *final(self)),
            *final(self) == (Orbit { threads: final(self).threads, ..*old(self) }),
    {
        let d: u64 = now - clock.bucket_enter_tick;
        let mut t: HartTicks = clock.ticks;
        match clock.current_bucket {
            HartBucket::User => {
                t.user = t.user.wrapping_add(d);
                match current {
                    Some(tid) => {
                        self.charge(tid, d);
                    },
                    None => {},
                }
            },
            HartBucket::Kernel => {
                t.kernel = t.kernel.wrapping_add(d);
            },
            HartBucket::Scheduler => {
                t.scheduler = t.scheduler.wrapping_add(d);
            },
            HartBucket::Idle => {
                t.idle = t.idle.wrapping_add(d);
            },
        }
        *clock = HartClock { ticks: t, current_bucket: new, bucket_enter_tick: now };
    }

    fn charge(&mut self, tid: u32, d: u64)
        ensures
            final(self).threads@ == (if old(self).threads@.contains_key(tid) {
                let t = old(self).threads@[tid];
                old(self).threads@.insert(
                    tid,
                    Thread { cpu_ticks_total: counted_on(t.cpu_ticks_total, d), ..t },
                )
            } else {
                old(self).threads@
            }),
            keeps_order(*old(self), *final(self)),
            *final(self) == (Orbit { threads: final(self).threads, ..*old(self) }),
    {
        let mut t: Thread = match self.threads.get(&tid) {
            Some(t) => *t,
            None => {
                return ;
            },
        };
        t.cpu_ticks_total = t.cpu_ticks_total.wrapping_add(d);
        let _ = self.threads.insert(tid, t);
        proof {
            assert(old(self).threads@.dom() =~= self.threads@.dom());
            lemma_same_places(*old(self), *self);
        }
    }

    /// Records a system call that thread `tid` made: in the histogram, if the
    /// call has an entry there, and with the thread. Time for which the caller
    /// is parked is not the call's.
    pub fn record_syscall(
        &mut self,
        stats: &mut Vec<SyscallEntry>,
        entry: Option<usize>,
        tid: u32,
        start_ticks: u64,
        now: u64,
    )
        requires
            entry matches Some(i) ==> i < old(stats)@.len(),
            old(self).threads@.contains_key(tid),
            start_ticks <= now,
        ensures
            final(stats)@ == (match entry {
                Some(i) => old(stats)@.update(
                    i as int,
                    bumped(old(stats)@[i as int], elapsed(start_ticks, now)),
                ),
                None => old(stats)@,
            }),
            final(self).threads@ == ({
                let t = old(self).threads@[tid];
                old(self).threads@.insert(
                    tid,
                    Thread {
                        syscall_count: counted_on(t.syscall_count, 1),
                        syscall_ticks: counted_on(t.syscall_ticks, elapsed(start_ticks, now)),
                        ..t
                    },
                )
            }),
            keeps_order(*old(self), *final(self)),
            *final(self) == (Orbit { threads: final(self).threads, ..*old(self) }),
    {
        let d: u64 = now - start_ticks;
        match entry {
            Some(i) => {
                let e: SyscallEntry = stats[i];
                let n = SyscallEntry {
                    count: e.count.wrapping_add(1),
                    total_ticks: e.total_ticks.wrapping_add(d),
                    max_ticks: if d > e.max_ticks {
                        d
                    } else {
                        e.max_ticks
                    },
                };
                stats.set(i, n);
            },
            None => {},
        }
        let mut t: Thread = *self.threads.get(&tid).unwrap();
        t.syscall_count = t.syscall_count.wrapping_add(1);
        t.syscall_ticks = t.syscall_ticks.wrapping_add(d);
        let _ = self.threads.insert(tid, t);
        proof {
            assert(old(self).threads@.dom() =~= self.threads@.dom());
            lemma_same_places(*old(self), *self);
        }
    }
}

/// The times in `turns` ascend, from `start` on.
pub open spec fn ascend(start: u64, turns: Seq<(HartBucket, u64)>) -> bool {
    &&& forall|i: int| 0 <= i < turns.len() ==> start <= (#[trigger] turns[i]).1
    &&& forall|i: int, j: int|
        0 <= i <= j < turns.len() ==> (#[trigger] turns[i]).1 <= (#[trigger] turns[j]).1
}

/// The buckets are disjoint and leave nothing out: whatever a hart does, the
/// ticks credited to the four of them add up to the time that has passed, as
/// long as that fits the counters.
pub proof fn law_wall_time_is_split(h: HartClock, turns: Seq<(HartBucket, u64)>)
    requires
        ascend(h.bucket_enter_tick, turns),
        turns.len() > 0 ==> h.ticks.all() + (turns.last().1 - h.bucket_enter_tick) <= u64::MAX,
    ensures
        ({
            let n = h.switched_all(turns);
            &&& n.bucket_enter_tick == (if turns.len() > 0 {
                turns.last().1
            } else {
                h.bucket_enter_tick
            })
            &&& n.ticks.all() == h.ticks.all() + (n.bucket_enter_tick - h.bucket_enter_tick)
        }),
    decreases turns.len(),
{
    if turns.len() > 0 {
        let before = turns.drop_last();
        assert forall|i: int| 0 <= i < before.len() implies h.bucket_enter_tick <= (
        #[trigger] before[i]).1 by {
            assert(before[i] == turns[i]);
        }
        assert forall|i: int, j: int| 0 <= i <= j < before.len() implies (#[trigger] before[i]).1
            <= (#[trigger] before[j]).1 by {
            assert(before[i] == turns[i] && before[j] == turns[j]);
        }
        if before.len() > 0 {
            assert(before.last() == turns[turns.len() - 2]);
            assert(before.last().1 <= turns.last().1);
        }
        law_wall_time_is_split(h, before);
    }
}

/// User time is the threads': what a hart adds to its bucket for user code is
/// what it charges to the thread on it, and no other thread is charged.
pub proof fn law_user_time_is_charged_to_its_thread(
    threads: Map<u32, Thread>,
    h: HartClock,
    tid: u32,
    new: HartBucket,
    now: u64,
)
    requires
        threads.contains_key(tid),
        h.bucket_enter_tick <= now,
        h.ticks.user + (now - h.bucket_enter_tick) <= u64::MAX,
        threads[tid].cpu_ticks_total + (now - h.bucket_enter_tick) <= u64::MAX,
    ensures
        ({
            let after = charged(threads, h, Some(tid), now);
            &&& after[tid].cpu_ticks_total - threads[tid].cpu_ticks_total == h.switched(
                new,
                now,
            ).ticks.user - h.ticks.user
            &&& forall|x: u32| #[trigger]
                threads.contains_key(x) && x != tid ==> after[x] == threads[x]
        }),
{
}

/// Time goes to the bucket that the hart was in, all of it and to no other, and
/// counts from there on for the new one.
pub proof fn law_time_goes_to_the_bucket_it_was_spent_in(h: HartClock, new: HartBucket, now: u64)
    requires
        h.bucket_enter_tick <= now,
        h.ticks.all() + (now - h.bucket_enter_tick) <= u64::MAX,
    ensures
        ({
            let n = h.switched(new, now);
            let d = now - h.bucket_enter_tick;
            let was = h.current_bucket;
            &&& n.ticks.user - h.ticks.user == (if was == HartBucket::User {
                d
            } else {
                0
            })
            &&& n.ticks.kernel - h.ticks.kernel == (if was == HartBucket::Kernel {
                d
            } else {
                0
            })
            &&& n.ticks.scheduler - h.ticks.scheduler == (if was == HartBucket::Scheduler {
                d
            } else {
                0
            })
            &&& n.ticks.idle - h.ticks.idle == (if was == HartBucket::Idle {
                d
            } else {
                0
            })
            &&& n.current_bucket == new && n.bucket_enter_tick == now
        }),
{
}

/// User time is charged to the thread that ran, and time of any other kind to
/// nobody.
pub proof fn law_only_user_time_is_charged(
    threads: Map<u32, Thread>,
    h: HartClock,
    tid: u32,
    now: u64,
)
    requires
        threads.contains_key(tid),
        h.bucket_enter_tick <= now,
        threads[tid].cpu_ticks_total + (now - h.bucket_enter_tick) <= u64::MAX,
    ensures
        ({
            let v = charged(threads, h, Some(tid), now)[tid];
            &&& h.current_bucket == HartBucket::User ==> v.cpu_ticks_total
                == threads[tid].cpu_ticks_total + (now - h.bucket_enter_tick)
            &&& h.current_bucket != HartBucket::User ==> v == threads[tid]
            &&& charged(threads, h, None, now) == threads
        }),
{
}

/// Each call is counted once, with its time, and the longest is kept.
pub proof fn law_each_call_is_counted_once(e: SyscallEntry, d: u64)
    requires
        e.count < u64::MAX,
        e.total_ticks + d <= u64::MAX,
    ensures
        bumped(e, d).count == e.count + 1,
        bumped(e, d).total_ticks == e.total_ticks + d,
        bumped(e, d).max_ticks >= e.max_ticks && bumped(e, d).max_ticks >= d,
        bumped(e, d).max_ticks == e.max_ticks || bumped(e, d).max_ticks == d,
{
}

/// A total is what its parts come to.
pub proof fn law_totals_add_up(a: Seq<u64>, x: u64)
    requires
        0 <= total(a) && total(a) + x <= u64::MAX,
    ensures
        wrapped_total(Seq::empty()) == 0,
        wrapped_total(a.push(x)) == wrapped_total(a) + x,
{
    assert(a.push(x).drop_last() =~= a);
    assert(total(Seq::empty()) == 0);
}

/// Time is charged to the thread that ran and to no other.
pub proof fn law_time_is_charged_to_who_ran(
    threads: Map<u32, Thread>,
    h: HartClock,
    tid: u32,
    now: u64,
    other: u32,
)
    requires
        other != tid,
    ensures
        charged(threads, h, Some(tid), now).contains_key(other) == threads.contains_key(other),
        threads.contains_key(other) ==> charged(threads, h, Some(tid), now)[other]
            == threads[other],
        charged(threads, h, Some(tid), now).contains_key(tid) == threads.contains_key(tid),
{
}

} // verus!
