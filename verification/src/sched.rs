//! The ready queue and the sleep queue.

use crate::process::Thread;
use std::collections::{BTreeMap, VecDeque};
use vstd::prelude::*;

verus! {

broadcast use {vstd::laws_cmp::group_laws_cmp, vstd::std_specs::btree::group_btree_axioms};

/// Runnable threads in the order in which they became ready.
pub struct ReadyQueue {
    queue: VecDeque<u32>,
}

impl View for ReadyQueue {
    type V = Seq<u32>;

    closed spec fn view(&self) -> Seq<u32> {
        self.queue@
    }
}

/// Whether `tid` may run on a hart of `mask`.
pub open spec fn runs_on(threads: Map<u32, Thread>, tid: u32, mask: u64) -> bool {
    threads.contains_key(tid) && threads[tid].affinity & mask != 0
}

/// Position of the first thread from `i` on that may run on a hart of `mask`.
pub open spec fn first_fit(q: Seq<u32>, threads: Map<u32, Thread>, mask: u64, i: int) -> Option<int>
    decreases q.len() - i,
{
    if i >= q.len() {
        None
    } else if runs_on(threads, q[i], mask) {
        Some(i)
    } else {
        first_fit(q, threads, mask, i + 1)
    }
}

impl ReadyQueue {
    /// No runnable threads.
    pub fn new() -> (r: Self)
        ensures
            r@ == Seq::<u32>::empty(),
    {
        ReadyQueue { queue: VecDeque::new() }
    }

    /// Queues a thread behind all others.
    pub fn push(&mut self, tid: u32)
        ensures
            final(self)@ == old(self)@.push(tid),
    {
        self.queue.push_back(tid);
    }

    /// Takes the first thread that may run on a hart of `mask`; those before
    /// it keep their places.
    pub fn pop_for(&mut self, threads: &BTreeMap<u32, Thread>, mask: u64) -> (r: Option<u32>)
        ensures
            match first_fit(old(self)@, threads@, mask, 0) {
                Some(i) => {
                    &&& 0 <= i < old(self)@.len()
                    &&& r == Some(old(self)@[i])
                    &&& final(self)@ == old(self)@.remove(i)
                },
                None => r is None && final(self)@ == old(self)@,
            },
    {
        let mut i: usize = 0;
        let n: usize = self.queue.len();
        while i < n
            invariant
                i <= n,
                n == self.queue@.len(),
                *self == *old(self),
                first_fit(self@, threads@, mask, 0) == first_fit(self@, threads@, mask, i as int),
            decreases n - i,
        {
            let tid: u32 = self.queue[i];
            let fits: bool = match threads.get(&tid) {
                Some(t) => t.affinity & mask != 0,
                None => false,
            };
            if fits {
                let _ = self.queue.remove(i);
                return Some(tid);
            }
            i = i + 1;
        }
        None
    }
}

/// A sleeping thread and its deadline.
#[derive(Clone, Copy, Debug, PartialEq, Eq, Structural)]
pub struct SleepEntry {
    pub wake_time: u64,
    pub sleep_seq: u64,
    pub tid: u32,
}

/// Order by deadline, then by park number, then by thread.
pub open spec fn sleeps_before(a: SleepEntry, b: SleepEntry) -> bool {
    a.wake_time < b.wake_time || (a.wake_time == b.wake_time && (a.sleep_seq < b.sleep_seq || (
    a.sleep_seq == b.sleep_seq && a.tid <= b.tid)))
}

/// Sleeping threads, the earliest deadline first.
pub struct SleepHeap {
    entries: Vec<SleepEntry>,
}

impl View for SleepHeap {
    type V = Seq<SleepEntry>;

    closed spec fn view(&self) -> Seq<SleepEntry> {
        self.entries@
    }
}

/// Where `e` goes: behind every entry that does not come after it.
pub open spec fn sleep_pos(s: Seq<SleepEntry>, e: SleepEntry, i: int) -> int
    decreases s.len() - i,
{
    if i >= s.len() || !sleeps_before(s[i], e) {
        i
    } else {
        sleep_pos(s, e, i + 1)
    }
}

/// The queue with `e` in its place.
pub open spec fn slept(s: Seq<SleepEntry>, e: SleepEntry) -> Seq<SleepEntry> {
    s.insert(sleep_pos(s, e, 0), e)
}

/// Ordered by deadline.
pub open spec fn sleep_sorted(s: Seq<SleepEntry>) -> bool {
    forall|i: int, j: int| 0 <= i <= j < s.len() ==> sleeps_before(#[trigger] s[i], #[trigger] s[j])
}

impl SleepHeap {
    /// Nobody asleep.
    pub fn new() -> (r: Self)
        ensures
            r@ == Seq::<SleepEntry>::empty(),
    {
        SleepHeap { entries: Vec::new() }
    }

    /// Adds a sleeper.
    pub fn push(&mut self, tid: u32, wake_time: u64, sleep_seq: u64)
        ensures
            final(self)@ == slept(old(self)@, SleepEntry { wake_time, sleep_seq, tid }),
    {
        let e = SleepEntry { wake_time, sleep_seq, tid };
        let mut i: usize = 0;
        while i < self.entries.len() && before(&self.entries[i], &e)
            invariant
                i <= self.entries@.len(),
                *self == *old(self),
                sleep_pos(self@, e, 0) == sleep_pos(self@, e, i as int),
            decreases self.entries@.len() - i,
        {
            i = i + 1;
        }
        self.entries.insert(i, e);
    }

    /// The earliest deadline.
    pub fn next_wake(&self) -> (r: Option<u64>)
        ensures
            r == (if self@.len() > 0 {
                Some(self@[0].wake_time)
            } else {
                None::<u64>
            }),
    {
        if self.entries.len() > 0 {
            Some(self.entries[0].wake_time)
        } else {
            None
        }
    }

    /// Takes the first sleeper if its deadline has passed.
    pub fn pop_due(&mut self, now: u64) -> (r: Option<SleepEntry>)
        ensures
            if old(self)@.len() > 0 && old(self)@[0].wake_time <= now {
                r == Some(old(self)@[0]) && final(self)@ == old(self)@.skip(1)
            } else {
                r is None && final(self)@ == old(self)@
            },
    {
        if self.entries.len() > 0 && self.entries[0].wake_time <= now {
            let e = self.entries.remove(0);
            proof {
                assert(self@ =~= old(self)@.skip(1));
            }
            Some(e)
        } else {
            None
        }
    }
}

fn before(a: &SleepEntry, b: &SleepEntry) -> (r: bool)
    ensures
        r == sleeps_before(*a, *b),
{
    a.wake_time < b.wake_time || (a.wake_time == b.wake_time && (a.sleep_seq < b.sleep_seq || (
    a.sleep_seq == b.sleep_seq && a.tid <= b.tid)))
}

proof fn lemma_sleep_pos(s: Seq<SleepEntry>, e: SleepEntry, i: int)
    requires
        0 <= i <= s.len(),
    ensures
        i <= sleep_pos(s, e, i) <= s.len(),
        forall|j: int| i <= j < sleep_pos(s, e, i) ==> sleeps_before(#[trigger] s[j], e),
        sleep_pos(s, e, i) < s.len() ==> !sleeps_before(s[sleep_pos(s, e, i)], e),
    decreases s.len() - i,
{
    if i < s.len() && sleeps_before(s[i], e) {
        lemma_sleep_pos(s, e, i + 1);
    }
}

/// A queue that is ordered by deadline stays so when a sleeper is added, holds
/// the new sleeper and loses none.
pub proof fn law_sleep_queue_stays_ordered(s: Seq<SleepEntry>, e: SleepEntry)
    requires
        sleep_sorted(s),
    ensures
        sleep_sorted(slept(s, e)),
        slept(s, e).contains(e),
        slept(s, e).len() == s.len() + 1,
        forall|x: SleepEntry| s.contains(x) ==> #[trigger] slept(s, e).contains(x),
{
    lemma_sleep_pos(s, e, 0);
    let p = sleep_pos(s, e, 0);
    let t = slept(s, e);
    assert(t[p] == e);
    assert forall|i: int, j: int| 0 <= i <= j < t.len() implies sleeps_before(
        #[trigger] t[i],
        #[trigger] t[j],
    ) by {
        let a = if i < p {
            s[i]
        } else if i == p {
            e
        } else {
            s[i - 1]
        };
        let b = if j < p {
            s[j]
        } else if j == p {
            e
        } else {
            s[j - 1]
        };
        assert(t[i] == a && t[j] == b);
        if i == p && j > p {
            assert(!sleeps_before(s[p], e));
            assert(sleeps_before(s[p], s[j - 1]));
        }
    }
    assert forall|x: SleepEntry| s.contains(x) implies #[trigger] t.contains(x) by {
        let c = choose|c: int| 0 <= c < s.len() && s[c] == x;
        if c < p {
            assert(t[c] == x);
        } else {
            assert(t[c + 1] == x);
        }
    }
}

/// In an ordered queue nobody sleeps past a deadline that has not come: once
/// the first deadline lies in the future, all do.
pub proof fn law_first_deadline_bounds_all(s: Seq<SleepEntry>, now: u64)
    requires
        sleep_sorted(s),
        s.len() > 0,
        s[0].wake_time > now,
    ensures
        forall|i: int| 0 <= i < s.len() ==> (#[trigger] s[i]).wake_time > now,
{
    assert forall|i: int| 0 <= i < s.len() implies (#[trigger] s[i]).wake_time > now by {
        assert(sleeps_before(s[0], s[i]));
    }
}

/// The thread that is handed out is the longest waiting one that may run on the
/// hart: it may, and none before it in the queue may. None is handed out only if
/// none may.
pub proof fn law_the_longest_waiting_fit_is_taken(
    q: Seq<u32>,
    threads: Map<u32, Thread>,
    mask: u64,
    i: int,
)
    requires
        0 <= i <= q.len(),
    ensures
        match first_fit(q, threads, mask, i) {
            Some(k) => {
                &&& i <= k < q.len()
                &&& threads.contains_key(q[k]) && threads[q[k]].affinity & mask != 0
                &&& forall|j: int|
                    i <= j < k ==> !(threads.contains_key(#[trigger] q[j]) && threads[q[j]].affinity
                        & mask != 0)
            },
            None => forall|j: int|
                i <= j < q.len() ==> !(threads.contains_key(#[trigger] q[j])
                    && threads[q[j]].affinity & mask != 0),
        },
    decreases q.len() - i,
{
    if i < q.len() && !runs_on(threads, q[i], mask) {
        law_the_longest_waiting_fit_is_taken(q, threads, mask, i + 1);
    }
}

/// Sleepers are ordered by their deadline first.
pub proof fn law_the_earliest_deadline_comes_first(a: SleepEntry, b: SleepEntry)
    ensures
        a.wake_time < b.wake_time ==> sleeps_before(a, b) && !sleeps_before(b, a),
        sleeps_before(a, b) || sleeps_before(b, a),
        sleeps_before(a, b) && sleeps_before(b, a) ==> a == b,
{
}

/// Of two that sleep until the same time the one whose park came first is
/// first, and of two with the same park the lower thread.
pub proof fn law_equal_deadlines_keep_their_order(a: SleepEntry, b: SleepEntry)
    requires
        a.wake_time == b.wake_time,
    ensures
        a.sleep_seq < b.sleep_seq ==> sleeps_before(a, b) && !sleeps_before(b, a),
        a.sleep_seq == b.sleep_seq && a.tid < b.tid ==> sleeps_before(a, b) && !sleeps_before(b, a),
{
}

} // verus!
