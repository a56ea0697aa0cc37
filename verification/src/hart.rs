//! What a hart does with the thread it runs: entering it, leaving it, parking
//! it, and interrupting other harts.

use crate::orbit::{push_ready_notice, Orbit, Queues};
#[allow(unused_imports)]
use crate::orbit::noticed;
use crate::process::{FaultInfo, Rets, SatpValue, Thread, ThreadState};
#[allow(unused_imports)]
use crate::process::delivered;
use crate::work::SleepNotice;
#[allow(unused_imports)]
use crate::memmap::MapView;
use vstd::prelude::*;

verus! {

broadcast use {vstd::laws_cmp::group_laws_cmp, vstd::std_specs::btree::group_btree_axioms};

/// Ticks of the machine's clock per microsecond.
pub const TICKS_PER_MICRO: u64 = 10;

/// First address above user space. No kernel code lies below it.
pub const USER_VA_END: u64 = 0x0080_0000_0000;

/// Marks a park request among the calls that kernel threads make.
pub const KPARK_ECALL_NR: u64 = 0xC0DE_0001;

/// Value that a call without a thread hands back.
pub const NO_THREAD: i64 = -1;

/// A thread as it leaves its hart.
pub open spec fn left(t: Thread, state: ThreadState) -> Thread {
    Thread {
        state,
        sleep_seq: if state == ThreadState::Suspended {
            vstd::wrapping::u64_specs::wrapping_add(t.sleep_seq, 1)
        } else {
            t.sleep_seq
        },
        ..t
    }
}

/// The park notice of a thread that goes to sleep.
pub open spec fn park_notice(t: Thread) -> SleepNotice {
    SleepNotice {
        wake_time: t.wake_time,
        sleep_seq: vstd::wrapping::u64_specs::wrapping_add(t.sleep_seq, 1),
        thread: Some(t.tid),
    }
}

/// What a thread needs to run on a hart.
#[derive(Clone, Copy, Debug, PartialEq, Eq, Structural)]
pub enum Entry {
    /// User code, with the trap frame of this thread slot.
    User { pc: u64, slot: u16, satp: SatpValue },
    /// Kernel code, with the thread's own trap frame.
    Kernel { pc: u64 },
}

/// A kernel thread's code is not in user space, and a user thread has a slot.
pub open spec fn can_enter(t: Thread) -> bool {
    if t.supervisor {
        t.pc >= 0x0080_0000_0000
    } else {
        t.slot is Some
    }
}

/// What a hart does when it comes back from a trap.
#[derive(Clone, Copy, Debug, PartialEq, Eq, Structural)]
pub enum Switch {
    /// The thread leaves the hart in this state.
    Leave(ThreadState),
    /// The hart forgets the thread, which is parked already.
    Forget,
    /// The thread goes on.
    Stay,
    /// There is no thread.
    Idle,
}

/// What is to become of the thread that was interrupted: a running one gives
/// way, one that was told to end does, and one that parked is forgotten.
pub fn check_context_and_switch(current: Option<ThreadState>) -> (r: Switch)
    ensures
        r == (match current {
            None => Switch::Idle,
            Some(ThreadState::Running) => Switch::Leave(ThreadState::Ready),
            Some(ThreadState::Exited) => Switch::Leave(ThreadState::Exited),
            Some(ThreadState::Suspended) => Switch::Forget,
            Some(ThreadState::Blocking) => Switch::Forget,
            Some(ThreadState::Ready) => Switch::Stay,
            Some(ThreadState::Assigned) => Switch::Stay,
        }),
{
    match current {
        None => Switch::Idle,
        Some(ThreadState::Running) => Switch::Leave(ThreadState::Ready),
        Some(ThreadState::Exited) => Switch::Leave(ThreadState::Exited),
        Some(ThreadState::Suspended) => Switch::Forget,
        Some(ThreadState::Blocking) => Switch::Forget,
        Some(ThreadState::Ready) => Switch::Stay,
        Some(ThreadState::Assigned) => Switch::Stay,
    }
}

/// Whether a trap came from another mode than the thread that the hart holds
/// runs in. A thread that was only just assigned to the hart does not count.
pub fn trap_mode_mismatch(t: &Thread, from_user: bool) -> (r: bool)
    ensures
        r == (t.supervisor == from_user && t.state != ThreadState::Assigned),
{
    t.supervisor == from_user && !matches!(t.state, ThreadState::Assigned)
}

/// What the system call path does before it serves a call. The thread is a
/// user thread: kernel threads do not make system calls.
pub fn syscall_gate(current: Option<&Thread>) -> (r: Result<(u16, u32), i64>)
    requires
        current matches Some(t) ==> !t.supervisor,
    ensures
        r == (match current {
            None => Err::<(u16, u32), i64>(NO_THREAD),
            Some(t) => Ok((t.pid, t.tid)),
        }),
{
    match current {
        None => Err(NO_THREAD),
        Some(t) => Ok((t.pid, t.tid)),
    }
}

impl Orbit {
    /// Enters the thread that a hart holds; `None` if it holds none and goes
    /// idle. The thread is running afterwards, and that counts as a switch.
    pub fn enter_hart_context(&mut self, current: Option<u32>) -> (r: Option<Entry>)
        requires
            current matches Some(tid) ==> old(self).threads@.contains_key(tid) && can_enter(
                old(self).threads@[tid],
            ),
        ensures
            match current {
                None => r is None && *final(self) == *old(self),
                Some(tid) => {
                    let t = old(self).threads@[tid];
                    &&& final(self).threads@ == old(self).threads@.insert(
                        tid,
                        Thread {
                            state: ThreadState::Running,
                            context_switches: vstd::wrapping::u64_specs::wrapping_add(
                                t.context_switches,
                                1,
                            ),
                            ..t
                        },
                    )
                    &&& r == Some(
                        if t.supervisor {
                            Entry::Kernel { pc: t.pc }
                        } else {
                            Entry::User { pc: t.pc, slot: t.slot->0, satp: t.satp }
                        },
                    )
                },
            },
            *final(self) == (Orbit { threads: final(self).threads, ..*old(self) }),
    {
        let tid: u32 = match current {
            Some(t) => t,
            None => {
                return None;
            },
        };
        let mut t: Thread = *self.threads.get(&tid).unwrap();
        t.state = ThreadState::Running;
        t.context_switches = t.context_switches.wrapping_add(1);
        let _ = self.threads.insert(tid, t);
        if t.supervisor {
            Some(Entry::Kernel { pc: t.pc })
        } else {
            Some(Entry::User { pc: t.pc, slot: t.slot.unwrap(), satp: t.satp })
        }
    }

    /// Takes a thread off its hart. A thread that goes to sleep leaves a notice
    /// for the manager, one that gives way a ready notice; either is lost when
    /// its inbox is full. A thread that blocks on a completion which came in
    /// meanwhile, with the values `done`, is ready again at once.
    pub fn exit_thread_with_state(
        &mut self,
        q: &mut Queues,
        hart: u64,
        current: &mut Option<u32>,
        state: ThreadState,
        done: Option<Rets>,
    )
        requires
            old(q).wf(),
            *old(current) matches Some(tid) ==> old(self).threads@.contains_key(tid) && old(
                self,
            ).threads@[tid].tid == tid,
        ensures
            final(q).wf(),
            *final(current) is None,
            match *old(current) {
                None => *final(self) == *old(self) && *final(q) == *old(q),
                Some(tid) => {
                    let t = old(self).threads@[tid];
                    let woken = state == ThreadState::Blocking && done is Some;
                    &&& final(self).threads@ == old(self).threads@.insert(
                        tid,
                        if woken {
                            Thread {
                                frame: delivered(t.frame, done->0),
                                state: ThreadState::Ready,
                                ..t
                            }
                        } else {
                            left(t, state)
                        },
                    )
                    &&& final(q).sleeps@ == (if state == ThreadState::Suspended && old(
                        q,
                    ).sleeps@.len() < 64 {
                        old(q).sleeps@.push(park_notice(t))
                    } else {
                        old(q).sleeps@
                    })
                    &&& final(q).inboxes() == (if state == ThreadState::Ready || woken {
                        noticed(old(q).inboxes(), hart, tid)
                    } else {
                        old(q).inboxes()
                    })
                },
            },
            *final(self) == (Orbit { threads: final(self).threads, ..*old(self) }),
            *final(q) == (Queues { sleeps: final(q).sleeps, ready: final(q).ready, ..*old(q) }),
    {
        let tid: u32 = match *current {
            Some(t) => t,
            None => {
                return ;
            },
        };
        let mut t: Thread = *self.threads.get(&tid).unwrap();
        let suspended: bool = matches!(state, ThreadState::Suspended);
        if suspended {
            t.sleep_seq = t.sleep_seq.wrapping_add(1);
        }
        *current = None;
        t.state = state;
        let _ = self.threads.insert(tid, t);
        if suspended {
            let _ = q.sleeps.push(
                SleepNotice {
                    wake_time: t.wake_time,
                    sleep_seq: t.sleep_seq,
                    thread: Some(tid),
                },
            );
        }
        if matches!(state, ThreadState::Ready) {
            let _ = push_ready_notice(q, hart, tid);
        }
        if matches!(state, ThreadState::Blocking) {
            self.wake_blocked_inline(q, hart, tid, done);
            proof {
                if done is Some {
                    let t0 = old(self).threads@[tid];
                    assert(self.threads@ =~= old(self).threads@.insert(
                        tid,
                        Thread {
                            frame: delivered(t0.frame, done->0),
                            state: ThreadState::Ready,
                            ..t0
                        },
                    ));
                }
            }
        }
    }

    /// Ends the thread that a hart runs because of a fault, which is kept with
    /// it.
    pub fn fault_thread(
        &mut self,
        q: &mut Queues,
        hart: u64,
        current: &mut Option<u32>,
        info: FaultInfo,
    )
        requires
            old(q).wf(),
            *old(current) matches Some(tid) ==> old(self).threads@.contains_key(tid) && old(
                self,
            ).threads@[tid].tid == tid,
        ensures
            *final(q) == *old(q),
            *final(current) is None,
            match *old(current) {
                None => *final(self) == *old(self),
                Some(tid) => final(self).threads@ == old(self).threads@.insert(
                    tid,
                    Thread {
                        fault_info: Some(info),
                        state: ThreadState::Exited,
                        ..old(self).threads@[tid]
                    },
                ),
            },
            *final(self) == (Orbit { threads: final(self).threads, ..*old(self) }),
    {
        match *current {
            Some(tid) => {
                let mut t: Thread = *self.threads.get(&tid).unwrap();
                t.fault_info = Some(info);
                t.state = ThreadState::Exited;
                let _ = self.threads.insert(tid, t);
                *current = None;
            },
            None => {},
        }
    }

    /// Prepares a kernel thread to park itself until `wake_time`; it then leaves
    /// its hart with [`exit_thread_with_state`](Self::exit_thread_with_state).
    /// Kernel threads do not block on completions.
    pub fn kthread_park(&mut self, tid: u32, state: ThreadState, wake_time: u64)
        requires
            old(self).threads@.contains_key(tid),
            old(self).threads@[tid].supervisor,
            state != ThreadState::Blocking,
        ensures
            final(self).threads@ == old(self).threads@.insert(
                tid,
                Thread {
                    ticks: 0,
                    wake_time: if state == ThreadState::Suspended {
                        wake_time
                    } else {
                        old(self).threads@[tid].wake_time
                    },
                    ..old(self).threads@[tid]
                },
            ),
            *final(self) == (Orbit { threads: final(self).threads, ..*old(self) }),
    {
        let mut t: Thread = *self.threads.get(&tid).unwrap();
        t.ticks = 0;
        if matches!(state, ThreadState::Suspended) {
            t.wake_time = wake_time;
        }
        let _ = self.threads.insert(tid, t);
    }

    /// Sets the time at which a thread is to wake, in milliseconds from `now`.
    pub fn ksleep(&mut self, tid: u32, now: u64, millis: u64)
        requires
            old(self).threads@.contains_key(tid),
        ensures
            final(self).threads@ == old(self).threads@.insert(
                tid,
                Thread {
                    wake_time: vstd::wrapping::u64_specs::wrapping_add(
                        now,
                        vstd::wrapping::u64_specs::wrapping_mul(millis, 10_000),
                    ),
                    ..old(self).threads@[tid]
                },
            ),
            *final(self) == (Orbit { threads: final(self).threads, ..*old(self) }),
    {
        let mut t: Thread = *self.threads.get(&tid).unwrap();
        t.wake_time = now.wrapping_add(millis.wrapping_mul(10_000));
        let _ = self.threads.insert(tid, t);
    }
}

/// A sleeping thread's notice stands for exactly this park: the notice carries
/// the thread's new park number, so a notice of an earlier park no longer
/// matches it.
pub proof fn law_park_notice_names_this_park(t: Thread, threads: Map<u32, Thread>)
    requires
        threads.contains_key(t.tid),
        threads[t.tid] == left(t, ThreadState::Suspended),
    ensures
        crate::orbit::entry_current(
            threads,
            crate::sched::SleepEntry {
                wake_time: park_notice(t).wake_time,
                sleep_seq: park_notice(t).sleep_seq,
                tid: t.tid,
            },
        ),
        forall|wake_time: u64|
            !crate::orbit::entry_current(
                threads,
                #[trigger] earlier_entry(t, wake_time),
            ),
{
}

/// The sleep entry of the park before the present one.
pub open spec fn earlier_entry(t: Thread, wake_time: u64) -> crate::sched::SleepEntry {
    crate::sched::SleepEntry { wake_time, sleep_seq: t.sleep_seq, tid: t.tid }
}

/// A store to a device register.
#[derive(Clone, Copy, Debug, PartialEq, Eq, Structural)]
pub struct RegisterWrite {
    pub addr: u64,
    pub value: u32,
}

/// A store to the register of `hart` in a bank of one word per hart.
pub open spec fn bank_write(base: u64, hart: u64, value: u32) -> RegisterWrite {
    RegisterWrite { addr: (base + 4 * hart) as u64, value }
}

/// Raises or clears the software interrupt of a hart. `sswi` is the bank's
/// address.
pub fn write_sswi(sswi: u64, hart: u64, value: u32) -> (r: RegisterWrite)
    requires
        sswi + 4 * hart <= u64::MAX,
    ensures
        r == bank_write(sswi, hart, value),
{
    RegisterWrite { addr: sswi + 4 * hart, value }
}

/// Interrupts a hart.
pub fn supervisor_wake_hart(sswi: u64, hart: u64) -> (r: RegisterWrite)
    requires
        sswi + 4 * hart <= u64::MAX,
    ensures
        r == bank_write(sswi, hart, 1),
{
    write_sswi(sswi, hart, 1)
}

/// Takes back the interrupt of a hart.
pub fn supervisor_clear_ipi(sswi: u64, hart: u64) -> (r: RegisterWrite)
    requires
        sswi + 4 * hart <= u64::MAX,
    ensures
        r == bank_write(sswi, hart, 0),
{
    write_sswi(sswi, hart, 0)
}

/// Pulls a hart out of the boot loader's wait loop. `clint` is the bank's
/// address.
pub fn kick_machine_hart(clint: u64, hart: u64) -> (r: RegisterWrite)
    requires
        clint + 4 * hart <= u64::MAX,
    ensures
        r == bank_write(clint, hart, 1),
{
    RegisterWrite { addr: clint + 4 * hart, value: 1 }
}

/// Pulls the first `hart_count` harts out of the boot loader's wait loop.
pub fn kick_machine_harts(clint: u64, hart_count: u64) -> (r: Vec<RegisterWrite>)
    requires
        clint + 4 * hart_count <= u64::MAX,
    ensures
        r@ == Seq::new(hart_count as nat, |h: int| bank_write(clint, h as u64, 1)),
{
    let mut out: Vec<RegisterWrite> = Vec::new();
    let mut h: u64 = 0;
    while h < hart_count
        invariant
            h <= hart_count,
            clint + 4 * hart_count <= u64::MAX,
            out@ == Seq::new(h as nat, |i: int| bank_write(clint, i as u64, 1)),
        decreases hart_count - h,
    {
        out.push(kick_machine_hart(clint, h));
        proof {
            assert(out@ =~= Seq::new((h + 1) as nat, |i: int| bank_write(clint, i as u64, 1)));
        }
        h = h + 1;
    }
    out
}

/// Taking a hart's interrupt back is one store of zero, to the very register in
/// the interrupt page of the device window that waking it stored one to.
pub proof fn law_clearing_takes_back_the_wake(m: MapView, hart: u64)
    requires
        4 * hart < 4096,
        m.kmmio + 8192 + 4 * hart <= u64::MAX,
    ensures
        ({
            let sswi = (m.kmmio + 8192) as u64;
            let at = (m.kmmio + 8192 + 4 * hart) as u64;
            &&& bank_write(sswi, hart, 1) == (RegisterWrite { addr: at, value: 1 })
            &&& bank_write(sswi, hart, 0) == (RegisterWrite { addr: at, value: 0 })
            &&& m.kmmio + 8192 <= at < m.kmmio + 3 * 4096
        }),
{
}

/// Clearing a hart's interrupt undoes raising it: both stores go to the same
/// register and the second leaves it at zero. Different harts have different
/// registers.
pub proof fn law_each_hart_has_its_register(base: u64, a: u64, b: u64)
    requires
        base + 4 * a <= u64::MAX,
        base + 4 * b <= u64::MAX,
    ensures
        bank_write(base, a, 0).addr == bank_write(base, a, 1).addr,
        bank_write(base, a, 0).value == 0,
        a != b ==> bank_write(base, a, 1).addr != bank_write(base, b, 1).addr,
{
}

/// A thread that leaves its hart is in the state that it leaves for. Only a
/// thread that goes to sleep counts one sleep more, and its notice carries that
/// count, its deadline and its number.
pub proof fn law_a_leaving_thread_is_in_its_state(t: Thread, state: ThreadState)
    requires
        t.sleep_seq < u64::MAX,
    ensures
        ({
            let l = left(t, state);
            &&& l.state == state
            &&& state == ThreadState::Suspended ==> l.sleep_seq == t.sleep_seq + 1
            &&& state != ThreadState::Suspended ==> l.sleep_seq == t.sleep_seq
            &&& l == (Thread { state: l.state, sleep_seq: l.sleep_seq, ..t })
            &&& park_notice(t).wake_time == t.wake_time
            &&& park_notice(t).thread == Some(t.tid)
            &&& park_notice(t).sleep_seq == t.sleep_seq + 1
        }),
{
}

/// A kernel thread runs in the kernel's half, a user thread in a slot.
pub proof fn law_threads_run_where_they_belong(t: Thread)
    ensures
        t.supervisor ==> (can_enter(t) <==> t.pc >= 0x80_0000_0000),
        !t.supervisor ==> (can_enter(t) <==> t.slot is Some),
{
}

} // verus!
