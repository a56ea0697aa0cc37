//! Threads: queues between harts, sleeping, waking and waiting.

use kmain::abi::{PagePerms, EAGAIN, EBADF, EBUSY, ECHILD, EFAULT, EINVAL, EPERM, ESRCH};
use kmain::argv::BlobLayout;
use kmain::hart::{syscall_gate, trap_mode_mismatch, Entry, NO_THREAD};
use kmain::manager::{
    hart_loop_step, release_manager, try_acquire_manager, HartAction, HartPoint, ManagerLock, Service, TIME_SLICE_CYCLES, WFI_HEARTBEAT_CYCLES,
};
use kmain::orbit::{
    push_ready_notice, AbiLayout, Effect, FutexWaiter, Orbit, Queues, WakeTarget, WAKE_INPUT_IO,
    WAKE_NET_IO, WAKE_TICKLE,
};
use kmain::process::{
    deliver, pack_rets, Creds, FaultInfo, Permissions, Process, Rets, SatpValue, Thread,
    ThreadState, TrapFrame,
};
use kmain::rings::{
    wake_queue_push, DenialQueue, ReadyInbox, SleepInbox, WakeEvent, WakeQueue, WorkQueue,
    WAKE_QUEUE_CAP,
};
use kmain::sched::{ReadyQueue, SleepEntry, SleepHeap};
use kmain::uspace::UserSpace;
use kmain::work::{
    CloseHandleReq, CreateThreadReq, DenialEvent, EventFdCreateReq, FutexWaitReq, FutexWakeReq, PendingWork, PledgeReq, ReadyNotice,
    SleepNotice, WaitPidReq, WakeTidReq,
};
use kmain::world::Machine;

fn perms() -> Permissions {
    Permissions { role: 1, perms: 0xff, allowed_perms: 0xff }
}

fn abi() -> AbiLayout {
    AbiLayout {
        user_end: 0x80_0000_0000,
        text_base: 0x1_0000,
        shared_base: 0x40_0000_0000,
        shared_end: 0x50_0000_0000,
        stack_default: 0x1_0000,
        stack_grain: 4096,
        stack_base: 0x20_0000_0000,
        stack_stride: 0x10_0000,
        tls_max: 4096,
        argv_base: 0x60_0000_0000,
        envp_base: 0x60_0000_1000,
        blob: BlobLayout { header: 8, offsets: 8 },
        max_path: 256,
        ngroups_max: 16,
        loader_role: 7,
        default_perms: perms(),
        page: PagePerms { r: 2, w: 4, x: 8, u: 16 },
        stat_size: 128,
        ch_info_size: 40,
        stats_size: 200,
        denial_event_size: 64,
        eventfd_size: 4096,
        efd_cloexec: 1,
        efd_nonblock: 2,
    }
}

fn satp() -> SatpValue {
    SatpValue { ppn: 0x80_000, asid: 0 }
}

fn thread(tid: u32, pid: u16, state: ThreadState) -> Thread {
    Thread {
        tid,
        pid,
        pc: 0,
        supervisor: false,
        satp: satp(),
        frame: TrapFrame { ra: 0, sp: 0, tp: 0, a0: 0, a1: 0, a2: 0, a3: 0, asid: 0 },
        kernel_stack: None,
        kernel_trap_frame: None,
        state,
        ticks: 0,
        wake_time: 0,
        wake_override: 0,
        last_wake_reason: 0,
        sleep_seq: 0,
        pending: None,
        slot: None,
        fault_info: None,
        allowed_affinity: 1,
        affinity: 1,
        cpu_ticks_total: 0,
        context_switches: 0,
        syscall_count: 0,
        syscall_ticks: 0,
        permissions: perms(),
        creds: Creds { uid: 0, euid: 0, suid: 0, gid: 0, egid: 0, sgid: 0 },
        stdout_redirect: None,
    }
}

fn neg(e: i32) -> i64 {
    -(e as i64)
}

fn orbit() -> Orbit {
    Orbit::new(4, satp(), abi())
}

fn add(o: &mut Orbit, t: Thread) {
    let _ = o.threads.insert(t.tid, t);
}

fn denial(pid: u16) -> DenialEvent {
    DenialEvent::RoleDeny {
        time_ticks: 1,
        tid: 2,
        source_role: 3,
        target_role: 4,
        deny_reason: 5,
        pid,
    }
}

#[test]
fn wake_queue_is_first_in_first_out_and_counts_losses() {
    let mut q = WakeQueue::new();
    assert_eq!(q.take(), None);
    for i in 0..128u32 {
        assert_eq!(wake_queue_push(&mut q, WakeEvent::Tid(i)), Ok(()));
    }
    assert_eq!(q.peak(), WAKE_QUEUE_CAP);
    assert_eq!(wake_queue_push(&mut q, WakeEvent::Net), Err(WakeEvent::Net));
    assert_eq!(q.drops(), 1);
    for i in 0..128u32 {
        assert_eq!(q.take(), Some(WakeEvent::Tid(i)));
    }
    assert_eq!(q.take(), None);
    assert_eq!(wake_queue_push(&mut q, WakeEvent::Net), Ok(()));
    assert_eq!(q.take(), Some(WakeEvent::Net));
    assert_eq!(q.peak(), 128);
}

#[test]
fn other_rings_have_their_own_room() {
    let mut s = SleepInbox::new();
    let mut r = ReadyInbox::new();
    let mut w = WorkQueue::new();
    let mut d = DenialQueue::new();
    for i in 0..64u32 {
        let n = SleepNotice { wake_time: i as u64, sleep_seq: 1, thread: Some(i) };
        assert_eq!(s.push(n), Ok(()));
        d.push(denial(i as u16));
    }
    let n = SleepNotice { wake_time: 9, sleep_seq: 9, thread: None };
    assert_eq!(s.push(n), Err(n));
    d.push(denial(999));
    for i in 0..32u32 {
        assert_eq!(r.push(ReadyNotice { thread: Some(i) }), Ok(()));
        assert_eq!(w.push(PendingWork::CacheFill { packed_key: i as u64, status: 0 }), Ok(()));
    }
    let full = PendingWork::Empty;
    assert_eq!(w.push(full), Err(full));
    assert_eq!(r.push(ReadyNotice { thread: None }), Err(ReadyNotice { thread: None }));
    assert_eq!(s.take().unwrap().thread, Some(0));
    assert_eq!(r.take(), Some(ReadyNotice { thread: Some(0) }));
    assert_eq!(w.take(), Some(PendingWork::CacheFill { packed_key: 0, status: 0 }));
    assert_eq!(d.take(), Some(Some(denial(0))));
    for _ in 1..64 {
        assert!(d.take().is_some());
    }
    assert_eq!(d.take(), None);
}

#[test]
fn sleepers_come_out_by_deadline() {
    let mut h = SleepHeap::new();
    assert_eq!(h.next_wake(), None);
    h.push(3, 300, 1);
    h.push(1, 100, 1);
    h.push(2, 200, 1);
    h.push(4, 100, 7);
    assert_eq!(h.next_wake(), Some(100));
    assert_eq!(h.pop_due(99), None);
    assert_eq!(h.pop_due(100), Some(SleepEntry { wake_time: 100, sleep_seq: 1, tid: 1 }));
    assert_eq!(h.pop_due(250).unwrap().tid, 4);
    assert_eq!(h.pop_due(250).unwrap().tid, 2);
    assert_eq!(h.pop_due(250), None);
    assert_eq!(h.next_wake(), Some(300));
}

#[test]
fn ready_threads_go_to_harts_they_may_run_on() {
    let mut o = orbit();
    for (tid, affinity) in [(1u32, 0b01u64), (2, 0b10), (3, 0b11)] {
        let mut t = thread(tid, 1, ThreadState::Ready);
        t.affinity = affinity;
        t.allowed_affinity = affinity;
        add(&mut o, t);
    }
    let mut r = ReadyQueue::new();
    r.push(1);
    r.push(2);
    r.push(3);
    assert_eq!(r.pop_for(&o.threads, 0b10), Some(2));
    assert_eq!(r.pop_for(&o.threads, 0b10), Some(3));
    assert_eq!(r.pop_for(&o.threads, 0b10), None);
    assert_eq!(r.pop_for(&o.threads, 0b01), Some(1));
    o.ready.push(1);
    o.ready.push(99);
    assert_eq!(o.get_runnable_thread(0b01), Some(1));
    assert_eq!(o.get_runnable_thread(0b01), None);
}

#[test]
fn harts_mask_has_one_bit_per_hart() {
    assert_eq!(orbit().all_harts_mask(), 0b1111);
    assert_eq!(Orbit::new(64, satp(), abi()).all_harts_mask(), u64::MAX);
}

#[test]
fn ids_skip_those_in_use() {
    let mut o = orbit();
    add(&mut o, thread(1, 1, ThreadState::Ready));
    assert_eq!(o.next_tid(), 2);
    o.current_thread_id = u32::MAX;
    assert_eq!(o.next_tid(), 0);
    let _ = o.processes.insert(1, Process::new(1, 1, satp()));
    assert_eq!(o.next_pid(), 2);
    o.current_process_id = 0xFFFE;
    assert_eq!(o.next_pid(), 0xFFFF);
    assert_eq!(o.thread_count(), 1);
    // Zero is the kernel's: counting wraps around to one, which is in use here.
    assert_eq!(o.next_pid(), 2);
    o.current_process_id = 0xFFFF;
    let _ = o.processes.remove(&1);
    assert_eq!(o.next_pid(), 1);
    let _ = o.processes.insert(1, Process::new(1, 1, satp()));
    let _ = o.processes.insert(0xFFFF, Process::new(0xFFFF, 1, satp()));
    o.current_process_id = 0xFFFE;
    assert_eq!(o.next_pid(), 2);
}

#[test]
fn process_numbers_run_out() {
    let mut o = orbit();
    assert!(o.room_for_thread());
    for pid in 1..=0xFFFEu16 {
        let _ = o.processes.insert(pid, Process::new(pid, 1, satp()));
    }
    assert!(o.room_for_process());
    assert_eq!(o.next_pid(), 0xFFFF);
    let _ = o.processes.insert(0xFFFF, Process::new(0xFFFF, 1, satp()));
    assert!(!o.room_for_process());
}

#[test]
fn return_values_reach_registers() {
    let f = TrapFrame { ra: 1, sp: 2, tp: 3, a0: 4, a1: 5, a2: 6, a3: 7, asid: 8 };
    let one = pack_rets(&[-2]);
    assert_eq!(one, Rets { count: 1, r0: -2, r1: 0, r2: 0, r3: 0 });
    let g = deliver(f, one);
    assert_eq!((g.a0 as i64, g.a1, g.a2), (-2, 5, 6));
    let two = deliver(f, pack_rets(&[10, 11]));
    assert_eq!((two.a0, two.a1, two.a2, two.a3), (10, 11, 6, 7));
    assert_eq!((two.ra, two.sp, two.tp, two.asid), (1, 2, 3, 8));
}

#[test]
fn published_values_arrive_with_the_wake() {
    let mut o = orbit();
    let mut q = Queues::new();
    add(&mut o, thread(7, 2, ThreadState::Blocking));
    o.publish_pending_for_tid(&mut q.wakes, 7, &[42]);
    o.publish_pending_for_tid(&mut q.wakes, 8, &[42]);
    assert_eq!(o.threads[&7].pending.unwrap().r0, 42);
    o.drain_wakes(&mut q.wakes);
    let t = o.threads[&7];
    assert_eq!((t.state, t.frame.a0, t.pending), (ThreadState::Ready, 42, None));
    assert_eq!(t.last_wake_reason, WAKE_NET_IO);
    assert_eq!(o.get_runnable_thread(1), Some(7));
    assert_eq!(q.wakes.take(), None);
}

#[test]
fn a_wake_for_a_running_thread_is_kept() {
    let mut o = orbit();
    add(&mut o, thread(7, 2, ThreadState::Running));
    o.set_wake_reason_where(WAKE_INPUT_IO, WakeTarget::Tid(7));
    o.set_wake_reason_where(WAKE_TICKLE, WakeTarget::Pid(2));
    let t = o.threads[&7];
    assert_eq!((t.state, t.wake_override), (ThreadState::Running, WAKE_INPUT_IO | WAKE_TICKLE));
    // It then parks, and the manager files the park: it is ready again at once.
    let mut q = Queues::new();
    let mut cur = Some(7);
    o.exit_thread_with_state(&mut q, 0, &mut cur, ThreadState::Suspended, None);
    assert_eq!(cur, None);
    assert_eq!(o.threads[&7].state, ThreadState::Suspended);
    o.assign_threads(&mut q, 0);
    let t = o.threads[&7];
    assert_eq!((t.state, t.wake_override), (ThreadState::Ready, 0));
    assert_eq!(t.last_wake_reason, WAKE_INPUT_IO | WAKE_TICKLE);
    assert_eq!(o.get_runnable_thread(1), Some(7));
}

#[test]
fn service_events_reach_their_thread_only() {
    let mut o = orbit();
    for tid in [1u32, 2, 3] {
        add(&mut o, thread(tid, 0, ThreadState::Suspended));
    }
    o.adopt_service(Service::Net, Some(2));
    o.adopt_service(Service::Gpu, None);
    assert_eq!((o.net_thread_tid, o.gpu_thread_tid), (Some(2), None));
    let mut q = Queues::new();
    let _ = wake_queue_push(&mut q.wakes, WakeEvent::Net);
    o.drain_wakes(&mut q.wakes);
    assert_eq!(o.threads[&1].state, ThreadState::Suspended);
    assert_eq!(o.threads[&2].state, ThreadState::Ready);
    // Without a known thread the event goes to all kernel threads.
    let _ = wake_queue_push(&mut q.wakes, WakeEvent::Serial);
    o.drain_wakes(&mut q.wakes);
    assert_eq!(o.threads[&1].state, ThreadState::Ready);
    assert_eq!(o.threads[&3].state, ThreadState::Ready);
}

#[test]
fn nudges_wake_services_with_work() {
    let mut o = orbit();
    add(&mut o, thread(4, 0, ThreadState::Suspended));
    add(&mut o, thread(5, 0, ThreadState::Suspended));
    o.adopt_service(Service::Gpu, Some(4));
    o.adopt_service(Service::Serial, Some(5));
    o.nudge_gpu_if_pending(true);
    o.nudge_serial_if_pending(false);
    assert_eq!(o.threads[&4].state, ThreadState::Suspended);
    assert_eq!(o.threads[&5].state, ThreadState::Ready);
}

#[test]
fn a_turn_wakes_due_sleepers_and_tells_how_long_to_wait() {
    let mut o = orbit();
    let mut q = Queues::new();
    for tid in [1u32, 2] {
        let mut t = thread(tid, 3, ThreadState::Running);
        t.wake_time = 1000 * tid as u64;
        add(&mut o, t);
        let mut cur = Some(tid);
        o.exit_thread_with_state(&mut q, 0, &mut cur, ThreadState::Suspended, None);
    }
    o.run_turn(&mut q, 1500, true, true);
    assert_eq!(o.idle_wait(1500), 500);
    // The wait counts from the later of the two readings of the clock.
    assert_eq!((o.idle_wait(1600), o.idle_wait(2000), o.idle_wait(2100)), (400, 0, 0));
    assert_eq!(o.threads[&1].state, ThreadState::Ready);
    assert_eq!(o.threads[&2].state, ThreadState::Suspended);
    assert_eq!(o.threads[&2].sleep_seq, 1);
    o.run_turn(&mut q, 2000, true, true);
    assert_eq!(o.idle_wait(2000), WFI_HEARTBEAT_CYCLES);
    assert_eq!(o.threads[&2].state, ThreadState::Ready);
    assert_eq!(o.get_runnable_thread(1), Some(1));
    assert_eq!(o.get_runnable_thread(1), Some(2));
    assert_eq!(o.next_sleep_in_cycles(0, 77), 77);
}

#[test]
fn a_stale_park_notice_wakes_nobody() {
    let mut o = orbit();
    let mut t = thread(1, 3, ThreadState::Suspended);
    t.sleep_seq = 5;
    add(&mut o, t);
    o.sleeping.push(1, 10, 4);
    let mut q = Queues::new();
    o.drain_sleeps(&mut q.sleeps, 100);
    assert_eq!(o.threads[&1].state, ThreadState::Suspended);
    o.sleeping.push(1, 10, 5);
    o.drain_sleeps(&mut q.sleeps, 100);
    assert_eq!(o.threads[&1].state, ThreadState::Ready);
}

#[test]
fn ready_notices_are_collected_hart_by_hart() {
    let mut o = orbit();
    let mut q = Queues::new();
    for tid in [1u32, 2, 3] {
        add(&mut o, thread(tid, 1, ThreadState::Ready));
    }
    assert_eq!(push_ready_notice(&mut q, 2, 1), Ok(()));
    assert_eq!(push_ready_notice(&mut q, 0, 2), Ok(()));
    assert_eq!(push_ready_notice(&mut q, 2, 3), Ok(()));
    assert_eq!(push_ready_notice(&mut q, 8, 3), Err(()));
    o.drain_ready_inboxes(&mut q);
    assert_eq!(o.get_runnable_thread(1), Some(2));
    assert_eq!(o.get_runnable_thread(1), Some(1));
    assert_eq!(o.get_runnable_thread(1), Some(3));
}

#[test]
fn resumed_threads_are_published_by_their_hart() {
    let mut o = orbit();
    let mut q = Queues::new();
    add(&mut o, thread(1, 1, ThreadState::Blocking));
    add(&mut o, thread(2, 1, ThreadState::Blocking));
    o.resume_thread_with_value(&mut q, 1, 1, -7);
    o.resume_thread_with_values(&mut q, 1, 2, &[1, 2]);
    assert_eq!(o.threads[&1].frame.a0 as i64, -7);
    assert_eq!((o.threads[&2].frame.a0, o.threads[&2].frame.a1), (1, 2));
    assert_eq!(q.ready[1].take(), Some(ReadyNotice { thread: Some(1) }));
    assert_eq!(q.ready[1].take(), Some(ReadyNotice { thread: Some(2) }));
    assert!(!o.try_wake_pending_inline(&mut q, 1, 1));
}

#[test]
fn entering_and_leaving_a_hart() {
    let mut o = orbit();
    let mut q = Queues::new();
    assert_eq!(o.enter_hart_context(None), None);
    let mut u = thread(1, 1, ThreadState::Assigned);
    u.pc = 0x1_0000;
    u.slot = Some(3);
    add(&mut o, u);
    let e = o.enter_hart_context(Some(1));
    assert_eq!(e, Some(Entry::User { pc: 0x1_0000, slot: 3, satp: satp() }));
    assert_eq!(o.threads[&1].state, ThreadState::Running);
    assert_eq!(o.threads[&1].context_switches, 1);
    let mut k = thread(2, 0, ThreadState::Assigned);
    k.supervisor = true;
    k.pc = 0xFFFF_FFC0_0000_0000;
    add(&mut o, k);
    assert_eq!(o.enter_hart_context(Some(2)), Some(Entry::Kernel { pc: 0xFFFF_FFC0_0000_0000 }));
    let mut cur = Some(1);
    o.exit_thread_with_state(&mut q, 0, &mut cur, ThreadState::Ready, None);
    assert_eq!(q.ready[0].take(), Some(ReadyNotice { thread: Some(1) }));
    // A completion that came in while the thread blocked wakes it at once.
    let mut cur = Some(1);
    let done = Some(pack_rets(&[5]));
    o.exit_thread_with_state(&mut q, 0, &mut cur, ThreadState::Blocking, done);
    assert_eq!(o.threads[&1].state, ThreadState::Ready);
    assert_eq!(o.threads[&1].frame.a0, 5);
    let mut cur = Some(2);
    let info = FaultInfo { cause: 13, epc: 1, stval: 2 };
    o.fault_thread(&mut q, 0, &mut cur, info);
    assert_eq!(o.threads[&2].state, ThreadState::Exited);
    assert_eq!((cur, o.threads[&2].fault_info), (None, Some(info)));
}

#[test]
fn kernel_threads_park_and_sleep() {
    let mut o = orbit();
    let mut k = thread(2, 0, ThreadState::Running);
    k.supervisor = true;
    k.ticks = 9;
    add(&mut o, k);
    o.kthread_park(2, ThreadState::Suspended, 777);
    assert_eq!((o.threads[&2].ticks, o.threads[&2].wake_time), (0, 777));
    o.kthread_park(2, ThreadState::Ready, 999);
    assert_eq!(o.threads[&2].wake_time, 777);
    o.ksleep(2, 100, 3);
    assert_eq!(o.threads[&2].wake_time, 30_100);
}

#[test]
fn traps_and_calls_are_checked() {
    let mut t = thread(1, 4, ThreadState::Running);
    assert!(!trap_mode_mismatch(&t, true));
    assert!(trap_mode_mismatch(&t, false));
    t.state = ThreadState::Assigned;
    assert!(!trap_mode_mismatch(&t, false));
    assert_eq!(syscall_gate(Some(&t)), Ok((4, 1)));
    assert_eq!(syscall_gate(None), Err(NO_THREAD));
}

#[test]
fn one_hart_is_manager() {
    let mut lock = ManagerLock::new();
    assert!(try_acquire_manager(&mut lock));
    assert!(!try_acquire_manager(&mut lock));
    release_manager(&mut lock);
    assert!(try_acquire_manager(&mut lock));
    let o = orbit();
    assert_eq!(o.other_harts(2), vec![0, 1, 3]);
    assert_eq!(
        hart_loop_step(HartPoint::Top { has_thread: true }),
        HartAction::Enter { cycles: TIME_SLICE_CYCLES }
    );
    assert_eq!(hart_loop_step(HartPoint::Top { has_thread: false }), HartAction::TryLock);
    assert_eq!(hart_loop_step(HartPoint::Locked { won: true }), HartAction::Serve);
    assert_eq!(
        hart_loop_step(HartPoint::Locked { won: false }),
        HartAction::Wait { cycles: WFI_HEARTBEAT_CYCLES }
    );
    assert_eq!(
        hart_loop_step(HartPoint::Served { has_thread: false, wait: 12 }),
        HartAction::Wait { cycles: 12 }
    );
}

#[test]
fn requests_are_served_in_order_until_one_needs_the_machine() {
    let mut o = family();
    let mut m = Machine::new(2);
    add(&mut o, thread(20, 2, ThreadState::Running));
    let mut p = o.processes.remove(&1).unwrap();
    let _ = p.threads.insert(10);
    let _ = o.processes.insert(1, p);
    let mut p = o.processes.remove(&2).unwrap();
    let _ = p.threads.insert(20);
    let _ = o.processes.insert(2, p);
    let poke = PendingWork::WakeTid { req: WakeTidReq { target_tid: 20 }, pid: 1, tid: 10 };
    let close = PendingWork::CloseHandle {
        req: CloseHandleReq { fd: 3 },
        pid: 1,
        root_pa: 0,
        tid: 10,
    };
    let exit = PendingWork::ExitGroup { pid: 2, leader_tid: 99, exit_code: 4 };
    let fill = PendingWork::CacheFill { packed_key: 1, status: 0 };
    let wait = PendingWork::WaitPid { req: WaitPidReq { target_pid: 2 }, pid: 1, tid: 10 };
    for w in [PendingWork::Empty, poke, exit, fill, wait, close] {
        assert_eq!(m.q.work.push(w), Ok(()));
    }
    let running = vec![Some(20), None];
    assert_eq!(o.drain_pending_work(&mut m, 0, &running), Some(fill));
    // Another process's thread cannot be woken.
    assert_eq!(o.threads[&10].pending, Some(pack_rets(&[neg(EPERM)])));
    assert_eq!((o.threads[&20].state, o.processes[&2].exit_code), (ThreadState::Exited, 4));
    assert_eq!(m.effects, vec![Effect::WakeHart(0)]);
    assert_eq!(o.drain_pending_work(&mut m, 0, &running), None);
    assert_eq!(o.processes[&2].exit_waiter, Some(10));
    assert_eq!(o.threads[&10].pending, Some(pack_rets(&[neg(EBADF)])));
    assert_eq!(m.q.work.take(), None);
}

#[test]
fn outcomes_reach_their_thread() {
    let mut o = orbit();
    let mut q = Queues::new();
    add(&mut o, thread(9, 1, ThreadState::Blocking));
    let a = PendingWork::Pledge { req: PledgeReq { req_vaddr: 1 }, pid: 1, root_pa: 0, tid: 9 };
    let b = PendingWork::CacheFill { packed_key: 1, status: 0 };
    let c = PendingWork::EventFdCreate {
        req: EventFdCreateReq { vaddr_hint: 0, initval: 0, flags: 0 },
        pid: 1,
        root_pa: 0,
        tid: 9,
    };
    o.finish_request(&mut q.wakes, b, 5, 6);
    assert_eq!(o.threads[&9].pending, None);
    o.finish_request(&mut q.wakes, a, 5, 6);
    assert_eq!(o.threads[&9].pending, Some(pack_rets(&[5])));
    assert_eq!(q.wakes.take(), Some(WakeEvent::Tid(9)));
    o.finish_request(&mut q.wakes, c, 5, 6);
    assert_eq!(o.threads[&9].pending, Some(pack_rets(&[5, 6])));
}

fn family() -> Orbit {
    let mut o = orbit();
    let _ = o.processes.insert(1, Process::new(1, 1, satp()));
    let _ = o.processes.insert(2, Process::new(2, 1, satp()));
    add(&mut o, thread(10, 1, ThreadState::Blocking));
    o
}

#[test]
fn wait_for_a_child() {
    let mut o = family();
    let mut q = Queues::new();
    o.run_wait_pid_req(&mut q.wakes, WaitPidReq { target_pid: 2 }, 1, 10);
    assert_eq!(o.processes[&2].exit_waiter, Some(10));
    assert_eq!(o.threads[&10].pending, None);
    o.run_wait_pid_req(&mut q.wakes, WaitPidReq { target_pid: 2 }, 1, 10);
    assert_eq!(o.threads[&10].pending, Some(pack_rets(&[neg(EBUSY), 0])));
    o.run_wait_pid_req(&mut q.wakes, WaitPidReq { target_pid: 9 }, 1, 10);
    assert_eq!(o.threads[&10].pending, Some(pack_rets(&[neg(ECHILD), 0])));
    o.run_wait_pid_req(&mut q.wakes, WaitPidReq { target_pid: 1 }, 2, 10);
    assert_eq!(o.threads[&10].pending, Some(pack_rets(&[neg(EPERM), 0])));
    let mut p = o.processes.remove(&1).unwrap();
    let _ = p.dead_children.insert(3, 17);
    let _ = o.processes.insert(1, p);
    o.run_wait_pid_req(&mut q.wakes, WaitPidReq { target_pid: 3 }, 1, 10);
    assert_eq!(o.threads[&10].pending, Some(pack_rets(&[0, 17])));
    // The exit code is handed out once.
    o.run_wait_pid_req(&mut q.wakes, WaitPidReq { target_pid: 3 }, 1, 10);
    assert_eq!(o.threads[&10].pending, Some(pack_rets(&[neg(ECHILD), 0])));
}

#[test]
fn futexes_wake_in_the_order_of_parking() {
    let mut o = orbit();
    let mut q = Queues::new();
    let mut space = UserSpace::new();
    let mut page = vec![0u8; 4096];
    page[8] = 5;
    assert!(space.map_page(0x1000, 0x8000_0000, page));
    for tid in [1u32, 2, 3] {
        add(&mut o, thread(tid, 1, ThreadState::Blocking));
        let req = FutexWaitReq { uaddr: 0x1008, expected: 5, timeout_ns: 0 };
        o.run_futex_wait_req(&mut q.wakes, req, 1, &space, tid);
    }
    assert_eq!(Orbit::read_futex(&space, 0x1008), Some((0x8000_0008, 5)));
    let tids: Vec<u32> = o.futex_waiters[&0x8000_0008].iter().map(|w| w.tid).collect();
    assert_eq!(tids, vec![1, 2, 3]);
    let wake = FutexWakeReq { uaddr: 0x1008, n: 2 };
    assert_eq!(o.run_futex_wake_req(&mut q.wakes, wake, &space), 2);
    assert_eq!(q.wakes.take(), Some(WakeEvent::Tid(1)));
    assert_eq!(q.wakes.take(), Some(WakeEvent::Tid(2)));
    assert_eq!(q.wakes.take(), None);
    assert_eq!(o.run_futex_wake_req(&mut q.wakes, wake, &space), 1);
    assert!(o.futex_waiters.is_empty());
    assert_eq!(o.run_futex_wake_req(&mut q.wakes, wake, &space), 0);
    // Another value, or no memory: nobody parks.
    let req = FutexWaitReq { uaddr: 0x1008, expected: 6, timeout_ns: 0 };
    o.run_futex_wait_req(&mut q.wakes, req, 1, &space, 1);
    assert_eq!(o.threads[&1].pending.unwrap().r0, neg(EAGAIN));
    let req = FutexWaitReq { uaddr: 0x9000, expected: 6, timeout_ns: 0 };
    o.run_futex_wait_req(&mut q.wakes, req, 1, &space, 1);
    assert_eq!(o.threads[&1].pending.unwrap().r0, neg(EFAULT));
    let wake = FutexWakeReq { uaddr: 0x9000, n: 2 };
    assert_eq!(o.run_futex_wake_req(&mut q.wakes, wake, &space), neg(EFAULT));
    assert!(o.futex_waiters.is_empty());
}

#[test]
fn sweeping_futexes_keeps_other_processes() {
    let mut o = orbit();
    let w = |tid, pid| FutexWaiter { tid, pid, deadline_ticks: u64::MAX };
    let _ = o.futex_waiters.insert(8, vec![w(1, 1), w(2, 2), w(3, 1)]);
    let _ = o.futex_waiters.insert(16, vec![w(4, 1)]);
    o.sweep_futexes(1);
    assert_eq!(o.futex_waiters[&8], vec![w(2, 2)]);
    assert!(!o.futex_waiters.contains_key(&16));
}

#[test]
fn pledges_narrow_a_process_and_its_threads() {
    let mut o = family();
    let mut space = UserSpace::new();
    assert!(space.map_page(0x1000, 0x8000_0000, vec![0u8; 4096]));
    let mut p = o.processes.remove(&1).unwrap();
    let _ = p.threads.insert(10);
    let _ = o.processes.insert(1, p);
    let narrow = Permissions { role: 1, perms: 1, allowed_perms: 1 };
    assert_eq!(o.run_pledge_req(PledgeReq { req_vaddr: 0x1000 }, 1, &space, narrow), 0);
    assert_eq!(o.processes[&1].permissions, narrow);
    assert_eq!(o.threads[&10].permissions, narrow);
    assert_eq!(o.processes[&2].permissions != narrow, true);
    let missing = o.run_pledge_req(PledgeReq { req_vaddr: 0x9000 }, 1, &space, narrow);
    assert_eq!(missing, neg(EFAULT));
    let gone = o.run_pledge_req(PledgeReq { req_vaddr: 0x1000 }, 77, &space, narrow);
    assert_eq!(gone, neg(ESRCH));
}

#[test]
fn new_threads_stay_within_their_parents_harts() {
    let o = family();
    let req = |allowed_affinity, affinity| CreateThreadReq {
        entry: 0x1000,
        arg: 0,
        allowed_affinity,
        affinity,
    };
    assert_eq!(o.create_thread_plan(req(0, 0), 1, 0b11), Ok((0b11, 0b11)));
    assert_eq!(o.create_thread_plan(req(0b10, 0), 1, 0b11), Ok((0b10, 0b10)));
    assert_eq!(o.create_thread_plan(req(0b100, 0), 1, 0b11), Err(neg(EPERM)));
    assert_eq!(o.create_thread_plan(req(0b10, 0b1), 1, 0b11), Err(neg(EINVAL)));
    assert_eq!(o.create_thread_plan(req(0, 0), 1, 0b11_0000), Err(neg(EINVAL)));
    assert_eq!(o.create_thread_plan(req(0, 0), 9, 0b11), Err(neg(ESRCH)));
}

#[test]
fn threads_wake_threads_of_their_process() {
    let mut o = family();
    let mut q = Queues::new();
    add(&mut o, thread(20, 2, ThreadState::Suspended));
    let req = |target_tid| WakeTidReq { target_tid };
    assert_eq!(o.run_wake_tid_req(&mut q.wakes, req(10), 1), 0);
    assert_eq!(q.wakes.take(), Some(WakeEvent::Tid(10)));
    assert_eq!(o.run_wake_tid_req(&mut q.wakes, req(20), 1), neg(EPERM));
    assert_eq!(o.run_wake_tid_req(&mut q.wakes, req(99), 1), neg(ESRCH));
    assert_eq!(q.wakes.take(), None);
}
