//! Input, output, the network, the audit log and plain calls.

use kmain::abi::{PagePerms, EAGAIN, EBADF, EFAULT, EINVAL, ESRCH};
use kmain::argv::BlobLayout;
use kmain::accounting::{
    init_hart_bucket, sum_hart_counter, wrapping_total, HartBucket, HartClock, HartTicks,
};
use kmain::audit::{perm_gate_check, SystemCounts, WAKE_QUEUE_CAPACITY};
use kmain::input::{
    dispatch, encode_key_event, evdev_to_bytes, modifier_bit, InputAction, InputEvent, KeyCode,
    KeyEvent, KeyEventKind, Modifier, Mods, EV_KEY, VAL_PRESS, VAL_RELEASE,
};
use kmain::key_events;
use kmain::ktrace::{emit, LineBuf, OrbitLogger, OrbitSubscriber, SerialWriter, Sinks, TraceLevel};
use kmain::net::{
    handle_dhcp_event, net_deadline, note_update, take_streams, Association, Cidr, DhcpEvent,
    NetConfig, NetConns, NetPackage, SocketReq, SocketUpdate, NET_HEARTBEAT,
};
use kmain::net_turn::{NetAction, NetEvent, NetTurn};
use kmain::orbit::{AbiLayout, Orbit, Queues};
use kmain::pending_frees::{FreeRings, FREE_RING_CAP};
use kmain::process::{
    Creds, MappingKind, Permissions, PhysBacking, Pool, Process, SatpValue, Thread, ThreadState,
    TrapFrame, UserMapping,
};
use kmain::rings::{DenialQueue, WakeEvent, WakeQueue};
use kmain::shared_user_ptr::SharedUserPtr;
use kmain::stdin::{self, active_pid, set_active, ActivePid, InputTable, Source};
use kmain::surface::{self, FbFormat, ProcessSurfaces, SurfaceEntry, SurfaceTable};
use kmain::syscalls::{
    handle_fb_query, handle_get_hart_id, handle_get_micros, handle_get_realtime, handle_getegid, handle_geteuid,
    handle_getgid, handle_getpid, handle_gettid, handle_getuid, handle_nc_yield,
    handle_query_syscall_stats, present_result, FbInfo, Rect, StatsLayout, SyscallEntry,
};
use kmain::uspace::UserSpace;
use kmain::work::DenialEvent;
use kmain::world::Machine;
use std::collections::BTreeMap;

fn perms() -> Permissions {
    Permissions { role: 1, perms: 0xff, allowed_perms: 0xff }
}

fn abi() -> AbiLayout {
    AbiLayout {
        user_end: 0x80_0000_0000,
        text_base: 0x1_0000,
        shared_base: 0x40_0000_0000,
        shared_end: 0x50_0000_0000,
        stack_default: 0x1_0000,
        stack_grain: 4096,
        stack_base: 0x20_0000_0000,
        stack_stride: 0x10_0000,
        tls_max: 4096,
        argv_base: 0x60_0000_0000,
        envp_base: 0x60_0000_1000,
        blob: BlobLayout { header: 8, offsets: 8 },
        max_path: 256,
        ngroups_max: 16,
        loader_role: 7,
        default_perms: perms(),
        page: PagePerms { r: 2, w: 4, x: 8, u: 16 },
        stat_size: 128,
        ch_info_size: 40,
        stats_size: 200,
        denial_event_size: 64,
        eventfd_size: 4096,
        efd_cloexec: 1,
        efd_nonblock: 2,
    }
}

fn satp() -> SatpValue {
    SatpValue { ppn: 0x80_000, asid: 0 }
}

fn thread(tid: u32, pid: u16, state: ThreadState) -> Thread {
    Thread {
        tid,
        pid,
        pc: 0,
        supervisor: false,
        satp: satp(),
        frame: TrapFrame { ra: 0, sp: 0, tp: 0, a0: 0, a1: 0, a2: 0, a3: 0, asid: 0 },
        kernel_stack: None,
        kernel_trap_frame: None,
        state,
        ticks: 0,
        wake_time: 0,
        wake_override: 0,
        last_wake_reason: 0,
        sleep_seq: 0,
        pending: None,
        slot: None,
        fault_info: None,
        allowed_affinity: 1,
        affinity: 1,
        cpu_ticks_total: 0,
        context_switches: 0,
        syscall_count: 0,
        syscall_ticks: 0,
        permissions: perms(),
        creds: Creds { uid: 0, euid: 0, suid: 0, gid: 0, egid: 0, sgid: 0 },
        stdout_redirect: None,
    }
}

fn neg(e: i32) -> i64 {
    -(e as i64)
}

fn orbit() -> Orbit {
    Orbit::new(2, satp(), abi())
}

const PLAIN: Mods = Mods { shift: false, ctrl: false, alt: false };

const SHIFT: Mods = Mods { shift: true, ctrl: false, alt: false };

const CTRL: Mods = Mods { shift: false, ctrl: true, alt: false };

const KEY_A: u16 = 30;

const KEY_LEFTSHIFT: u16 = 42;

const KEY_1: u16 = 2;

const KEY_ENTER: u16 = 28;

const KEY_UP: u16 = 103;

#[test]
fn keys_become_bytes() {
    assert_eq!(evdev_to_bytes(KEY_A, PLAIN), b"a".to_vec());
    assert_eq!(evdev_to_bytes(KEY_A, SHIFT), b"A".to_vec());
    assert_eq!(evdev_to_bytes(KEY_A, CTRL), vec![1]);
    assert_eq!(evdev_to_bytes(KEY_1, SHIFT), b"!".to_vec());
    assert_eq!(evdev_to_bytes(KEY_UP, PLAIN), b"\x1b[A".to_vec());
    assert_eq!(evdev_to_bytes(KEY_ENTER, PLAIN).len(), 1);
    assert!(evdev_to_bytes(999, PLAIN).is_empty());
}

#[test]
fn keys_become_events() {
    let e = encode_key_event(KEY_A, SHIFT, KeyEventKind::Press).unwrap();
    assert_eq!(
        e,
        KeyEvent { code: KeyCode::Char(b'A'), modifiers: SHIFT, kind: KeyEventKind::Press }
    );
    let up = encode_key_event(KEY_UP, PLAIN, KeyEventKind::Repeat).unwrap();
    assert_eq!((up.code, up.kind), (KeyCode::Up, KeyEventKind::Repeat));
    assert_eq!(encode_key_event(999, PLAIN, KeyEventKind::Press), None);
    assert_eq!(modifier_bit(KEY_LEFTSHIFT), Some(Modifier::Shift));
    assert_eq!(modifier_bit(KEY_A), None);
}

fn key(code: u16, value: u32) -> InputEvent {
    InputEvent { ty: EV_KEY, code, value }
}

#[test]
fn modifiers_are_held_between_press_and_release() {
    let mut mods = PLAIN;
    let a = dispatch(&mut mods, Some(5), key(KEY_LEFTSHIFT, VAL_PRESS));
    assert!(matches!(a, InputAction::Ignore));
    assert_eq!(mods, SHIFT);
    match dispatch(&mut mods, Some(5), key(KEY_A, VAL_PRESS)) {
        InputAction::Deliver { pid, event, bytes } => {
            assert_eq!((pid, bytes), (5, b"A".to_vec()));
            assert_eq!(event.unwrap().code, KeyCode::Char(b'A'));
        },
        _ => panic!("not delivered"),
    }
    let _ = dispatch(&mut mods, Some(5), key(KEY_LEFTSHIFT, VAL_RELEASE));
    assert_eq!(mods, PLAIN);
    let nobody = dispatch(&mut mods, None, key(KEY_A, VAL_PRESS));
    assert!(matches!(nobody, InputAction::Ignore));
    let other = dispatch(&mut mods, Some(5), InputEvent { ty: 0, code: KEY_A, value: VAL_PRESS });
    assert!(matches!(other, InputAction::Ignore));
}

#[test]
fn the_keyboard_has_one_owner() {
    let mut a = ActivePid { value: -1 };
    assert_eq!(active_pid(&a), None);
    set_active(&mut a, Source::Process(0xFFFF));
    assert_eq!(active_pid(&a), Some(0xFFFF));
    set_active(&mut a, Source::Kernel);
    assert_eq!(active_pid(&a), None);
}

#[test]
fn input_slots_wake_their_parker() {
    let mut t = InputTable::new();
    let mut w = WakeQueue::new();
    assert!(!stdin::park(&mut t, 5, 50));
    stdin::register(&mut t, 5);
    assert!(stdin::park(&mut t, 5, 50));
    stdin::register(&mut t, 5);
    assert_eq!(stdin::get(&t, 5), Some(Some(50)));
    stdin::unregister(&mut t, 5, &mut w);
    assert_eq!(w.take(), Some(WakeEvent::InputTid(50)));
    assert_eq!(stdin::get(&t, 5), None);
    key_events::register(&mut t, 6);
    let _ = stdin::park(&mut t, 6, 60);
    assert!(key_events::push_and_wake(&mut t, 6, &mut w));
    assert_eq!(w.take(), Some(WakeEvent::InputTid(60)));
    assert_eq!(key_events::get(&t, 6), Some(None));
    assert!(!key_events::push_and_wake(&mut t, 7, &mut w));
    key_events::unregister(&mut t, 6, &mut w);
    assert_eq!(w.take(), None);
}

fn entry(va: u64) -> SurfaceEntry {
    SurfaceEntry {
        user_va: va,
        kdmap_kva: 0x1234,
        width: 100,
        height: 50,
        format: FbFormat { raw: 1, bytes_per_pixel: 4 },
        size_bytes: 20480,
        backing: PhysBacking { pool: Pool::Shared, pa: 0x9000, size: 20480, align: 4096 },
    }
}

#[test]
fn surface_tables_hand_out_ids_and_addresses() {
    let mut s = ProcessSurfaces::new(0x4000);
    assert_eq!((s.alloc_id(), s.alloc_id()), (1, 2));
    assert_eq!((s.alloc_va(0x1000), s.alloc_va(0x1000)), (0x4000, 0x5000));
    s.insert(1, entry(0x4000));
    assert_eq!(s.snapshot(1).unwrap().width, 100);
    assert!(s.snapshot(2).is_none());
    assert_eq!(s.remove(1), Some(entry(0x4000)));
    s.insert(2, entry(0x5000));
    assert_eq!(s.drain_all(), vec![(2, entry(0x5000))]);
    assert!(s.surfaces.is_empty());
    let mut t = SurfaceTable { by_pid: BTreeMap::new() };
    surface::register(&mut t, 5, 0x4000);
    assert_eq!(surface::get(&t, 5).unwrap().next_va_cursor, 0x4000);
    assert!(surface::unregister(&mut t, 5).is_some());
    assert!(surface::get(&t, 5).is_none());
}

#[test]
fn presents_stay_inside_the_surface() {
    let mut o = orbit();
    let mut s = ProcessSurfaces::new(0x4000);
    s.insert(1, entry(0x4000));
    let _ = o.surfaces.by_pid.insert(5, s);
    let r = |x, y, w, h| Rect { x, y, w, h };
    let a = o.handle_fb_present(5, 1, r(10, 10, 90, 40)).unwrap();
    assert_eq!((a.surface.kdmap_kva, a.rect), (0x1234, r(10, 10, 90, 40)));
    assert_eq!(o.handle_fb_present(5, 1, r(10, 10, 91, 40)), Err(neg(EINVAL)));
    assert_eq!(o.handle_fb_present(5, 1, r(u32::MAX, 0, 10, 10)), Err(neg(EINVAL)));
    assert_eq!(o.handle_fb_present(5, 1, r(0, 0, 0, 10)), Err(neg(EINVAL)));
    assert_eq!(o.handle_fb_present(5, 9, r(0, 0, 1, 1)), Err(neg(EBADF)));
    assert_eq!(o.handle_fb_present(6, 1, r(0, 0, 1, 1)), Err(neg(EBADF)));
    assert_eq!((present_result(true), present_result(false)), (0, neg(EAGAIN)));
}

fn backing(pa: u64) -> PhysBacking {
    PhysBacking { pool: Pool::Shared, pa, size: 4096, align: 4096 }
}

#[test]
fn freed_frames_queue_up_per_hart() {
    let mut f = FreeRings::init(2);
    assert_eq!(f.push(1, backing(1)), Ok(()));
    assert_eq!(f.push(0, backing(2)), Ok(()));
    assert_eq!(f.push(1, backing(3)), Ok(()));
    assert_eq!(f.drain(), vec![backing(2), backing(1), backing(3)]);
    assert!(f.drain().is_empty());
    for i in 0..(FREE_RING_CAP as u64 - 1) {
        assert_eq!(f.push(0, backing(i)), Ok(()));
    }
    assert_eq!(f.push(0, backing(99)), Err(backing(99)));
    assert_eq!(f.drain().len(), 63);
}

fn socket(pid: u16, pa: u64) -> SocketReq {
    SocketReq { netchan: SharedUserPtr { pa }, nc_type: 1, pid, bind: 80 }
}

#[test]
fn network_queues_have_seven_places() {
    let mut n = NetPackage::new();
    // Without a device a request goes nowhere.
    assert_eq!(n.request(0, socket(1, 1)), Ok(()));
    n.set_harts(2);
    assert_eq!(n.harts(), 2);
    for i in 0..7u16 {
        assert_eq!(n.request(1, socket(i, 1)), Ok(()));
        assert_eq!(n.associate(Association { pid: i, socket: i as u64 }), Ok(()));
        assert_eq!(n.delete_socket(i as u64), Ok(()));
    }
    assert!(n.request(1, socket(9, 1)).is_err());
    assert!(n.associate(Association { pid: 9, socket: 9 }).is_err());
    assert_eq!(n.delete_socket(9), Err(9));
    assert_eq!(n.take_request(0), None);
    assert_eq!(n.take_request(1), Some(socket(0, 1)));
    assert_eq!(n.take_association(), Some(Association { pid: 0, socket: 0 }));
    assert_eq!(n.take_deletion(), Some(0));
}

#[test]
fn only_streams_are_opened() {
    let mut o = orbit();
    let mut m = Machine::new(2);
    // Without a device there are no requests.
    assert_eq!(m.net.request(0, socket(1, 1)), Ok(()));
    assert!(take_streams(&mut m, &mut o.regions, 0).is_empty());
    m.net.set_harts(2);
    let a = SharedUserPtr::new(&mut o.regions, backing(0x1000), 0x4000, 4096, 5);
    let b = SharedUserPtr::new(&mut o.regions, backing(0x2000), 0x5000, 4096, 5);
    let _ = b.clone_ref(&mut o.regions);
    let c = SharedUserPtr::new(&mut o.regions, backing(0x3000), 0x6000, 4096, 5);
    let stream = SocketReq { nc_type: 0, ..socket(8, c.pa) };
    let _ = m.net.request(1, socket(8, a.pa));
    let _ = m.net.request(1, socket(8, b.pa));
    let _ = m.net.request(0, stream);
    assert_eq!(take_streams(&mut m, &mut o.regions, 1), vec![stream]);
    assert_eq!(m.net.take_request(1), None);
    // The others let go: one region goes back, the other has a holder left.
    assert!(!o.regions.regions.contains_key(&0x1000));
    assert_eq!(o.regions.regions[&0x2000].refs, 1);
    assert_eq!(o.regions.regions[&0x3000].refs, 1);
    assert_eq!(m.frees.drain(), vec![backing(0x1000)]);
}

#[test]
fn sockets_reach_their_process_or_are_deleted() {
    let mut o = orbit();
    let mut n = NetPackage::new();
    let _ = o.processes.insert(5, Process::new(5, 1, satp()));
    let _ = n.associate(Association { pid: 5, socket: 11 });
    let _ = n.associate(Association { pid: 6, socket: 12 });
    o.check_net(&mut n);
    assert!(o.processes[&5].sockets.contains(&11));
    assert_eq!(n.take_deletion(), Some(12));
    assert_eq!(n.take_association(), None);
}

#[test]
fn connections_come_and_go() {
    let mut o = orbit();
    let mut m = Machine::new(2);
    let mut c = NetConns::new();
    let a = SharedUserPtr::new(&mut o.regions, backing(0x1000), 0x4000, 4096, 5);
    let b = SharedUserPtr::new(&mut o.regions, backing(0x2000), 0x5000, 4096, 5);
    let _ = b.clone_ref(&mut o.regions);
    let req = |p: SharedUserPtr| SocketReq { netchan: p, nc_type: 0, pid: 5, bind: 0 };
    assert_eq!(c.opened(&mut m.net, &mut m.q.wakes, 1, req(a), true), Ok(()));
    assert_eq!(m.q.wakes.take(), Some(WakeEvent::Pid(5)));
    assert_eq!(c.open(&mut m.net, 2, req(b)), Ok(()));
    assert_eq!(m.net.take_association(), Some(Association { pid: 5, socket: 1 }));
    let mut g = o.regions.regions[&0x1000];
    g.revoked = true;
    let _ = o.regions.regions.insert(0x1000, g);
    assert_eq!(c.prune_revoked(&mut m, &mut o.regions, 1), vec![1]);
    // The last holder sends the frames back; the other region is still held.
    assert_eq!(m.frees.drain(), vec![backing(0x1000)]);
    let _ = m.net.delete_socket(2);
    let _ = m.net.delete_socket(7);
    assert_eq!(c.drain_deletions(&mut m, &mut o.regions, 0), vec![2, 7]);
    assert!(c.conns.is_empty());
    assert_eq!(o.regions.regions[&0x2000].refs, 1);
    assert!(m.frees.drain().is_empty());
}

#[test]
fn network_turns() {
    let mut w = WakeQueue::new();
    let idle = SocketUpdate { recv_before: 0, recv_after: 0, send_after: 0, wake_user: false };
    assert!(!note_update(&mut w, 5, idle));
    assert!(note_update(&mut w, 5, SocketUpdate { send_after: 3, ..idle }));
    assert!(note_update(&mut w, 5, SocketUpdate { recv_before: 1, ..idle }));
    assert_eq!(w.take(), None);
    assert!(note_update(&mut w, 5, SocketUpdate { wake_user: true, ..idle }));
    assert_eq!(w.take(), Some(WakeEvent::Pid(5)));
    assert_eq!(net_deadline(100, None), 100 + NET_HEARTBEAT);
    assert_eq!(net_deadline(100, Some(30)), 300);
    assert_eq!(net_deadline(100, Some(10_000_000)), 100 + NET_HEARTBEAT);
}

#[test]
fn network_turn_from_poll_to_park() {
    let mut o = orbit();
    let mut m = Machine::new(2);
    m.net.set_harts(2);
    let mut c = NetConns::new();
    let a = SharedUserPtr::new(&mut o.regions, backing(0x1000), 0x4000, 4096, 5);
    let b = SharedUserPtr::new(&mut o.regions, backing(0x2000), 0x5000, 4096, 6);
    let d = SharedUserPtr::new(&mut o.regions, backing(0x3000), 0x6000, 4096, 7);
    let _ = d.clone_ref(&mut o.regions);
    let _ = d.clone_ref(&mut o.regions);
    let req = |p: SharedUserPtr, pid: u16| SocketReq { netchan: p, nc_type: 0, pid, bind: 0 };
    assert_eq!(c.open(&mut m.net, 1, req(a, 5)), Ok(()));
    assert_eq!(c.open(&mut m.net, 2, req(b, 6)), Ok(()));
    assert_eq!(c.open(&mut m.net, 3, req(d, 7)), Ok(()));
    assert_eq!(c.open(&mut m.net, 4, SocketReq { nc_type: 1, ..req(d, 7) }), Ok(()));
    let _ = m.net.delete_socket(3);
    let _ = m.net.request(1, req(d, 7));
    let idle = SocketUpdate { recv_before: 0, recv_after: 0, send_after: 0, wake_user: false };

    let mut t = NetTurn::begin(100);
    let go = NetEvent::Polled { progress: true, now: 110 };
    assert_eq!(t.step(&mut c, &mut m, &mut o.regions, 1, go), NetAction::Poll);
    let still = NetEvent::Polled { progress: false, now: 120 };
    assert_eq!(t.step(&mut c, &mut m, &mut o.regions, 1, still), NetAction::Close(vec![3]));
    let closed = NetEvent::Closed;
    let first = t.step(&mut c, &mut m, &mut o.regions, 1, closed);
    assert_eq!(first, NetAction::Update { socket: 1 });
    // The channel of socket 2 goes while socket 1 is updated.
    let mut g = o.regions.regions[&0x2000];
    g.revoked = true;
    let _ = o.regions.regions.insert(0x2000, g);
    let news = NetEvent::Updated(SocketUpdate { wake_user: true, ..idle });
    assert_eq!(t.step(&mut c, &mut m, &mut o.regions, 1, news), NetAction::Close(vec![2]));
    assert_eq!(m.frees.drain(), vec![backing(0x2000)]);
    assert_eq!(m.q.wakes.take(), Some(WakeEvent::Pid(5)));
    // The update left something to send: at most eight more polls.
    assert_eq!(t.step(&mut c, &mut m, &mut o.regions, 1, closed), NetAction::Poll);
    for _ in 0..7 {
        assert_eq!(t.step(&mut c, &mut m, &mut o.regions, 1, go), NetAction::Poll);
    }
    assert_eq!(t.step(&mut c, &mut m, &mut o.regions, 1, go), NetAction::AskDeadline);
    let at = NetEvent::Deadline(Some(30));
    let open = t.step(&mut c, &mut m, &mut o.regions, 1, at);
    assert_eq!(open, NetAction::Open { req: req(d, 7) });
    let opened = NetEvent::Opened { socket: 9, wake_user: false };
    let park = t.step(&mut c, &mut m, &mut o.regions, 1, opened);
    assert_eq!(park, NetAction::Park { until: 300 });
    assert_eq!(m.q.wakes.take(), None);
    assert_eq!(c.conns.keys().copied().collect::<Vec<u64>>(), vec![1, 4, 9]);
    assert_eq!(o.regions.regions[&0x3000].refs, 2);
    assert_eq!(m.net.take_association(), Some(Association { pid: 5, socket: 1 }));

    // Nothing in flight: no second round.
    let mut t = NetTurn::begin(100);
    assert_eq!(t.step(&mut c, &mut m, &mut o.regions, 1, still), NetAction::Close(vec![]));
    let _ = t.step(&mut c, &mut m, &mut o.regions, 1, closed);
    let quiet = NetEvent::Updated(idle);
    let next = t.step(&mut c, &mut m, &mut o.regions, 1, quiet);
    assert_eq!(next, NetAction::Update { socket: 9 });
    assert_eq!(t.step(&mut c, &mut m, &mut o.regions, 1, quiet), NetAction::Close(vec![]));
    assert_eq!(t.step(&mut c, &mut m, &mut o.regions, 1, closed), NetAction::AskDeadline);
    let park = t.step(&mut c, &mut m, &mut o.regions, 1, NetEvent::Deadline(None));
    assert_eq!(park, NetAction::Park { until: 100 + NET_HEARTBEAT });
}

#[test]
fn dhcp_sets_and_clears_the_address() {
    let none = NetConfig { address: None, gateway: None };
    let address = Cidr { address: 0x0a00_020f, prefix: 24 };
    let c = handle_dhcp_event(none, DhcpEvent::Configured { address, router: Some(0x0a00_0202) });
    assert_eq!(c, NetConfig { address: Some(address), gateway: Some(0x0a00_0202) });
    let d = handle_dhcp_event(c, DhcpEvent::Configured { address, router: None });
    assert_eq!(d.gateway, None);
    assert_eq!(handle_dhcp_event(c, DhcpEvent::Deconfigured), none);
}

#[test]
fn refused_calls_are_logged_and_counted() {
    let mut o = orbit();
    let mut d = DenialQueue::new();
    let _ = o.processes.insert(5, Process::new(5, 1, satp()));
    let t = thread(50, 5, ThreadState::Running);
    assert!(perm_gate_check(&mut d, &t, 7, true, 4, 99));
    assert!(!perm_gate_check(&mut d, &t, 7, false, 4, 99));
    o.drain_denial_events(&mut d);
    let ev = DenialEvent::PermDeny {
        required_class: 4,
        perms: 0xff,
        time_ticks: 99,
        tid: 50,
        sysno: 7,
        source_role: 1,
        pid: 5,
    };
    assert_eq!(o.denial_ring_snapshot(10), vec![ev]);
    assert_eq!(o.processes[&5].perm_denials, 1);
    assert_eq!(d.take(), None);
}

fn role_event(n: u64) -> DenialEvent {
    DenialEvent::RoleDeny {
        time_ticks: n,
        tid: 0,
        source_role: 1,
        target_role: 2,
        deny_reason: 3,
        pid: 5,
    }
}

#[test]
fn the_audit_log_keeps_the_newest_fifty() {
    let mut o = orbit();
    for n in 0..60 {
        o.push_denial_event(role_event(n));
    }
    assert_eq!(o.denial_ring.len(), 50);
    assert_eq!(o.denial_ring[0], role_event(10));
    assert_eq!(o.denial_ring[49], role_event(59));
    assert_eq!(o.denial_ring_snapshot(2), vec![role_event(10), role_event(11)]);
    let mut d = DenialQueue::new();
    let mut space = UserSpace::new();
    assert!(space.map_page(0x1000, 0x8000_0000, vec![0u8; 4096]));
    let (n, copy) = o.run_query_denials(&mut d, 0x1040, 150, &space);
    let copy = copy.unwrap();
    assert_eq!((n, copy.page_pa, copy.off), (128, 0x8000_0000, 0x40));
    assert_eq!(copy.events, vec![role_event(10), role_event(11)]);
    assert_eq!(o.run_query_denials(&mut d, 0x9000, 150, &space).0, neg(EFAULT));
    assert_eq!(o.run_query_denials(&mut d, 0x1000, 10, &space).0, 0);
    let (n, events) = o.handle_query_denial_log(&mut d, Some(0x1000), 64, true);
    assert_eq!((n, events.len()), (64, 1));
    assert_eq!(o.handle_query_denial_log(&mut d, None, 64, true).0, neg(EFAULT));
    assert_eq!(o.handle_query_denial_log(&mut d, Some(0x1000), 10, true).0, neg(EINVAL));
    assert_eq!(o.handle_query_denial_log(&mut d, Some(0x1000), 64, false).0, neg(EFAULT));
}

#[test]
fn wall_time_goes_to_the_bucket_that_was_left() {
    let mut o = orbit();
    let _ = o.threads.insert(4, thread(4, 5, ThreadState::Running));
    let none = HartTicks { user: 0, kernel: 0, scheduler: 0, idle: 0 };
    let mut c =
        HartClock { ticks: none, current_bucket: HartBucket::Idle, bucket_enter_tick: 0 };
    init_hart_bucket(&mut c, HartBucket::Kernel, 1000);
    assert_eq!((c.current_bucket, c.bucket_enter_tick, c.ticks), (HartBucket::Kernel, 1000, none));
    o.switch_bucket(&mut c, None, HartBucket::Scheduler, 1010);
    o.switch_bucket(&mut c, None, HartBucket::User, 1013);
    o.switch_bucket(&mut c, Some(4), HartBucket::Kernel, 1113);
    o.switch_bucket(&mut c, Some(4), HartBucket::Idle, 1114);
    o.switch_bucket(&mut c, None, HartBucket::Kernel, 1164);
    assert_eq!(c.ticks, HartTicks { user: 100, kernel: 11, scheduler: 3, idle: 50 });
    assert_eq!(100 + 11 + 3 + 50, c.bucket_enter_tick - 1000);
    assert_eq!(o.threads[&4].cpu_ticks_total, 100);
}

#[test]
fn calls_are_recorded_with_their_thread() {
    let mut o = orbit();
    let _ = o.threads.insert(4, thread(4, 5, ThreadState::Running));
    let none = SyscallEntry { count: 0, total_ticks: 0, max_ticks: 0 };
    let mut stats = vec![none, none];
    o.record_syscall(&mut stats, Some(1), 4, 100, 107);
    o.record_syscall(&mut stats, Some(1), 4, 200, 203);
    o.record_syscall(&mut stats, None, 4, 300, 301);
    assert_eq!(stats, vec![none, SyscallEntry { count: 2, total_ticks: 10, max_ticks: 7 }]);
    assert_eq!((o.threads[&4].syscall_count, o.threads[&4].syscall_ticks), (3, 11));
    assert_eq!(o.threads[&4].cpu_ticks_total, 0);
}

#[test]
fn statistics_add_up() {
    assert_eq!(wrapping_total(&vec![u64::MAX, 3]), 2);
    let h = |n| HartTicks { user: n, kernel: 2 * n, scheduler: 0, idle: 1 };
    assert_eq!(
        sum_hart_counter(&vec![h(1), h(10)]),
        HartTicks { user: 11, kernel: 22, scheduler: 0, idle: 2 }
    );
    let mut o = orbit();
    let q = Queues::new();
    let mut p = Process::new(5, 1, satp());
    for tid in [50u32, 51] {
        let mut t = thread(tid, 5, ThreadState::Ready);
        t.cpu_ticks_total = 100;
        t.syscall_count = 3;
        let _ = o.threads.insert(tid, t);
        let _ = p.threads.insert(tid);
    }
    p.thread_count = 2;
    p.heap_pages.push(backing(0x1000));
    let map = |vaddr, backing| UserMapping {
        vaddr,
        len: 8192,
        perms: 0,
        backing,
        kind: MappingKind::Anon,
    };
    let _ = p.maps.insert(0x1000, map(0x1000, Some(backing(0x2000))));
    let _ = p.maps.insert(0x9000, map(0x9000, None));
    let _ = o.processes.insert(5, p);
    let sys = SystemCounts {
        kpages_bytes: 1,
        user_pages_bytes: 2,
        ktables_bytes: 3,
        heap_bytes: 4,
        harts: h(1),
    };
    let s = o.snapshot_process_stats(5, sys, &q.wakes).unwrap();
    assert_eq!((s.size, s.pid, s.thread_count), (200, 5, 2));
    assert_eq!((s.cpu_ticks, s.syscalls), (200, 6));
    assert_eq!((s.resident_bytes, s.heap_bytes), (8192, 4096));
    assert_eq!((s.system, s.wake_queue_capacity), (sys, WAKE_QUEUE_CAPACITY));
    assert!(o.snapshot_process_stats(6, sys, &q.wakes).is_none());
    let mut space = UserSpace::new();
    assert!(space.map_page(0x1000, 0x8000_0000, vec![0u8; 4096]));
    let (n, copy) = o.run_query_stats(5, 0x1100, 500, &space, sys, &q.wakes);
    let copy = copy.unwrap();
    assert_eq!((n, copy.len, copy.off), (200, 200, 0x100));
    let short = o.run_query_stats(5, 0x1100, 16, &space, sys, &q.wakes);
    assert_eq!(short.0, 16);
    assert_eq!(o.run_query_stats(6, 0x1100, 500, &space, sys, &q.wakes).0, neg(ESRCH));
    assert_eq!(o.run_query_stats(5, 0x9000, 500, &space, sys, &q.wakes).0, neg(EFAULT));
    assert_eq!(o.runnable_thread_count(), 2);
    let r = o.handle_query_stats(5, Some(0x1000), 500, 16, true, sys, &q.wakes);
    assert_eq!(r.unwrap().0, 200);
    assert_eq!(o.handle_query_stats(5, None, 500, 16, true, sys, &q.wakes), Err(neg(EFAULT)));
    assert_eq!(o.handle_query_stats(5, Some(0x1000), 8, 16, true, sys, &q.wakes), Err(neg(EINVAL)));
}

#[test]
fn plain_calls() {
    assert_eq!(handle_get_hart_id(3), 3);
    assert_eq!(handle_get_micros(1239), 123);
    assert_eq!(handle_get_realtime(3_000_000_007), (3, 7));
    let mut t = thread(50, 5, ThreadState::Running);
    t.creds = Creds { uid: 1, euid: 2, suid: 3, gid: 4, egid: 5, sgid: 6 };
    assert_eq!((handle_getpid(&t), handle_gettid(&t)), (5, 50));
    assert_eq!((handle_getuid(&t), handle_geteuid(&t), handle_getgid(&t), handle_getegid(&t)), (1, 2, 4, 5));
    let mut w = WakeQueue::new();
    assert_eq!(handle_nc_yield(&mut w, 0), None);
    assert_eq!(handle_nc_yield(&mut w, 20), Some(20));
    assert_eq!(w.take(), Some(WakeEvent::Net));
}

#[test]
fn call_statistics_are_cut_to_whole_entries() {
    let e = |n| SyscallEntry { count: n, total_ticks: 10 * n, max_ticks: n };
    let slots = vec![e(1), e(2), e(3)];
    let l = StatsLayout { header: 8, entry: 24, min_len: 8 };
    let end = 0x80_0000_0000;
    let all = handle_query_syscall_stats(&slots, l, end, Some(0x1000), 4096, true).ok().unwrap();
    assert_eq!((all.size, all.entries.len()), (80, 3));
    let some = handle_query_syscall_stats(&slots, l, end, Some(0x1000), 60, true).ok().unwrap();
    assert_eq!((some.size, some.entries), (56, vec![e(1), e(2)]));
    let err = |va, len, mapped| handle_query_syscall_stats(&slots, l, end, va, len, mapped).err();
    assert_eq!(err(None, 60, true), Some(neg(EFAULT)));
    assert_eq!(err(Some(0x1000), 7, true), Some(neg(EINVAL)));
    assert_eq!(err(Some(end), 60, true), Some(neg(EFAULT)));
    assert_eq!(err(Some(0x1000), 60, false), Some(neg(EFAULT)));
}

#[test]
fn the_framebuffer_is_described_once_it_is_up() {
    let end = 0x80_0000_0000;
    let ok = handle_fb_query(Some(0x1000), 16, end, true, Some((640, 480)), 1);
    assert_eq!(ok, Ok(FbInfo { width: 640, height: 480, format: 1, flags: 0 }));
    assert_eq!(handle_fb_query(Some(0x1000), 16, end, true, None, 1), Err(neg(EAGAIN)));
    assert_eq!(handle_fb_query(None, 16, end, true, None, 1), Err(neg(EFAULT)));
    assert_eq!(handle_fb_query(Some(0x1ff8), 16, end, true, None, 1), Err(neg(EINVAL)));
    assert_eq!(handle_fb_query(Some(0x1000), 16, end, false, None, 1), Err(neg(EFAULT)));
}

#[test]
fn lines_are_cut_and_go_to_one_uart_writer() {
    let mut l = LineBuf::new();
    l.write_bytes(&[b'x'; 500]);
    l.write_bytes(&[b'y'; 500]);
    assert_eq!(l.as_slice().len(), 512);
    assert_eq!(&l.as_slice()[498..502], b"xxyy");
    let s = emit(&l, false, true);
    assert_eq!(s, Sinks { serial_ring: false, uart: true, console_ring: true });
    let s = emit(&l, true, false);
    assert_eq!(s, Sinks { serial_ring: true, uart: false, console_ring: false });
    let mut bad = LineBuf::new();
    bad.write_bytes(&[0xff]);
    assert!(!emit(&bad, false, false).uart);
    let sub = OrbitSubscriber::new(TraceLevel::Info);
    assert!(sub.enabled(TraceLevel::Error) && sub.enabled(TraceLevel::Info));
    assert!(!sub.enabled(TraceLevel::Debug));
    assert!(OrbitLogger.enabled(TraceLevel::Trace));
}

#[test]
fn serial_text_is_cut_into_chunks() {
    let mut w = SerialWriter::new(4);
    let mut out = Vec::new();
    w.write_bytes(b"hello wor", &mut out);
    w.write_bytes(b"ld", &mut out);
    w.flush(&mut out);
    w.flush(&mut out);
    assert_eq!(out, vec![b"hell".to_vec(), b"o wo".to_vec(), b"rld".to_vec()]);
    assert_eq!(out.concat(), b"hello world".to_vec());
    assert!(out.iter().all(|c| !c.is_empty() && c.len() <= 4));
    assert_eq!(out.len(), 3);
    // Nothing written, nothing handed over; a full chunk goes with the flush.
    let mut w = SerialWriter::new(4);
    let mut out = Vec::new();
    w.write_bytes(b"", &mut out);
    w.flush(&mut out);
    assert!(out.is_empty());
    w.write_bytes(b"four", &mut out);
    assert!(out.is_empty());
    w.flush(&mut out);
    assert_eq!(out, vec![b"four".to_vec()]);
}
