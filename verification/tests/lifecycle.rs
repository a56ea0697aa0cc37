//! Processes: programs, threads, memory, spawning and ending.

use kmain::abi::{
    PagePerms, EACCES, EFAULT, EINVAL, EIO, EMFILE, ENOENT, ENOEXEC, ENOMEM, EPERM, ERANGE, ESRCH,
};
use kmain::argv::{check_blob, make_page, BlobKind, BlobLayout};
use kmain::faults::{stack_slot, FaultLabel};
use kmain::fsread::FillCopy;
use kmain::handle::{Handle, ProcessHandles, Slot};
use kmain::make::{
    kernel_stack_frames, trap_frame_frames, BuildStage, BuildWant, KernelStack, ProcessComponents, ThreadPlacement, ThreadStart,
    KERNEL_STACK,
};
use kmain::memops::{layout_fits, mmap_frames, FrameGrant, MappingGeometry, MappingPlan};
use kmain::orbit::{AbiLayout, Effect, Orbit};
use kmain::orbital_elf::{ElfInfo, ElfLoad, SegmentPlan, TlsTemplate};
use kmain::page_cache::{CacheKey, SharedFrame};
use kmain::process::{
    pack_rets, shared_frames as shared_want, Creds, FaultInfo, FrameWant, MappingKind, Permissions,
    PhysBacking, Pool, Process, SatpValue, Thread, ThreadSlots, ThreadState, TrapFrame, UserMapping,
};
use kmain::reap::KILLED;
use kmain::rings::WakeEvent;
use kmain::shared_user_ptr::{
    Leaf, RevokeError, SharedRegions, SharedUserPtr, UserLeaves, SHARED_REVOCABLE,
};
use kmain::spawn::{
    spawn_result, RoleVerdict, SpawnArgs, SpawnNext, SpawnSource, SpawnStep, INHERIT_ID,
};
use kmain::surface::FbFormat;
use kmain::tar::Tarfs;
use kmain::uspace::UserSpace;
use kmain::work::{
    CloseHandleReq, CreateProcessExReq, CreateProcessReq, CreateProcessV2Req, DenialEvent,
    EventFdCreateReq, FbSurfaceCreateReq, FbSurfaceDestroyReq, MemMapReq, NetChannelCreationReq,
};
use kmain::world::Machine;
use std::collections::BTreeMap;

fn perms() -> Permissions {
    Permissions { role: 1, perms: 0xff, allowed_perms: 0xff }
}

fn abi() -> AbiLayout {
    AbiLayout {
        user_end: 0x80_0000_0000,
        text_base: 0x1_0000,
        shared_base: 0x40_0000_0000,
        shared_end: 0x50_0000_0000,
        stack_default: 0x1_0000,
        stack_grain: 4096,
        stack_base: 0x20_0000_0000,
        stack_stride: 0x10_0000,
        tls_max: 4096,
        argv_base: 0x60_0000_0000,
        envp_base: 0x60_0000_1000,
        blob: BlobLayout { header: 8, offsets: 8 },
        max_path: 256,
        ngroups_max: 16,
        loader_role: 7,
        default_perms: perms(),
        page: PagePerms { r: 2, w: 4, x: 8, u: 16 },
        stat_size: 128,
        ch_info_size: 40,
        stats_size: 200,
        denial_event_size: 64,
        eventfd_size: 4096,
        efd_cloexec: 1,
        efd_nonblock: 2,
    }
}

fn satp() -> SatpValue {
    SatpValue { ppn: 0x80_000, asid: 0 }
}

fn thread(tid: u32, pid: u16, state: ThreadState) -> Thread {
    Thread {
        tid,
        pid,
        pc: 0,
        supervisor: false,
        satp: satp(),
        frame: TrapFrame { ra: 0, sp: 0, tp: 0, a0: 0, a1: 0, a2: 0, a3: 0, asid: 0 },
        kernel_stack: None,
        kernel_trap_frame: None,
        state,
        ticks: 0,
        wake_time: 0,
        wake_override: 0,
        last_wake_reason: 0,
        sleep_seq: 0,
        pending: None,
        slot: None,
        fault_info: None,
        allowed_affinity: 1,
        affinity: 1,
        cpu_ticks_total: 0,
        context_switches: 0,
        syscall_count: 0,
        syscall_ticks: 0,
        permissions: perms(),
        creds: Creds { uid: 0, euid: 0, suid: 0, gid: 0, egid: 0, sgid: 0 },
        stdout_redirect: None,
    }
}

fn neg(e: i32) -> i64 {
    -(e as i64)
}

fn orbit() -> Orbit {
    Orbit::new(2, satp(), abi())
}

fn put(b: &mut [u8], off: usize, s: &[u8]) {
    for (i, c) in s.iter().enumerate() {
        b[off + i] = *c;
    }
}

struct Ph {
    ty: u32,
    flags: u32,
    off: u64,
    va: u64,
    filesz: u64,
    memsz: u64,
}

fn elf(entry: u64, phs: &[Ph], len: usize) -> Vec<u8> {
    let mut b = vec![0u8; len];
    put(&mut b, 0, &[0x7f, b'E', b'L', b'F', 2, 1, 1]);
    put(&mut b, 16, &2u16.to_le_bytes());
    put(&mut b, 18, &243u16.to_le_bytes());
    put(&mut b, 20, &1u32.to_le_bytes());
    put(&mut b, 24, &entry.to_le_bytes());
    put(&mut b, 32, &64u64.to_le_bytes());
    put(&mut b, 52, &64u16.to_le_bytes());
    put(&mut b, 54, &56u16.to_le_bytes());
    put(&mut b, 56, &(phs.len() as u16).to_le_bytes());
    put(&mut b, 58, &64u16.to_le_bytes());
    for (i, p) in phs.iter().enumerate() {
        let at = 64 + 56 * i;
        put(&mut b, at, &p.ty.to_le_bytes());
        put(&mut b, at + 4, &p.flags.to_le_bytes());
        put(&mut b, at + 8, &p.off.to_le_bytes());
        put(&mut b, at + 16, &p.va.to_le_bytes());
        put(&mut b, at + 24, &p.va.to_le_bytes());
        put(&mut b, at + 32, &p.filesz.to_le_bytes());
        put(&mut b, at + 40, &p.memsz.to_le_bytes());
        put(&mut b, at + 48, &16u64.to_le_bytes());
    }
    b
}

fn program() -> Vec<u8> {
    let mut b = elf(
        0x1_0040,
        &[
            Ph { ty: 6, flags: 4, off: 64, va: 0, filesz: 56, memsz: 56 },
            Ph { ty: 1, flags: 5, off: 0x200, va: 0x1_0010, filesz: 0x80, memsz: 0x80 },
            Ph { ty: 1, flags: 6, off: 0x280, va: 0x2_0000, filesz: 0x10, memsz: 0x1800 },
            Ph { ty: 7, flags: 4, off: 0x280, va: 0x2_0000, filesz: 4, memsz: 16 },
        ],
        0x300,
    );
    put(&mut b, 0x280, b"tls!");
    b
}

fn user_frames(pa: u64, size: u64) -> PhysBacking {
    PhysBacking { pool: Pool::User, pa, size, align: 4096 }
}

fn shared_frames(pa: u64, size: u64) -> PhysBacking {
    PhysBacking { pool: Pool::Shared, pa, size, align: 4096 }
}

#[test]
fn programs_are_loaded_segment_by_segment() {
    let blob = program();
    let page = abi().page;
    let mut load = ElfLoad::parse(&blob).unwrap();
    assert_eq!((load.entry, load.headers.len()), (0x1_0040, 4));
    let a = load.next_segment(blob.len(), 0x1_0000, page).unwrap().unwrap();
    assert_eq!(
        a,
        SegmentPlan {
            size: 0x80,
            file_off: 0x200,
            file_len: 0x80,
            zero_tail: false,
            va: 0x1_0000,
            map_len: 4096,
            perms: 2 | 8 | 16,
        }
    );
    assert_eq!(a.frames(), FrameWant { pool: Pool::User, size: 0x80, align: 4096 });
    assert_eq!(
        a.mapping(),
        MappingPlan {
            va: 0x1_0000,
            len: 4096,
            page_size: 4096,
            levels: 4,
            perms: 2 | 8 | 16,
            revocable: false,
        }
    );
    load.take_frames(0xA000, a);
    let b = load.next_segment(blob.len(), 0x1_0000, page).unwrap().unwrap();
    assert_eq!((b.size, b.zero_tail, b.map_len, b.perms), (0x1800, true, 8192, 2 | 4 | 16));
    load.take_frames(0xB000, b);
    assert_eq!(load.next_segment(blob.len(), 0x1_0000, page), Ok(None));
    let info = load.finish(&blob, 4096).ok().unwrap();
    assert_eq!(info.entrypoint, 0x1_0040);
    assert_eq!(info.segments, vec![user_frames(0xA000, 0x80), user_frames(0xB000, 0x1800)]);
    let tls = info.tls.unwrap();
    assert_eq!((tls.template, tls.memsz, tls.align), (b"tls!".to_vec(), 16, 16));
}

#[test]
fn broken_programs_give_their_frames_back() {
    assert!(ElfLoad::parse(b"not an image").is_none());
    // A segment below the text base.
    let blob = program();
    let mut load = ElfLoad::parse(&blob).unwrap();
    assert_eq!(load.next_segment(blob.len(), 0x10_0000, abi().page), Err(()));
    // Bytes that the file does not have.
    let short = elf(
        1,
        &[Ph { ty: 1, flags: 5, off: 0x200, va: 0x1_0000, filesz: 0x1000, memsz: 0x1000 }],
        0x300,
    );
    let mut load = ElfLoad::parse(&short).unwrap();
    assert_eq!(load.next_segment(short.len(), 0x1_0000, abi().page), Err(()));
    // Thread storage that is larger than its reservation.
    let mut load = ElfLoad::parse(&blob).unwrap();
    let a = load.next_segment(blob.len(), 0x1_0000, abi().page).unwrap().unwrap();
    load.take_frames(0xA000, a);
    let freed = load.finish(&blob, 8).err().unwrap();
    assert_eq!(freed, vec![Effect::Free(user_frames(0xA000, 0x80))]);
    let mut load = ElfLoad::parse(&blob).unwrap();
    load.take_frames(0xC000, a);
    assert_eq!(load.abandon(), vec![Effect::Free(user_frames(0xC000, 0x80))]);
}

fn blob_of(offsets: &[u64], text: &[u8]) -> Vec<u8> {
    let mut b = (offsets.len() as u32).to_le_bytes().to_vec();
    b.extend([0u8; 4]);
    for o in offsets {
        b.extend(o.to_le_bytes());
    }
    b.extend(text);
    b
}

#[test]
fn argument_pages_hold_addresses() {
    let l = abi().blob;
    let blob = blob_of(&[24, 27], b"ls\0-l\0");
    assert!(check_blob(&blob, l));
    let page = make_page(&blob, l, 0x6000).unwrap();
    assert_eq!(page.len(), 4096);
    assert_eq!(&page[0..8], &blob[0..8]);
    assert_eq!(&page[8..16], &0x6018u64.to_le_bytes());
    assert_eq!(&page[16..24], &0x601bu64.to_le_bytes());
    assert_eq!(&page[24..30], b"ls\0-l\0");
    assert!(page[30..].iter().all(|c| *c == 0));
    assert!(make_page(&blob_of(&[24, 999], b"ls\0"), l, 0x6000).is_none());
    assert!(!check_blob(&[0u8; 3], l));
    assert!(!check_blob(&vec![0u8; 5000], l));
    assert!(!check_blob(&blob_of(&[], b"")[..].iter().map(|_| 0xff).collect::<Vec<u8>>(), l));
}

#[test]
fn argument_pages_are_installed_or_returned() {
    let mut o = orbit();
    let mut m = Machine::new(2);
    let _ = o.processes.insert(5, Process::new(5, 1, satp()));
    let blob = blob_of(&[16], b"sh\0");
    assert_eq!(o.handle_argv_envp(5), (0, 0));
    assert_eq!(o.install_blob(&mut m, 5, BlobKind::Argv, &blob, Some(0x9000), true), Ok(()));
    assert!(o.process_has_argv(5));
    assert!(!o.process_has_envp(5));
    assert_eq!(o.handle_argv_envp(5), (0x60_0000_0000, 0));
    assert_eq!(o.processes[&5].argv_blob, Some(shared_frames(0x9000, 4096)));
    assert_eq!(
        m.effects,
        vec![Effect::Fence { asid: 5, va: 0x60_0000_0000 }, Effect::Broadcast]
    );
    m.effects.clear();
    assert_eq!(o.install_blob(&mut m, 5, BlobKind::Envp, &blob, Some(0xA000), false), Err(()));
    assert_eq!(m.effects, vec![Effect::Free(shared_frames(0xA000, 4096))]);
    m.effects.clear();
    assert_eq!(o.install_blob(&mut m, 5, BlobKind::Envp, &blob, None, false), Err(()));
    assert_eq!(o.install_blob(&mut m, 9, BlobKind::Envp, &blob, Some(0xA000), true), Err(()));
    assert!(m.effects.is_empty());
}

fn place() -> ThreadPlacement {
    ThreadPlacement {
        stack_va: 0x70_0000_1000,
        guard_va: 0x70_0000_0000,
        guard_size: 4096,
        frame_va: 0x71_0000_0000,
        tls_va: 0x72_0000_0000,
    }
}

fn info(tls: bool) -> ElfInfo {
    ElfInfo {
        entrypoint: 0x1_0040,
        segments: vec![user_frames(0xA000, 0x80)],
        tls: if tls {
            Some(TlsTemplate { template: b"tls!".to_vec(), memsz: 16, align: 16 })
        } else {
            None
        },
    }
}

fn components(parent_pid: u16) -> ProcessComponents {
    ProcessComponents { parent_pid, permissions: None, cwd: None, stdout_redirect: None }
}

#[test]
fn threads_are_built_step_by_step() {
    let mut o = orbit();
    let mut m = Machine::new(2);
    let pid = o.create_new_process(components(1), 0x123, info(true));
    assert_eq!(pid, 1);
    // The first slot is taken for the first thread.
    let slot = 0;
    assert_eq!(o.take_slot(pid), Some(1));
    assert!(o.begin_thread(pid, slot, 0x1_0000, false, place()).is_err());
    let mut b = o.begin_thread(pid, slot, 0x1_0000, true, place()).unwrap();
    let page = abi().page;
    assert_eq!(
        b.wanted(page),
        BuildWant::Frames { pool: Pool::User, size: 0x1_0000, align: 4096 }
    );
    b.answer(&mut m, Some(0x10_0000));
    assert_eq!(
        b.wanted(page),
        BuildWant::Frames { pool: Pool::Shared, size: 4096, align: 4096 }
    );
    b.answer(&mut m, Some(0x20_0000));
    assert_eq!(
        b.wanted(page),
        BuildWant::Mapping {
            va: 0x70_0000_1000,
            pa: 0x10_0000,
            len: 0x1_0000,
            page_size: 4096,
            levels: 3,
            perms: 2 | 4 | 16,
        }
    );
    b.answer(&mut m, Some(0));
    assert_eq!(b.stage, BuildStage::MapTrapFrame);
    b.answer(&mut m, Some(0));
    assert_eq!(b.stage, BuildStage::Tls);
    b.answer(&mut m, Some(0x30_0000));
    b.answer(&mut m, Some(0));
    assert_eq!((b.stage, b.wanted(page)), (BuildStage::Ready, BuildWant::Nothing));
    assert_eq!(o.tls_image(pid), b"tls!".to_vec());
    assert!(m.effects.is_empty());
    let s = ThreadStart {
        entry: 0x1_0040,
        arg: 77,
        allowed_affinity: 3,
        affinity: 1,
        root_ppn: 0x123,
    };
    let t = o.create_new_thread(pid, b, s);
    assert_eq!((t.tid, t.pid, t.pc, t.slot), (1, 1, 0x1_0040, Some(0)));
    assert_eq!((t.frame.sp, t.frame.tp), (0x70_0001_0ff0, 0x72_0000_0000));
    assert_eq!((t.frame.a0, t.satp), (77, SatpValue { ppn: 0x123, asid: 1 }));
    assert_eq!(t.permissions, o.processes[&1].permissions);
    assert_eq!(o.processes[&1].maps.len(), 4);
    assert_eq!(o.processes[&1].maps[&0x70_0000_0000].kind, MappingKind::Guard { slot: 0 });
    o.publish_process(&mut m, t);
    assert_eq!(o.processes[&1].thread_count, 1);
    assert_eq!(o.get_runnable_thread(1), Some(1));
    assert_eq!(m.effects, vec![Effect::InsertSource(1)]);
    assert_eq!(o.process_handles[&1].len(), 3);
}

#[test]
fn a_refused_build_frees_what_it_holds() {
    let mut o = orbit();
    let mut m = Machine::new(2);
    let pid = o.create_new_process(components(1), 0x123, info(true));
    let mut b = o.begin_thread(pid, 0, 0x1_0000, true, place()).unwrap();
    for pa in [0x10_0000, 0x20_0000, 0, 0, 0x30_0000] {
        b.answer(&mut m, Some(pa));
    }
    b.answer(&mut m, None);
    assert_eq!(b.stage, BuildStage::Failed);
    assert_eq!(
        m.effects,
        vec![
            Effect::Free(user_frames(0x30_0000, 4096)),
            Effect::Free(user_frames(0x10_0000, 0x1_0000)),
            Effect::Free(shared_frames(0x20_0000, 4096)),
        ]
    );
    let slot = o.take_slot(pid).unwrap();
    o.return_slot(pid, slot);
    assert_eq!(o.take_slot(pid), Some(slot));
    m.effects.clear();
    o.abandon_process(&mut m, pid, 0);
    assert!(!o.processes.contains_key(&pid));
    assert!(!o.process_handles.contains_key(&pid));
    assert!(m.effects.contains(&Effect::Free(user_frames(0xA000, 0x80))));
    assert!(m.effects.contains(&Effect::FreeRoot { pa: 0x12_3000 }));
}

#[test]
fn kernel_threads_are_made_whole_or_not_at_all() {
    let mut o = orbit();
    let mut m = Machine::new(2);
    let stack = KernelStack { pa: 0x4000_0000, kva: 0xFFFF_FFD0_0000_0000 };
    let tid = o
        .create_kernel_thread(&mut m, 0xFFFF_FFC0_0000_1000, Some(9), Some(stack), Some(0x5000))
        .unwrap();
    let t = o.threads[&tid];
    assert!(t.supervisor);
    assert_eq!((t.pid, t.frame.a0), (0, 9));
    assert_eq!(t.frame.sp, 0xFFFF_FFD0_0000_0000 + KERNEL_STACK);
    assert_eq!(t.kernel_stack, Some(kernel_stack_frames().granted(0x4000_0000)));
    assert_eq!(t.kernel_trap_frame, Some(trap_frame_frames().granted(0x5000)));
    assert_eq!((t.affinity, t.allowed_affinity), (0b11, 0b11));
    assert!(m.effects.is_empty());
    assert_eq!(o.create_kernel_thread(&mut m, 0, None, Some(stack), None), Err(()));
    let back = PhysBacking {
        pool: Pool::Shared,
        pa: 0x4000_0000,
        size: KERNEL_STACK,
        align: KERNEL_STACK,
    };
    assert_eq!(m.effects, vec![Effect::Free(back)]);
    assert_eq!(o.create_kernel_thread(&mut m, 0, None, None, None), Err(()));
    assert_eq!(o.thread_count(), 1);
}

#[test]
fn a_new_thread_is_filed_and_queued() {
    let mut o = orbit();
    running(&mut o, 2, 1, &[20]);
    o.ready.push(20);
    assert_eq!(o.run_create_thread_req(None), neg(ENOMEM));
    assert_eq!(o.thread_count(), 1);
    let t = thread(31, 2, ThreadState::Ready);
    assert_eq!(o.run_create_thread_req(Some(t)), 31);
    assert_eq!(o.threads[&31], t);
    assert_eq!(o.processes[&2].threads.iter().copied().collect::<Vec<u32>>(), vec![20, 31]);
    assert_eq!(o.get_runnable_thread(1), Some(20));
    assert_eq!(o.get_runnable_thread(1), Some(31));
    // Ids wrap around: the new one need not be the highest.
    assert_eq!(o.run_create_thread_req(Some(thread(25, 2, ThreadState::Ready))), 25);
}

#[test]
fn thread_slots_are_reused_lowest_first() {
    let mut s = ThreadSlots::new();
    assert_eq!(s.take_lowest(), Some(0));
    assert_eq!(s.take_lowest(), Some(1));
    assert_eq!(s.take_lowest(), Some(2));
    s.free(1);
    assert_eq!(s.take_lowest(), Some(1));
    for i in 3..256 {
        assert_eq!(s.take_lowest(), Some(i));
    }
    assert_eq!(s.take_lowest(), None);
}

#[test]
fn mmap_keeps_or_returns_frames() {
    let mut o = orbit();
    let mut m = Machine::new(2);
    let _ = o.processes.insert(5, Process::new(5, 1, satp()));
    let req = MemMapReq {
        vaddr: 0x10_0000,
        size: 8192,
        page_permissions: 0xff,
        share_with_kernel: false,
    };
    let g = MappingGeometry { align: 4096, levels: 4 };
    let plan = o.mmap_plan(req, g);
    assert_eq!((plan.perms, plan.levels, plan.revocable), (0xE | 16, 4, false));
    assert_eq!(o.run_mmap_req(&mut m, req, 5, Some(g), Some(0x9000), true), 0);
    assert_eq!(o.processes[&5].heap_pages, vec![user_frames(0x9000, 8192)]);
    assert_eq!(m.effects, vec![Effect::Fence { asid: 5, va: 0x10_0000 }, Effect::Broadcast]);
    m.effects.clear();
    assert_eq!(o.run_mmap_req(&mut m, req, 5, None, None, false), neg(EINVAL));
    assert_eq!(o.run_mmap_req(&mut m, req, 5, Some(g), None, false), neg(ENOMEM));
    assert!(m.effects.is_empty());
    assert_eq!(o.run_mmap_req(&mut m, req, 5, Some(g), Some(0xA000), false), neg(ENOMEM));
    assert_eq!(o.run_mmap_req(&mut m, req, 7, Some(g), Some(0xB000), true), neg(ESRCH));
    assert_eq!(
        m.effects,
        vec![
            Effect::Free(user_frames(0xA000, 8192)),
            Effect::Free(user_frames(0xB000, 8192)),
        ]
    );
    let mine = FrameWant { pool: Pool::User, size: 8192, align: 4096 };
    assert_eq!(mmap_frames(req, Some(g)), Some(mine));
    assert_eq!(mine.granted(0x9000), user_frames(0x9000, 8192));
    let ours = MemMapReq { share_with_kernel: true, ..req };
    assert_eq!(mmap_frames(ours, Some(g)), Some(shared_want(8192)));
    assert_eq!(mmap_frames(req, Some(MappingGeometry { align: 3000, levels: 4 })), None);
    assert_eq!(mmap_frames(req, None), None);
    assert!(layout_fits(8192, 4096));
    assert!(!layout_fits(8192, 3000));
    assert!(!layout_fits(u64::MAX, 4096));
}

#[test]
fn surfaces_are_created_side_by_side() {
    let mut o = orbit();
    let mut m = Machine::new(2);
    let _ = o.processes.insert(5, Process::new(5, 1, satp()));
    let f = Some(FbFormat { raw: 1, bytes_per_pixel: 4 });
    let req = FbSurfaceCreateReq { width: 100, height: 50, format_raw: 1 };
    assert_eq!(Orbit::fb_surface_size(req, f), Ok(20480));
    assert_eq!(Orbit::fb_surface_size(req, None), Err(neg(EINVAL)));
    let none = FbSurfaceCreateReq { width: 0, height: 50, format_raw: 1 };
    assert_eq!(Orbit::fb_surface_size(none, f), Err(neg(EINVAL)));
    assert_eq!(o.fb_surface_va(5), 0x40_0000_0000);
    let g = Some(FrameGrant { pa: 0x9000, kva: 0x1_9000 });
    let a = o.run_fb_surface_create_req(&mut m, req, 5, 0x8000, f, g, true);
    assert_eq!(a, (1, 0x40_0000_0000));
    let b = o.run_fb_surface_create_req(&mut m, req, 5, 0x8000, f, g, true);
    assert_eq!(b, (2, 0x40_0000_5000));
    m.effects.clear();
    let c = o.run_fb_surface_create_req(&mut m, req, 5, 0x8000, f, g, false);
    assert_eq!(c, (neg(ENOMEM), neg(ENOMEM)));
    let c = o.run_fb_surface_create_req(&mut m, req, 5, 0x8000, f, None, false);
    assert_eq!(c, (neg(ENOMEM), neg(ENOMEM)));
    for bad in [none, FbSurfaceCreateReq { width: u32::MAX, height: u32::MAX, format_raw: 1 }] {
        let e = o.run_fb_surface_create_req(&mut m, bad, 5, 0x8000, f, None, false);
        assert_eq!(e, (neg(EINVAL), neg(EINVAL)));
    }
    let e = o.run_fb_surface_create_req(&mut m, req, 5, 0x8000, None, None, false);
    assert_eq!(e, (neg(EINVAL), neg(EINVAL)));
    let d = o.run_fb_surface_create_req(&mut m, req, 6, 0x8000, f, g, true);
    assert_eq!(d, (neg(ESRCH), neg(ESRCH)));
    let free = Effect::Free(shared_frames(0x9000, 20480));
    assert_eq!(
        m.effects,
        vec![
            free,
            Effect::UnmapRange { root_pa: 0x8000, va: 0x40_0000_0000, len: 20480 },
            free,
        ]
    );
    m.effects.clear();
    let gone = FbSurfaceDestroyReq { handle: 1 };
    assert_eq!(o.run_fb_surface_destroy_req(&mut m, gone, 5, 0x8000), 0);
    assert!(m.effects.contains(&free));
    assert!(o.run_fb_surface_destroy_req(&mut m, gone, 5, 0x8000) < 0);
}

#[test]
fn mappings_are_planned() {
    let mut o = orbit();
    let p = o.abi.page;
    let both = p.r | p.w | p.u;
    assert_eq!(o.region_plan(2, 0x4000, 8192), None);
    running(&mut o, 2, 1, &[20]);
    let r = o.region_plan(2, 0x4000, 8192).unwrap();
    assert_eq!((r.va, r.len, r.page_size, r.levels), (0x4000, 8192, 4096, 4));
    assert_eq!((r.perms, r.revocable), (both, true));
    let s = o.surface_plan(2, 4096).unwrap();
    assert_eq!((s.va, s.len, s.perms, s.revocable), (o.abi.shared_base, 4096, both, false));
    let b = o.blob_plan(BlobKind::Envp);
    assert_eq!((b.va, b.len, b.perms), (o.abi.envp_base, 4096, p.r | p.u));
    let room = o.abi.shared_end - o.abi.shared_base;
    assert!(o.surface_plan(2, room).is_some());
    assert_eq!(o.surface_plan(2, room + 1), None);
}

/// The page table of process 5 in these tests.
const ROOT: u64 = 0x8000_0000;

fn clears(root_pa: u64, asid: u16, pages: &[u64]) -> Vec<Effect> {
    let page = |va: u64| [Effect::UnmapPage { root_pa, va, levels: 4 }, Effect::Fence { asid, va }];
    pages.iter().flat_map(|va| page(*va)).collect()
}

#[test]
fn a_region_without_a_number_is_taken_away_again() {
    let mut o = orbit();
    let mut m = Machine::new(1);
    let _ = o.processes.insert(5, Process::new(5, 1, satp()));
    let ev = EventFdCreateReq { vaddr_hint: 0x41_0000_0000, initval: 0, flags: 0 };
    let mut hs = ProcessHandles::new();
    assert!(hs.insert_at(0x7FFF_FFFF, Slot::new(Handle::Stdin)).is_none());
    let _ = o.process_handles.insert(5, hs);
    let r = o.run_eventfd_create_req(&mut m, ev, 5, ROOT, 0, Some(0xA000), true);
    assert_eq!(r, (neg(EMFILE), 0));
    assert_eq!(m.effects, clears(ROOT, 5, &[0x41_0000_0000]));
    assert_eq!(m.frees.drain(), vec![shared_frames(0xA000, 4096)]);
    assert!(o.regions.regions.is_empty());
}

#[test]
fn a_dead_process_revokes_first_and_leaves_no_leaf() {
    let mut o = orbit();
    let mut m = Machine::new(1);
    running(&mut o, 5, 1, &[50]);
    let root = 0x10_5000;
    let ev = EventFdCreateReq { vaddr_hint: 0x41_0000_0000, initval: 0, flags: 0 };
    let r = o.run_eventfd_create_req(&mut m, ev, 5, root, 0, Some(0xA000), true);
    assert_eq!(r.0, 0x41_0000_0000);
    let mut other = UserLeaves { leaves: BTreeMap::new() };
    other.make(0x1000, 4096);
    let _ = m.tables.by_root.insert(ROOT, other);
    m.effects.clear();
    let mut t = o.threads[&50];
    t.state = ThreadState::Exited;
    let _ = o.threads.insert(50, t);
    assert!(o.cleanup_threads_and_processes(&mut m, 0).is_empty());
    let at = |e: Effect| m.effects.iter().position(|x| *x == e).unwrap();
    let cleared = at(Effect::UnmapPage { root_pa: root, va: 0x41_0000_0000, levels: 4 });
    let fenced = at(Effect::Fence { asid: 5, va: 0x41_0000_0000 });
    assert_eq!(fenced, cleared + 1);
    assert!(fenced < at(Effect::UnmapAll { root_pa: root }));
    assert!(fenced < at(Effect::FreeRoot { pa: root }));
    assert!(fenced < at(Effect::Free(shared_frames(0xA000, 4096))));
    assert!(!m.tables.by_root.contains_key(&root));
    assert!(m.tables.by_root[&ROOT].leaves[&0x1000].mapped);
}

#[test]
fn channels_and_counters_share_a_region() {
    let mut o = orbit();
    let mut m = Machine::new(2);
    m.net.set_harts(2);
    let _ = o.processes.insert(5, Process::new(5, 1, satp()));
    let req = NetChannelCreationReq {
        nc_vaddr: 0x40_0000_0000,
        region_size: 8192,
        nc_type: 1,
        bind: 80,
    };
    let r = o.run_nc_create_req(&mut m, req, 5, ROOT, 0, Some(8192), Some(0x9000), true);
    assert_eq!(r, (0x40_0000_0000, 0));
    let g = o.regions.regions[&0x9000];
    assert_eq!((g.user_va, g.len, g.owner_pid, g.refs), (0x40_0000_0000, 8192, 5, 2));
    let queued = m.net.take_request(0).unwrap();
    assert_eq!((queued.pid, queued.bind, queued.netchan.pa), (5, 80, 0x9000));
    let r = o.run_nc_create_req(&mut m, req, 5, ROOT, 0, None, None, false);
    assert_eq!(r.0, neg(EINVAL));
    let r = o.run_nc_create_req(&mut m, req, 5, ROOT, 0, Some(8192), None, false);
    assert_eq!(r.0, neg(ENOMEM));
    let ev = EventFdCreateReq { vaddr_hint: 0x41_0000_0000, initval: 3, flags: 3 };
    let r = o.run_eventfd_create_req(&mut m, ev, 5, ROOT, 0, Some(0xA000), true);
    assert_eq!(r, (0x41_0000_0000, 1));
    let slot = *o.process_handles[&5].get_slot(1).unwrap();
    assert!(slot.cloexec && slot.nonblock);
    m.effects.clear();
    let made: Vec<u64> = m.tables.by_root[&ROOT].leaves.keys().copied().collect();
    assert_eq!(made, vec![0x40_0000_0000, 0x40_0000_1000, 0x41_0000_0000]);
    let ok = Leaf { mapped: true, tag: SHARED_REVOCABLE };
    assert!(m.tables.by_root[&ROOT].leaves.values().all(|l| *l == ok));
    // Closing the counter revokes its region and frees it.
    assert_eq!(o.run_close_req(&mut m, CloseHandleReq { fd: 1 }, 5, ROOT, 0), 0);
    assert!(!o.regions.regions.contains_key(&0xA000));
    assert_eq!(m.effects, clears(ROOT, 5, &[0x41_0000_0000]));
    assert_eq!(m.frees.drain(), vec![shared_frames(0xA000, 4096)]);
    m.effects.clear();
    // The network thread still holds the channel's.
    assert_eq!(o.run_close_req(&mut m, CloseHandleReq { fd: 0 }, 5, ROOT, 0), 0);
    assert!(o.regions.regions[&0x9000].revoked);
    assert_eq!(o.regions.regions[&0x9000].refs, 1);
    assert_eq!(m.effects, clears(ROOT, 5, &[0x40_0000_0000, 0x40_0000_1000]));
    assert!(m.tables.by_root[&ROOT].leaves.values().all(|l| !l.mapped));
    assert!(m.frees.drain().is_empty());
    assert!(o.run_close_req(&mut m, CloseHandleReq { fd: 0 }, 5, ROOT, 0) < 0);
}

#[test]
fn revoking_unmaps_the_whole_range() {
    let mut table = SharedRegions { regions: BTreeMap::new() };
    let p = SharedUserPtr::new(&mut table, shared_frames(0x9000, 8192), 0x1000, 8192, 5);
    let q = p.clone_ref(&mut table);
    assert_eq!((p.user_va(&table), p.len(&table), p.owner_pid(&table)), (0x1000, 8192, 5));
    assert_eq!(p.try_as_ref(&table), Some(0x9000));
    let mut leaves = UserLeaves { leaves: BTreeMap::new() };
    let mut work = Vec::new();
    let ok = Leaf { mapped: true, tag: SHARED_REVOCABLE };
    let _ = leaves.leaves.insert(0x1000, ok);
    assert_eq!(
        p.revoke(&mut table, &mut leaves, ROOT, &mut work),
        Err(RevokeError::MissingIntermediate(0x2000))
    );
    // A refused revocation changes nothing.
    assert_eq!(leaves.leaves[&0x1000], ok);
    assert!(!p.is_revoked(&table));
    let _ = leaves.leaves.insert(0x2000, Leaf { mapped: false, tag: SHARED_REVOCABLE });
    assert_eq!(p.revoke(&mut table, &mut leaves, ROOT, &mut work), Err(RevokeError::NotMapped(0x2000)));
    assert_eq!(leaves.leaves[&0x1000], ok);
    let _ = leaves.leaves.insert(0x2000, Leaf { mapped: true, tag: 3 });
    assert_eq!(
        p.revoke(&mut table, &mut leaves, ROOT, &mut work),
        Err(RevokeError::WrongTag { va: 0x2000, tag: 3 })
    );
    assert_eq!(leaves.leaves[&0x1000], ok);
    assert!(!p.is_revoked(&table));
    assert!(work.is_empty());
    let _ = leaves.leaves.insert(0x2000, ok);
    let mut table = SharedRegions { regions: BTreeMap::new() };
    let p2 = SharedUserPtr::new(&mut table, shared_frames(0x9000, 8192), 0x1000, 8192, 5);
    assert_eq!(p2.revoke(&mut table, &mut leaves, ROOT, &mut work), Ok(()));
    assert!(p2.is_revoked(&table));
    assert_eq!(p2.try_as_ref(&table), None);
    assert!(!leaves.leaves[&0x1000].mapped && !leaves.leaves[&0x2000].mapped);
    assert_eq!(p2.revoke(&mut table, &mut leaves, ROOT, &mut work), Ok(()));
    // Page by page, each flushed before the next; a second time nothing is done.
    assert_eq!(work, clears(ROOT, 5, &[0x1000, 0x2000]));
    let q2 = p2.clone_ref(&mut table);
    assert_eq!(p2.release(&mut table), None);
    assert_eq!(q2.release(&mut table), Some(shared_frames(0x9000, 8192)));
    assert!(table.regions.is_empty());
    assert_eq!(q, p);
}

fn running(o: &mut Orbit, pid: u16, parent: u16, tids: &[u32]) {
    let mut p = Process::new(pid, parent, SatpValue { ppn: 0x100 + pid as u64, asid: pid });
    for (i, tid) in tids.iter().enumerate() {
        let _ = p.threads.insert(*tid);
        let _ = p.thread_slots.take_lowest();
        p.thread_count += 1;
        let mut t = thread(*tid, pid, ThreadState::Running);
        t.slot = Some(i as u16);
        let _ = o.threads.insert(*tid, t);
    }
    let _ = o.processes.insert(pid, p);
}

#[test]
fn exiting_ends_every_thread_of_the_group() {
    let mut o = orbit();
    let mut m = Machine::new(2);
    running(&mut o, 1, 1, &[10]);
    running(&mut o, 2, 1, &[20, 21, 22]);
    o.request_exit_group(&mut m, 2, 20, 42, &vec![Some(20), Some(21)]);
    assert_eq!((o.processes[&2].exit_code, o.processes[&2].exit_finalized), (42, true));
    assert_eq!(o.threads[&20].state, ThreadState::Running);
    assert_eq!(o.threads[&21].state, ThreadState::Exited);
    assert_eq!(o.threads[&22].state, ThreadState::Exited);
    assert_eq!(o.threads[&10].state, ThreadState::Running);
    // The hart that runs a doomed sibling is interrupted.
    assert_eq!(m.effects, vec![Effect::WakeHart(1)]);
}

#[test]
fn exit_takes_the_caller_off_its_hart() {
    let mut o = orbit();
    let mut m = Machine::new(2);
    running(&mut o, 2, 1, &[20, 21]);
    running(&mut o, 3, 1, &[30]);
    let mut current = Some(20);
    o.handle_exit(&mut m, 0, &mut current, 9, &vec![Some(20), Some(21)]);
    assert_eq!(current, None);
    assert_eq!(o.threads[&20].state, ThreadState::Exited);
    assert_eq!(o.threads[&21].state, ThreadState::Exited);
    assert_eq!(o.threads[&30].state, ThreadState::Running);
    assert_eq!((o.processes[&2].exit_code, o.processes[&2].exit_finalized), (9, true));
    assert_eq!(m.effects, vec![Effect::WakeHart(1)]);
    // A hart without a thread has nothing to end.
    o.handle_exit(&mut m, 0, &mut current, 5, &vec![]);
    assert_eq!(o.processes[&3].exit_finalized, false);
}

#[test]
fn cleanup_frees_processes_and_tells_parents() {
    let mut o = orbit();
    let mut m = Machine::new(2);
    running(&mut o, 1, 1, &[10]);
    running(&mut o, 2, 1, &[20]);
    let mut p = o.processes.remove(&2).unwrap();
    p.heap_pages.push(user_frames(0x9000, 4096));
    let _ = p.maps.insert(
        0x70_0000_1000,
        UserMapping {
            vaddr: 0x70_0000_1000,
            len: 4096,
            perms: 6,
            backing: Some(user_frames(0xB000, 4096)),
            kind: MappingKind::Stack { slot: 0 },
        },
    );
    let _ = o.processes.insert(2, p);
    let mut t = o.threads[&20];
    t.state = ThreadState::Exited;
    t.fault_info = Some(FaultInfo { cause: 13, epc: 0, stval: 0 });
    let _ = o.threads.insert(20, t);
    let reports = o.cleanup_threads_and_processes(&mut m, 0);
    assert_eq!((reports.len(), reports[0].tid), (1, 20));
    assert_eq!(reports[0].label, FaultLabel::BadAccess);
    assert!(!o.threads.contains_key(&20));
    assert!(!o.processes.contains_key(&2));
    assert!(o.processes.contains_key(&1));
    assert!(m.effects.contains(&Effect::Free(user_frames(0x9000, 4096))));
    assert!(m.effects.contains(&Effect::Free(user_frames(0xB000, 4096))));
    assert!(m.effects.contains(&Effect::FreeRoot { pa: 0x10_2000 }));
    // The thread ended by a fault.
    assert_eq!(o.processes[&1].dead_children.get(&2), Some(&KILLED));
    running(&mut o, 3, 1, &[30]);
    let mut t = o.threads[&30];
    t.state = ThreadState::Exited;
    t.frame.a1 = 9;
    let _ = o.threads.insert(30, t);
    o.cleanup_threads_and_processes(&mut m, 0);
    assert_eq!(o.processes[&1].dead_children.get(&3), Some(&9));
}

#[test]
fn faults_are_told_apart() {
    let mut p = Process::new(2, 1, satp());
    let mut map = |vaddr: u64, len: u64, kind: MappingKind| {
        let u = UserMapping { vaddr, len, perms: 6, backing: None, kind };
        let _ = p.maps.insert(vaddr, u);
    };
    map(0x20_0000_0000, 0x1000, MappingKind::Guard { slot: 0 });
    map(0x20_0000_1000, 0x4000, MappingKind::Stack { slot: 0 });
    map(0x1_0000, 0x2000, MappingKind::Elf);
    assert_eq!(p.classify_fault(0x20_0000_0FFF), FaultLabel::StackOverflow);
    assert_eq!(p.classify_fault(0x20_0000_1000), FaultLabel::Violation);
    assert_eq!(p.classify_fault(0x1_1FFF), FaultLabel::Violation);
    assert_eq!(p.classify_fault(0x1_2000), FaultLabel::BadAccess);
    assert_eq!(p.classify_fault(0), FaultLabel::BadAccess);
    assert_eq!(p.find_mapping(0x1_0000).map(|u| u.kind), Some(MappingKind::Elf));
    assert_eq!(p.find_mapping(0x20_0000_5000), None);
    let labels = [FaultLabel::StackOverflow, FaultLabel::Violation, FaultLabel::BadAccess];
    let texts: Vec<&str> = labels.iter().map(|l| l.text()).collect();
    assert_eq!(texts, vec!["stack overflow", "permission/range violation", "bad access"]);
    assert_eq!(stack_slot(0x1000, 0x100, 0xFFF), None);
    assert_eq!(stack_slot(0x1000, 0x100, 0x1000), Some(0));
    assert_eq!(stack_slot(0x1000, 0x100, 0x12FF), Some(2));
    assert_eq!(stack_slot(0x1000, 0x100, 0x1_0FFF), Some(255));
    assert_eq!(stack_slot(0x1000, 0x100, 0x1_1000), None);
    assert_eq!(stack_slot(0x1000, 0, 0x1000), None);
}

#[test]
fn a_killed_thread_is_reported_with_its_siblings() {
    let mut o = orbit();
    let mut m = Machine::new(1);
    running(&mut o, 2, 1, &[20, 21, 22, 23]);
    let f = FaultInfo { cause: 15, epc: 0x1_0040, stval: 0x20_0030_0008 };
    for tid in [20, 22] {
        let mut t = o.threads[&tid];
        t.state = ThreadState::Exited;
        t.fault_info = Some(f);
        t.frame.sp = 0x77;
        t.frame.ra = 0x88;
        let _ = o.threads.insert(tid, t);
    }
    let rs = o.cleanup_threads_and_processes(&mut m, 0);
    assert_eq!(rs.len(), 2);
    assert_eq!((rs[0].tid, rs[0].own_slot, rs[0].sp, rs[0].ra), (20, Some(0), 0x77, 0x88));
    assert_eq!((rs[0].fault, rs[0].fault_slot), (f, Some(3)));
    assert_eq!(rs[0].siblings, vec![(21, Some(1)), (22, Some(2)), (23, Some(3))]);
    // The first one is gone by the time of the second.
    assert_eq!((rs[1].tid, rs[1].own_slot), (22, Some(2)));
    assert_eq!(rs[1].siblings, vec![(21, Some(1)), (23, Some(3))]);
}

#[test]
fn a_waiting_parent_is_woken_with_the_exit_code() {
    let mut o = orbit();
    let mut m = Machine::new(2);
    running(&mut o, 1, 1, &[10]);
    running(&mut o, 2, 1, &[20]);
    let mut p = o.processes.remove(&2).unwrap();
    p.exit_waiter = Some(10);
    let _ = o.processes.insert(2, p);
    o.request_exit_group(&mut m, 2, 20, 7, &vec![]);
    let mut t = o.threads[&20];
    t.state = ThreadState::Exited;
    let _ = o.threads.insert(20, t);
    o.cleanup_threads_and_processes(&mut m, 0);
    assert_eq!(o.threads[&10].pending, Some(pack_rets(&[0, 7])));
    assert_eq!(m.q.wakes.take(), Some(WakeEvent::Tid(10)));
    assert!(o.processes[&1].dead_children.is_empty());
}

#[test]
fn ids_change_as_the_rules_allow() {
    let mut o = orbit();
    running(&mut o, 2, 1, &[20]);
    assert_eq!(o.run_setgid(2, 5), 0);
    assert_eq!(o.run_setuid(2, 1000), 0);
    let c = o.processes[&2].creds;
    assert_eq!((c.uid, c.euid, c.suid, c.gid, c.egid), (1000, 1000, 1000, 5, 5));
    assert_eq!(o.threads[&20].creds, c);
    // There is no way back.
    assert_eq!(o.run_setuid(2, 0), neg(EPERM));
    assert_eq!(o.run_setgid(2, 0), neg(EPERM));
    assert_eq!(o.run_setuid(2, 1000), 0);
    assert_eq!(o.run_setuid(9, 0), neg(ESRCH));
    assert_eq!(o.run_setgid(9, 0), neg(ESRCH));
}

fn space_with(parts: &[(usize, &[u8])]) -> UserSpace {
    let mut space = UserSpace::new();
    let mut page = vec![0u8; 4096];
    for (at, s) in parts {
        put(&mut page, *at, s);
    }
    assert!(space.map_page(0x1000, 0x8000_0000, page));
    space
}

#[test]
fn groups_and_names_round_trip() {
    let mut o = orbit();
    running(&mut o, 2, 1, &[20]);
    let space = space_with(&[(0, &[7, 0, 0, 0, 8, 1, 0, 0]), (64, b"root"), (128, b"/etc")]);
    assert_eq!(o.run_setgroups(2, &space, 0x1000, 2), 0);
    assert_eq!(o.processes[&2].groups, vec![7, 264]);
    let (n, w) = o.run_getgroups(2, &space, 0x1100, 2);
    let w = w.unwrap();
    assert_eq!((n, w.page_pa, w.off), (2, 0x8000_0000, 0x100));
    assert_eq!(w.bytes, vec![7, 0, 0, 0, 8, 1, 0, 0]);
    assert_eq!(o.run_getgroups(2, &space, 0, 0).0, 2);
    assert_eq!(o.run_getgroups(2, &space, 0x1100, 1).0, neg(ERANGE));
    assert_eq!(o.run_getgroups(2, &space, 0x1100, 17).0, neg(EINVAL));
    assert_eq!(o.run_setgroups(2, &space, 0x9000, 2), neg(EFAULT));
    assert_eq!(o.run_setlogin(2, &space, 0x1040, 4), 0);
    let (n, w) = o.run_getlogin(2, &space, 0x1200, 64);
    assert_eq!((n, w.unwrap().bytes), (4, b"root".to_vec()));
    assert_eq!(o.run_getlogin(2, &space, 0x1200, 2).0, neg(ERANGE));
    assert_eq!(o.run_getcwd(2, &space, 0x1200, 64).0, 1);
    assert_eq!(o.run_getcwd(2, &space, 0x1200, 0).0, neg(EINVAL));
    assert_eq!(o.run_setuid(2, 1000), 0);
    assert_eq!(o.run_setgroups(2, &space, 0x1000, 2), neg(EPERM));
    assert_eq!(o.run_setlogin(2, &space, 0x1040, 4), neg(EPERM));
}

fn tar_header(name: &str, typeflag: u8, size: usize) -> Vec<u8> {
    let mut b = vec![0u8; 512];
    put(&mut b, 0, name.as_bytes());
    put(&mut b, 100, b"0000755\0");
    put(&mut b, 124, format!("{:011o}\0", size).as_bytes());
    b[156] = typeflag;
    put(&mut b, 257, b"ustar\0");
    b
}

fn with_files() -> Orbit {
    let mut img = tar_header("bin", b'5', 0);
    img.extend(tar_header("bin/sh", b'0', 5000));
    img.extend(vec![0u8; 5120]);
    img.extend(vec![0u8; 1024]);
    let mut o = orbit();
    o.mount.install(Tarfs::mount(&img).ok().unwrap());
    let frames: Vec<SharedFrame> = (1..65).map(|i| SharedFrame { pa: 0x1000 * i }).collect();
    o.setup_page_cache(&mut Machine::new(1), &frames);
    running(&mut o, 2, 1, &[20]);
    o
}

#[test]
fn directories_are_changed_to() {
    let mut o = with_files();
    let space = space_with(&[(0, b"/bin"), (64, b"/bin/sh"), (128, b"bin"), (192, b"/no")]);
    assert_eq!(o.run_chdir(2, &space, 0x1000, 4), 0);
    assert_eq!(o.processes[&2].cwd, b"/bin".to_vec());
    assert!(o.run_chdir(2, &space, 0x1040, 7) < 0);
    assert_eq!(o.run_chdir(2, &space, 0x1080, 3), neg(EINVAL));
    assert_eq!(o.run_chdir(2, &space, 0x10c0, 3), neg(ENOENT));
    assert_eq!(o.check_dir(&b"/bin".to_vec()), None);
    let (n, w) = o.run_getcwd(2, &space, 0x1200, 64);
    assert_eq!((n, w.unwrap().bytes), (4, b"/bin".to_vec()));
}

#[test]
fn spawn_plans_read_user_memory() {
    let mut o = orbit();
    let space = space_with(&[(0, b"PROGRAM"), (100, b"ARGV")]);
    let req = CreateProcessReq {
        elf_vaddr: 0x1000,
        elf_len: 7,
        allowed_affinity: 0,
        affinity: 0,
    };
    let p = o.run_create_process_req(req, &space).ok().unwrap();
    assert_eq!(p.program, b"PROGRAM".to_vec());
    assert_eq!((p.child.allowed_affinity, p.child.affinity), (0b11, 0b11));
    assert!(p.child.argv.is_none() && p.child.envp.is_none() && p.child.cwd.is_none());
    let bad = |r: CreateProcessReq| o.run_create_process_req(r, &space).err();
    assert_eq!(bad(CreateProcessReq { elf_len: 0, ..req }), Some(neg(EINVAL)));
    assert_eq!(bad(CreateProcessReq { elf_len: 0x40_0001, ..req }), Some(neg(EINVAL)));
    assert_eq!(bad(CreateProcessReq { elf_vaddr: 0x9000, ..req }), Some(neg(EFAULT)));
    assert_eq!(bad(CreateProcessReq { allowed_affinity: 4, ..req }), Some(neg(EINVAL)));
    let ex = CreateProcessExReq {
        elf_vaddr: 0x1000,
        elf_len: 7,
        argv_vaddr: 0x1064,
        argv_len: 4,
        envp_vaddr: 0x1000,
        allowed_affinity: 2,
        affinity: 2,
    };
    let p = o.run_create_process_ex_req(ex, &space).ok().unwrap();
    assert_eq!(p.child.argv, Some(b"ARGV".to_vec()));
    assert_eq!(p.child.envp.map(|e| e.len()), Some(4096));
    assert_eq!((p.child.allowed_affinity, p.child.affinity), (2, 2));
    let ex = CreateProcessExReq { envp_vaddr: 0x9000, ..ex };
    assert_eq!(o.run_create_process_ex_req(ex, &space).err(), Some(neg(EFAULT)));
    assert_eq!(spawn_result(Some(9)), 9);
    assert_eq!(spawn_result(None), neg(ENOEXEC));
    o.cpu_count = 1;
    assert_eq!(
        o.run_create_process_req(req, &space).ok().unwrap().child.affinity,
        1
    );
}

fn args() -> SpawnArgs {
    SpawnArgs {
        target_role: 1,
        stdout_capture: 0,
        reserved: 0,
        detach: true,
        uid: INHERIT_ID,
        gid: INHERIT_ID,
        login_vaddr: 0,
        login_len: 0,
        groups_vaddr: 0,
        groups_count: 0,
        path_vaddr: 0x1000,
        path_len: 7,
        elf_vaddr: 0,
        elf_len: 0,
        allowed_affinity: 0,
        affinity: 0,
        cwd_vaddr: 0,
        cwd_len: 0,
        argv_vaddr: 0,
        argv_len: 0,
        envp_vaddr: 0,
    }
}

const REQ: CreateProcessV2Req = CreateProcessV2Req { args_vaddr: 0x1800 };

#[test]
fn only_the_loader_gives_identities() {
    let mut o = with_files();
    let space = space_with(&[(0, b"/bin/sh"), (64, b"bob"), (128, &[9, 0, 0, 0])]);
    assert!(o.check_identity(REQ, args(), 2, &space).is_ok());
    let stamped = SpawnArgs {
        uid: 500,
        login_vaddr: 0x1040,
        login_len: 3,
        groups_vaddr: 0x1080,
        groups_count: 1,
        ..args()
    };
    assert_eq!(o.check_identity(REQ, stamped, 2, &space).err(), Some(neg(EPERM)));
    let mut p = o.processes.remove(&2).unwrap();
    p.permissions.role = 7;
    let _ = o.processes.insert(2, p);
    let id = o.check_identity(REQ, stamped, 2, &space).ok().unwrap();
    assert_eq!((id.uid, id.gid), (Some(500), None));
    assert_eq!((id.login, id.groups), (Some(b"bob".to_vec()), Some(vec![9])));
    let bad = SpawnArgs { uid: -5, ..args() };
    assert_eq!(o.check_identity(REQ, bad, 2, &space).err(), Some(neg(EINVAL)));
    let bad = SpawnArgs { reserved: 1, ..args() };
    assert_eq!(o.check_identity(REQ, bad, 2, &space).err(), Some(neg(EINVAL)));
    assert_eq!(o.check_identity(REQ, args(), 77, &space).err(), Some(neg(ESRCH)));
}

#[test]
fn spawn_sources() {
    let o = with_files();
    let space = space_with(&[(0, b"/bin/sh"), (64, b"/bin"), (128, b"MEM")]);
    match o.find_source(args(), 2, 1, &space, Ok(())) {
        Ok(SpawnSource::File { size, .. }) => assert_eq!(size, 5000),
        _ => panic!("no file"),
    }
    let denied = o.find_source(args(), 2, 1, &space, Err(neg(EACCES)));
    assert_eq!(denied.err(), Some(neg(EACCES)));
    let dir = SpawnArgs { path_vaddr: 0x1040, path_len: 4, ..args() };
    assert_eq!(o.find_source(dir, 2, 1, &space, Ok(())).err(), Some(neg(ENOEXEC)));
    let mem = SpawnArgs {
        path_vaddr: 0,
        path_len: 0,
        elf_vaddr: 0x1080,
        elf_len: 3,
        ..args()
    };
    assert_eq!(o.find_source(mem, 2, 1, &space, Ok(())).err(), Some(neg(EPERM)));
    match o.find_source(mem, 2, 7, &space, Ok(())) {
        Ok(SpawnSource::Memory(b)) => assert_eq!(b, b"MEM".to_vec()),
        _ => panic!("no program"),
    }
}

#[test]
fn programs_are_loaded_page_by_page_and_installed() {
    let mut o = with_files();
    let mut m = Machine::new(2);
    let space = space_with(&[(0, b"/bin/sh")]);
    let granted = Permissions { role: 1, perms: 3, allowed_perms: 3 };
    let next = o.run_create_process_v2_req(
        &mut m.q.wakes,
        REQ,
        args(),
        2,
        &space,
        20,
        RoleVerdict::Granted(granted),
        Ok(()),
        99,
        0xFFFF_0000_0000,
    );
    assert!(matches!(next, SpawnNext::Load));
    assert_eq!(o.spawns_in_progress[&20].total_pages, 2);
    let mut copies = Vec::new();
    let first = match o.issue_next_spawn_page(&mut m.q.wakes, 20, &mut copies) {
        SpawnStep::Submit(b) => b,
        _ => panic!("nothing to read"),
    };
    assert_eq!(first.key, CacheKey { dev: 1, lba: 2 });
    assert_eq!(o.spawn_submitted(&mut m.q.wakes, 20, first, true), None);
    let mut fill = o.run_cache_fill(first.packed_key, 0).unwrap();
    let mut fills = Vec::new();
    // The waiter is the spawn itself.
    let tid = o.advance_cache_fill(&mut m.q, 0, &mut fill, &mut fills);
    assert_eq!(tid, Some(20));
    assert_eq!(
        fills,
        vec![FillCopy::Kernel {
            src_pa: first.pa,
            src_off: 0,
            dst_kva: 0xFFFF_0000_0000,
            len: 4096,
        }]
    );
    let second = match o.advance_spawn(&mut m.q.wakes, 20, 0, &mut copies) {
        SpawnStep::Submit(b) => b,
        _ => panic!("one page is missing"),
    };
    assert_eq!(second.key.lba, 10);
    assert_eq!(o.spawn_submitted(&mut m.q.wakes, 20, second, true), None);
    let mut fill = o.run_cache_fill(second.packed_key, 0).unwrap();
    assert_eq!(o.advance_cache_fill(&mut m.q, 0, &mut fill, &mut fills), Some(20));
    let loaded = match o.advance_spawn(&mut m.q.wakes, 20, 0, &mut copies) {
        SpawnStep::Loaded(p) => p,
        _ => panic!("not loaded"),
    };
    assert_eq!((loaded.total_size, loaded.blob_kva), (5000, 0xFFFF_0000_0000));
    assert!(o.spawns_in_progress.is_empty());
    let plan = o.plan_child(loaded.ctx.args, 2, &space).ok().unwrap();
    assert_eq!((plan.allowed_affinity, plan.stdout_redirect), (0b11, None));
    running(&mut o, 3, 2, &[30]);
    o.run_spawn_ready(&mut m.q.wakes, 20, loaded.ctx, Some(3));
    assert_eq!(o.threads[&20].pending, Some(pack_rets(&[3])));
    assert_eq!(o.processes[&3].permissions, granted);
    assert!(o.processes[&3].detached);
    assert_eq!(o.threads[&30].permissions, granted);
}

#[test]
fn denied_spawns_are_logged() {
    let mut o = with_files();
    let mut m = Machine::new(2);
    let space = space_with(&[(0, b"/bin/sh")]);
    let next = o.run_create_process_v2_req(
        &mut m.q.wakes,
        REQ,
        args(),
        2,
        &space,
        20,
        RoleVerdict::Denied(4),
        Ok(()),
        99,
        0xFFFF_0000_0000,
    );
    assert!(matches!(next, SpawnNext::Answered));
    assert_eq!(o.threads[&20].pending, Some(pack_rets(&[neg(EPERM)])));
    assert_eq!(o.processes[&2].role_denials, 1);
    assert_eq!(
        o.denial_ring,
        vec![DenialEvent::RoleDeny {
            time_ticks: 99,
            tid: 0,
            source_role: o.processes[&2].permissions.role,
            target_role: 1,
            deny_reason: 4,
            pid: 2,
        }]
    );
}

#[test]
fn a_failed_page_ends_the_spawn() {
    let mut o = with_files();
    let mut m = Machine::new(2);
    let space = space_with(&[(0, b"/bin/sh")]);
    let _ = o.run_create_process_v2_req(
        &mut m.q.wakes,
        REQ,
        args(),
        2,
        &space,
        20,
        RoleVerdict::Granted(perms()),
        Ok(()),
        99,
        0xFFFF_0000_0000,
    );
    let mut copies = Vec::new();
    let b = match o.issue_next_spawn_page(&mut m.q.wakes, 20, &mut copies) {
        SpawnStep::Submit(b) => b,
        _ => panic!("nothing to read"),
    };
    // The device refused the request: the buffer comes back.
    let room = o.spawn_submitted(&mut m.q.wakes, 20, b, false);
    assert_eq!(room, Some(0xFFFF_0000_0000));
    assert!(o.spawns_in_progress.is_empty());
    assert_eq!(o.threads[&20].pending, Some(pack_rets(&[neg(EIO)])));
    assert!(matches!(
        o.issue_next_spawn_page(&mut m.q.wakes, 20, &mut copies),
        SpawnStep::Gone
    ));
    assert_eq!(o.spawn_submitted(&mut m.q.wakes, 20, b, false), None);
}

#[test]
fn a_page_that_cannot_be_read_ends_the_spawn() {
    let mut o = with_files();
    let mut m = Machine::new(2);
    let space = space_with(&[(0, b"/bin/sh")]);
    let _ = o.run_create_process_v2_req(
        &mut m.q.wakes,
        REQ,
        args(),
        2,
        &space,
        20,
        RoleVerdict::Granted(perms()),
        Ok(()),
        99,
        0xFFFF_0000_0000,
    );
    let mut copies = Vec::new();
    let b = match o.issue_next_spawn_page(&mut m.q.wakes, 20, &mut copies) {
        SpawnStep::Submit(b) => b,
        _ => panic!("nothing to read"),
    };
    let mut fill = o.run_cache_fill(b.packed_key, 1).unwrap();
    assert_eq!(o.advance_cache_fill(&mut m.q, 0, &mut fill, &mut copies), Some(20));
    assert!(copies.is_empty());
    assert!(matches!(
        o.advance_spawn(&mut m.q.wakes, 20, 1, &mut copies),
        SpawnStep::Answered { blob_kva: 0xFFFF_0000_0000 }
    ));
    assert_eq!(o.threads[&20].pending, Some(pack_rets(&[neg(EIO)])));
}

#[test]
fn dropped_handles_release_regions() {
    let mut o = orbit();
    let mut m = Machine::new(1);
    let p = SharedUserPtr::new(&mut o.regions, shared_frames(0x9000, 4096), 0x1000, 4096, 5);
    o.drop_handle(&mut m, ROOT, Handle::NetChannel(p), 0);
    assert!(o.regions.regions.is_empty());
    assert_eq!(m.frees.drain(), vec![shared_frames(0x9000, 4096)]);
    o.drop_handle(&mut m, ROOT, Handle::Stdin, 0);
    // A full ring is reported.
    for i in 0..63u64 {
        assert_eq!(m.frees.push(0, shared_frames(i * 4096, 4096)), Ok(()));
    }
    m.effects.clear();
    let p = SharedUserPtr::new(&mut o.regions, shared_frames(0x9000, 4096), 0x1000, 4096, 5);
    o.drop_handle(&mut m, ROOT, Handle::NetChannel(p), 0);
    let free = Effect::Free(shared_frames(0x9000, 4096));
    assert_eq!(m.effects, vec![Effect::RingFull { hart: 0 }, free]);
    assert_eq!(Slot::new(Handle::Stdin), Slot::with_flags(Handle::Stdin, false, false));
}
