//! Files: the tar filesystem, the page cache, reads and handles.

use kmain::abi::{PagePerms, EBADF, EFAULT, EINVAL, EIO, EMFILE, ENOENT, ENOTDIR, ESRCH};
use kmain::argv::BlobLayout;
use kmain::dir::DirPack;
use kmain::fs::{FsErr, Stat, S_IFDIR, S_IFREG};
use kmain::fsops::{ChannelState, HandleKind, SEEK_CUR, SEEK_END, SEEK_SET};
use kmain::fsread::{FillCopy, PageCopy};
use kmain::handle::{EventFdSlot, Handle, OpenFile, ProcessHandles, Slot, FD_MAX};
use kmain::orbit::{AbiLayout, Effect, FsReadInProgress, Orbit, Queues};
use kmain::page_cache::{pack, unpack, CacheErr, CacheKey, PageCache, SharedFrame, Waiter};
use kmain::process::{
    Creds, Permissions, PhysBacking, Pool, Process, SatpValue, Thread, ThreadState, TrapFrame,
};
use kmain::shared_user_ptr::SharedUserPtr;
use kmain::tar::{canonicalize_path, nt_str, parse_octal, BlockRead, Kind, MountErr, TarWalk, Tarfs};
use kmain::uspace::{copy_user_path, decode_words, encode_words, UserSpace};
use kmain::work::{FsOpenReq, FsReadReq, FsReaddirReq, FsStatReq};
use kmain::world::Machine;

fn perms() -> Permissions {
    Permissions { role: 1, perms: 0xff, allowed_perms: 0xff }
}

fn abi() -> AbiLayout {
    AbiLayout {
        user_end: 0x80_0000_0000,
        text_base: 0x1_0000,
        shared_base: 0x40_0000_0000,
        shared_end: 0x50_0000_0000,
        stack_default: 0x1_0000,
        stack_grain: 4096,
        stack_base: 0x20_0000_0000,
        stack_stride: 0x10_0000,
        tls_max: 4096,
        argv_base: 0x60_0000_0000,
        envp_base: 0x60_0000_1000,
        blob: BlobLayout { header: 8, offsets: 8 },
        max_path: 256,
        ngroups_max: 16,
        loader_role: 7,
        default_perms: perms(),
        page: PagePerms { r: 2, w: 4, x: 8, u: 16 },
        stat_size: 128,
        ch_info_size: 40,
        stats_size: 200,
        denial_event_size: 64,
        eventfd_size: 4096,
        efd_cloexec: 1,
        efd_nonblock: 2,
    }
}

fn satp() -> SatpValue {
    SatpValue { ppn: 0x80_000, asid: 0 }
}

fn thread(tid: u32, pid: u16, state: ThreadState) -> Thread {
    Thread {
        tid,
        pid,
        pc: 0,
        supervisor: false,
        satp: satp(),
        frame: TrapFrame { ra: 0, sp: 0, tp: 0, a0: 0, a1: 0, a2: 0, a3: 0, asid: 0 },
        kernel_stack: None,
        kernel_trap_frame: None,
        state,
        ticks: 0,
        wake_time: 0,
        wake_override: 0,
        last_wake_reason: 0,
        sleep_seq: 0,
        pending: None,
        slot: None,
        fault_info: None,
        allowed_affinity: 1,
        affinity: 1,
        cpu_ticks_total: 0,
        context_switches: 0,
        syscall_count: 0,
        syscall_ticks: 0,
        permissions: perms(),
        creds: Creds { uid: 0, euid: 0, suid: 0, gid: 0, egid: 0, sgid: 0 },
        stdout_redirect: None,
    }
}

fn orbit() -> Orbit {
    Orbit::new(1, satp(), abi())
}

fn put(b: &mut [u8], off: usize, s: &[u8]) {
    for (i, c) in s.iter().enumerate() {
        b[off + i] = *c;
    }
}

fn tar_header(name: &str, typeflag: u8, size: usize) -> Vec<u8> {
    let mut b = vec![0u8; 512];
    put(&mut b, 0, name.as_bytes());
    put(&mut b, 100, b"0000644\0");
    put(&mut b, 108, b"0000012\0");
    put(&mut b, 116, b"0000007\0");
    put(&mut b, 124, format!("{:011o}\0", size).as_bytes());
    put(&mut b, 136, b"00000000144\0");
    b[156] = typeflag;
    put(&mut b, 257, b"ustar\0");
    b
}

/// `etc/` at the first sector, `etc/motd` of 5000 bytes behind it, `empty`.
fn image() -> Vec<u8> {
    let mut v = tar_header("etc/", b'5', 0);
    v.extend(tar_header("./etc/motd", b'0', 5000));
    let mut data = vec![0u8; 5120];
    for i in 0..5000 {
        data[i] = (i % 251) as u8;
    }
    v.extend(data);
    v.extend(tar_header("empty", 0, 0));
    v.extend(vec![0u8; 1024]);
    v
}

fn mounted() -> Orbit {
    let mut o = orbit();
    match Tarfs::mount(&image()) {
        Ok(t) => o.mount.install(t),
        Err(_) => panic!("mount"),
    }
    o
}

fn with_process(o: &mut Orbit, pid: u16) {
    let mut p = Process::new(pid, 1, satp());
    p.cwd = b"/etc".to_vec();
    let _ = o.processes.insert(pid, p);
}

fn user(va: u64, pa: u64, at: usize, s: &[u8]) -> UserSpace {
    let mut space = UserSpace::new();
    let mut page = vec![0u8; 4096];
    put(&mut page, at, s);
    assert!(space.map_page(va, pa, page));
    space
}

fn user_waiter(tid: u32) -> Waiter {
    Waiter::User { tid, pid: 2, intra: 0, user_page_pa: 0x9000, user_page_off: 0, len: 10 }
}

fn frames(n: u64) -> Vec<SharedFrame> {
    (0..n).map(|i| SharedFrame { pa: 0x1000 * (i + 1) }).collect()
}

fn neg(e: i32) -> i64 {
    -(e as i64)
}

#[test]
fn packed_keys_round_trip() {
    let k = CacheKey { dev: 1, lba: 0x1234 };
    assert_eq!(pack(k), 0x8000_0000_0012_3401);
    assert_eq!(unpack(pack(k)), Some(k));
    let top = CacheKey { dev: 255, lba: 0x7f_ffff_ffff_ffff };
    assert_eq!(unpack(pack(top)), Some(top));
    assert_eq!(unpack(0), None);
    assert_eq!(unpack(0x7fff_ffff_ffff_ffff), None);
}

#[test]
fn cache_needs_all_its_frames() {
    assert!(PageCache::with_capacity(&frames(2), 3).is_none());
    let c = PageCache::with_capacity(&frames(3), 3);
    assert_eq!(c.map(|c| c.capacity()), Some(3));
    let freed = |pa| {
        Effect::Free(PhysBacking { pool: Pool::Shared, pa, size: 4096, align: 4096 })
    };
    // Too few frames all go back, and so does one too many.
    let mut o = orbit();
    let mut m = Machine::new(1);
    o.setup_page_cache(&mut m, &frames(2));
    assert!(o.page_cache.is_none());
    let fs = frames(65);
    assert_eq!(m.effects, vec![freed(fs[0].pa), freed(fs[1].pa)]);
    let mut m = Machine::new(1);
    o.setup_page_cache(&mut m, &fs);
    assert_eq!(o.page_cache.map(|c| c.capacity()), Some(64));
    assert_eq!(m.effects, vec![freed(fs[64].pa)]);
}

#[test]
fn cache_loads_completes_and_evicts() {
    let mut c = PageCache::with_capacity(&frames(2), 2).unwrap();
    let a = CacheKey { dev: 1, lba: 0 };
    let b = CacheKey { dev: 1, lba: 8 };
    let d = CacheKey { dev: 1, lba: 16 };
    assert_eq!(c.begin_load(a, 4096, user_waiter(1)), Ok(0x2000));
    assert_eq!(c.begin_load(a, 4096, user_waiter(1)), Err(CacheErr::AlreadyPresent));
    assert!(c.lookup(a).unwrap().is_loading());
    assert_eq!(c.register_waiter(a, user_waiter(2)), Ok(()));
    assert_eq!(c.register_waiter(b, user_waiter(2)), Err(CacheErr::NotFound));
    assert_eq!(c.complete_slot(a, 0), vec![user_waiter(1), user_waiter(2)]);
    assert_eq!(c.register_waiter(a, user_waiter(2)), Err(CacheErr::WrongState));
    assert!(!c.lookup(a).unwrap().is_loading());
    assert_eq!(c.lookup(a).unwrap().frame().pa, 0x2000);
    assert_eq!(c.begin_load(b, 4096, user_waiter(1)), Ok(0x1000));
    assert_eq!(c.complete_slot(b, 0).len(), 1);
    // `a` is used again, so `b` is the one that leaves.
    c.record_hit();
    c.touch_lru(a);
    assert_eq!(c.begin_load(d, 100, user_waiter(1)), Ok(0x1000));
    assert!(c.lookup(b).is_none());
    assert!(c.lookup(a).is_some());
    let s = c.stats();
    assert_eq!((s.hits, s.misses, s.coalesced, s.evictions), (1, 3, 1, 1));
    assert_eq!((s.inflight_pages, s.ready_pages, s.io_errors), (1, 1, 0));
}

#[test]
fn loading_pages_keep_their_frames() {
    let mut c = PageCache::with_capacity(&frames(1), 1).unwrap();
    let a = CacheKey { dev: 1, lba: 0 };
    let b = CacheKey { dev: 1, lba: 8 };
    assert_eq!(c.begin_load(a, 4096, user_waiter(1)), Ok(0x1000));
    assert_eq!(c.begin_load(b, 4096, user_waiter(1)), Err(CacheErr::PoolExhausted));
    assert_eq!(c.stats().pool_exhausted, 1);
    // A failed load gives its frame back.
    assert_eq!(c.complete_slot(a, 1), vec![user_waiter(1)]);
    assert_eq!(c.complete_slot(a, 1), vec![]);
    assert_eq!(c.stats().io_errors, 1);
    assert_eq!(c.begin_load(b, 4096, user_waiter(1)), Ok(0x1000));
}

#[test]
fn octal_fields() {
    assert_eq!(parse_octal(b"0000644\0"), Some(0o644));
    assert_eq!(parse_octal(b"  17 \0"), Some(0o17));
    assert_eq!(parse_octal(b"00000011610\0"), Some(5000));
    assert_eq!(parse_octal(b"12x"), None);
    assert_eq!(parse_octal(b"8"), None);
}

#[test]
fn field_strings_and_paths() {
    assert_eq!(nt_str(b"abc\0def"), b"abc".to_vec());
    assert_eq!(nt_str(b"abc"), b"abc".to_vec());
    let path = |p: &str, n: &str| canonicalize_path(&p.as_bytes().to_vec(), &n.as_bytes().to_vec());
    assert_eq!(path("", "./etc/motd"), b"/etc/motd".to_vec());
    assert_eq!(path("usr", "bin/sh"), b"/usr/bin/sh".to_vec());
    assert_eq!(path("", "etc/"), b"/etc".to_vec());
}

#[test]
fn an_archive_is_listed_as_it_was_packed() {
    let file = |fill: u8, len: usize| {
        let mut d = vec![fill; len];
        d.resize((len + 511) / 512 * 512, 0);
        d
    };
    let mut v = tar_header("a", b'0', 600);
    v.extend(file(1, 600));
    // A link is skipped together with its data.
    v.extend(tar_header("link", b'2', 512));
    v.extend(file(2, 512));
    v.extend(tar_header("a", b'0', 10));
    v.extend(file(3, 10));
    let fs = Tarfs::mount(&v).ok().unwrap();
    // The later `a` is the one that is found.
    assert_eq!(fs.entry_count(), 2);
    assert_eq!(fs.open(b"/a"), Ok(2));
    assert_eq!(fs.open(b"/link"), Err(FsErr::NotFound));
    assert_eq!((fs.size(1), fs.size(2)), (Ok(600), Ok(10)));
    assert_eq!((fs.lba_for_page(1, 0), fs.lba_for_page(2, 0)), (Ok(1), Ok(6)));
    assert_eq!((v[512], v[6 * 512]), (1, 3));
    // What follows two zero blocks is no part of the archive.
    v.extend(vec![0u8; 1024]);
    v.extend(vec![7u8; 2048]);
    assert_eq!(Tarfs::mount(&v).ok().unwrap().entry_count(), 2);
}

#[test]
fn mount_finds_files_and_directories() {
    let fs = Tarfs::mount(&image()).ok().unwrap();
    assert_eq!(fs.dev_id(), 1);
    let dir = fs.open(b"/etc").unwrap();
    let motd = fs.open(b"/etc/motd").unwrap();
    let empty = fs.open(b"/empty").unwrap();
    assert_eq!(fs.open(b"/nope"), Err(FsErr::NotFound));
    assert_eq!(fs.size(motd), Ok(5000));
    assert_eq!(fs.size(dir), Ok(0));
    let st = fs.stat(motd).unwrap();
    assert_eq!(st.st_mode, S_IFREG | 0o644);
    assert_eq!((st.st_uid, st.st_gid, st.st_mtime), (10, 7, 100));
    assert_eq!((st.st_size, st.st_blocks, st.st_blksize), (5000, 10, 512));
    assert_eq!((st.st_dev, st.st_ino, st.st_nlink), (1, motd as u64, 1));
    assert_eq!(fs.stat(dir).unwrap().st_mode, S_IFDIR | 0o644);
    assert_eq!(fs.lba_for_page(motd, 0), Ok(2));
    assert_eq!(fs.lba_for_page(motd, 1), Ok(10));
    assert_eq!(fs.lba_for_page(motd, 2), Err(FsErr::BadRange));
    assert_eq!(fs.lba_for_page(dir, 0), Err(FsErr::NotRegular));
    assert_eq!(fs.lba_for_page(empty, 0), Err(FsErr::BadRange));
    assert_eq!(fs.read_async(motd, 0, 512), Ok(BlockRead { lba: 2, valid: 512 }));
    assert_eq!(fs.read_async(motd, 4608, 512), Ok(BlockRead { lba: 11, valid: 392 }));
    assert_eq!(fs.read_async(motd, 100, 512), Err(FsErr::BadRange));
    assert_eq!(fs.read_async(motd, 0, 100), Err(FsErr::BadRange));
    assert_eq!(fs.stat(99), Err(FsErr::BadInode));
}

#[test]
fn mount_refuses_broken_headers() {
    let mut bad = image();
    bad[257] = b'X';
    assert_eq!(Tarfs::mount(&bad).err(), Some(MountErr::BadMagic { lba: 0 }));
    let mut bad = image();
    bad[512 + 124] = b'z';
    assert_eq!(Tarfs::mount(&bad).err(), Some(MountErr::BadHeader { lba: 1 }));
}

#[test]
fn directories_are_listed_by_name() {
    let mut img = Vec::new();
    for (name, kind) in [
        ("etc", b'5'),
        ("etc/zebra", b'0'),
        ("etc/apple", b'0'),
        ("etc/sub", b'5'),
        ("etc/sub/deep", b'0'),
        ("etcetera", b'0'),
        ("etc/apple", b'0'),
    ] {
        img.extend(tar_header(name, kind, 0));
    }
    img.extend(vec![0u8; 1024]);
    let fs = Tarfs::mount(&img).ok().unwrap();
    let dir = fs.open(b"/etc").unwrap();
    let at = |c| fs.readdir(dir, c).ok().unwrap();
    let names: Vec<Vec<u8>> = (0..3).map(|c| at(c).unwrap().name).collect();
    assert_eq!(names, vec![b"apple".to_vec(), b"sub".to_vec(), b"zebra".to_vec()]);
    // The later of two entries with one path is the one that is listed.
    assert_eq!(at(0).unwrap().ino, 7);
    assert_eq!(at(1).unwrap().kind, Kind::Dir);
    assert!(at(3).is_none());
    let file = fs.open(b"/etcetera").unwrap();
    assert_eq!(fs.readdir(file, 0).err(), Some(FsErr::NotADirectory));
    assert_eq!(fs.readdir(99, 0).err(), Some(FsErr::BadInode));
}

#[test]
fn listings_fill_the_buffer_and_go_on() {
    let mut p = DirPack::new(100, 4);
    assert!(p.offer(60));
    assert!(!p.offer(60));
    assert_eq!(p.outcome(), Ok((60, 5)));
    let mut q = DirPack::new(100, 5);
    assert!(!q.offer(101));
    assert_eq!(q.outcome(), Err(FsErr::BadRange));
    assert_eq!(DirPack::new(100, 9).outcome(), Ok((0, 9)));
}

#[test]
fn walk_stops_at_two_zero_sectors() {
    let img = image();
    let mut w = TarWalk::new();
    let cap = (img.len() / 512) as u64;
    let mut seen = Vec::new();
    while let Some(lba) = w.next_lba(cap) {
        seen.push(lba);
        let at = lba as usize * 512;
        assert_eq!(w.feed(&img[at..at + 512]), Ok(()));
    }
    assert_eq!(seen, vec![0, 1, 12, 13, 14]);
    let fs = w.finish();
    assert_eq!(fs.entry(fs.open(b"/empty").unwrap()).ok().unwrap().size, 0);
}

#[test]
fn user_strings_cross_pages_and_must_be_text() {
    let mut space = user(0x1000, 0x8000_0000, 4090, b"/etc/m");
    let mut second = vec![0u8; 4096];
    put(&mut second, 0, b"otd\xff");
    assert!(space.map_page(0x2000, 0x8000_5000, second));
    assert_eq!(copy_user_path(&space, 0x1000 + 4090, 9), Ok(b"/etc/motd".to_vec()));
    // The byte behind the path is no text.
    assert_eq!(copy_user_path(&space, 0x1000 + 4090, 10), Err(neg(EINVAL)));
    assert_eq!(copy_user_path(&space, 0x3000, 4), Err(neg(EFAULT)));
    assert_eq!(space.read(0x1000 + 4094, 4), Some(b"/mot".to_vec()));
    assert_eq!(space.translate(0x2000), Some(0x8000_5000));
    assert!(!space.translates(0x3000));
}

#[test]
fn words_round_trip() {
    let ws = vec![1u32, 0x0102_0304, 0xffff_ffff];
    let b = encode_words(&ws);
    assert_eq!(b, vec![1, 0, 0, 0, 4, 3, 2, 1, 255, 255, 255, 255]);
    assert_eq!(decode_words(&b, 3), ws);
}

#[test]
fn paths_resolve_against_the_working_directory() {
    let mut o = orbit();
    with_process(&mut o, 5);
    let r = |p: &[u8]| o.resolve_fs_path(5, &p.to_vec());
    assert_eq!(r(b"/a/b"), b"/a/b".to_vec());
    assert_eq!(r(b"motd"), b"/etc/motd".to_vec());
    assert_eq!(r(b"./motd"), b"/etc/motd".to_vec());
    assert_eq!(r(b"././x"), b"/etc/x".to_vec());
    assert_eq!(r(b"."), b"/etc".to_vec());
    assert_eq!(r(b""), b"/etc".to_vec());
    assert_eq!(o.resolve_fs_path(77, &b"x".to_vec()), b"/x".to_vec());
}

#[test]
fn open_stat_and_seek() {
    let mut o = mounted();
    with_process(&mut o, 5);
    let space = user(0x1000, 0x8000_0000, 0, b"motd");
    let req = FsOpenReq { path_vaddr: 0x1000, path_len: 4 };
    assert_eq!(o.run_fs_open_req(req, 5, &space, Err(-13)), -13);
    let fd = o.run_fs_open_req(req, 5, &space, Ok(()));
    assert_eq!(fd, 0);
    assert_eq!(o.run_fs_open_req(req, 9, &space, Ok(())), neg(ENOENT));
    let fd = fd as u32;
    assert!(o.open_file(5, fd).unwrap().is_regular);
    assert_eq!(o.run_fs_seek(5, fd, 100, SEEK_SET), 100);
    assert_eq!(o.run_fs_seek(5, fd, -40, SEEK_CUR), 60);
    assert_eq!(o.run_fs_seek(5, fd, -10, SEEK_END), 4990);
    assert_eq!(o.run_fs_seek(5, fd, -1, SEEK_SET), neg(EINVAL));
    assert_eq!(o.run_fs_seek(5, fd, 0, 9), neg(EINVAL));
    assert_eq!(o.run_fs_seek(5, 44, 0, SEEK_SET), neg(EBADF));
    assert_eq!(o.open_file(5, fd).unwrap().offset, 4990);
    assert_eq!(o.get_file_size(o.open_file(5, fd).unwrap().inode), Some(5000));
    let copy = o.run_fs_stat_req(
        FsStatReq { path_vaddr: 0x1000, path_len: 4, stat_vaddr: 0x1100 },
        5,
        &space,
    );
    let copy = copy.unwrap();
    assert_eq!((copy.page_pa, copy.off, copy.stat.st_size), (0x8000_0000, 0x100, 5000));
    assert_eq!(o.run_fs_fstat(5, &space, fd, 0x1100).unwrap().stat, copy.stat);
    assert_eq!(o.run_fs_fstat(5, &space, 99, 0x1100), Err(neg(EBADF)));
    assert_eq!(o.run_fs_fstat(5, &space, fd, 0x9000), Err(neg(EFAULT)));
}

#[test]
fn nothing_opens_without_a_filesystem() {
    let mut o = orbit();
    with_process(&mut o, 5);
    let space = user(0x1000, 0x8000_0000, 0, b"/etc/motd");
    let req = FsOpenReq { path_vaddr: 0x1000, path_len: 9 };
    assert_eq!(o.run_fs_open_req(req, 5, &space, Ok(())), neg(EIO));
    let mut o = mounted();
    assert_eq!(o.run_fs_open_req(req, 5, &space, Ok(())), neg(ESRCH));
}

#[test]
fn listing_moves_the_cursor() {
    let mut o = mounted();
    with_process(&mut o, 5);
    let mut space = user(0x1000, 0x8000_0000, 0, b"/etc");
    assert!(space.map_page(0x2000, 0x8000_2000, vec![0u8; 4096]));
    let fd = o.run_fs_open_req(
        FsOpenReq { path_vaddr: 0x1000, path_len: 4 },
        5,
        &space,
        Ok(()),
    ) as u32;
    assert!(!o.open_file(5, fd).unwrap().is_regular);
    assert_eq!(o.run_fs_seek(5, fd, 0, SEEK_SET), neg(EBADF));
    let req = FsReaddirReq { fd, buf_vaddr: 0x2000, len: 512 };
    let t = o.readdir_target(req, 5, &space).unwrap();
    assert_eq!((t.cursor, t.page_pa, t.off), (0, 0x8000_2000, 0));
    assert_eq!(o.run_fs_readdir_req(req, 5, &space, Ok((48, 3))), 48);
    assert_eq!(o.open_file(5, fd).unwrap().dir_cursor, 3);
    assert_eq!(o.run_fs_readdir_req(req, 5, &space, Err(FsErr::NotADirectory)), neg(ENOTDIR));
    assert_eq!(o.run_fs_readdir_req(req, 5, &space, Err(FsErr::IoError)), neg(EIO));
    assert_eq!(o.open_file(5, fd).unwrap().dir_cursor, 3);
}

#[test]
fn inspection_tells_what_a_handle_is() {
    let mut o = orbit();
    with_process(&mut o, 5);
    let space = user(0x1000, 0x8000_0000, 0, b"");
    let backing = PhysBacking { pool: Pool::Shared, pa: 0x9_0000, size: 8192, align: 4096 };
    let sup = SharedUserPtr::new(&mut o.regions, backing, 0x40_0000_0000, 8192, 5);
    let chan = ChannelState { peer_addr: 1, peer_port: 2, state: 3 };
    assert_eq!(o.add_handle(5, Handle::Stdin, false, false), Some(0));
    assert_eq!(o.add_handle(5, Handle::NetChannel(sup), false, false), Some(1));
    let none = ChannelState { peer_addr: 0, peer_port: 0, state: 0 };
    let i = o.run_ch_inspect_req(5, &space, 0, 0x1000, chan).unwrap().info;
    assert_eq!((i.kind, i.region_va, i.channel), (HandleKind::Stdin, 0, none));
    let c = o.run_ch_inspect_req(5, &space, 1, 0x1080, chan).unwrap();
    assert_eq!((c.page_pa, c.off), (0x8000_0000, 0x80));
    assert_eq!(c.info.kind, HandleKind::NetChannel);
    assert_eq!((c.info.region_va, c.info.region_size), (0x40_0000_0000, 8192));
    assert_eq!(c.info.channel, chan);
    assert_eq!(o.run_ch_inspect_req(5, &space, 9, 0x1000, chan), Err(neg(EBADF)));
}

#[test]
fn handle_numbers_are_handed_out_once() {
    let mut h = ProcessHandles::new();
    assert!(h.is_empty());
    h.seed_stdio();
    assert_eq!(h.len(), 3);
    assert_eq!(h.get(0), Some(&Handle::Stdin));
    assert_eq!(h.get(1), Some(&Handle::Stdout));
    assert_eq!(h.get(2), Some(&Handle::Stderr));
    let of = OpenFile { inode: 4, offset: 0, dir_cursor: 0, is_regular: true };
    assert_eq!(h.insert(Handle::File(of)), Some(3));
    assert_eq!(h.remove(3), Some(Handle::File(of)));
    // A closed number does not come back.
    assert_eq!(h.insert(Handle::Stdin), Some(4));
    assert_eq!(h.remove(3), None);
    let ev = EventFdSlot { region: SharedUserPtr { pa: 7 }, flags: 2, kernel_parked_tid: 0 };
    assert_eq!(h.insert_with_flags(Handle::EventFd(ev), true, false), Some(5));
    assert!(h.get_slot(5).unwrap().cloexec);
    assert!(h.set(4, Handle::Stdout));
    assert!(!h.set(40, Handle::Stdout));
    assert!(h.set_slot(4, Slot::with_flags(Handle::Stderr, false, true)));
    assert!(h.get_slot(4).unwrap().nonblock);
    assert_eq!(h.insert_at(20, Slot::new(Handle::Stdin)), None);
    assert_eq!(h.insert(Handle::Stdin), Some(21));
    let fds: Vec<u32> = h.iter().iter().map(|x| x.0).collect();
    assert_eq!(fds, vec![0, 1, 2, 4, 5, 20, 21]);
    assert_eq!(h.iter_slots().len(), 7);
    assert_eq!(h.remove_slot(20), Some(Slot::new(Handle::Stdin)));
    assert_eq!(h.remove_slot(20), None);
    assert_eq!(h.into_iter().len(), 6);
}

#[test]
fn handle_numbers_run_out() {
    let mut o = orbit();
    with_process(&mut o, 5);
    let mut h = ProcessHandles::new();
    let _ = h.insert_at(FD_MAX, Slot::new(Handle::Stdin));
    assert_eq!(h.insert(Handle::Stdin), None);
    let _ = o.process_handles.insert(5, h);
    assert_eq!(o.add_handle(5, Handle::Stdin, false, false), None);
    let mut o2 = mounted();
    with_process(&mut o2, 5);
    let mut h = ProcessHandles::new();
    let _ = h.insert_at(FD_MAX, Slot::new(Handle::Stdin));
    let _ = o2.process_handles.insert(5, h);
    let space = user(0x1000, 0x8000_0000, 0, b"/etc/motd");
    let req = FsOpenReq { path_vaddr: 0x1000, path_len: 9 };
    assert_eq!(o2.run_fs_open_req(req, 5, &space, Ok(())), neg(EMFILE));
}

fn reader() -> (Orbit, Queues, UserSpace, u32) {
    let mut o = mounted();
    with_process(&mut o, 5);
    let _ = o.threads.insert(11, thread(11, 5, ThreadState::Blocking));
    o.setup_page_cache(&mut Machine::new(1), &frames(64));
    let mut space = user(0x1000, 0x8000_0000, 0, b"/etc/motd");
    assert!(space.map_page(0x2000, 0x8000_2000, vec![0u8; 4096]));
    assert!(space.map_page(0x3000, 0x8000_7000, vec![0u8; 4096]));
    let fd = o.run_fs_open_req(
        FsOpenReq { path_vaddr: 0x1000, path_len: 9 },
        5,
        &space,
        Ok(()),
    ) as u32;
    (o, Queues::new(), space, fd)
}

#[test]
fn read_waits_for_the_device_and_then_copies() {
    let (mut o, mut q, space, fd) = reader();
    let req = FsReadReq { fd, buf_vaddr: 0x2f00, len: 1000 };
    let mut walk = o.run_fs_read_req(&mut q, 0, req, 5, 11).unwrap();
    let mut copies = Vec::new();
    let b = o.advance_fs_read(&space, &mut walk, &mut copies).unwrap();
    assert_eq!(b.key, CacheKey { dev: 1, lba: 2 });
    assert_eq!((b.pa, b.slice_len), (0x4_0000, 256));
    assert_eq!(unpack(b.packed_key), Some(b.key));
    o.fs_read_submitted(&mut walk, b, true);
    // The rest lies on the page that is already on its way.
    assert_eq!(o.advance_fs_read(&space, &mut walk, &mut copies), None);
    assert_eq!((walk.done, walk.pending, walk.failed), (0, 1000, false));
    assert!(copies.is_empty());
    o.finish_fs_read(&mut q, 0, walk);
    assert_eq!(o.open_file(5, fd).unwrap().offset, 1000);
    assert_eq!(
        o.fs_reads_in_progress.get(&11),
        Some(&FsReadInProgress { bytes_pending: 1000, bytes_done: 0, failed: false })
    );
    assert_eq!(o.threads[&11].state, ThreadState::Blocking);
    let mut fill = o.run_cache_fill(b.packed_key, 0).unwrap();
    let mut fills = Vec::new();
    assert_eq!(o.advance_cache_fill(&mut q, 0, &mut fill, &mut fills), None);
    assert_eq!(
        fills,
        vec![
            FillCopy::User(PageCopy {
                src_pa: 0x4_0000,
                src_off: 0,
                dst_page_pa: 0x8000_2000,
                dst_off: 0xf00,
                len: 256,
            }),
            FillCopy::User(PageCopy {
                src_pa: 0x4_0000,
                src_off: 256,
                dst_page_pa: 0x8000_7000,
                dst_off: 0,
                len: 744,
            }),
        ]
    );
    assert!(o.fs_reads_in_progress.is_empty());
    assert_eq!(o.threads[&11].frame.a0 as i64, 1000);
    assert_eq!(o.threads[&11].state, ThreadState::Ready);
}

#[test]
fn a_walk_that_fails_shortens_a_waiting_read() {
    let (mut o, mut q, space, fd) = reader();
    let _ = o.run_fs_seek(5, fd, 4000, SEEK_SET);
    let req = FsReadReq { fd, buf_vaddr: 0x2010, len: 200 };
    let mut walk = o.run_fs_read_req(&mut q, 0, req, 5, 11).unwrap();
    let mut copies = Vec::new();
    let first = o.advance_fs_read(&space, &mut walk, &mut copies).unwrap();
    o.fs_read_submitted(&mut walk, first, true);
    // The device refuses the second page.
    let second = o.advance_fs_read(&space, &mut walk, &mut copies).unwrap();
    o.fs_read_submitted(&mut walk, second, false);
    assert_eq!(o.advance_fs_read(&space, &mut walk, &mut copies), None);
    assert_eq!((walk.done, walk.pending, walk.failed), (0, 96, true));
    o.finish_fs_read(&mut q, 0, walk);
    assert_eq!(o.open_file(5, fd).unwrap().offset, 4096);
    let mut fill = o.run_cache_fill(first.packed_key, 0).unwrap();
    let mut fills = Vec::new();
    assert_eq!(o.advance_cache_fill(&mut q, 0, &mut fill, &mut fills), None);
    assert_eq!(fills.len(), 1);
    assert_eq!(o.threads[&11].frame.a0 as i64, 96);
    assert_eq!(o.threads[&11].state, ThreadState::Ready);
}

#[test]
fn a_page_that_cannot_be_filled_fails_a_shortened_read() {
    let (mut o, mut q, space, fd) = reader();
    let _ = o.run_fs_seek(5, fd, 4000, SEEK_SET);
    let req = FsReadReq { fd, buf_vaddr: 0x2010, len: 200 };
    let mut walk = o.run_fs_read_req(&mut q, 0, req, 5, 11).unwrap();
    let mut copies = Vec::new();
    let first = o.advance_fs_read(&space, &mut walk, &mut copies).unwrap();
    o.fs_read_submitted(&mut walk, first, true);
    let second = o.advance_fs_read(&space, &mut walk, &mut copies).unwrap();
    o.fs_read_submitted(&mut walk, second, false);
    o.finish_fs_read(&mut q, 0, walk);
    let mut fill = o.run_cache_fill(first.packed_key, 1).unwrap();
    let mut fills = Vec::new();
    assert_eq!(o.advance_cache_fill(&mut q, 0, &mut fill, &mut fills), None);
    assert!(fills.is_empty());
    assert_eq!(o.threads[&11].frame.a0 as i64, neg(EIO));
}

#[test]
fn read_of_cached_pages_copies_the_file() {
    let (mut o, mut q, space, fd) = reader();
    for _ in 0..2 {
        let _ = o.run_fs_seek(5, fd, 4000, SEEK_SET);
        let req = FsReadReq { fd, buf_vaddr: 0x2010, len: 200 };
        let mut walk = o.run_fs_read_req(&mut q, 0, req, 5, 11).unwrap();
        let mut copies = Vec::new();
        let mut submits = Vec::new();
        while let Some(b) = o.advance_fs_read(&space, &mut walk, &mut copies) {
            o.fs_read_submitted(&mut walk, b, true);
            submits.push(b);
        }
        o.finish_fs_read(&mut q, 0, walk);
        if submits.is_empty() {
            // Both pages were in the cache: frames of the first pass.
            assert_eq!((walk.done, walk.pending), (200, 0));
            assert_eq!(
                copies,
                vec![
                    PageCopy {
                        src_pa: 0x4_0000,
                        src_off: 4000,
                        dst_page_pa: 0x8000_2000,
                        dst_off: 0x10,
                        len: 96,
                    },
                    PageCopy {
                        src_pa: 0x3_f000,
                        src_off: 0,
                        dst_page_pa: 0x8000_2000,
                        dst_off: 0x70,
                        len: 104,
                    },
                ]
            );
            return;
        }
        let lbas: Vec<u64> = submits.iter().map(|b| b.key.lba).collect();
        assert_eq!(lbas, vec![2, 10]);
        for b in submits {
            let mut fill = o.run_cache_fill(b.packed_key, 0).unwrap();
            let mut fills = Vec::new();
            assert_eq!(o.advance_cache_fill(&mut q, 0, &mut fill, &mut fills), None);
        }
    }
    panic!("the second read went to the device");
}

#[test]
fn failed_device_reads_give_eio() {
    let (mut o, mut q, space, fd) = reader();
    let req = FsReadReq { fd, buf_vaddr: 0x2000, len: 100 };
    let mut walk = o.run_fs_read_req(&mut q, 0, req, 5, 11).unwrap();
    let mut copies = Vec::new();
    let b = o.advance_fs_read(&space, &mut walk, &mut copies).unwrap();
    o.fs_read_submitted(&mut walk, b, false);
    assert!(walk.failed);
    o.finish_fs_read(&mut q, 0, walk);
    assert_eq!(o.threads[&11].frame.a0 as i64, neg(EIO));

    let (mut o, mut q, space, fd) = reader();
    let req = FsReadReq { fd, buf_vaddr: 0x2000, len: 100 };
    let mut walk = o.run_fs_read_req(&mut q, 0, req, 5, 11).unwrap();
    let b = o.advance_fs_read(&space, &mut walk, &mut copies).unwrap();
    o.fs_read_submitted(&mut walk, b, true);
    assert_eq!(o.advance_fs_read(&space, &mut walk, &mut copies), None);
    o.finish_fs_read(&mut q, 0, walk);
    let mut fill = o.run_cache_fill(b.packed_key, 1).unwrap();
    let mut fills = Vec::new();
    assert_eq!(o.advance_cache_fill(&mut q, 0, &mut fill, &mut fills), None);
    assert!(fills.is_empty());
    assert_eq!(o.threads[&11].frame.a0 as i64, neg(EIO));
}

#[test]
fn reads_at_the_end_and_of_bad_handles_answer_at_once() {
    let (mut o, mut q, _space, fd) = reader();
    let _ = o.run_fs_seek(5, fd, 0, SEEK_END);
    let req = FsReadReq { fd, buf_vaddr: 0x2000, len: 100 };
    assert!(o.run_fs_read_req(&mut q, 0, req, 5, 11).is_none());
    assert_eq!(o.threads[&11].frame.a0 as i64, 0);
    let (mut o, mut q, _space, _fd) = reader();
    let req = FsReadReq { fd: 77, buf_vaddr: 0x2000, len: 100 };
    assert!(o.run_fs_read_req(&mut q, 0, req, 5, 11).is_none());
    assert_eq!(o.threads[&11].frame.a0 as i64, neg(EBADF));
}

#[test]
fn a_stale_completion_does_nothing() {
    let (mut o, _q, _space, _fd) = reader();
    assert!(o.run_cache_fill(0, 0).is_none());
    assert!(o.run_cache_fill(pack(CacheKey { dev: 1, lba: 99 }), 0).is_none());
}

#[test]
fn stat_records_are_plain_values() {
    let fs = Tarfs::mount(&image()).ok().unwrap();
    let s: Stat = fs.stat(fs.open(b"/etc/motd").unwrap()).unwrap();
    assert_eq!((s.st_rdev, s.st_atime, s.st_ctime), (0, 100, 100));
    assert_eq!((s.st_atime_nsec, s.st_mtime_nsec, s.st_ctime_nsec), (0, 0, 0));
}
