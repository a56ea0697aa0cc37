//! Address spaces, windows, devices and counters.

use kmain::device_tree::{
    get_environment_info, read_tree, setup_igb, BootStep, DtNode, DtReg, NicPlan,
};
use kmain::hart::{
    check_context_and_switch, kick_machine_harts, supervisor_clear_ipi, supervisor_wake_hart,
    RegisterWrite, Switch,
};
use kmain::memmap::{
    init_layout, install_kmmio_alias, kdmap_base, kernel_phys_base, kernel_table_bias, kmmio_alloc,
    kmmio_base, kmmio_clint, kmmio_sswi, kmmio_uart, kscratch_base, ktext_base,
    linked_to_high_half, map_kernel_self, map_kernel_shared, phys_to_kdmap, ram_phys_base,
    unmap_boot_only_regions, user_va_to_kdmap, AddressMap, BootSections, FrameToKdmap,
    ImageSections, KdmapVa, KernelLayout, Region, RegionPerms, Section, TableFrame, UserVa,
    KDMAP_NOMINAL, KMMIO_NOMINAL, KSCRATCH_NOMINAL, KSCRATCH_SIZE, KTEXT_NOMINAL,
};
use kmain::page_cache::SharedFrame;
use kmain::pci::{
    cacheline_word, config_address, first_match, interrupt_line, scan_pci, ConfigWords, PciDevice,
};
use kmain::process::ThreadState;
use kmain::shootdown::{
    broadcast, broadcast_all, broadcast_scope, broadcast_targets, broadcast_told, flush_for, init,
    mark_secondaries_kicked, Flush, FlushPost, FlushScope, Shootdown, SpinWatch,
};
use kmain::tracked_heap::TrackedHeap;
use kmain::user_page::{LeafWrite, UserPageWindow, WindowSlot};

fn nominal() -> AddressMap {
    init_layout(
        0x8000_0000,
        KTEXT_NOMINAL,
        KDMAP_NOMINAL,
        KMMIO_NOMINAL,
        KSCRATCH_NOMINAL,
        0x8020_0000,
    )
}

#[test]
fn layout_bases_are_kept() {
    let m = nominal();
    assert_eq!(ram_phys_base(&m), 0x8000_0000);
    assert_eq!(ktext_base(&m), 0xFFFF_FFC0_0000_0000);
    assert_eq!(kdmap_base(&m), 0xFFFF_FFD0_0000_0000);
    assert_eq!(kmmio_base(&m), 0xFFFF_FFE0_0000_0000);
    assert_eq!(kscratch_base(&m), 0xFFFF_FFF0_0000_0000);
    assert_eq!(kernel_phys_base(&m), 0x8020_0000);
    assert_eq!(kernel_table_bias(&m), 0xFFFF_FFCF_8000_0000);
    assert_eq!(kmmio_uart(&m), 0xFFFF_FFE0_0000_0000);
    assert_eq!(kmmio_clint(&m), 0xFFFF_FFE0_0000_1000);
    assert_eq!(kmmio_sswi(&m), 0xFFFF_FFE0_0000_2000);
    assert_eq!(linked_to_high_half(&m, 0x1234), 0xFFFF_FFC0_0000_0234);
}

#[test]
fn direct_map_round_trip() {
    let m = nominal();
    let k = phys_to_kdmap(&m, 0x8765_4000);
    assert_eq!(k.raw(), 0xFFFF_FFD0_0765_4000);
    assert_eq!(k.to_phys(&m), 0x8765_4000);
    assert_eq!(KdmapVa::new(0xFFFF_FFD0_0000_0010).to_phys(&m), 0x8000_0010);
    assert_eq!(SharedFrame { pa: 0x8000_1000 }.to_kdmap(&m).raw(), 0xFFFF_FFD0_0000_1000);
    assert_eq!(TableFrame { pa: 0x8000_2000 }.to_kdmap(&m).raw(), 0xFFFF_FFD0_0000_2000);
    assert_eq!(UserVa::new(0x4000).raw(), 0x4000);
    assert!(user_va_to_kdmap(&m, None).is_none());
    assert_eq!(user_va_to_kdmap(&m, Some(0x8000_0040)).unwrap().raw(), 0xFFFF_FFD0_0000_0040);
}

#[test]
fn device_regions_do_not_overlap() {
    let mut m = nominal();
    let a = kmmio_alloc(&mut m, 5000);
    let b = kmmio_alloc(&mut m, 1);
    assert_eq!(a, KMMIO_NOMINAL + 0x20_0000);
    assert_eq!(b, a + 8192);
    let p = install_kmmio_alias(&mut m, 0x3000_0000..0x3000_1800);
    assert_eq!((p.va, p.pa, p.len), (b + 4096, 0x3000_0000, 0x1800));
    assert_eq!(p.perms, RegionPerms::ReadWrite);
    assert_eq!(kmmio_alloc(&mut m, 4096), b + 4096 + 0x2000);
}

#[test]
fn pools_fill_the_top_of_memory() {
    let l = KernelLayout::new(0x8000_0000, 0x4000_0000, 0xBFE0_0000, 0x1000_0000);
    assert_eq!(l.ktables, 0xB7E0_0000..0xBFE0_0000);
    assert_eq!(l.kheap, 0xAFE0_0000..0xB7E0_0000);
    assert_eq!(l.kpages, 0xA7E0_0000..0xAFE0_0000);
    assert_eq!(l.user_pages, 0x9FE0_0000..0xA7E0_0000);
    assert_eq!(l.dtb, 0xBFE0_0000..0xC000_0000);
    assert_eq!(l.serial, 0x1000_0000);
}

fn sections() -> ImageSections {
    let s = |start: u64, end: u64| Section { start, end };
    ImageSections {
        text: s(0x1000, 0x2800),
        rodata: s(0x3000, 0x3100),
        data: s(0x4000, 0x5000),
        bss: s(0x5000, 0x5000),
        got: s(0x6000, 0x6001),
    }
}

fn boot_sections(base: u64) -> BootSections {
    let s = |n: u64, len: u64| Section { start: base + 0x1000 * n, end: base + 0x1000 * n + len };
    BootSections {
        rela_dyn: s(0, 0x800),
        gnu_hash: s(1, 0x1000),
        dynsym: s(2, 1),
        hash: s(3, 0),
        dynstr: s(4, 0xFFF),
        eh_frame: s(5, 0x1800),
        dynamic: s(7, 0x10),
    }
}

#[test]
fn kernel_regions_are_listed() {
    let (rx, rw, ro) =
        (RegionPerms::ReadExecute, RegionPerms::ReadWrite, RegionPerms::ReadOnly);
    let m = nominal();
    let l = KernelLayout::new(0x8000_0000, 0x4000_0000, 0xBFE0_0000, 0x1000_0000);
    let shared = map_kernel_shared(&m, &l, &sections());
    assert_eq!(shared.window, KSCRATCH_NOMINAL..KSCRATCH_NOMINAL + KSCRATCH_SIZE);
    let r = shared.regions;
    assert_eq!(r.len(), 11);
    assert_eq!((r[0].va, r[0].pa, r[0].len), (KTEXT_NOMINAL, 0x8020_0000, 0x2000));
    assert_eq!((r[1].va, r[1].pa, r[1].len), (KTEXT_NOMINAL + 0x2000, 0x8020_2000, 0x1000));
    assert_eq!(r[3].len, 0);
    assert_eq!(r[4].len, 0x1000);
    assert_eq!((r[5].va, r[5].pa), (KDMAP_NOMINAL + 0x2FE0_0000, 0xAFE0_0000));
    assert_eq!(r[5].len, 0x800_0000);
    assert_eq!((r[8].va, r[8].pa, r[8].len), (KMMIO_NOMINAL, 0x1000_0000, 4096));
    assert_eq!((r[9].va, r[9].pa), (KMMIO_NOMINAL + 0x1000, 0x0200_0000));
    assert_eq!((r[10].va, r[10].pa), (KMMIO_NOMINAL + 0x2000, 0x02F0_0000));
    for p in r[5..8].iter() {
        assert!(p.pa >= l.user_pages.end);
    }
    let perms: Vec<RegionPerms> = r.iter().map(|p| p.perms).collect();
    assert_eq!(perms[..5], [rx, ro, rw, rw, ro]);
    assert_eq!(perms[5..], [rw; 6]);

    let own = map_kernel_self(&m, &l, &sections(), &boot_sections(0x7000));
    assert_eq!(own.window, shared.window);
    assert_eq!(own.regions[..11], r);
    let b = &own.regions[11..];
    assert_eq!(b.len(), 8);
    assert!(b.iter().all(|p| p.perms == ro));
    assert_eq!((b[0].va, b[0].pa, b[0].len), (KTEXT_NOMINAL + 0x6000, 0x8020_6000, 0x1000));
    assert_eq!((b[3].len, b[5].len), (0, 0x2000));
    assert_eq!((b[7].pa, b[7].len), (0xBFE0_0000, 0x20_0000));
}

#[test]
fn boot_sections_are_unmapped_where_they_run() {
    let m = nominal();
    let l = KernelLayout::new(0x8000_0000, 0x4000_0000, 0xBFE0_0000, 0x1000_0000);
    // The image runs in its window.
    let mut s = sections();
    for part in [&mut s.text, &mut s.rodata, &mut s.data, &mut s.bss, &mut s.got] {
        part.start += KTEXT_NOMINAL - 0x1000;
        part.end += KTEXT_NOMINAL - 0x1000;
    }
    let b = boot_sections(KTEXT_NOMINAL + 0x6000);
    let mapped = map_kernel_self(&m, &l, &s, &b).regions;
    let gone = unmap_boot_only_regions(&b);
    assert_eq!(gone.len(), 7);
    assert_eq!(
        gone[0],
        Region {
            start: KTEXT_NOMINAL + 0x6000,
            end: KTEXT_NOMINAL + 0x7000,
            perms: RegionPerms::ReadOnly
        }
    );
    for (p, r) in mapped[11..].iter().zip(&gone) {
        assert_eq!((p.va, p.va + p.len), (r.start, r.end));
    }
}

#[test]
fn window_closes_what_it_opened() {
    let m = nominal();
    let mut slot = WindowSlot::new();
    let (w, opened) = UserPageWindow::map(&mut slot, &m, 0x9000_0000, 5000);
    assert_eq!(w.kva(), KSCRATCH_NOMINAL);
    assert_eq!(w.len(), 5000);
    assert_eq!(
        opened,
        vec![
            LeafWrite { va: KSCRATCH_NOMINAL, pa: Some(0x9000_0000) },
            LeafWrite { va: KSCRATCH_NOMINAL + 4096, pa: Some(0x9000_1000) },
        ]
    );
    let closed = w.close(&mut slot);
    assert_eq!(
        closed,
        vec![
            LeafWrite { va: KSCRATCH_NOMINAL, pa: None },
            LeafWrite { va: KSCRATCH_NOMINAL + 4096, pa: None },
        ]
    );
    let (again, _) = UserPageWindow::map(&mut slot, &m, 0x9000_0000, 1);
    assert_eq!(again.len(), 1);
}

fn words(vendor: u16, device: u16) -> ConfigWords {
    ConfigWords {
        id: ((device as u32) << 16) | vendor as u32,
        status: 0x0010_0007,
        class: 0x0200_0003,
        header: 0x0080_0000,
        header_after: 0x0080_0010,
    }
}

#[test]
fn configuration_words_are_decoded() {
    let d = PciDevice::from_address(0x3000_8000, words(0x8086, 0x100E));
    assert_eq!((d.vendor_id, d.device_id), (0x8086, 0x100E));
    assert_eq!((d.status, d.command), (0x0010, 0x0007));
    assert_eq!((d.class, d.rev), (0x020000, 3));
    assert_eq!((d.htype, d.cacheline), (0x80, 0x10));
    assert_eq!(cacheline_word(0x0080_0000), 0x0080_0010);
    assert_eq!(d.bar_address(2), 0x3000_8018);
    assert_eq!(d.slot(), 1);
    assert_eq!(interrupt_line(&d), 33);
}

#[test]
fn bar_sizes() {
    let d = PciDevice::from_address(0, words(1, 1));
    assert_eq!(d.get_bar_size(0xFFFE_0000), 0x2_0000);
    assert_eq!(d.get_bar_size(0xFFFF_FFF8), 0x10);
    assert_eq!(d.get_bar_size(0), 0xFFFF_FFFF);
}

#[test]
fn bus_scan_finds_devices_in_order() {
    let mut all = vec![words(0xFFFF, 0xFFFF); 65536];
    all[8 * 3] = words(0x8086, 0x100E);
    all[256 + 8] = words(0x1AF4, 0x1000);
    all[256 * 2] = words(0x8086, 0x100E);
    let found = scan_pci(0x3000_0000, &all, &vec![(0x8086, 0x100E)]);
    assert_eq!(found.len(), 2);
    assert_eq!(found[0].address, 0x3000_0000 + 3 * 8 * 4096);
    assert_eq!(found[1].address, 0x3020_0000);
    assert!(scan_pci(0x3000_0000, &all, &vec![(1, 1)]).is_empty());
    for i in [0u32, 1, 255, 256, 65535] {
        assert_eq!(config_address(0x3000_0000, i), 0x3000_0000 + 4096 * i as u64);
    }
    assert_eq!(first_match(&found), Some(found[0]));
    assert_eq!(first_match(&vec![]), None);
}

#[test]
fn functions_have_their_own_space_wherever_the_bus_begins() {
    // The first region of the device window starts two megabytes into it.
    let mut m = nominal();
    let base = kmmio_alloc(&mut m, 0x1000_0000);
    assert_eq!(base, 0xFFFF_FFE0_0020_0000);
    assert_eq!(config_address(base, 0), base);
    assert_eq!(config_address(base, 512), base + (2 << 20));
    let (bus, dev, func) = (3u64, 31u64, 7u64);
    assert_eq!(
        config_address(base, 3 * 256 + 31 * 8 + 7),
        base + ((bus << 20) | (dev << 15) | (func << 12))
    );
    let mut all = vec![words(0xFFFF, 0xFFFF); 65536];
    all[512] = words(0x8086, 0x100E);
    let found = scan_pci(base, &all, &vec![(0x8086, 0x100E)]);
    assert_eq!(found.len(), 1);
    assert_eq!(found[0].address, base + 0x20_0000);
}

fn node(name: &str, reg: Option<DtReg>, children: Vec<DtNode>) -> DtNode {
    DtNode { name: name.as_bytes().to_vec(), reg, children }
}

#[test]
fn interrupts_come_before_devices() {
    let bus = DtReg { base: 0x3000_0000, size: 0x1000_0000 };
    let other = DtReg { base: 0x4000_0000, size: 0x1000 };
    let root = node(
        "",
        None,
        vec![
            node("pci@30000000", Some(bus), vec![]),
            node("cpus", None, vec![node("cpu@0", None, vec![])]),
            node(
                "soc",
                None,
                vec![
                    node("plic@c000000", None, vec![node("pci@1", Some(other), vec![])]),
                    node("pci@40000000", Some(other), vec![]),
                    node("pcie", None, vec![]),
                ],
            ),
        ],
    );
    assert_eq!(
        get_environment_info(&root),
        vec![
            BootStep::SerialThread,
            BootStep::Plic,
            BootStep::Pci(other),
            BootStep::Pci(bus),
            BootStep::VirtioProbe,
            BootStep::Gpu,
            BootStep::Input,
            BootStep::Block,
            BootStep::PageCache,
        ]
    );
}

#[test]
fn network_card_plan() {
    let d = PciDevice::from_address(0x3001_0000, words(0x8086, 0x100E));
    assert_eq!(
        setup_igb(&d, 0x2_0000, 4),
        Some(NicPlan { bar_pa: 0x4000_0000, bar_size: 0x2_0000, irq: 34, irq_hart: 1 })
    );
    assert_eq!(setup_igb(&d, 0x20_0000, 1).unwrap().irq_hart, 0);
    assert_eq!(setup_igb(&d, 0x20_0001, 4), None);
}

#[test]
fn broadcast_reaches_the_others() {
    let mut s = Shootdown::new();
    assert!(broadcast_targets(&s, 0).is_empty());
    init(&mut s, 4);
    assert!(broadcast(&s, 1, 7, 0x5000, 4096).is_empty());
    mark_secondaries_kicked(&mut s);
    mark_secondaries_kicked(&mut s);
    assert_eq!(broadcast_targets(&s, 1), vec![0, 2, 3]);
    let posts = broadcast(&s, 1, 7, 0x5000, 4096);
    let post = |hart: u64| FlushPost { hart, scope: FlushScope::Asid(7), va: 0x5000, len: 4096 };
    assert_eq!(posts, vec![post(0), post(2), post(3)]);
    let all = broadcast_told(&posts, &vec![true, true, true]);
    assert_eq!((all.told, all.pending, all.failed), (vec![0, 2, 3], 3, 0));
    let b = broadcast_told(&posts, &vec![true, false, true]);
    assert_eq!((b.told, b.pending, b.failed), (vec![0, 3], 2, 1));
    let everything = broadcast_all(&s, 3);
    assert_eq!(
        everything[0],
        FlushPost { hart: 0, scope: FlushScope::All, va: 0, len: 0 }
    );
    assert_eq!(everything, broadcast_scope(&s, 3, FlushScope::All, 0, 0));
    init(&mut s, 1);
    assert!(broadcast(&s, 0, 7, 0, 0).is_empty());
}

#[test]
fn flushes_match_their_requests() {
    assert_eq!(flush_for(FlushScope::All, 0x1000), Flush::Everything);
    assert_eq!(flush_for(FlushScope::Asid(7), 0), Flush::AddressSpace(7));
    assert_eq!(flush_for(FlushScope::Asid(7), 0x5000), Flush::Page { asid: 7, va: 0x5000 });
}

#[test]
fn long_waits_are_reported_ever_more_rarely() {
    let mut w = SpinWatch::new();
    let mut reports = Vec::new();
    for i in 1..=5_000_000u64 {
        if w.spin() {
            reports.push(i);
        }
    }
    assert_eq!(reports, vec![1_000_000, 4_000_000]);
    assert_eq!(w.next_warn, 16_000_000);
}

#[test]
fn harts_are_interrupted_by_their_register() {
    assert_eq!(supervisor_wake_hart(0x2000, 3), RegisterWrite { addr: 0x200C, value: 1 });
    assert_eq!(supervisor_clear_ipi(0x2000, 3), RegisterWrite { addr: 0x200C, value: 0 });
    let sswi = kmmio_sswi(&nominal());
    assert_eq!(supervisor_wake_hart(sswi, 5).addr, KMMIO_NOMINAL + 0x2014);
    assert_eq!(supervisor_clear_ipi(sswi, 5).addr, KMMIO_NOMINAL + 0x2014);
    assert_eq!(
        kick_machine_harts(0x1000, 3),
        vec![
            RegisterWrite { addr: 0x1000, value: 1 },
            RegisterWrite { addr: 0x1004, value: 1 },
            RegisterWrite { addr: 0x1008, value: 1 },
        ]
    );
    assert!(kick_machine_harts(0x1000, 0).is_empty());
}

#[test]
fn interrupted_threads_switch() {
    assert_eq!(check_context_and_switch(None), Switch::Idle);
    assert_eq!(
        check_context_and_switch(Some(ThreadState::Running)),
        Switch::Leave(ThreadState::Ready)
    );
    assert_eq!(
        check_context_and_switch(Some(ThreadState::Exited)),
        Switch::Leave(ThreadState::Exited)
    );
    assert_eq!(check_context_and_switch(Some(ThreadState::Suspended)), Switch::Forget);
    assert_eq!(check_context_and_switch(Some(ThreadState::Blocking)), Switch::Forget);
    assert_eq!(check_context_and_switch(Some(ThreadState::Assigned)), Switch::Stay);
    assert_eq!(check_context_and_switch(Some(ThreadState::Ready)), Switch::Stay);
}

#[test]
fn heap_counts() {
    let mut h = TrackedHeap::empty();
    assert_eq!((h.allocated_bytes(), h.free_bytes()), (0, 0));
    h.init(1000);
    h.note_alloc(300, true);
    h.note_alloc(500, false);
    assert_eq!((h.allocated_bytes(), h.free_bytes()), (300, 700));
    h.note_dealloc(300);
    assert_eq!(h.free_bytes(), 1000);
}

fn be(v: u32) -> [u8; 4] {
    v.to_be_bytes()
}

fn begin(out: &mut Vec<u8>, name: &str) {
    out.extend(be(1));
    out.extend(name.as_bytes());
    out.push(0);
    while out.len() % 4 != 0 {
        out.push(0);
    }
}

fn property(out: &mut Vec<u8>, name_at: u32, cells: &[u32]) {
    out.extend(be(3));
    out.extend(be(4 * cells.len() as u32));
    out.extend(be(name_at));
    for c in cells {
        out.extend(be(*c));
    }
}

/// A root with `#address-cells` and `#size-cells` of two, and below it a memory
/// node and a bus with an interrupt controller and a PCI bridge.
fn tree_image() -> Vec<u8> {
    let strings = b"#address-cells\0#size-cells\0reg\0";
    let mut tree = Vec::new();
    begin(&mut tree, "");
    property(&mut tree, 0, &[2]);
    property(&mut tree, 15, &[2]);
    begin(&mut tree, "memory@80000000");
    property(&mut tree, 27, &[0, 0x8000_0000, 0, 0x800_0000]);
    tree.extend(be(2));
    begin(&mut tree, "soc");
    property(&mut tree, 0, &[2]);
    property(&mut tree, 15, &[2]);
    begin(&mut tree, "pci@30000000");
    property(&mut tree, 27, &[0, 0x3000_0000, 0, 0x1000_0000]);
    tree.extend(be(2));
    begin(&mut tree, "plic@c000000");
    tree.extend(be(2));
    tree.extend(be(2));
    tree.extend(be(2));
    tree.extend(be(9));
    let at_tree: u32 = 40 + 16;
    let at_strings = at_tree + tree.len() as u32;
    let total = at_strings + strings.len() as u32;
    let mut out = Vec::new();
    for word in [
        0xd00d_feed,
        total,
        at_tree,
        at_strings,
        40,
        17,
        16,
        0,
        strings.len() as u32,
        tree.len() as u32,
    ] {
        out.extend(be(word));
    }
    out.extend([0u8; 16]);
    out.extend(tree);
    out.extend(strings);
    out
}

#[test]
fn device_trees_are_read_from_their_image() {
    let root = read_tree(&tree_image()).unwrap();
    assert_eq!(root.name, b"".to_vec());
    assert_eq!(root.children.len(), 2);
    assert_eq!(root.children[0].name, b"memory@80000000".to_vec());
    assert_eq!(
        root.children[0].reg,
        Some(DtReg { base: 0x8000_0000, size: 0x800_0000 })
    );
    let soc = &root.children[1];
    assert_eq!((soc.children.len(), soc.reg), (2, None));
    assert_eq!(soc.children[1].name, b"plic@c000000".to_vec());
    assert!(soc.children[1].children.is_empty());
    let pci = DtReg { base: 0x3000_0000, size: 0x1000_0000 };
    assert_eq!(
        get_environment_info(&root)[..3],
        [BootStep::SerialThread, BootStep::Plic, BootStep::Pci(pci)]
    );
    assert!(read_tree(b"no tree").is_none());
    let mut cut = tree_image();
    cut.pop();
    assert!(read_tree(&cut).is_none());
}
