//! Kernel address space: where the windows of the high half lie, how physical
//! memory is carved into pools, and which regions every page table maps.

use crate::page_cache::SharedFrame;
use core::ops::Range;
use vstd::prelude::*;

verus! {

/// One mebibyte.
pub const MB: u64 = 0x10_0000;

/// Software interrupt registers of the machine mode, one word per hart.
pub const CLINT_MSIP_BASE: u64 = 0x0200_0000;

/// Software interrupt registers of the supervisor mode, one word per hart.
pub const ACLINT_SSWI_BASE: u64 = 0x02F0_0000;

/// Address that the kernel is linked at.
pub const LINK_BASE: u64 = 0x1000;

/// Nominal bases of the windows of the high half.
pub const KTEXT_NOMINAL: u64 = 0xFFFF_FFC0_0000_0000;

pub const KDMAP_NOMINAL: u64 = 0xFFFF_FFD0_0000_0000;

pub const KMMIO_NOMINAL: u64 = 0xFFFF_FFE0_0000_0000;

pub const KSCRATCH_NOMINAL: u64 = 0xFFFF_FFF0_0000_0000;

/// Size of the window through which the kernel writes user pages.
pub const KSCRATCH_SIZE: u64 = 0x200_0000;

/// Where the arena for discovered devices starts in the device window.
pub const KMMIO_ARENA_OFFSET: u64 = 0x20_0000;

/// Sizes of the physical pools. The device tree lies in a guard at the top of
/// memory; the pools grow downward from it.
pub const KTABLES_SIZE: u64 = 0x800_0000;

pub const KHEAP_SIZE: u64 = 0x800_0000;

pub const KPAGES_SIZE: u64 = 0x800_0000;

pub const USER_PAGES_SIZE: u64 = 0x800_0000;

pub const DTB_GUARD_SIZE: u64 = 0x20_0000;

/// Where the windows are, and how much of the device arena is taken. Set once
/// at boot.
#[derive(Clone, Copy, Debug, PartialEq, Eq, Structural)]
pub struct AddressMap {
    ram_phys: u64,
    ktext: u64,
    kdmap: u64,
    kmmio: u64,
    kscratch: u64,
    kernel_phys: u64,
    arena_next: u64,
}

/// What an address map holds.
pub struct MapView {
    pub ram_phys: u64,
    pub ktext: u64,
    pub kdmap: u64,
    pub kmmio: u64,
    pub kscratch: u64,
    pub kernel_phys: u64,
    pub arena_next: u64,
}

impl View for AddressMap {
    type V = MapView;

    closed spec fn view(&self) -> MapView {
        MapView {
            ram_phys: self.ram_phys,
            ktext: self.ktext,
            kdmap: self.kdmap,
            kmmio: self.kmmio,
            kscratch: self.kscratch,
            kernel_phys: self.kernel_phys,
            arena_next: self.arena_next,
        }
    }
}

impl MapView {
    /// Distance from a physical address to its alias in the direct map, modulo
    /// two to the 64.
    pub open spec fn bias(self) -> u64 {
        vstd::wrapping::u64_specs::wrapping_sub(self.kdmap, self.ram_phys)
    }

    /// The direct-map alias of a physical address.
    pub open spec fn alias(self, pa: u64) -> u64 {
        vstd::wrapping::u64_specs::wrapping_add(pa, self.bias())
    }

    /// The physical address behind a direct-map alias.
    pub open spec fn behind(self, va: u64) -> u64 {
        vstd::wrapping::u64_specs::wrapping_sub(va, self.bias())
    }
}

/// Sets up the windows.
pub fn init_layout(
    ram_phys: u64,
    ktext: u64,
    kdmap: u64,
    kmmio: u64,
    kscratch: u64,
    kernel_phys: u64,
) -> (r: AddressMap)
    ensures
        r@ == (MapView {
            ram_phys,
            ktext,
            kdmap,
            kmmio,
            kscratch,
            kernel_phys,
            arena_next: KMMIO_ARENA_OFFSET,
        }),
{
    AddressMap {
        ram_phys,
        ktext,
        kdmap,
        kmmio,
        kscratch,
        kernel_phys,
        arena_next: KMMIO_ARENA_OFFSET,
    }
}

/// Start of physical memory.
pub fn ram_phys_base(map: &AddressMap) -> (r: u64)
    ensures
        r == map@.ram_phys,
{
    map.ram_phys
}

/// Start of the kernel image's window.
pub fn ktext_base(map: &AddressMap) -> (r: u64)
    ensures
        r == map@.ktext,
{
    map.ktext
}

/// Start of the direct map.
pub fn kdmap_base(map: &AddressMap) -> (r: u64)
    ensures
        r == map@.kdmap,
{
    map.kdmap
}

/// Start of the device window.
pub fn kmmio_base(map: &AddressMap) -> (r: u64)
    ensures
        r == map@.kmmio,
{
    map.kmmio
}

/// Start of the scratch window.
pub fn kscratch_base(map: &AddressMap) -> (r: u64)
    ensures
        r == map@.kscratch,
{
    map.kscratch
}

/// Physical address that the kernel image was loaded at.
pub fn kernel_phys_base(map: &AddressMap) -> (r: u64)
    ensures
        r == map@.kernel_phys,
{
    map.kernel_phys
}

/// Distance from a physical address to its alias in the direct map.
pub fn kernel_table_bias(map: &AddressMap) -> (r: u64)
    ensures
        r == map@.bias(),
{
    map.kdmap.wrapping_sub(map.ram_phys)
}

/// The device window's first page: the UART.
pub fn kmmio_uart(map: &AddressMap) -> (r: u64)
    ensures
        r == map@.kmmio,
{
    map.kmmio
}

/// The device window's second page: interrupts of the machine mode.
pub fn kmmio_clint(map: &AddressMap) -> (r: u64)
    requires
        map@.kmmio + 4096 <= u64::MAX,
    ensures
        r == map@.kmmio + 4096,
{
    map.kmmio + 4096
}

/// The device window's third page: interrupts of the supervisor mode.
pub fn kmmio_sswi(map: &AddressMap) -> (r: u64)
    requires
        map@.kmmio + 8192 <= u64::MAX,
    ensures
        r == map@.kmmio + 8192,
{
    map.kmmio + 8192
}

/// A size in whole pages.
pub open spec fn page_up(n: int) -> int {
    (n + 4095) / 4096 * 4096
}

fn round_up_page(n: u64) -> (r: u64)
    requires
        n + 4095 <= u64::MAX,
    ensures
        r == page_up(n as int),
{
    (n + 4095) / 4096 * 4096
}

/// Reserves `size` bytes, in whole pages, of the device window and returns
/// their address. Mapping them is up to the caller.
pub fn kmmio_alloc(map: &mut AddressMap, size: u64) -> (r: u64)
    requires
        size + 4095 <= u64::MAX,
        old(map)@.arena_next + page_up(size as int) <= u64::MAX,
        old(map)@.kmmio + old(map)@.arena_next <= u64::MAX,
    ensures
        r == old(map)@.kmmio + old(map)@.arena_next,
        final(map)@ == (MapView {
            arena_next: (old(map)@.arena_next + page_up(size as int)) as u64,
            ..old(map)@
        }),
{
    let len: u64 = round_up_page(size);
    let offset: u64 = map.arena_next;
    map.arena_next = map.arena_next + len;
    map.kmmio + offset
}

/// Regions reserved one after the other do not overlap, and none reaches into
/// the fixed pages at the bottom of the device window. The two regions are
/// those of a reservation of `a` bytes followed by one of `b` bytes.
pub proof fn law_device_regions_do_not_overlap(m: MapView, a: u64, b: u64)
    requires
        m.arena_next >= KMMIO_ARENA_OFFSET,
    ensures
        ({
            let first = m.kmmio + m.arena_next;
            let second = m.kmmio + (m.arena_next + page_up(a as int));
            &&& first + a <= second
            &&& m.kmmio + 3 * 4096 <= first
        }),
{
}

/// The address in the high half of something that was linked at `linked_va`.
pub fn linked_to_high_half(map: &AddressMap, linked_va: u64) -> (r: u64)
    requires
        linked_va >= LINK_BASE,
        map@.ktext + (linked_va - LINK_BASE) <= u64::MAX,
    ensures
        r == map@.ktext + (linked_va - LINK_BASE),
{
    map.ktext + (linked_va - LINK_BASE)
}

/// An address in the direct map.
#[derive(Clone, Copy, Debug, PartialEq, Eq, Structural)]
pub struct KdmapVa(u64);

impl View for KdmapVa {
    type V = u64;

    closed spec fn view(&self) -> u64 {
        self.0
    }
}

impl KdmapVa {
    pub fn new(raw: u64) -> (r: Self)
        ensures
            r@ == raw,
    {
        KdmapVa(raw)
    }

    pub fn raw(self) -> (r: u64)
        ensures
            r == self@,
    {
        self.0
    }

    /// The physical address behind it.
    pub fn to_phys(self, map: &AddressMap) -> (r: u64)
        ensures
            r == map@.behind(self@),
    {
        self.0.wrapping_sub(map.kdmap.wrapping_sub(map.ram_phys))
    }
}

/// An address in user space. It means something only under its process's page
/// table.
#[derive(Clone, Copy, Debug, PartialEq, Eq, Structural)]
pub struct UserVa(u64);

impl View for UserVa {
    type V = u64;

    closed spec fn view(&self) -> u64 {
        self.0
    }
}

impl UserVa {
    pub fn new(raw: u64) -> (r: Self)
        ensures
            r@ == raw,
    {
        UserVa(raw)
    }

    pub fn raw(self) -> (r: u64)
        ensures
            r == self@,
    {
        self.0
    }
}

/// The direct-map alias of a physical address.
pub fn phys_to_kdmap(map: &AddressMap, pa: u64) -> (r: KdmapVa)
    ensures
        r@ == map@.alias(pa),
{
    KdmapVa(pa.wrapping_add(map.kdmap.wrapping_sub(map.ram_phys)))
}

/// Going to the direct map and back gives the same address, both ways, and
/// memory inside the direct map lies in it at its offset from the start.
pub proof fn law_direct_map_round_trip(m: MapView, x: u64)
    ensures
        m.behind(m.alias(x)) == x,
        m.alias(m.behind(x)) == x,
        x >= m.ram_phys && m.kdmap + (x - m.ram_phys) <= u64::MAX ==> m.alias(x) == m.kdmap + (x
            - m.ram_phys),
{
}

/// Frames that the kernel reaches through the direct map. Frames that only user
/// page tables map are not among them.
pub trait FrameToKdmap {
    spec fn pa(&self) -> u64;

    fn to_kdmap(&self, map: &AddressMap) -> (r: KdmapVa)
        ensures
            r@ == map@.alias(self.pa()),
    ;
}

/// A frame that holds a page table.
#[derive(Clone, Copy, Debug, PartialEq, Eq, Structural)]
pub struct TableFrame {
    pub pa: u64,
}

impl FrameToKdmap for SharedFrame {
    open spec fn pa(&self) -> u64 {
        self.pa
    }

    fn to_kdmap(&self, map: &AddressMap) -> (r: KdmapVa) {
        phys_to_kdmap(map, self.pa)
    }
}

impl FrameToKdmap for TableFrame {
    open spec fn pa(&self) -> u64 {
        self.pa
    }

    fn to_kdmap(&self, map: &AddressMap) -> (r: KdmapVa) {
        phys_to_kdmap(map, self.pa)
    }
}

/// The direct-map alias of a user address, given where it translates to.
pub fn user_va_to_kdmap(map: &AddressMap, translated: Option<u64>) -> (r: Option<KdmapVa>)
    ensures
        match translated {
            Some(pa) => r matches Some(k) && k@ == map@.alias(pa),
            None => r is None,
        },
{
    match translated {
        Some(pa) => Some(phys_to_kdmap(map, pa)),
        None => None,
    }
}

/// How physical memory is divided.
pub struct KernelLayout {
    pub kheap: Range<u64>,
    pub kpages: Range<u64>,
    pub ktables: Range<u64>,
    pub user_pages: Range<u64>,
    pub dtb: Range<u64>,
    pub serial: u64,
}

/// Memory that the pools and the guard take.
pub open spec fn reserved_top() -> int {
    0x2020_0000
}

/// The division of memory that ends at `ram_base + ram_size`: below the guard at
/// its top come the page tables, the heap, the kernel's pages and user pages, in
/// this order downward.
pub open spec fn carved(
    l: KernelLayout,
    ram_base: u64,
    ram_size: u64,
    dtb_addr: u64,
    serial_addr: u64,
) -> bool {
    &&& l.ktables.end == ram_base + ram_size - DTB_GUARD_SIZE
    &&& l.ktables.start == l.ktables.end - KTABLES_SIZE
    &&& l.kheap.end == l.ktables.start
    &&& l.kheap.start == l.kheap.end - KHEAP_SIZE
    &&& l.kpages.end == l.kheap.start
    &&& l.kpages.start == l.kpages.end - KPAGES_SIZE
    &&& l.user_pages.end == l.kpages.start
    &&& l.user_pages.start == l.user_pages.end - USER_PAGES_SIZE
    &&& l.dtb.start == dtb_addr
    &&& l.dtb.end == dtb_addr + DTB_GUARD_SIZE
    &&& l.serial == serial_addr
}

impl KernelLayout {
    /// Carves the pools out of the top of memory. The device tree has the guard
    /// at `dtb_addr`.
    pub fn new(ram_base: u64, ram_size: u64, dtb_addr: u64, serial_addr: u64) -> (r: Self)
        requires
            ram_base + ram_size <= u64::MAX,
            ram_base + ram_size >= reserved_top(),
            dtb_addr + DTB_GUARD_SIZE <= u64::MAX,
        ensures
            carved(r, ram_base, ram_size, dtb_addr, serial_addr),
    {
        let mem_end: u64 = ram_base + ram_size - DTB_GUARD_SIZE;
        let ktables_start: u64 = mem_end - KTABLES_SIZE;
        let kheap_start: u64 = ktables_start - KHEAP_SIZE;
        let kpages_start: u64 = kheap_start - KPAGES_SIZE;
        let user_pages_start: u64 = kpages_start - USER_PAGES_SIZE;
        KernelLayout {
            kheap: kheap_start..(kheap_start + KHEAP_SIZE),
            kpages: kpages_start..(kpages_start + KPAGES_SIZE),
            ktables: ktables_start..(ktables_start + KTABLES_SIZE),
            user_pages: user_pages_start..(user_pages_start + USER_PAGES_SIZE),
            dtb: dtb_addr..(dtb_addr + DTB_GUARD_SIZE),
            serial: serial_addr,
        }
    }
}

/// What the kernel may do with a region.
#[derive(Clone, Copy, Debug, PartialEq, Eq, Structural)]
pub enum RegionPerms {
    ReadExecute,
    ReadWrite,
    ReadOnly,
}

/// A range of addresses and what the kernel may do there.
#[derive(Clone, Copy, Debug, PartialEq, Eq, Structural)]
pub struct Region {
    pub start: u64,
    pub end: u64,
    pub perms: RegionPerms,
}

/// A range of virtual addresses and the physical range it is to map.
#[derive(Clone, Copy, Debug, PartialEq, Eq, Structural)]
pub struct RegionPlan {
    pub va: u64,
    pub pa: u64,
    pub len: u64,
    pub perms: RegionPerms,
}

/// A section of the kernel image, from its first byte to the one after its
/// last.
#[derive(Clone, Copy, Debug, PartialEq, Eq, Structural)]
pub struct Section {
    pub start: u64,
    pub end: u64,
}

/// The sections that the kernel runs from. `text` comes first in the image.
#[derive(Clone, Copy, Debug, PartialEq, Eq, Structural)]
pub struct ImageSections {
    pub text: Section,
    pub rodata: Section,
    pub data: Section,
    pub bss: Section,
    pub got: Section,
}

/// The sections that are read only while the image relocates itself.
#[derive(Clone, Copy, Debug, PartialEq, Eq, Structural)]
pub struct BootSections {
    pub rela_dyn: Section,
    pub gnu_hash: Section,
    pub dynsym: Section,
    pub hash: Section,
    pub dynstr: Section,
    pub eh_frame: Section,
    pub dynamic: Section,
}

/// A section in whole pages.
pub open spec fn whole_pages(s: Section, perms: RegionPerms) -> Region {
    Region { start: s.start, end: page_up(s.end as int) as u64, perms }
}

/// The regions of the image: code is executable, data is writable, and the rest
/// is neither.
pub open spec fn image_regions(s: ImageSections) -> Seq<Region> {
    seq![
        whole_pages(s.text, RegionPerms::ReadExecute),
        whole_pages(s.rodata, RegionPerms::ReadOnly),
        whole_pages(s.data, RegionPerms::ReadWrite),
        whole_pages(s.bss, RegionPerms::ReadWrite),
        whole_pages(s.got, RegionPerms::ReadOnly),
    ]
}

/// The boot-only regions of the image.
pub open spec fn boot_regions(b: BootSections) -> Seq<Region> {
    let ro = RegionPerms::ReadOnly;
    seq![
        whole_pages(b.rela_dyn, ro),
        whole_pages(b.gnu_hash, ro),
        whole_pages(b.dynsym, ro),
        whole_pages(b.hash, ro),
        whole_pages(b.dynstr, ro),
        whole_pages(b.eh_frame, ro),
        whole_pages(b.dynamic, ro),
    ]
}

/// The pools that the kernel reaches from every address space. The page tables
/// are among them: calls walk the caller's tables while its address space is on.
pub open spec fn pools(l: KernelLayout) -> Seq<Region> {
    let rw = RegionPerms::ReadWrite;
    seq![
        Region { start: l.kheap.start, end: l.kheap.end, perms: rw },
        Region { start: l.kpages.start, end: l.kpages.end, perms: rw },
        Region { start: l.ktables.start, end: l.ktables.end, perms: rw },
    ]
}

/// What the kernel reaches only from its own address space: the device tree.
pub open spec fn own_pools(l: KernelLayout) -> Seq<Region> {
    seq![Region { start: l.dtb.start, end: l.dtb.end, perms: RegionPerms::ReadOnly }]
}

/// Where a region of the image goes: as far into the image's window as into the
/// image.
pub open spec fn image_plan(m: MapView, image: u64, r: Region) -> RegionPlan {
    RegionPlan {
        va: (m.ktext + (r.start - image)) as u64,
        pa: (m.kernel_phys + (r.start - image)) as u64,
        len: (r.end - r.start) as u64,
        perms: r.perms,
    }
}

/// Where regions of the image go.
pub open spec fn image_plans(m: MapView, image: u64, rs: Seq<Region>) -> Seq<RegionPlan> {
    rs.map_values(|r: Region| image_plan(m, image, r))
}

/// Where a pool goes: to its alias in the direct map.
pub open spec fn pool_plan(m: MapView, r: Region) -> RegionPlan {
    RegionPlan { va: m.alias(r.start), pa: r.start, len: (r.end - r.start) as u64, perms: r.perms }
}

/// Where pools go.
pub open spec fn pool_plans(m: MapView, rs: Seq<Region>) -> Seq<RegionPlan> {
    rs.map_values(|r: Region| pool_plan(m, r))
}

/// Where the three device pages go.
pub open spec fn device_plans(m: MapView, l: KernelLayout) -> Seq<RegionPlan> {
    let rw = RegionPerms::ReadWrite;
    seq![
        RegionPlan { va: m.kmmio, pa: l.serial, len: 4096, perms: rw },
        RegionPlan { va: (m.kmmio + 4096) as u64, pa: CLINT_MSIP_BASE, len: 4096, perms: rw },
        RegionPlan { va: (m.kmmio + 8192) as u64, pa: ACLINT_SSWI_BASE, len: 4096, perms: rw },
    ]
}

/// What every page table maps of the kernel: its image, the pools and the
/// device pages.
pub open spec fn shared_plan(m: MapView, l: KernelLayout, s: ImageSections) -> Seq<RegionPlan> {
    image_plans(m, s.text.start, image_regions(s)) + pool_plans(m, pools(l)) + device_plans(m, l)
}

/// What the kernel's own page table maps besides: the boot-only sections and the
/// device tree.
pub open spec fn own_plan(m: MapView, l: KernelLayout, image: u64, b: BootSections) -> Seq<
    RegionPlan,
> {
    image_plans(m, image, boot_regions(b)) + pool_plans(m, own_pools(l))
}

/// The section lies in the image and the image in both address spaces.
pub open spec fn section_ok(m: MapView, image: u64, s: Section) -> bool {
    &&& image <= s.start <= s.end
    &&& s.end + 4095 <= u64::MAX
    &&& m.ktext + (s.start - image) <= u64::MAX
    &&& m.kernel_phys + (s.start - image) <= u64::MAX
}

/// All sections that the kernel runs from are sound.
pub open spec fn image_ok(m: MapView, s: ImageSections) -> bool {
    &&& section_ok(m, s.text.start, s.text)
    &&& section_ok(m, s.text.start, s.rodata)
    &&& section_ok(m, s.text.start, s.data)
    &&& section_ok(m, s.text.start, s.bss)
    &&& section_ok(m, s.text.start, s.got)
}

/// All boot-only sections are sound.
pub open spec fn boot_ok(m: MapView, image: u64, b: BootSections) -> bool {
    &&& section_ok(m, image, b.rela_dyn)
    &&& section_ok(m, image, b.gnu_hash)
    &&& section_ok(m, image, b.dynsym)
    &&& section_ok(m, image, b.hash)
    &&& section_ok(m, image, b.dynstr)
    &&& section_ok(m, image, b.eh_frame)
    &&& section_ok(m, image, b.dynamic)
}

/// Every section can be rounded up to whole pages.
pub open spec fn boot_ends_ok(b: BootSections) -> bool {
    &&& b.rela_dyn.end + 4095 <= u64::MAX
    &&& b.gnu_hash.end + 4095 <= u64::MAX
    &&& b.dynsym.end + 4095 <= u64::MAX
    &&& b.hash.end + 4095 <= u64::MAX
    &&& b.dynstr.end + 4095 <= u64::MAX
    &&& b.eh_frame.end + 4095 <= u64::MAX
    &&& b.dynamic.end + 4095 <= u64::MAX
}

/// The pools and the device tree are ranges.
pub open spec fn ranges_ok(l: KernelLayout) -> bool {
    &&& l.kheap.start <= l.kheap.end
    &&& l.kpages.start <= l.kpages.end
    &&& l.ktables.start <= l.ktables.end
    &&& l.dtb.start <= l.dtb.end
}

fn section_range(s: Section, perms: RegionPerms) -> (r: Region)
    requires
        s.end + 4095 <= u64::MAX,
    ensures
        r == whole_pages(s, perms),
{
    Region { start: s.start, end: round_up_page(s.end), perms }
}

fn kernel_elf_regions(s: &ImageSections) -> (r: Vec<Region>)
    requires
        s.text.end + 4095 <= u64::MAX,
        s.rodata.end + 4095 <= u64::MAX,
        s.data.end + 4095 <= u64::MAX,
        s.bss.end + 4095 <= u64::MAX,
        s.got.end + 4095 <= u64::MAX,
    ensures
        r@ == image_regions(*s),
{
    let r: Vec<Region> = vec![
        section_range(s.text, RegionPerms::ReadExecute),
        section_range(s.rodata, RegionPerms::ReadOnly),
        section_range(s.data, RegionPerms::ReadWrite),
        section_range(s.bss, RegionPerms::ReadWrite),
        section_range(s.got, RegionPerms::ReadOnly),
    ];
    proof {
        assert(r@ =~= image_regions(*s));
    }
    r
}

fn boot_only_elf_regions(b: &BootSections) -> (r: Vec<Region>)
    requires
        boot_ends_ok(*b),
    ensures
        r@ == boot_regions(*b),
{
    let ro = RegionPerms::ReadOnly;
    let r: Vec<Region> = vec![
        section_range(b.rela_dyn, ro),
        section_range(b.gnu_hash, ro),
        section_range(b.dynsym, ro),
        section_range(b.hash, ro),
        section_range(b.dynstr, ro),
        section_range(b.eh_frame, ro),
        section_range(b.dynamic, ro),
    ];
    proof {
        assert(r@ =~= boot_regions(*b));
    }
    r
}

fn pool_regions(l: &KernelLayout) -> (r: Vec<Region>)
    ensures
        r@ == pools(*l),
{
    let rw = RegionPerms::ReadWrite;
    let r: Vec<Region> = vec![
        Region { start: l.kheap.start, end: l.kheap.end, perms: rw },
        Region { start: l.kpages.start, end: l.kpages.end, perms: rw },
        Region { start: l.ktables.start, end: l.ktables.end, perms: rw },
    ];
    proof {
        assert(r@ =~= pools(*l));
    }
    r
}

fn self_only_pool_regions(l: &KernelLayout) -> (r: Vec<Region>)
    ensures
        r@ == own_pools(*l),
{
    let r: Vec<Region> = vec![
        Region { start: l.dtb.start, end: l.dtb.end, perms: RegionPerms::ReadOnly },
    ];
    proof {
        assert(r@ =~= own_pools(*l));
    }
    r
}

/// Adds the plans for regions of the image to `out`.
fn plan_image(map: &AddressMap, image: u64, rs: &Vec<Region>, out: &mut Vec<RegionPlan>)
    requires
        forall|i: int|
            0 <= i < rs@.len() ==> image <= (#[trigger] rs@[i]).start <= rs@[i].end && map@.ktext + (
            rs@[i].start - image) <= u64::MAX && map@.kernel_phys + (rs@[i].start - image)
                <= u64::MAX,
    ensures
        final(out)@ == old(out)@ + image_plans(map@, image, rs@),
{
    let ghost before = out@;
    let mut i: usize = 0;
    while i < rs.len()
        invariant
            i <= rs@.len(),
            forall|i: int|
                0 <= i < rs@.len() ==> image <= (#[trigger] rs@[i]).start <= rs@[i].end
                    && map@.ktext + (rs@[i].start - image) <= u64::MAX && map@.kernel_phys + (
                rs@[i].start - image) <= u64::MAX,
            out@ == before + image_plans(map@, image, rs@.take(i as int)),
        decreases rs@.len() - i,
    {
        let r: Region = rs[i];
        let offset: u64 = r.start - image;
        out.push(
            RegionPlan {
                va: map.ktext + offset,
                pa: map.kernel_phys + offset,
                len: r.end - r.start,
                perms: r.perms,
            },
        );
        proof {
            assert(out@ =~= before + image_plans(map@, image, rs@.take(i + 1)));
        }
        i = i + 1;
    }
    proof {
        assert(rs@.take(i as int) =~= rs@);
    }
}

/// Adds the plans for pools to `out`.
fn plan_pools(map: &AddressMap, rs: &Vec<Region>, out: &mut Vec<RegionPlan>)
    requires
        forall|i: int| 0 <= i < rs@.len() ==> (#[trigger] rs@[i]).start <= rs@[i].end,
    ensures
        final(out)@ == old(out)@ + pool_plans(map@, rs@),
{
    let ghost before = out@;
    let mut i: usize = 0;
    while i < rs.len()
        invariant
            i <= rs@.len(),
            forall|i: int| 0 <= i < rs@.len() ==> (#[trigger] rs@[i]).start <= rs@[i].end,
            out@ == before + pool_plans(map@, rs@.take(i as int)),
        decreases rs@.len() - i,
    {
        let r: Region = rs[i];
        out.push(
            RegionPlan {
                va: phys_to_kdmap(map, r.start).raw(),
                pa: r.start,
                len: r.end - r.start,
                perms: r.perms,
            },
        );
        proof {
            assert(out@ =~= before + pool_plans(map@, rs@.take(i + 1)));
        }
        i = i + 1;
    }
    proof {
        assert(rs@.take(i as int) =~= rs@);
    }
}

fn map_kernel_high_half(map: &AddressMap, layout: &KernelLayout, s: &ImageSections) -> (r: Vec<
    RegionPlan,
>)
    requires
        image_ok(map@, *s),
        ranges_ok(*layout),
        map@.kmmio + 8192 <= u64::MAX,
    ensures
        r@ == shared_plan(map@, *layout, *s),
{
    let rw = RegionPerms::ReadWrite;
    let mut out: Vec<RegionPlan> = Vec::new();
    let image = kernel_elf_regions(s);
    plan_image(map, s.text.start, &image, &mut out);
    let pool = pool_regions(layout);
    plan_pools(map, &pool, &mut out);
    out.push(RegionPlan { va: kmmio_uart(map), pa: layout.serial, len: 4096, perms: rw });
    out.push(RegionPlan { va: kmmio_clint(map), pa: CLINT_MSIP_BASE, len: 4096, perms: rw });
    out.push(RegionPlan { va: kmmio_sswi(map), pa: ACLINT_SSWI_BASE, len: 4096, perms: rw });
    proof {
        assert(out@ =~= shared_plan(map@, *layout, *s));
    }
    out
}

fn map_kernel_self_high_half(
    map: &AddressMap,
    layout: &KernelLayout,
    image: u64,
    b: &BootSections,
) -> (r: Vec<RegionPlan>)
    requires
        boot_ok(map@, image, *b),
        ranges_ok(*layout),
    ensures
        r@ == own_plan(map@, *layout, image, *b),
{
    let mut out: Vec<RegionPlan> = Vec::new();
    let boot = boot_only_elf_regions(b);
    plan_image(map, image, &boot, &mut out);
    let pool = self_only_pool_regions(layout);
    plan_pools(map, &pool, &mut out);
    proof {
        assert(out@ =~= own_plan(map@, *layout, image, *b));
    }
    out
}

/// What a page table is to hold of the kernel.
pub struct KernelMap {
    pub regions: Vec<RegionPlan>,
    /// Addresses whose tables are made but which map nothing yet: the window
    /// through which the kernel looks at user pages.
    pub window: Range<u64>,
}

/// Lists what the page table of a user process maps of the kernel.
pub fn map_kernel_shared(map: &AddressMap, layout: &KernelLayout, s: &ImageSections) -> (r:
    KernelMap)
    requires
        image_ok(map@, *s),
        ranges_ok(*layout),
        map@.kmmio + 8192 <= u64::MAX,
        map@.kscratch + KSCRATCH_SIZE <= u64::MAX,
    ensures
        r.regions@ == shared_plan(map@, *layout, *s),
        r.window.start == map@.kscratch,
        r.window.end == map@.kscratch + KSCRATCH_SIZE,
{
    let start: u64 = kscratch_base(map);
    KernelMap {
        regions: map_kernel_high_half(map, layout, s),
        window: start..(start + KSCRATCH_SIZE),
    }
}

/// Lists what the kernel's own page table maps: all that a process's maps of
/// the kernel, and what only booting needs.
pub fn map_kernel_self(
    map: &AddressMap,
    layout: &KernelLayout,
    s: &ImageSections,
    b: &BootSections,
) -> (r: KernelMap)
    requires
        image_ok(map@, *s),
        boot_ok(map@, s.text.start, *b),
        ranges_ok(*layout),
        map@.kmmio + 8192 <= u64::MAX,
        map@.kscratch + KSCRATCH_SIZE <= u64::MAX,
    ensures
        r.regions@ == shared_plan(map@, *layout, *s) + own_plan(
            map@,
            *layout,
            s.text.start,
            *b,
        ),
        r.window.start == map@.kscratch,
        r.window.end == map@.kscratch + KSCRATCH_SIZE,
{
    let mut r = map_kernel_shared(map, layout, s);
    let mut own = map_kernel_self_high_half(map, layout, s.text.start, b);
    r.regions.append(&mut own);
    r
}

/// The regions to unmap once booting is over: the boot-only sections, where the
/// image runs.
pub fn unmap_boot_only_regions(b: &BootSections) -> (r: Vec<Region>)
    requires
        boot_ends_ok(*b),
    ensures
        r@ == boot_regions(*b),
{
    boot_only_elf_regions(b)
}

/// Reserves an alias for a device in the device window and says how to map it.
pub fn install_kmmio_alias(map: &mut AddressMap, pa: Range<u64>) -> (r: RegionPlan)
    requires
        pa.start <= pa.end,
        pa.end - pa.start + 4095 <= u64::MAX,
        old(map)@.arena_next + page_up(pa.end - pa.start) <= u64::MAX,
        old(map)@.kmmio + old(map)@.arena_next <= u64::MAX,
    ensures
        r == (RegionPlan {
            va: (old(map)@.kmmio + old(map)@.arena_next) as u64,
            pa: pa.start,
            len: (pa.end - pa.start) as u64,
            perms: RegionPerms::ReadWrite,
        }),
        final(map)@ == (MapView {
            arena_next: (old(map)@.arena_next + page_up(pa.end - pa.start)) as u64,
            ..old(map)@
        }),
{
    let len: u64 = pa.end - pa.start;
    let va: u64 = kmmio_alloc(map, len);
    RegionPlan { va, pa: pa.start, len, perms: RegionPerms::ReadWrite }
}

/// The pools lie one below the other inside memory, below the guard, and do not
/// overlap.
pub proof fn law_pools_fill_the_top_of_memory(
    l: KernelLayout,
    ram_base: u64,
    ram_size: u64,
    dtb_addr: u64,
    serial_addr: u64,
)
    requires
        carved(l, ram_base, ram_size, dtb_addr, serial_addr),
        ram_size >= reserved_top(),
    ensures
        ram_base <= l.user_pages.start < l.user_pages.end <= l.kpages.start,
        l.kpages.start < l.kpages.end <= l.kheap.start,
        l.kheap.start < l.kheap.end <= l.ktables.start,
        l.ktables.start < l.ktables.end <= ram_base + ram_size - DTB_GUARD_SIZE,
{
}

/// The direct map does not reach user memory: no pool that is mapped through it
/// holds a user page.
pub proof fn law_user_pages_are_not_in_the_direct_map(
    m: MapView,
    l: KernelLayout,
    ram_base: u64,
    ram_size: u64,
    dtb_addr: u64,
    serial_addr: u64,
    i: int,
    pa: u64,
)
    requires
        carved(l, ram_base, ram_size, dtb_addr, serial_addr),
        ram_size >= reserved_top(),
        0 <= i < pool_plans(m, pools(l)).len(),
        l.user_pages.start <= pa < l.user_pages.end,
    ensures
        pa < pool_plans(m, pools(l))[i].pa,
{
}

/// Only the kernel's code is executable, and it is not writable: of all that the
/// kernel's page table maps, the first region alone is.
pub proof fn law_only_code_is_executable(
    m: MapView,
    l: KernelLayout,
    s: ImageSections,
    b: BootSections,
    i: int,
)
    requires
        0 <= i < (shared_plan(m, l, s) + own_plan(m, l, s.text.start, b)).len(),
    ensures
        ({
            let r = (shared_plan(m, l, s) + own_plan(m, l, s.text.start, b))[i];
            &&& r.perms == RegionPerms::ReadExecute <==> i == 0
            &&& i == 0 ==> r == image_plan(
                m,
                s.text.start,
                whole_pages(s.text, RegionPerms::ReadExecute),
            )
        }),
{
    let all = shared_plan(m, l, s);
    if i >= all.len() {
        let k = i - all.len();
        let own = own_plan(m, l, s.text.start, b);
        assert((all + own)[i] == own[k]);
        if k < boot_regions(b).len() {
            assert(boot_regions(b)[k].perms == RegionPerms::ReadOnly);
        }
    }
}

/// Nothing of the boot-only sections stays mapped: where the image runs in its
/// window, what is unmapped after booting is, region by region, what was mapped
/// for it.
pub proof fn law_boot_mappings_are_dropped(m: MapView, b: BootSections, i: int)
    requires
        boot_ok(m, m.ktext, b),
        0 <= i < boot_regions(b).len(),
    ensures
        ({
            let r = boot_regions(b)[i];
            let p = image_plans(m, m.ktext, boot_regions(b))[i];
            p.va == r.start && p.va + p.len == r.end
        }),
{
}

/// A part of the image is mapped where it was linked to run and backed by
/// where it was loaded: address, frame and link address keep their
/// distances, and the pages hold all of it.
pub proof fn law_the_image_is_mapped_where_it_lies(
    m: MapView,
    image: u64,
    s: Section,
    perms: RegionPerms,
    x: int,
)
    requires
        section_ok(m, image, s),
        s.start <= x < s.end,
        m.ktext + (s.end - image) + 4095 <= u64::MAX,
        m.kernel_phys + (s.end - image) + 4095 <= u64::MAX,
    ensures
        ({
            let p = image_plan(m, image, whole_pages(s, perms));
            let off = x - image;
            &&& p.va <= m.ktext + off < p.va + p.len
            &&& (m.ktext + off) - p.va == (m.kernel_phys + off) - p.pa
            &&& p.va - m.ktext == s.start - image
            &&& p.pa - m.kernel_phys == s.start - image
            &&& p.perms == perms
            &&& (s.start + p.len) % 4096 == 0
            &&& s.start + p.len < s.end + 4096
        }),
{
    let e = page_up(s.end as int);
    assert(s.end <= e < s.end + 4096 && e % 4096 == 0) by {
        let n = s.end + 4095;
        assert(n == n / 4096 * 4096 + n % 4096);
    }
}

/// Every section has its own mapping with its own rights: code is read and
/// run, constants are read, data are read and written.
pub proof fn law_sections_have_their_rights(m: MapView, l: KernelLayout, s: ImageSections, i: int)
    requires
        0 <= i < 11,
    ensures
        ({
            let plan = shared_plan(m, l, s);
            let ro = RegionPerms::ReadOnly;
            let rw = RegionPerms::ReadWrite;
            let image = s.text.start;
            let kernel = |t: Section, p: RegionPerms| image_plan(m, image, whole_pages(t, p));
            &&& plan.len() == 11
            &&& plan[0] == kernel(s.text, RegionPerms::ReadExecute)
            &&& plan[1] == kernel(s.rodata, ro)
            &&& plan[2] == kernel(s.data, rw)
            &&& plan[3] == kernel(s.bss, rw)
            &&& plan[4] == kernel(s.got, ro)
            &&& i >= 5 ==> plan[i].perms == rw
            &&& plan[5].pa == l.kheap.start && plan[5].len == (l.kheap.end - l.kheap.start) as u64
            &&& plan[6].pa == l.kpages.start && plan[6].len == (l.kpages.end
                - l.kpages.start) as u64
            &&& plan[7].pa == l.ktables.start && plan[7].len == (l.ktables.end
                - l.ktables.start) as u64
            &&& 5 <= i < 8 ==> plan[i].va == m.alias(plan[i].pa)
            &&& i >= 8 ==> plan[i].len == 4096 && plan[i].va == (m.kmmio + 4096 * (i - 8)) as u64
            &&& plan[8].pa == l.serial
            &&& plan[9].pa == 0x200_0000
            &&& plan[10].pa == 0x2f0_0000
        }),
{
}

/// What only the boot hart maps is mapped to be read: the link sections and
/// the device tree.
pub proof fn law_boot_data_is_only_read(
    m: MapView,
    l: KernelLayout,
    image: u64,
    b: BootSections,
    i: int,
)
    requires
        0 <= i < 8,
    ensures
        own_plan(m, l, image, b).len() == 8,
        own_plan(m, l, image, b)[i].perms == RegionPerms::ReadOnly,
        own_plan(m, l, image, b)[7].pa == l.dtb.start,
        own_plan(m, l, image, b)[7].va == m.alias(l.dtb.start),
        own_plan(m, l, image, b)[7].len == (l.dtb.end - l.dtb.start) as u64,
        ({
            let ro = RegionPerms::ReadOnly;
            let parts = seq![
                b.rela_dyn,
                b.gnu_hash,
                b.dynsym,
                b.hash,
                b.dynstr,
                b.eh_frame,
                b.dynamic,
            ];
            i < 7 ==> own_plan(m, l, image, b)[i] == image_plan(
                m,
                image,
                whole_pages(parts[i], ro),
            )
        }),
{
}

/// Each pool has its fixed size, and they lie one below the other under the
/// guard at the top of memory.
pub proof fn law_pools_have_their_sizes(
    l: KernelLayout,
    ram_base: u64,
    ram_size: u64,
    dtb_addr: u64,
    serial_addr: u64,
)
    requires
        carved(l, ram_base, ram_size, dtb_addr, serial_addr),
        ram_size >= 0x2020_0000,
    ensures
        l.ktables.end == ram_base + ram_size - 0x20_0000,
        l.ktables.end - l.ktables.start == 0x800_0000,
        l.kheap.end - l.kheap.start == 0x800_0000,
        l.kpages.end - l.kpages.start == 0x800_0000,
        l.user_pages.end - l.user_pages.start == 0x800_0000,
        l.kheap.end == l.ktables.start,
        l.kpages.end == l.kheap.start,
        l.user_pages.end == l.kpages.start,
        l.dtb.start == dtb_addr,
        l.dtb.end - l.dtb.start == 0x20_0000,
        l.serial == serial_addr,
{
}

/// Rounding up to pages gives the next page bound.
pub proof fn law_rounding_up_reaches_the_next_page(n: int)
    requires
        n >= 0,
    ensures
        n <= page_up(n) < n + 4096,
        page_up(n) % 4096 == 0,
{
    assert(n + 4095 == (n + 4095) / 4096 * 4096 + (n + 4095) % 4096);
}

} // verus!
