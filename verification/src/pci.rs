//! Devices on the PCI bus.

use vstd::prelude::*;

verus! {

/// The configuration words of a function that say what it is, as they read
/// after the command register and the cache line size were written.
#[derive(Clone, Copy, Debug, PartialEq, Eq, Structural)]
pub struct ConfigWords {
    /// Device and vendor.
    pub id: u32,
    /// Status and command.
    pub status: u32,
    /// Class and revision.
    pub class: u32,
    /// Header type and cache line size, before and after the size was written.
    pub header: u32,
    pub header_after: u32,
}

/// A device.
#[derive(Clone, Copy, Debug, PartialEq, Eq, Structural)]
pub struct PciDevice {
    pub address: u64,
    pub device_id: u16,
    pub vendor_id: u16,
    pub status: u16,
    pub command: u16,
    pub class: u32,
    pub rev: u8,
    pub htype: u8,
    pub cacheline: u8,
}

/// The device behind configuration words: the upper and the lower half of each
/// word, and the bytes of the last two.
pub open spec fn device_of(address: u64, w: ConfigWords) -> PciDevice {
    PciDevice {
        address,
        device_id: (w.id / 0x1_0000) as u16,
        vendor_id: (w.id % 0x1_0000) as u16,
        status: (w.status / 0x1_0000) as u16,
        command: (w.status % 0x1_0000) as u16,
        class: w.class / 0x100,
        rev: (w.class % 0x100) as u8,
        htype: ((w.header / 0x1_0000) % 0x100) as u8,
        cacheline: (w.header_after % 0x100) as u8,
    }
}

/// What is written to the command register of every function.
pub const COMMAND_WORD: u32 = 0xFF;

/// What is written to a base address register to learn its size.
pub const BAR_PROBE: u32 = 0xFFFF_FFFF;

/// What is written to the header word to set the cache line size.
pub fn cacheline_word(header: u32) -> (r: u32)
    ensures
        r == header | 0x10,
{
    header | 0x10
}

/// Bytes that a base address register spans, given what it reads after all
/// ones were written: the register's free bits, at most the largest size.
pub open spec fn bar_span(readback: u32) -> int {
    let size = 0x1_0000_0000 - (readback - readback % 0x10);
    if size > 0xFFFF_FFFF {
        0xFFFF_FFFF
    } else {
        size
    }
}

/// Address of a function's configuration space: 4096 bytes for each function
/// before it. Function `i` is function `i % 8` of device `i / 8 % 32` on bus
/// `i / 256`.
pub open spec fn function_address(base: u64, i: u32) -> int {
    base + 4096 * i
}

/// Number of functions that a bus can have.
pub const FUNCTION_COUNT: u32 = 65536;

impl PciDevice {
    /// Decodes configuration words.
    pub fn from_address(address: u64, w: ConfigWords) -> (r: Self)
        ensures
            r == device_of(address, w),
    {
        PciDevice {
            address,
            device_id: (w.id / 0x1_0000) as u16,
            vendor_id: (w.id % 0x1_0000) as u16,
            status: (w.status / 0x1_0000) as u16,
            command: (w.status % 0x1_0000) as u16,
            class: w.class / 0x100,
            rev: (w.class % 0x100) as u8,
            htype: ((w.header / 0x1_0000) % 0x100) as u8,
            cacheline: (w.header_after % 0x100) as u8,
        }
    }

    /// Address of a base address register.
    pub fn bar_address(&self, bar: u64) -> (r: u64)
        requires
            bar < 6,
            self.address + 40 <= u64::MAX,
        ensures
            r == self.address + 16 + 4 * bar,
    {
        self.address + 16 + 4 * bar
    }

    /// Bytes that a base address register spans, given what it reads after all
    /// ones were written to it.
    pub fn get_bar_size(&self, readback: u32) -> (r: u64)
        ensures
            r == bar_span(readback),
    {
        let masked: u32 = readback & 0xFFFF_FFF0;
        proof {
            assert(masked == readback - readback % 16) by (bit_vector)
                requires
                    masked == readback & 0xFFFF_FFF0,
            ;
            assert(!masked == 0xFFFF_FFFF - masked) by (bit_vector);
        }
        (!masked).saturating_add(1) as u64
    }

    /// Slot of the device on its bus.
    pub fn slot(&self) -> (r: u32)
        ensures
            r == (self.address / 0x8000) % 32,
    {
        ((self.address / 0x8000) % 32) as u32
    }
}

/// Whether a device is one of those looked for, by vendor and device.
pub open spec fn wanted(interests: Seq<(u16, u16)>, d: PciDevice) -> bool {
    interests.contains((d.vendor_id, d.device_id))
}

/// The devices of the bus that are looked for, in order.
pub open spec fn found(base: u64, words: Seq<ConfigWords>, interests: Seq<(u16, u16)>, n: int) -> Seq<
    PciDevice,
>
    decreases n,
{
    if n <= 0 {
        Seq::empty()
    } else {
        let d = device_of(function_address(base, (n - 1) as u32) as u64, words[n - 1]);
        if wanted(interests, d) {
            found(base, words, interests, n - 1).push(d)
        } else {
            found(base, words, interests, n - 1)
        }
    }
}

fn is_wanted(interests: &Vec<(u16, u16)>, d: &PciDevice) -> (r: bool)
    ensures
        r == wanted(interests@, *d),
{
    let mut i: usize = 0;
    while i < interests.len()
        invariant
            i <= interests@.len(),
            forall|j: int| 0 <= j < i ==> interests@[j] != (d.vendor_id, d.device_id),
        decreases interests@.len() - i,
    {
        if interests[i].0 == d.vendor_id && interests[i].1 == d.device_id {
            proof {
                assert(interests@[i as int] == (d.vendor_id, d.device_id));
            }
            return true;
        }
        i = i + 1;
    }
    false
}

/// Address of function `i`'s configuration space.
pub fn config_address(base: u64, i: u32) -> (r: u64)
    requires
        function_address(base, i) <= u64::MAX,
    ensures
        r == function_address(base, i),
{
    base + 4096 * i as u64
}

/// Goes through all functions of the bus and picks the devices that are looked
/// for. `words` holds the configuration words of every function in order.
pub fn scan_pci(base: u64, words: &Vec<ConfigWords>, interests: &Vec<(u16, u16)>) -> (r: Vec<
    PciDevice,
>)
    requires
        words@.len() == FUNCTION_COUNT,
        function_address(base, (FUNCTION_COUNT - 1) as u32) <= u64::MAX,
    ensures
        r@ == found(base, words@, interests@, FUNCTION_COUNT as int),
{
    let mut out: Vec<PciDevice> = Vec::new();
    let mut i: u32 = 0;
    while i < FUNCTION_COUNT
        invariant
            i <= FUNCTION_COUNT,
            words@.len() == FUNCTION_COUNT,
            function_address(base, (FUNCTION_COUNT - 1) as u32) <= u64::MAX,
            out@ == found(base, words@, interests@, i as int),
        decreases FUNCTION_COUNT - i,
    {
        let d = PciDevice::from_address(config_address(base, i), words[i as usize]);
        if is_wanted(interests, &d) {
            out.push(d);
        }
        i = i + 1;
    }
    out
}

/// The device that is set up: the first one found.
pub fn first_match(found: &Vec<PciDevice>) -> (r: Option<PciDevice>)
    ensures
        r == (if found@.len() == 0 {
            None::<PciDevice>
        } else {
            Some(found@[0])
        }),
{
    if found.len() == 0 {
        None
    } else {
        Some(found[0])
    }
}

/// The configuration space of function `func` of device `dev` on bus `bus` lies
/// where the standard has it, and no two functions share any of theirs, wherever
/// the bus begins.
pub proof fn law_functions_have_their_own_space(
    base: u64,
    bus: u64,
    dev: u64,
    func: u64,
    i: u32,
    j: u32,
)
    requires
        bus < 256,
        dev < 32,
        func < 8,
        i == bus * 256 + dev * 8 + func,
        i != j,
        function_address(base, i) <= u64::MAX,
        function_address(base, j) <= u64::MAX,
    ensures
        function_address(base, i) == base + ((bus << 20u64) | (dev << 15u64) | (func << 12u64)),
        function_address(base, i) + 4096 <= function_address(base, j) || function_address(base, j)
            + 4096 <= function_address(base, i),
{
    let x = i as u64;
    assert((bus << 20u64) | (dev << 15u64) | (func << 12u64) == 4096 * x) by (bit_vector)
        requires
            bus < 256,
            dev < 32,
            func < 8,
            x == bus * 256 + dev * 8 + func,
    ;
}

/// A device that is found is listed once: no two of the list have the same
/// address.
pub proof fn law_devices_are_found_once(
    base: u64,
    words: Seq<ConfigWords>,
    interests: Seq<(u16, u16)>,
    n: int,
)
    requires
        0 <= n <= FUNCTION_COUNT,
        function_address(base, (FUNCTION_COUNT - 1) as u32) <= u64::MAX,
    ensures
        forall|k: int|
            0 <= k < found(base, words, interests, n).len() ==> base <= (#[trigger] found(
                base,
                words,
                interests,
                n,
            )[k]).address < base + 4096 * n,
        forall|k: int, l: int|
            0 <= k < l < found(base, words, interests, n).len() ==> (#[trigger] found(
                base,
                words,
                interests,
                n,
            )[k]).address < (#[trigger] found(base, words, interests, n)[l]).address,
    decreases n,
{
    if n > 0 {
        law_devices_are_found_once(base, words, interests, n - 1);
        let before = found(base, words, interests, n - 1);
        let all = found(base, words, interests, n);
        assert forall|k: int| 0 <= k < before.len() implies all[k] == #[trigger] before[k] by {}
        assert forall|k: int| 0 <= k < all.len() implies base <= (#[trigger] all[k]).address < base
            + 4096 * n by {
            if k < before.len() {
                assert(before[k].address < base + 4096 * (n - 1));
            }
        }
        assert forall|k: int, l: int| 0 <= k < l < all.len() implies (#[trigger] all[k]).address < (
        #[trigger] all[l]).address by {
            assert(before[k].address < base + 4096 * (n - 1));
            if l < before.len() {
                assert(before[k].address < before[l].address);
            }
        }
    }
}

/// The interrupt line of a network card: four lines, by slot.
pub fn interrupt_line(d: &PciDevice) -> (r: u32)
    ensures
        r == 32 + ((d.address / 0x8000) % 32) % 4,
{
    32 + d.slot() % 4
}

/// The words of a function's configuration are made of its fields: each is
/// read from its own bytes.
pub proof fn law_a_function_is_read_field_by_field(address: u64, w: ConfigWords)
    ensures
        ({
            let d = device_of(address, w);
            &&& d.address == address
            &&& w.id == d.device_id * 0x1_0000 + d.vendor_id
            &&& w.status == d.status * 0x1_0000 + d.command
            &&& w.class == d.class * 0x100 + d.rev
            &&& d.htype == ((w.header >> 16u32) & 0xFFu32)
            &&& d.cacheline == (w.header_after & 0xFFu32)
        }),
{
    let h = w.header;
    let c = w.header_after;
    assert((h >> 16u32) & 0xFFu32 == (h / 0x1_0000) % 0x100) by (bit_vector);
    assert(c & 0xFFu32 == c % 0x100) by (bit_vector);
}

/// A base register reads back the complement of its size, its low four bits
/// aside: a register of `size` bytes is found to span `size` bytes.
pub proof fn law_a_register_spans_its_size(size: u32, flags: u32)
    requires
        size > 0,
        size % 16 == 0,
        flags < 16,
    ensures
        bar_span((0x1_0000_0000 - size + flags) as u32) == size,
        bar_span(flags) == 0xFFFF_FFFF,
{
    let r = (0x1_0000_0000 - size + flags) as u32;
    assert(r == 0x1_0000_0000 - size + flags);
    assert(r % 0x10 == flags);
}

/// Every function that is asked for is found, with what its own words say,
/// and no other is.
pub proof fn law_what_is_asked_for_is_found(
    base: u64,
    words: Seq<ConfigWords>,
    interests: Seq<(u16, u16)>,
    n: int,
    i: int,
)
    requires
        0 <= i < n <= 65536,
        n <= words.len(),
        base + 4096 * 65536 <= u64::MAX,
    ensures
        interests.contains(((words[i].id % 0x1_0000) as u16, (words[i].id / 0x1_0000) as u16))
            ==> found(base, words, interests, n).contains(
            device_of((base + 4096 * i) as u64, words[i]),
        ),
        forall|k: int|
            0 <= k < found(base, words, interests, n).len() ==> interests.contains(
                (
                    (#[trigger] found(base, words, interests, n)[k]).vendor_id,
                    found(base, words, interests, n)[k].device_id,
                ),
            ),
    decreases n,
{
    let f = found(base, words, interests, n - 1);
    let g = found(base, words, interests, n);
    let d = device_of(function_address(base, (n - 1) as u32) as u64, words[n - 1]);
    let x = device_of((base + 4096 * i) as u64, words[i]);
    if n > 1 {
        law_what_is_asked_for_is_found(
            base,
            words,
            interests,
            n - 1,
            if i < n - 1 {
                i
            } else {
                0
            },
        );
    } else {
        assert(f.len() == 0);
    }
    if i == n - 1 {
        assert(d == x);
        if wanted(interests, d) {
            assert(g.last() == x);
        }
    } else if f.contains(x) {
        let k = choose|k: int| 0 <= k < f.len() && f[k] == x;
        assert(g[k] == x);
    }
}

} // verus!
