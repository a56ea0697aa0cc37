//! Finding devices at boot.

use crate::memmap::MB;
use crate::pci::PciDevice;
use dtoolkit::fdt::Fdt;
use dtoolkit::Node;
use vstd::prelude::*;

verus! {

/// The first address range of a device.
#[derive(Clone, Copy, Debug, PartialEq, Eq, Structural)]
pub struct DtReg {
    pub base: u64,
    pub size: u64,
}

/// A node of the device tree.
pub struct DtNode {
    pub name: Vec<u8>,
    /// `None` if the node has no address range that makes sense.
    pub reg: Option<DtReg>,
    pub children: Vec<DtNode>,
}

/// Number of children of the node that `path` leads to; `None` for bytes that
/// are no flattened device tree, or a path that leads nowhere. A path gives the
/// index of a child at each level, from the root on.
pub uninterp spec fn fdt_children(blob: Seq<u8>, path: Seq<usize>) -> Option<usize>;

/// Name of the node that `path` leads to.
pub uninterp spec fn fdt_name(blob: Seq<u8>, path: Seq<usize>) -> Option<Seq<u8>>;

/// The first address range of the node that `path` leads to.
pub uninterp spec fn fdt_reg(blob: Seq<u8>, path: Seq<usize>) -> Option<DtReg>;

/// `dtoolkit::Node::children` of a node in the tree that `dtoolkit::fdt::Fdt::new`
/// accepts: how many there are.
#[verifier::external_body]
fn tree_children(blob: &[u8], path: &Vec<usize>) -> (r: Option<usize>)
    ensures
        r == fdt_children(blob@, path@),
{
    let root = Fdt::new(blob).ok()?.root();
    let node = path.iter().try_fold(root, |n, i| n.children().nth(*i))?;
    Some(node.children().count())
}

/// `dtoolkit::Node::name` of a node in the tree that `dtoolkit::fdt::Fdt::new`
/// accepts, as bytes.
#[verifier::external_body]
fn tree_name(blob: &[u8], path: &Vec<usize>) -> (r: Option<Vec<u8>>)
    ensures
        match r {
            Some(n) => fdt_name(blob@, path@) == Some(n@),
            None => fdt_name(blob@, path@) is None,
        },
{
    let root = Fdt::new(blob).ok()?.root();
    let node = path.iter().try_fold(root, |n, i| n.children().nth(*i))?;
    Some(node.name().as_bytes().to_vec())
}

/// `dtoolkit::fdt::FdtNode::reg` of a node in the tree that
/// `dtoolkit::fdt::Fdt::new` accepts: its first entry, if address and size both
/// fit a 64-bit number.
#[verifier::external_body]
fn tree_reg(blob: &[u8], path: &Vec<usize>) -> (r: Option<DtReg>)
    ensures
        r == fdt_reg(blob@, path@),
{
    let root = Fdt::new(blob).ok()?.root();
    let node = path.iter().try_fold(root, |n, i| n.children().nth(*i))?;
    let reg = node.reg().ok()??.next()?;
    Some(DtReg { base: reg.address().ok()?, size: reg.size().ok()? })
}

/// `n` is what the image holds at `path`, down to `depth` levels below it.
pub open spec fn read_from(n: DtNode, blob: Seq<u8>, path: Seq<usize>, depth: nat) -> bool
    decreases depth,
{
    &&& n.name@ == (match fdt_name(blob, path) {
        Some(s) => s,
        None => Seq::empty(),
    })
    &&& n.reg == fdt_reg(blob, path)
    &&& n.children@.len() == (match fdt_children(blob, path) {
        Some(k) => if depth == 0 {
            0
        } else {
            k as nat
        },
        None => 0,
    })
    &&& depth > 0 ==> forall|i: int|
        #![trigger n.children@[i]]
        0 <= i < n.children@.len() ==> read_from(
            n.children@[i],
            blob,
            path.push(i as usize),
            (depth - 1) as nat,
        )
}

fn read_node(blob: &[u8], path: &mut Vec<usize>, depth: usize) -> (r: DtNode)
    ensures
        read_from(r, blob@, old(path)@, depth as nat),
        final(path)@ == old(path)@,
    decreases depth,
{
    let name: Vec<u8> = match tree_name(blob, path) {
        Some(n) => n,
        None => Vec::new(),
    };
    let reg = tree_reg(blob, path);
    let mut children: Vec<DtNode> = Vec::new();
    proof {
        assert(fdt_name(blob@, path@) is None ==> name@ =~= Seq::<u8>::empty());
    }
    if depth > 0 {
        let count: usize = match tree_children(blob, path) {
            Some(k) => k,
            None => 0,
        };
        let mut i: usize = 0;
        while i < count
            invariant
                i <= count,
                depth > 0,
                path@ == old(path)@,
                children@.len() == i,
                forall|j: int|
                    #![trigger children@[j]]
                    0 <= j < i ==> read_from(
                        children@[j],
                        blob@,
                        old(path)@.push(j as usize),
                        (depth - 1) as nat,
                    ),
            decreases count - i,
        {
            path.push(i);
            let child = read_node(blob, path, depth - 1);
            let _ = path.pop();
            proof {
                assert(path@ =~= old(path)@);
            }
            children.push(child);
            i = i + 1;
        }
    }
    DtNode { name, reg, children }
}

/// Reads a device tree. Every level of a tree takes room in its image, so there
/// are no more levels than the image has bytes. An image that dtoolkit does not
/// validate gives `None`: a walk of such an image could panic.
pub fn read_tree(blob: &[u8]) -> (r: Option<DtNode>)
    ensures
        r is Some <==> fdt_children(blob@, Seq::empty()) is Some,
        r matches Some(n) ==> read_from(n, blob@, Seq::empty(), blob@.len()),
{
    let mut path: Vec<usize> = Vec::new();
    proof {
        assert(path@ =~= Seq::<usize>::empty());
    }
    if tree_children(blob, &path).is_none() {
        return None;
    }
    let n = read_node(blob, &mut path, blob.len());
    Some(n)
}

/// What the walk through the tree stops at.
#[derive(Clone, Copy, Debug, PartialEq, Eq, Structural)]
pub enum DtHit {
    /// An interrupt controller.
    Plic,
    /// A bus.
    Pci(Option<DtReg>),
}

/// Whether `name` starts with `prefix`.
pub open spec fn starts_with(name: Seq<u8>, prefix: Seq<u8>) -> bool {
    prefix.is_prefix_of(name)
}

pub open spec fn pci_prefix() -> Seq<u8> {
    seq![0x70u8, 0x63u8, 0x69u8]
}

pub open spec fn plic_prefix() -> Seq<u8> {
    seq![0x70u8, 0x6cu8, 0x69u8, 0x63u8]
}

/// What a walk from `n` down stops at, in order. Below a bus or an interrupt
/// controller nothing is looked for; among the children of any other node the
/// last comes first.
pub open spec fn hits(n: DtNode) -> Seq<DtHit>
    decreases n,
{
    if starts_with(n.name@, pci_prefix()) {
        seq![DtHit::Pci(n.reg)]
    } else if starts_with(n.name@, plic_prefix()) {
        seq![DtHit::Plic]
    } else {
        hits_among(n.children@)
    }
}

pub open spec fn hits_among(cs: Seq<DtNode>) -> Seq<DtHit>
    decreases cs,
{
    if cs.len() == 0 {
        Seq::empty()
    } else {
        hits(cs.last()) + hits_among(cs.drop_last())
    }
}

fn has_prefix(name: &Vec<u8>, prefix: &Vec<u8>) -> (r: bool)
    ensures
        r == starts_with(name@, prefix@),
{
    if name.len() < prefix.len() {
        return false;
    }
    let mut i: usize = 0;
    while i < prefix.len()
        invariant
            i <= prefix@.len() <= name@.len(),
            forall|j: int| 0 <= j < i ==> name@[j] == prefix@[j],
        decreases prefix@.len() - i,
    {
        if name[i] != prefix[i] {
            return false;
        }
        i = i + 1;
    }
    proof {
        assert(prefix@ =~= name@.take(prefix@.len() as int));
    }
    true
}

fn is_pci(name: &Vec<u8>) -> (r: bool)
    ensures
        r == starts_with(name@, pci_prefix()),
{
    let p: Vec<u8> = vec![0x70, 0x63, 0x69];
    proof {
        assert(p@ =~= pci_prefix());
    }
    has_prefix(name, &p)
}

fn is_plic(name: &Vec<u8>) -> (r: bool)
    ensures
        r == starts_with(name@, plic_prefix()),
{
    let p: Vec<u8> = vec![0x70, 0x6c, 0x69, 0x63];
    proof {
        assert(p@ =~= plic_prefix());
    }
    has_prefix(name, &p)
}

fn walk(n: &DtNode, out: &mut Vec<DtHit>)
    ensures
        final(out)@ == old(out)@ + hits(*n),
    decreases n,
{
    if is_pci(&n.name) {
        out.push(DtHit::Pci(n.reg));
        proof {
            assert(out@ =~= old(out)@ + hits(*n));
        }
        return ;
    }
    if is_plic(&n.name) {
        out.push(DtHit::Plic);
        proof {
            assert(out@ =~= old(out)@ + hits(*n));
        }
        return ;
    }
    let mut k: usize = n.children.len();
    proof {
        assert(n.children@.take(k as int) =~= n.children@);
    }
    while k > 0
        invariant
            k <= n.children@.len(),
            old(out)@ + hits_among(n.children@) == out@ + hits_among(n.children@.take(k as int)),
        decreases k,
    {
        let ghost t = n.children@.take(k as int);
        let ghost before = out@;
        proof {
            assert(t.drop_last() =~= n.children@.take(k - 1));
            assert(t.last() == n.children@[k - 1]);
        }
        k = k - 1;
        walk(&n.children[k], out);
        proof {
            assert(out@ + hits_among(t.drop_last()) =~= before + hits_among(t));
        }
    }
    proof {
        assert(n.children@.take(0) =~= Seq::<DtNode>::empty());
        assert(out@ + hits_among(n.children@.take(0)) =~= out@);
    }
}

/// What is to be set up at boot, in order.
#[derive(Clone, Copy, Debug, PartialEq, Eq, Structural)]
pub enum BootStep {
    /// The thread that drains the UART.
    SerialThread,
    /// The interrupt controller.
    Plic,
    /// The devices on a bus.
    Pci(DtReg),
    /// Discovery of virtio devices, then each kind.
    VirtioProbe,
    Gpu,
    Input,
    Block,
    /// The page cache, once the filesystem is there.
    PageCache,
}

/// The interrupt controllers among hits.
pub open spec fn plic_steps(hs: Seq<DtHit>) -> Seq<BootStep>
    decreases hs.len(),
{
    if hs.len() == 0 {
        Seq::empty()
    } else {
        let rest = plic_steps(hs.drop_last());
        match hs.last() {
            DtHit::Plic => rest.push(BootStep::Plic),
            DtHit::Pci(_) => rest,
        }
    }
}

/// The buses among hits that have an address.
pub open spec fn pci_steps(hs: Seq<DtHit>) -> Seq<BootStep>
    decreases hs.len(),
{
    if hs.len() == 0 {
        Seq::empty()
    } else {
        let rest = pci_steps(hs.drop_last());
        match hs.last() {
            DtHit::Pci(Some(reg)) => rest.push(BootStep::Pci(reg)),
            _ => rest,
        }
    }
}

/// Everything that is set up for a device tree.
pub open spec fn boot_plan(root: Seq<DtNode>) -> Seq<BootStep> {
    seq![BootStep::SerialThread] + plic_steps(hits_among(root)) + pci_steps(hits_among(root)) + seq![
        BootStep::VirtioProbe,
        BootStep::Gpu,
        BootStep::Input,
        BootStep::Block,
        BootStep::PageCache,
    ]
}

/// Plans what is set up at boot. `root` is the root of the device tree.
pub fn get_environment_info(root: &DtNode) -> (r: Vec<BootStep>)
    ensures
        r@ == boot_plan(root.children@),
{
    let ghost hs = hits_among(root.children@);
    let mut found: Vec<DtHit> = Vec::new();
    let mut k: usize = root.children.len();
    proof {
        assert(root.children@.take(k as int) =~= root.children@);
        assert(found@ + hs =~= hs);
    }
    while k > 0
        invariant
            k <= root.children@.len(),
            hs == hits_among(root.children@),
            hs == found@ + hits_among(root.children@.take(k as int)),
        decreases k,
    {
        let ghost t = root.children@.take(k as int);
        let ghost before = found@;
        proof {
            assert(t.drop_last() =~= root.children@.take(k - 1));
            assert(t.last() == root.children@[k - 1]);
        }
        k = k - 1;
        walk(&root.children[k], &mut found);
        proof {
            assert(found@ + hits_among(t.drop_last()) =~= before + hits_among(t));
        }
    }
    proof {
        assert(root.children@.take(0) =~= Seq::<DtNode>::empty());
        assert(found@ + hits_among(root.children@.take(0)) =~= found@);
    }
    let mut out: Vec<BootStep> = vec![BootStep::SerialThread];
    let ghost head = out@;
    proof {
        assert(head =~= seq![BootStep::SerialThread]);
        assert(out@ =~= head + plic_steps(hs.take(0)));
    }
    let mut i: usize = 0;
    while i < found.len()
        invariant
            i <= found@.len(),
            found@ == hs,
            out@ == head + plic_steps(hs.take(i as int)),
        decreases found@.len() - i,
    {
        let ghost before = out@;
        proof {
            let t = hs.take(i + 1);
            assert(t.drop_last() =~= hs.take(i as int));
            assert(t.last() == hs[i as int]);
        }
        match found[i] {
            DtHit::Plic => out.push(BootStep::Plic),
            DtHit::Pci(_) => {},
        }
        proof {
            assert(out@ =~= head + plic_steps(hs.take(i + 1)));
        }
        i = i + 1;
    }
    let ghost mid = out@;
    proof {
        assert(hs.take(hs.len() as int) =~= hs);
        assert(out@ =~= mid + pci_steps(hs.take(0)));
    }
    let mut j: usize = 0;
    while j < found.len()
        invariant
            j <= found@.len(),
            found@ == hs,
            out@ == mid + pci_steps(hs.take(j as int)),
        decreases found@.len() - j,
    {
        proof {
            let t = hs.take(j + 1);
            assert(t.drop_last() =~= hs.take(j as int));
            assert(t.last() == hs[j as int]);
        }
        match found[j] {
            DtHit::Pci(Some(reg)) => out.push(BootStep::Pci(reg)),
            _ => {},
        }
        proof {
            assert(out@ =~= mid + pci_steps(hs.take(j + 1)));
        }
        j = j + 1;
    }
    proof {
        assert(hs.take(hs.len() as int) =~= hs);
    }
    out.push(BootStep::VirtioProbe);
    out.push(BootStep::Gpu);
    out.push(BootStep::Input);
    out.push(BootStep::Block);
    out.push(BootStep::PageCache);
    proof {
        assert(out@ =~= boot_plan(root.children@));
    }
    out
}

proof fn lemma_steps_kinds(hs: Seq<DtHit>)
    ensures
        forall|i: int| 0 <= i < plic_steps(hs).len() ==> #[trigger] plic_steps(hs)[i]
            == BootStep::Plic,
        forall|i: int| 0 <= i < pci_steps(hs).len() ==> #[trigger] pci_steps(hs)[i] is Pci,
    decreases hs.len(),
{
    if hs.len() > 0 {
        lemma_steps_kinds(hs.drop_last());
    }
}

/// Interrupt controllers are set up before any bus, wherever the tree lists
/// them: a device can register its interrupt when it is set up.
pub proof fn law_interrupts_come_before_devices(root: Seq<DtNode>, i: int, j: int)
    requires
        0 <= i < boot_plan(root).len(),
        0 <= j < boot_plan(root).len(),
        boot_plan(root)[i] == BootStep::Plic,
        boot_plan(root)[j] is Pci,
    ensures
        i < j,
{
    let hs = hits_among(root);
    lemma_steps_kinds(hs);
    let n = plic_steps(hs).len();
    let m = pci_steps(hs).len();
    let b = boot_plan(root);
    if i > n {
        if i <= n + m {
            assert(b[i] == pci_steps(hs)[i - 1 - n]);
        }
    }
    if 1 <= j <= n {
        assert(b[j] == plic_steps(hs)[j - 1]);
    }
}

/// The network card that the kernel drives: vendor and device.
pub const NIC_ID: (u16, u16) = (0x8086, 0x100E);

/// Where the network card's registers go on the bus.
pub const IGB_BAR_PA: u64 = 0x4000_0000;

/// How a network card is set up.
#[derive(Clone, Copy, Debug, PartialEq, Eq, Structural)]
pub struct NicPlan {
    /// Physical range of its registers.
    pub bar_pa: u64,
    pub bar_size: u64,
    pub irq: u32,
    /// Hart that its interrupts go to.
    pub irq_hart: u64,
}

/// Plans the setup of a network card. `bar_size` is the span of its first
/// register range; a card with too large a range is left alone.
pub fn setup_igb(device: &PciDevice, bar_size: u64, cpu_count: u64) -> (r: Option<NicPlan>)
    requires
        cpu_count > 0,
    ensures
        r == (if bar_size > 2 * MB {
            None
        } else {
            Some(
                NicPlan {
                    bar_pa: IGB_BAR_PA,
                    bar_size,
                    irq: (32 + ((device.address / 0x8000) % 32) % 4) as u32,
                    irq_hart: if cpu_count > 1 {
                        1
                    } else {
                        0
                    },
                },
            )
        }),
{
    if bar_size > 2 * MB {
        return None;
    }
    Some(
        NicPlan {
            bar_pa: IGB_BAR_PA,
            bar_size,
            irq: crate::pci::interrupt_line(device),
            irq_hart: if cpu_count > 1 {
                1
            } else {
                0
            },
        },
    )
}

/// A node is a PCI bus or an interrupt controller by how its name begins;
/// below one no more are looked for, and below any other node its children
/// are looked at, the last of them first.
pub proof fn law_nodes_are_told_by_name(n: DtNode)
    ensures
        ({
            let s = n.name@;
            let pci = s.len() >= 3 && s[0] == 'p' as u8 && s[1] == 'c' as u8 && s[2] == 'i' as u8;
            let plic = s.len() >= 4 && s[0] == 'p' as u8 && s[1] == 'l' as u8 && s[2] == 'i' as u8
                && s[3] == 'c' as u8;
            &&& pci ==> hits(n) == seq![DtHit::Pci(n.reg)]
            &&& plic ==> hits(n) == seq![DtHit::Plic]
            &&& !pci && !plic ==> hits(n) == hits_among(n.children@)
        }),
{
    let s = n.name@;
    let a = pci_prefix();
    let b = plic_prefix();
    if s.len() >= 3 && s[0] == 0x70 && s[1] == 0x63 && s[2] == 0x69 {
        assert(s.subrange(0, 3) =~= a);
        assert(a.is_prefix_of(s));
    }
    if s.len() >= 4 && s[0] == 0x70 && s[1] == 0x6c && s[2] == 0x69 && s[3] == 0x63 {
        assert(s.subrange(0, 4) =~= b);
        assert(b.is_prefix_of(s));
        assert(!a.is_prefix_of(s)) by {
            if a.is_prefix_of(s) {
                assert(s.subrange(0, 3)[1] == a[1]);
            }
        }
    }
    if a.is_prefix_of(s) {
        assert(s.subrange(0, 3) =~= a);
        assert(s[0] == a[0] && s[1] == a[1] && s[2] == a[2]) by {
            assert(s.subrange(0, 3)[0] == s[0]);
            assert(s.subrange(0, 3)[1] == s[1]);
            assert(s.subrange(0, 3)[2] == s[2]);
        }
    }
    if b.is_prefix_of(s) {
        assert(s.subrange(0, 4) =~= b);
        assert(s[0] == b[0] && s[1] == b[1] && s[2] == b[2] && s[3] == b[3]) by {
            assert(s.subrange(0, 4)[0] == s[0]);
            assert(s.subrange(0, 4)[1] == s[1]);
            assert(s.subrange(0, 4)[2] == s[2]);
            assert(s.subrange(0, 4)[3] == s[3]);
        }
    }
}

/// Whatever is found below a node is found below its parent's children.
pub proof fn law_nothing_in_the_tree_is_missed(cs: Seq<DtNode>, i: int, h: DtHit)
    requires
        0 <= i < cs.len(),
        hits(cs[i]).contains(h),
    ensures
        hits_among(cs).contains(h),
    decreases cs.len(),
{
    let a = hits(cs.last());
    let b = hits_among(cs.drop_last());
    if i == cs.len() - 1 {
        let k = choose|k: int| 0 <= k < a.len() && a[k] == h;
        assert((a + b)[k] == h);
    } else {
        assert(cs.drop_last()[i] == cs[i]);
        law_nothing_in_the_tree_is_missed(cs.drop_last(), i, h);
        let k = choose|k: int| 0 <= k < b.len() && b[k] == h;
        assert((a + b)[a.len() + k] == h);
    }
}

proof fn lemma_steps_of(hs: Seq<DtHit>, i: int)
    requires
        0 <= i < hs.len(),
    ensures
        hs[i] == DtHit::Plic ==> plic_steps(hs).contains(BootStep::Plic),
        hs[i] matches DtHit::Pci(Some(reg)) ==> pci_steps(hs).contains(BootStep::Pci(reg)),
    decreases hs.len(),
{
    let d = hs.drop_last();
    if i == hs.len() - 1 {
        let p = plic_steps(hs);
        let q = pci_steps(hs);
        if hs[i] == DtHit::Plic {
            assert(p.last() == BootStep::Plic);
            assert(p.contains(p.last()));
        }
        if let DtHit::Pci(Some(reg)) = hs[i] {
            assert(q.last() == BootStep::Pci(reg));
            assert(q.contains(q.last()));
        }
    } else {
        assert(d[i] == hs[i]);
        lemma_steps_of(d, i);
        if hs[i] == DtHit::Plic {
            let p = plic_steps(d);
            let k = choose|k: int| 0 <= k < p.len() && p[k] == BootStep::Plic;
            assert(plic_steps(hs)[k] == BootStep::Plic);
        }
        if let DtHit::Pci(Some(reg)) = hs[i] {
            let q = pci_steps(d);
            let k = choose|k: int| 0 <= k < q.len() && q[k] == BootStep::Pci(reg);
            assert(pci_steps(hs)[k] == BootStep::Pci(reg));
        }
    }
}

/// Everything found in the tree is brought up. The serial thread is first,
/// and the devices on the buses come last, in their order.
pub proof fn law_everything_found_is_brought_up(root: Seq<DtNode>, i: int)
    ensures
        0 <= i < hits_among(root).len() ==> ({
            &&& hits_among(root)[i] == DtHit::Plic ==> boot_plan(root).contains(BootStep::Plic)
            &&& hits_among(root)[i] matches DtHit::Pci(Some(reg)) ==> boot_plan(root).contains(
                BootStep::Pci(reg),
            )
        }),
        boot_plan(root).len() >= 6,
        boot_plan(root)[0] == BootStep::SerialThread,
        boot_plan(root).skip(boot_plan(root).len() - 5) == seq![
            BootStep::VirtioProbe,
            BootStep::Gpu,
            BootStep::Input,
            BootStep::Block,
            BootStep::PageCache,
        ],
        boot_plan(root).len() <= 6 + hits_among(root).len(),
{
    let hs = hits_among(root);
    let plan = boot_plan(root);
    let p = plic_steps(hs);
    let q = pci_steps(hs);
    if 0 <= i < hs.len() {
        lemma_steps_of(hs, i);
        if hs[i] == DtHit::Plic {
            let k = choose|k: int| 0 <= k < p.len() && p[k] == BootStep::Plic;
            assert(plan[1 + k] == BootStep::Plic);
        }
        if let DtHit::Pci(Some(reg)) = hs[i] {
            let k = choose|k: int| 0 <= k < q.len() && q[k] == BootStep::Pci(reg);
            assert(plan[1 + p.len() + k] == BootStep::Pci(reg));
        }
    }
    lemma_steps_bounded(hs);
    assert(plan.skip(plan.len() - 5) =~= seq![
        BootStep::VirtioProbe,
        BootStep::Gpu,
        BootStep::Input,
        BootStep::Block,
        BootStep::PageCache,
    ]);
}

proof fn lemma_steps_bounded(hs: Seq<DtHit>)
    ensures
        plic_steps(hs).len() + pci_steps(hs).len() <= hs.len(),
    decreases hs.len(),
{
    if hs.len() > 0 {
        lemma_steps_bounded(hs.drop_last());
    }
}

} // verus!
