//! What killed a thread, for the log: the kind of fault, where its address lies
//! and who else was in the process.

use crate::orbit::AbiLayout;
use crate::process::{FaultInfo, MappingKind, Process, Thread, UserMapping};
#[allow(unused_imports)]
use crate::tables::{lists32, lists64, sorted32};
use crate::tables::{keys64, members32};
#[allow(unused_imports)]
use crate::world::ProcView;
use std::collections::BTreeMap;
use vstd::prelude::*;

verus! {

broadcast use {vstd::laws_cmp::group_laws_cmp, vstd::std_specs::btree::group_btree_axioms};

/// What a faulting access ran into.
#[derive(Clone, Copy, Debug, PartialEq, Eq, Structural)]
pub enum FaultLabel {
    /// The guard below a stack.
    StackOverflow,
    /// A mapping that does not allow the access.
    Violation,
    /// Nothing at all.
    BadAccess,
}

impl FaultLabel {
    /// The label as the log has it.
    pub open spec fn spec_text(self) -> Seq<char> {
        match self {
            FaultLabel::StackOverflow => "stack overflow"@,
            FaultLabel::Violation => "permission/range violation"@,
            FaultLabel::BadAccess => "bad access"@,
        }
    }

    pub fn text(&self) -> (r: &'static str)
        ensures
            r@ == self.spec_text(),
    {
        match *self {
            FaultLabel::StackOverflow => "stack overflow",
            FaultLabel::Violation => "permission/range violation",
            FaultLabel::BadAccess => "bad access",
        }
    }
}

/// Mapping `k` is the nearest one that begins at or below `va`.
pub open spec fn nearest(maps: Map<u64, UserMapping>, va: u64, k: u64) -> bool {
    &&& maps.contains_key(k)
    &&& k <= va
    &&& forall|j: u64| #[trigger] maps.contains_key(j) && j <= va ==> j <= k
}

/// The mapping that an address lies in.
pub open spec fn mapping_at(maps: Map<u64, UserMapping>, va: u64) -> Option<UserMapping> {
    if exists|k: u64| #[trigger] nearest(maps, va, k) && va - k < maps[k].len {
        Some(maps[choose|k: u64| #[trigger] nearest(maps, va, k)])
    } else {
        None
    }
}

/// What an access to `va` ran into.
pub open spec fn fault_label(maps: Map<u64, UserMapping>, va: u64) -> FaultLabel {
    match mapping_at(maps, va) {
        Some(m) => match m.kind {
            MappingKind::Guard { .. } => FaultLabel::StackOverflow,
            _ => FaultLabel::Violation,
        },
        None => FaultLabel::BadAccess,
    }
}

/// The thread slot in whose part of the stack area an address lies.
pub open spec fn stack_slot_of(base: u64, stride: u64, va: u64) -> Option<u16> {
    if base <= va < base + 256 * stride {
        Some(((va - base) / (stride as int)) as u16)
    } else {
        None
    }
}

/// The slot of a thread, if there is such a thread and it has one.
pub open spec fn slot_of(threads: Map<u32, Thread>, tid: u32) -> Option<u16> {
    if threads.contains_key(tid) {
        threads[tid].slot
    } else {
        None
    }
}

/// What the log says of a thread that a fault killed.
#[verifier::ext_equal]
pub struct FaultView {
    pub tid: u32,
    pub label: FaultLabel,
    pub fault: FaultInfo,
    pub own_slot: Option<u16>,
    pub sp: u64,
    pub ra: u64,
    pub fault_slot: Option<u16>,
    pub siblings: Seq<(u32, Option<u16>)>,
}

/// What the log says of a thread that a fault killed.
pub struct FaultReport {
    pub tid: u32,
    pub label: FaultLabel,
    pub fault: FaultInfo,
    /// The thread's slot, stack pointer and return address.
    pub own_slot: Option<u16>,
    pub sp: u64,
    pub ra: u64,
    /// The slot whose stack the faulting address would belong to.
    pub fault_slot: Option<u16>,
    /// The other threads of the process, ascending, each with its slot.
    pub siblings: Vec<(u32, Option<u16>)>,
}

impl View for FaultReport {
    type V = FaultView;

    open spec fn view(&self) -> FaultView {
        FaultView {
            tid: self.tid,
            label: self.label,
            fault: self.fault,
            own_slot: self.own_slot,
            sp: self.sp,
            ra: self.ra,
            fault_slot: self.fault_slot,
            siblings: self.siblings@,
        }
    }
}

/// The report on thread `t`, which is no longer among the threads of its
/// process `p`.
pub open spec fn fault_report(
    p: ProcView,
    threads: Map<u32, Thread>,
    abi: AbiLayout,
    t: Thread,
    f: FaultInfo,
) -> FaultView {
    FaultView {
        tid: t.tid,
        label: fault_label(p.maps, f.stval),
        fault: f,
        own_slot: t.slot,
        sp: t.frame.sp,
        ra: t.frame.ra,
        fault_slot: stack_slot_of(abi.stack_base, abi.stack_stride, f.stval),
        siblings: sorted32(p.threads).map_values(|s: u32| (s, slot_of(threads, s))),
    }
}

impl Process {
    /// The mapping that an address lies in.
    pub fn find_mapping(&self, va: u64) -> (r: Option<UserMapping>)
        ensures
            r == mapping_at(self.maps@, va),
    {
        let keys = keys64(&self.maps);
        let mut best: Option<u64> = None;
        let mut i: usize = 0;
        while i < keys.len()
            invariant
                i <= keys@.len(),
                lists64(keys@, self.maps@.dom()),
                best matches Some(k) ==> self.maps@.contains_key(k) && k <= va,
                forall|j: int|
                    0 <= j < i && #[trigger] keys@[j] <= va ==> (best matches Some(k) && keys@[j]
                        <= k),
            decreases keys@.len() - i,
        {
            let k: u64 = keys[i];
            proof {
                assert(keys@.contains(k));
                assert(self.maps@.dom().contains(k));
                assert forall|j: int| 0 <= j < i implies #[trigger] keys@[j] < keys@[i as int] by {}
            }
            if k <= va {
                best = Some(k);
            }
            i = i + 1;
        }
        proof {
            assert forall|j: u64| #[trigger] self.maps@.contains_key(j) && j <= va implies (
            best matches Some(k) && j <= k) by {
                assert(keys@.contains(j));
                let n = choose|n: int| 0 <= n < keys@.len() && keys@[n] == j;
                assert(keys@[n] <= va);
            }
        }
        match best {
            Some(k) => {
                proof {
                    assert(nearest(self.maps@, va, k));
                    assert forall|j: u64| #[trigger] nearest(self.maps@, va, j) implies j == k by {
                        assert(self.maps@.contains_key(j));
                    }
                }
                let m: UserMapping = *self.maps.get(&k).unwrap();
                if va - k < m.len {
                    Some(m)
                } else {
                    None
                }
            },
            None => {
                proof {
                    assert forall|j: u64| !(#[trigger] nearest(self.maps@, va, j)) by {}
                }
                None
            },
        }
    }

    /// What an access of this process to `va` ran into.
    pub fn classify_fault(&self, va: u64) -> (r: FaultLabel)
        ensures
            r == fault_label(self.maps@, va),
    {
        match self.find_mapping(va) {
            Some(m) => match m.kind {
                MappingKind::Guard { .. } => FaultLabel::StackOverflow,
                _ => FaultLabel::Violation,
            },
            None => FaultLabel::BadAccess,
        }
    }

    /// The report on a thread that was just struck off this process.
    pub fn report_fault(
        &self,
        threads: &BTreeMap<u32, Thread>,
        abi: AbiLayout,
        t: Thread,
        f: FaultInfo,
    ) -> (r: FaultReport)
        ensures
            r@ == fault_report(self@, threads@, abi, t, f),
    {
        let tids = members32(&self.threads);
        let ghost say = |s: u32| (s, slot_of(threads@, s));
        let mut siblings: Vec<(u32, Option<u16>)> = Vec::new();
        let mut i: usize = 0;
        while i < tids.len()
            invariant
                i <= tids@.len(),
                say == (|s: u32| (s, slot_of(threads@, s))),
                siblings@ == tids@.take(i as int).map_values(say),
            decreases tids@.len() - i,
        {
            let tid: u32 = tids[i];
            let slot: Option<u16> = match threads.get(&tid) {
                Some(x) => x.slot,
                None => None,
            };
            siblings.push((tid, slot));
            i = i + 1;
            proof {
                assert(siblings@ =~= tids@.take(i as int).map_values(say));
            }
        }
        proof {
            assert(tids@.take(i as int) =~= tids@);
        }
        FaultReport {
            tid: t.tid,
            label: self.classify_fault(f.stval),
            fault: f,
            own_slot: t.slot,
            sp: t.frame.sp,
            ra: t.frame.ra,
            fault_slot: stack_slot(abi.stack_base, abi.stack_stride, f.stval),
            siblings,
        }
    }
}

/// The thread slot in whose part of the stack area an address lies.
pub fn stack_slot(base: u64, stride: u64, va: u64) -> (r: Option<u16>)
    ensures
        r == stack_slot_of(base, stride, va),
{
    if va < base || stride == 0 {
        return None;
    }
    let d: u64 = va - base;
    let slot: u64 = d / stride;
    proof {
        vstd::arithmetic::div_mod::lemma_fundamental_div_mod(d as int, stride as int);
        vstd::arithmetic::div_mod::lemma_mod_bound(d as int, stride as int);
        if slot < 256 {
            assert(stride * slot <= stride * 255) by (nonlinear_arith)
                requires
                    slot <= 255,
                    stride > 0,
            ;
        } else {
            assert(stride * slot >= stride * 256) by (nonlinear_arith)
                requires
                    slot >= 256,
                    stride > 0,
            ;
        }
    }
    if slot < 256 {
        Some(slot as u16)
    } else {
        None
    }
}

/// Where mappings do not overlap, an address lies in a mapping exactly if that
/// mapping covers it, and a fault is a stack overflow exactly if that mapping is
/// a guard.
pub proof fn law_faults_are_told_apart(maps: Map<u64, UserMapping>, va: u64, k: u64)
    requires
        forall|a: u64, b: u64|
            #![trigger maps.contains_key(a), maps.contains_key(b)]
            maps.contains_key(a) && maps.contains_key(b) && a < b ==> a + maps[a].len <= b,
        maps.contains_key(k),
        k <= va < k + maps[k].len,
    ensures
        mapping_at(maps, va) == Some(maps[k]),
        fault_label(maps, va) != FaultLabel::BadAccess,
        fault_label(maps, va) == FaultLabel::StackOverflow <==> maps[k].kind is Guard,
{
    assert forall|j: u64| #[trigger] maps.contains_key(j) && j <= va implies j <= k by {
        if j > k {
            assert(maps.contains_key(k));
        }
    }
    assert(nearest(maps, va, k));
    assert forall|j: u64| #[trigger] nearest(maps, va, j) implies j == k by {
        assert(maps.contains_key(j));
    }
}

/// An address that no mapping covers is a bad access.
pub proof fn law_an_unmapped_address_is_a_bad_access(maps: Map<u64, UserMapping>, va: u64)
    requires
        forall|k: u64|
            #[trigger] maps.contains_key(k) ==> !(k <= va < k + maps[k].len),
    ensures
        fault_label(maps, va) == FaultLabel::BadAccess,
{
    assert forall|k: u64| #[trigger] nearest(maps, va, k) implies va - k >= maps[k].len by {
        assert(maps.contains_key(k));
    }
}

/// An address in the stack area belongs to the slot whose stride it lies in;
/// outside the area it belongs to none.
pub proof fn law_a_stack_address_names_its_slot(base: u64, stride: u64, va: u64, slot: u16)
    requires
        stride > 0,
        slot < 256,
    ensures
        base + slot * stride <= va < base + (slot + 1) * stride ==> stack_slot_of(base, stride, va)
            == Some(slot),
        va < base ==> stack_slot_of(base, stride, va) is None,
        va >= base + 256 * stride ==> stack_slot_of(base, stride, va) is None,
{
    let s = slot as int;
    let d = stride as int;
    if base + s * d <= va < base + (s + 1) * d {
        assert((s + 1) * d <= 256 * d) by (nonlinear_arith)
            requires
                s + 1 <= 256,
                d > 0,
        ;
        assert(s * d >= 0) by (nonlinear_arith)
            requires
                s >= 0,
                d > 0,
        ;
        let r = va - base - s * d;
        assert((s + 1) * d == s * d + d) by (nonlinear_arith);
        vstd::arithmetic::div_mod::lemma_fundamental_div_mod_converse(va - base, d, s, r);
    }
}

/// A report on a fault tells of the thread that faulted and of where it
/// was, and lists each thread of its process once, in ascending order, with
/// the slot it has.
pub proof fn law_a_report_tells_of_the_process(
    p: ProcView,
    threads: Map<u32, Thread>,
    abi: AbiLayout,
    t: Thread,
    f: FaultInfo,
    tid: u32,
)
    requires
        p.threads.contains(tid),
    ensures
        ({
            let r = fault_report(p, threads, abi, t, f);
            &&& r.tid == t.tid && r.own_slot == t.slot && r.fault == f
            &&& r.sp == t.frame.sp && r.ra == t.frame.ra
            &&& r.label == fault_label(p.maps, f.stval)
            &&& r.fault_slot == stack_slot_of(abi.stack_base, abi.stack_stride, f.stval)
            &&& exists|i: int| 0 <= i < r.siblings.len() && (#[trigger] r.siblings[i]).0 == tid
            &&& forall|i: int|
                0 <= i < r.siblings.len() ==> {
                    &&& p.threads.contains((#[trigger] r.siblings[i]).0)
                    &&& threads.contains_key(r.siblings[i].0) ==> r.siblings[i].1
                        == threads[r.siblings[i].0].slot
                    &&& !threads.contains_key(r.siblings[i].0) ==> r.siblings[i].1 is None
                }
            &&& forall|i: int, j: int|
                0 <= i < j < r.siblings.len() ==> (#[trigger] r.siblings[i]).0 < (
                #[trigger] r.siblings[j]).0
        }),
{
    let r = fault_report(p, threads, abi, t, f);
    let s = sorted32(p.threads);
    crate::tables::lemma_listed32(p.threads);
    assert(s.contains(tid));
    let k = choose|k: int| 0 <= k < s.len() && s[k] == tid;
    assert(r.siblings[k].0 == tid);
    assert forall|i: int| 0 <= i < r.siblings.len() implies p.threads.contains(
        (#[trigger] r.siblings[i]).0,
    ) by {
        assert(s.contains(s[i]));
    }
}

} // verus!
