//! Regions mapped both by the kernel and by one process, and their
//! revocation.
//!
//! Several holders can share a region. Its frames are released when the last
//! of them lets go; once it is revoked no holder can reach it and no page of
//! it is mapped for the user.

use crate::orbit::Effect;
use crate::process::PhysBacking;
use std::collections::BTreeMap;
use vstd::prelude::*;

verus! {

broadcast use {vstd::laws_cmp::group_laws_cmp, vstd::std_specs::btree::group_btree_axioms};

/// Software tag of a leaf that may be revoked.
pub const SHARED_REVOCABLE: u8 = 1;

/// Why a revocation stopped, and at which page.
#[derive(Clone, Copy, Debug, PartialEq, Eq, Structural)]
pub enum RevokeError {
    MissingIntermediate(u64),
    NotMapped(u64),
    WrongTag { va: u64, tag: u8 },
}

/// A last-level page-table entry.
#[derive(Clone, Copy, Debug, PartialEq, Eq, Structural)]
pub struct Leaf {
    pub mapped: bool,
    pub tag: u8,
}

/// The last-level entries of one page table that regions depend on, by page
/// address. An address without an entry has no last-level table.
pub struct UserLeaves {
    pub leaves: BTreeMap<u64, Leaf>,
}

impl View for UserLeaves {
    type V = Map<u64, Leaf>;

    open spec fn view(&self) -> Map<u64, Leaf> {
        self.leaves@
    }
}

/// Why the leaf at `k` cannot be revoked, if it cannot.
pub open spec fn leaf_fault(m: Map<u64, Leaf>, k: u64) -> Option<RevokeError> {
    if !m.contains_key(k) {
        Some(RevokeError::MissingIntermediate(k))
    } else if !m[k].mapped {
        Some(RevokeError::NotMapped(k))
    } else if m[k].tag != SHARED_REVOCABLE {
        Some(RevokeError::WrongTag { va: k, tag: m[k].tag })
    } else {
        None
    }
}

/// The first page from `va` to `end` that cannot be revoked, and why.
pub open spec fn first_fault(m: Map<u64, Leaf>, va: int, end: int) -> Option<RevokeError>
    decreases
            (if va < end {
                end - va
            } else {
                0
            }),
{
    if va >= end {
        None
    } else {
        match leaf_fault(m, va as u64) {
            Some(e) => Some(e),
            None => first_fault(m, va + 4096, end),
        }
    }
}

/// The leaves after every page from `va` to `end` was cleared.
pub open spec fn leaves_cleared(m: Map<u64, Leaf>, va: int, end: int) -> Map<u64, Leaf>
    decreases
            (if va < end {
                end - va
            } else {
                0
            }),
{
    if va >= end {
        m
    } else {
        leaves_cleared(m.insert(va as u64, Leaf { mapped: false, tag: 0 }), va + 4096, end)
    }
}

/// The leaves after every page from `va` to `end` was mapped, to be revoked
/// later.
pub open spec fn leaves_made(m: Map<u64, Leaf>, va: int, end: int) -> Map<u64, Leaf>
    decreases
            (if va < end {
                end - va
            } else {
                0
            }),
{
    if va >= end {
        m
    } else {
        leaves_made(
            m.insert(va as u64, Leaf { mapped: true, tag: SHARED_REVOCABLE }),
            va + 4096,
            end,
        )
    }
}

/// Clearing the leaves from `va` to `end` in the page table at `root_pa`, each
/// with a flush of its translation before the next.
pub open spec fn page_clears(root_pa: u64, asid: u16, va: int, end: int) -> Seq<Effect>
    decreases
            (if va < end {
                end - va
            } else {
                0
            }),
{
    if va >= end {
        Seq::empty()
    } else {
        seq![
            Effect::UnmapPage { root_pa, va: va as u64, levels: 4 },
            Effect::Fence { asid, va: va as u64 },
        ] + page_clears(root_pa, asid, va + 4096, end)
    }
}

/// What becomes of the leaves from `va` to `end`: all of them are cleared, or,
/// if any page has none that may be, none is.
pub open spec fn revoke_walk(m: Map<u64, Leaf>, va: int, end: int) -> (
    Map<u64, Leaf>,
    Result<(), RevokeError>,
) {
    match first_fault(m, va, end) {
        Some(e) => (m, Err(e)),
        None => (leaves_cleared(m, va, end), Ok(())),
    }
}

/// A region and how many hold it.
#[derive(Clone, Copy, Debug, PartialEq, Eq, Structural)]
pub struct Region {
    pub backing: PhysBacking,
    pub user_va: u64,
    pub len: u64,
    pub owner_pid: u16,
    pub revoked: bool,
    pub refs: u32,
}

/// All live regions, by the address of their first frame.
pub struct SharedRegions {
    pub regions: BTreeMap<u64, Region>,
}

impl View for SharedRegions {
    type V = Map<u64, Region>;

    open spec fn view(&self) -> Map<u64, Region> {
        self.regions@
    }
}

/// One holder's reference to a region.
#[derive(Clone, Copy, Debug, PartialEq, Eq, Structural)]
pub struct SharedUserPtr {
    pub pa: u64,
}

impl SharedUserPtr {
    /// Whether the region is live.
    pub open spec fn live(self, m: Map<u64, Region>) -> bool {
        m.contains_key(self.pa) && m[self.pa].refs > 0
    }

    /// A region's length and place fit the page grid and the address space.
    pub open spec fn aligned(user_va: u64, len: u64) -> bool {
        user_va % 4096 == 0 && len % 4096 == 0 && len > 0 && user_va + len <= u64::MAX
    }

    /// Registers a region with one holder.
    pub fn new(
        table: &mut SharedRegions,
        backing: PhysBacking,
        user_va: u64,
        len: u64,
        owner_pid: u16,
    ) -> (r: Self)
        requires
            Self::aligned(user_va, len),
            !old(table)@.contains_key(backing.pa),
        ensures
            r.pa == backing.pa,
            final(table)@ == old(table)@.insert(
                backing.pa,
                Region { backing, user_va, len, owner_pid, revoked: false, refs: 1 },
            ),
    {
        let _ = table.regions.insert(
            backing.pa,
            Region { backing, user_va, len, owner_pid, revoked: false, refs: 1 },
        );
        SharedUserPtr { pa: backing.pa }
    }

    /// Adds a holder.
    pub fn clone_ref(&self, table: &mut SharedRegions) -> (r: Self)
        requires
            self.live(old(table)@),
            old(table)@[self.pa].refs < u32::MAX,
        ensures
            r == *self,
            final(table)@ == old(table)@.insert(
                self.pa,
                Region {
                    refs: (old(table)@[self.pa].refs + 1) as u32,
                    ..old(table)@[self.pa]
                },
            ),
    {
        let mut g = *table.regions.get(&self.pa).unwrap();
        g.refs = g.refs + 1;
        let _ = table.regions.insert(self.pa, g);
        *self
    }

    /// Drops a holder. The last one gets the frames, to be freed.
    pub fn release(self, table: &mut SharedRegions) -> (r: Option<PhysBacking>)
        requires
            self.live(old(table)@),
        ensures
            old(table)@[self.pa].refs == 1 ==> r == Some(old(table)@[self.pa].backing)
                && final(table)@ == old(table)@.remove(self.pa),
            old(table)@[self.pa].refs > 1 ==> r is None && final(table)@ == old(table)@.insert(
                self.pa,
                Region {
                    refs: (old(table)@[self.pa].refs - 1) as u32,
                    ..old(table)@[self.pa]
                },
            ),
    {
        let mut g = *table.regions.get(&self.pa).unwrap();
        if g.refs == 1 {
            let _ = table.regions.remove(&self.pa);
            return Some(g.backing);
        }
        g.refs = g.refs - 1;
        let _ = table.regions.insert(self.pa, g);
        None
    }

    /// Whether the region was revoked.
    pub fn is_revoked(&self, table: &SharedRegions) -> (r: bool)
        requires
            self.live(table@),
        ensures
            r == table@[self.pa].revoked,
    {
        table.regions.get(&self.pa).unwrap().revoked
    }

    /// Where the kernel finds the region's bytes, unless it was revoked.
    pub fn try_as_ref(&self, table: &SharedRegions) -> (r: Option<u64>)
        requires
            self.live(table@),
        ensures
            r == (if table@[self.pa].revoked {
                None::<u64>
            } else {
                Some(table@[self.pa].backing.pa)
            }),
    {
        let g = *table.regions.get(&self.pa).unwrap();
        if g.revoked {
            None
        } else {
            Some(g.backing.pa)
        }
    }

    pub fn user_va(&self, table: &SharedRegions) -> (r: u64)
        requires
            self.live(table@),
        ensures
            r == table@[self.pa].user_va,
    {
        table.regions.get(&self.pa).unwrap().user_va
    }

    pub fn len(&self, table: &SharedRegions) -> (r: u64)
        requires
            self.live(table@),
        ensures
            r == table@[self.pa].len,
    {
        table.regions.get(&self.pa).unwrap().len
    }

    pub fn owner_pid(&self, table: &SharedRegions) -> (r: u16)
        requires
            self.live(table@),
        ensures
            r == table@[self.pa].owner_pid,
    {
        table.regions.get(&self.pa).unwrap().owner_pid
    }

    /// Takes the region away from the user: has its leaves in the page table at
    /// `root_pa` cleared and flushed page by page, and then marks it revoked.
    /// Does nothing when that was done before. If any page cannot be revoked,
    /// nothing changes at all.
    pub fn revoke(
        &self,
        table: &mut SharedRegions,
        leaves: &mut UserLeaves,
        root_pa: u64,
        effects: &mut Vec<Effect>,
    ) -> (r: Result<(), RevokeError>)
        requires
            self.live(old(table)@),
            Self::aligned(old(table)@[self.pa].user_va, old(table)@[self.pa].len),
        ensures
            r is Err ==> final(leaves)@ == old(leaves)@ && final(table)@ == old(table)@
                && final(effects)@ == old(effects)@,
            ({
                let g = old(table)@[self.pa];
                let w = revoke_walk(old(leaves)@, g.user_va as int, g.user_va + g.len);
                if g.revoked {
                    r is Ok && final(table)@ == old(table)@ && final(leaves)@ == old(leaves)@
                        && final(effects)@ == old(effects)@
                } else {
                    &&& r == w.1
                    &&& final(leaves)@ == w.0
                    &&& r is Ok ==> final(effects)@ == old(effects)@ + page_clears(
                        root_pa,
                        g.owner_pid,
                        g.user_va as int,
                        g.user_va + g.len,
                    )
                    &&& final(table)@ == (if r is Ok {
                        old(table)@.insert(self.pa, Region { revoked: true, ..g })
                    } else {
                        old(table)@
                    })
                }
            }),
    {
        let mut g = *table.regions.get(&self.pa).unwrap();
        if g.revoked {
            return Ok(());
        }
        match leaves.check(g.user_va, g.len) {
            Some(e) => {
                return Err(e);
            },
            None => {},
        }
        leaves.clear(g.user_va, g.len, root_pa, g.owner_pid, effects);
        g.revoked = true;
        let _ = table.regions.insert(self.pa, g);
        Ok(())
    }
}

impl UserLeaves {
    /// The first page of a range that cannot be revoked.
    fn check(&self, start: u64, len: u64) -> (r: Option<RevokeError>)
        requires
            SharedUserPtr::aligned(start, len),
        ensures
            r == first_fault(self@, start as int, start + len),
    {
        let end: u64 = start + len;
        let mut va: u64 = start;
        let mut left: u64 = len / 4096;
        while left > 0
            invariant
                end - va == left * 4096,
                end == start + len,
                first_fault(self@, start as int, start + len) == first_fault(
                    self@,
                    va as int,
                    end as int,
                ),
            decreases left,
        {
            match self.leaves.get(&va) {
                None => {
                    return Some(RevokeError::MissingIntermediate(va));
                },
                Some(l) => {
                    if !l.mapped {
                        return Some(RevokeError::NotMapped(va));
                    }
                    if l.tag != SHARED_REVOCABLE {
                        return Some(RevokeError::WrongTag { va, tag: l.tag });
                    }
                },
            }
            va = va + 4096;
            left = left - 1;
        }
        None
    }

    /// Takes note that every page of a range was mapped, to be revoked later.
    pub fn make(&mut self, start: u64, len: u64)
        requires
            SharedUserPtr::aligned(start, len),
        ensures
            final(self)@ == leaves_made(old(self)@, start as int, start + len),
    {
        let end: u64 = start + len;
        let mut va: u64 = start;
        let mut left: u64 = len / 4096;
        while left > 0
            invariant
                end - va == left * 4096,
                end == start + len,
                leaves_made(old(self)@, start as int, start + len) == leaves_made(
                    self@,
                    va as int,
                    end as int,
                ),
            decreases left,
        {
            let _ = self.leaves.insert(va, Leaf { mapped: true, tag: SHARED_REVOCABLE });
            va = va + 4096;
            left = left - 1;
        }
    }

    /// Clears every page of a range, in order, and flushes each.
    fn clear(&mut self, start: u64, len: u64, root_pa: u64, asid: u16, effects: &mut Vec<Effect>)
        requires
            SharedUserPtr::aligned(start, len),
        ensures
            final(self)@ == leaves_cleared(old(self)@, start as int, start + len),
            final(effects)@ == old(effects)@ + page_clears(
                root_pa,
                asid,
                start as int,
                start + len,
            ),
    {
        let end: u64 = start + len;
        let ghost all = page_clears(root_pa, asid, start as int, start + len);
        let mut va: u64 = start;
        let mut left: u64 = len / 4096;
        while left > 0
            invariant
                end - va == left * 4096,
                end == start + len,
                leaves_cleared(old(self)@, start as int, start + len) == leaves_cleared(
                    self@,
                    va as int,
                    end as int,
                ),
                effects@ + page_clears(root_pa, asid, va as int, end as int) == old(effects)@ + all,
            decreases left,
        {
            let ghost before = effects@;
            let _ = self.leaves.insert(va, Leaf { mapped: false, tag: 0 });
            effects.push(Effect::UnmapPage { root_pa, va, levels: 4 });
            effects.push(Effect::Fence { asid, va });
            proof {
                let rest = page_clears(root_pa, asid, va + 4096, end as int);
                assert(effects@ + rest =~= before + page_clears(
                    root_pa,
                    asid,
                    va as int,
                    end as int,
                ));
            }
            va = va + 4096;
            left = left - 1;
        }
        proof {
            assert(effects@ + page_clears(root_pa, asid, va as int, end as int) =~= effects@);
        }
    }
}

/// What clearing a range does to each leaf.
proof fn lemma_cleared(m: Map<u64, Leaf>, va: int, end: int)
    requires
        0 <= va <= end <= u64::MAX,
        va % 4096 == 0,
        end % 4096 == 0,
    ensures
        forall|p: u64|
            va <= p < end && p % 4096 == 0 ==> #[trigger] leaves_cleared(m, va, end).contains_key(p)
                && !leaves_cleared(m, va, end)[p].mapped,
        forall|p: u64|
            !(va <= p < end && p % 4096 == 0) ==> (m.contains_key(p) <==> #[trigger] leaves_cleared(
                m,
                va,
                end,
            ).contains_key(p)),
        forall|p: u64|
            !(va <= p < end && p % 4096 == 0) ==> #[trigger] leaves_cleared(m, va, end)[p] == m[p],
    decreases end - va,
{
    if va < end {
        let k = va as u64;
        let n = m.insert(k, Leaf { mapped: false, tag: 0 });
        assert(va + 4096 <= end);
        lemma_cleared(n, va + 4096, end);
        let out = leaves_cleared(m, va, end);
        assert(out == leaves_cleared(n, va + 4096, end));
        assert(out.contains_key(k) && out[k] == n[k]);
    }
}

/// What mapping a range does to each leaf.
pub proof fn lemma_made(m: Map<u64, Leaf>, va: int, end: int)
    requires
        0 <= va <= end <= u64::MAX,
        va % 4096 == 0,
        end % 4096 == 0,
    ensures
        forall|p: u64|
            va <= p < end && p % 4096 == 0 ==> #[trigger] leaves_made(m, va, end).contains_key(p)
                && leaves_made(m, va, end)[p] == (Leaf { mapped: true, tag: SHARED_REVOCABLE }),
        forall|p: u64|
            !(va <= p < end && p % 4096 == 0) ==> (m.contains_key(p) <==> #[trigger] leaves_made(
                m,
                va,
                end,
            ).contains_key(p)),
        forall|p: u64|
            !(va <= p < end && p % 4096 == 0) ==> #[trigger] leaves_made(m, va, end)[p] == m[p],
    decreases end - va,
{
    if va < end {
        let k = va as u64;
        let n = m.insert(k, Leaf { mapped: true, tag: SHARED_REVOCABLE });
        assert(va + 4096 <= end);
        lemma_made(n, va + 4096, end);
        let out = leaves_made(m, va, end);
        assert(out == leaves_made(n, va + 4096, end));
        assert(out.contains_key(k) && out[k] == n[k]);
    }
}

/// A range whose pages all may be revoked has no page that cannot.
pub proof fn lemma_no_fault(m: Map<u64, Leaf>, va: int, end: int)
    requires
        0 <= va <= end <= u64::MAX,
        va % 4096 == 0,
        end % 4096 == 0,
        forall|p: u64| va <= p < end && p % 4096 == 0 ==> #[trigger] leaf_fault(m, p) is None,
    ensures
        first_fault(m, va, end) is None,
    decreases end - va,
{
    if va < end {
        assert(va + 4096 <= end);
        assert(leaf_fault(m, va as u64) is None);
        lemma_no_fault(m, va + 4096, end);
    }
}

/// A region that was just mapped can be revoked.
pub proof fn law_new_region_can_be_revoked(m: Map<u64, Leaf>, va: int, end: int)
    requires
        0 <= va <= end <= u64::MAX,
        va % 4096 == 0,
        end % 4096 == 0,
    ensures
        revoke_walk(leaves_made(m, va, end), va, end).1 is Ok,
{
    let n = leaves_made(m, va, end);
    lemma_made(m, va, end);
    assert forall|p: u64| va <= p < end && p % 4096 == 0 implies #[trigger] leaf_fault(n, p)
        is None by {
        assert(n.contains_key(p));
    }
    lemma_no_fault(n, va, end);
}

/// Revocation is all or nothing. If it succeeds, no page of the range is mapped
/// any more; if any page cannot be revoked, every leaf is as it was. Leaves
/// outside the range are never touched, and nothing is ever mapped.
pub proof fn law_revoked_range_is_unmapped(m: Map<u64, Leaf>, va: int, end: int)
    requires
        0 <= va <= end <= u64::MAX,
        va % 4096 == 0,
        end % 4096 == 0,
    ensures
        ({
            let (out, r) = revoke_walk(m, va, end);
            &&& r is Ok ==> forall|p: u64|
                va <= p < end && p % 4096 == 0 ==> #[trigger] out.contains_key(p) && !out[p].mapped
            &&& r is Err ==> out == m
            &&& forall|p: u64|
                !(va <= p < end) ==> (m.contains_key(p) <==> #[trigger] out.contains_key(p))
            &&& forall|p: u64| !(va <= p < end) && m.contains_key(p) ==> #[trigger] out[p] == m[p]
            &&& forall|p: u64|
                #[trigger] out.contains_key(p) && out[p].mapped ==> m.contains_key(p) && m[p]
                    == out[p]
        }),
{
    lemma_cleared(m, va, end);
    let (out, r) = revoke_walk(m, va, end);
    if r is Ok {
        assert(out == leaves_cleared(m, va, end));
        assert forall|p: u64| #[trigger] out.contains_key(p) && out[p].mapped implies m.contains_key(p)
            && m[p] == out[p] by {
            assert(!(va <= p < end && p % 4096 == 0));
            assert(leaves_cleared(m, va, end)[p] == m[p]);
        }
        assert forall|p: u64| !(va <= p < end) && m.contains_key(p) implies #[trigger] out[p]
            == m[p] by {
            assert(leaves_cleared(m, va, end)[p] == m[p]);
        }
        assert forall|p: u64| !(va <= p < end) implies (m.contains_key(p)
            <==> #[trigger] out.contains_key(p)) by {
            assert(leaves_cleared(m, va, end).contains_key(p) <==> m.contains_key(p));
        }
    }
}

/// Revoking clears and fences a range page by page, and names the first page
/// at which it cannot: one without a table, one not mapped, or one that is
/// not shared.
pub proof fn law_a_range_is_cleared_page_by_page(
    m: Map<u64, Leaf>,
    root_pa: u64,
    asid: u16,
    va: int,
    end: int,
    k: int,
)
    requires
        0 <= va,
        end <= u64::MAX,
        0 <= k,
        va + 4096 * k < end,
    ensures
        ({
            let e = page_clears(root_pa, asid, va, end);
            let at = (va + 4096 * k) as u64;
            &&& 2 * k + 1 < e.len()
            &&& e[2 * k] == (Effect::UnmapPage { root_pa, va: at, levels: 4 })
            &&& e[2 * k + 1] == (Effect::Fence { asid, va: at })
            &&& va + 4096 * (k + 1) >= end ==> e.len() == 2 * k + 2
            &&& revoke_walk(m, va, end).1 is Ok ==> m.contains_key(at) && m[at].mapped
                && m[at].tag == SHARED_REVOCABLE
            &&& (forall|p: u64|
                va <= p < at && (p - va) % 4096 == 0 ==> #[trigger] m.contains_key(p) && m[p].mapped
                    && m[p].tag == SHARED_REVOCABLE) ==> {
                &&& !m.contains_key(at) ==> revoke_walk(m, va, end).1 == Err::<(), RevokeError>(
                    RevokeError::MissingIntermediate(at),
                )
                &&& m.contains_key(at) && !m[at].mapped ==> revoke_walk(m, va, end).1 == Err::<
                    (),
                    RevokeError,
                >(RevokeError::NotMapped(at))
                &&& m.contains_key(at) && m[at].mapped && m[at].tag != SHARED_REVOCABLE
                    ==> revoke_walk(m, va, end).1 == Err::<(), RevokeError>(
                    RevokeError::WrongTag { va: at, tag: m[at].tag },
                )
            }
        }),
    decreases k,
{
    let e = page_clears(root_pa, asid, va, end);
    let rest = page_clears(root_pa, asid, va + 4096, end);
    assert(e == seq![
        Effect::UnmapPage { root_pa, va: va as u64, levels: 4 },
        Effect::Fence { asid, va: va as u64 },
    ] + rest);
    if k > 0 {
        law_a_range_is_cleared_page_by_page(m, root_pa, asid, va + 4096, end, k - 1);
        let at = (va + 4096 * k) as u64;
        if forall|p: u64|
            va <= p < at && (p - va) % 4096 == 0 ==> #[trigger] m.contains_key(p) && m[p].mapped
                && m[p].tag == SHARED_REVOCABLE {
            assert(m.contains_key(va as u64));
            assert forall|p: u64|
                va + 4096 <= p < at && (p - (va + 4096)) % 4096 == 0 implies #[trigger] m.contains_key(
                p,
            ) && m[p].mapped && m[p].tag == SHARED_REVOCABLE by {
                assert((p - va) % 4096 == 0);
            }
            assert((va + 4096 + 4096 * (k - 1)) as u64 == at);
        }
    }
}

/// Sharing a range maps its pages and leaves all others as they are.
pub proof fn law_sharing_maps_the_range_alone(m: Map<u64, Leaf>, va: int, end: int, p: u64)
    requires
        0 <= va,
        end <= u64::MAX,
    ensures
        ({
            let n = leaves_made(m, va, end);
            let page = va <= p < end && (p - va) % 4096 == 0;
            &&& page ==> n.contains_key(p) && n[p].mapped && n[p].tag == SHARED_REVOCABLE
            &&& !page ==> n.contains_key(p) == m.contains_key(p)
            &&& !page && m.contains_key(p) ==> n[p] == m[p]
        }),
    decreases
            (if va < end {
                end - va
            } else {
                0
            }),
{
    if va < end {
        let x = m.insert(va as u64, Leaf { mapped: true, tag: SHARED_REVOCABLE });
        law_sharing_maps_the_range_alone(x, va + 4096, end, p);
        if p != va {
            assert((p - (va + 4096)) % 4096 == (p - va) % 4096);
            if va < p && p < va + 4096 {
                assert((p - va) % 4096 == p - va);
            }
        } else {
            assert((p - va) % 4096 == 0);
        }
    }
}

} // verus!
