//! Letting go of shared regions. A region lives as long as somebody holds it;
//! the last one to let go sends its frames back.

use crate::orbit::Effect;
use crate::pending_frees::FreeRings;
use crate::process::PhysBacking;
#[allow(unused_imports)]
use crate::shared_user_ptr::Region;
use crate::shared_user_ptr::{SharedRegions, SharedUserPtr};
#[allow(unused_imports)]
use crate::world::regions_ok;
use vstd::prelude::*;

verus! {

broadcast use {vstd::laws_cmp::group_laws_cmp, vstd::std_specs::btree::group_btree_axioms};

/// The live regions, the frames on their way back, hart by hart, and the work
/// for the machine.
#[verifier::ext_equal]
pub struct Holds {
    pub regions: Map<u64, Region>,
    pub frees: Seq<Seq<PhysBacking>>,
    pub effects: Seq<Effect>,
}

pub open spec fn holds_of(r: SharedRegions, f: FreeRings, e: Seq<Effect>) -> Holds {
    Holds { regions: r@, frees: f@, effects: e }
}

/// Number of holders of the region at `pa`.
pub open spec fn refs_of(regions: Map<u64, Region>, pa: u64) -> int {
    if regions.contains_key(pa) {
        regions[pa].refs as int
    } else {
        0
    }
}

impl Holds {
    /// One holder of the region at `pa` lets go. The last one queues the
    /// frames on its hart's ring. A full ring is reported, and the frames are
    /// not lost.
    pub open spec fn released(self, pa: u64, hart: int) -> Holds {
        if !self.regions.contains_key(pa) {
            self
        } else {
            let g = self.regions[pa];
            if g.refs == 1 {
                let h = Holds { regions: self.regions.remove(pa), ..self };
                if self.frees[hart].len() < 63 {
                    Holds {
                        frees: self.frees.update(hart, self.frees[hart].push(g.backing)),
                        ..h
                    }
                } else {
                    Holds {
                        effects: self.effects + seq![
                            Effect::RingFull { hart: hart as u64 },
                            Effect::Free(g.backing),
                        ],
                        ..h
                    }
                }
            } else {
                Holds {
                    regions: self.regions.insert(pa, Region { refs: (g.refs - 1) as u32, ..g }),
                    ..self
                }
            }
        }
    }

    /// Several holders let go, one after another.
    pub open spec fn all_released(self, pas: Seq<u64>, hart: int) -> Holds
        decreases pas.len(),
    {
        if pas.len() == 0 {
            self
        } else {
            self.all_released(pas.drop_last(), hart).released(pas.last(), hart)
        }
    }

    /// Whether these frames are on their way back, and how often.
    pub open spec fn times_returned(self, b: PhysBacking) -> nat {
        times_queued(self.frees, b) + times_in(self.effects, Effect::Free(b))
    }
}

/// How often something is in a sequence.
pub open spec fn times_in<A>(s: Seq<A>, x: A) -> nat
    decreases s.len(),
{
    if s.len() == 0 {
        0
    } else if s.last() == x {
        times_in(s.drop_last(), x) + 1
    } else {
        times_in(s.drop_last(), x)
    }
}

/// How often frames are in the rings of all harts.
pub open spec fn times_queued(frees: Seq<Seq<PhysBacking>>, b: PhysBacking) -> nat
    decreases frees.len(),
{
    if frees.len() == 0 {
        0
    } else {
        times_queued(frees.drop_last(), b) + times_in(frees.last(), b)
    }
}

/// Lets go of the region at `pa` from `hart`.
pub fn let_go(
    regions: &mut SharedRegions,
    frees: &mut FreeRings,
    effects: &mut Vec<Effect>,
    pa: u64,
    hart: usize,
)
    requires
        regions_ok(old(regions)@),
        hart < old(frees)@.len(),
    ensures
        holds_of(*final(regions), *final(frees), final(effects)@) == holds_of(
            *old(regions),
            *old(frees),
            old(effects)@,
        ).released(pa, hart as int),
        regions_ok(final(regions)@),
        final(frees)@.len() == old(frees)@.len(),
{
    if !regions.regions.contains_key(&pa) {
        return ;
    }
    let sup = SharedUserPtr { pa };
    match sup.release(regions) {
        Some(b) => match frees.push(hart, b) {
            Ok(()) => {},
            Err(b) => {
                effects.push(Effect::RingFull { hart: hart as u64 });
                effects.push(Effect::Free(b));
                proof {
                    assert(effects@ =~= old(effects)@ + seq![
                        Effect::RingFull { hart: hart as u64 },
                        Effect::Free(b),
                    ]);
                }
            },
        },
        None => {},
    }
    proof {
        assert forall|k: u64| #[trigger] regions@.contains_key(k) implies {
            &&& regions@[k].refs > 0
            &&& regions@[k].backing.pa == k
            &&& SharedUserPtr::aligned(regions@[k].user_va, regions@[k].len)
        } by {
            assert(old(regions)@.contains_key(k));
        }
    }
}

pub proof fn lemma_times_push<A>(s: Seq<A>, y: A, x: A)
    ensures
        times_in(s.push(y), x) == times_in(s, x) + (if y == x {
            1nat
        } else {
            0nat
        }),
{
    assert(s.push(y).drop_last() =~= s);
}

pub proof fn lemma_times_add<A>(a: Seq<A>, b: Seq<A>, x: A)
    ensures
        times_in(a + b, x) == times_in(a, x) + times_in(b, x),
    decreases b.len(),
{
    if b.len() == 0 {
        assert(a + b =~= a);
    } else {
        lemma_times_add(a, b.drop_last(), x);
        assert((a + b).drop_last() =~= a + b.drop_last());
    }
}

proof fn lemma_queued_push(frees: Seq<Seq<PhysBacking>>, hart: int, x: PhysBacking, b: PhysBacking)
    requires
        0 <= hart < frees.len(),
    ensures
        times_queued(frees.update(hart, frees[hart].push(x)), b) == times_queued(frees, b) + (if x
            == b {
            1nat
        } else {
            0nat
        }),
    decreases frees.len(),
{
    let after = frees.update(hart, frees[hart].push(x));
    if hart == frees.len() - 1 {
        assert(after.drop_last() =~= frees.drop_last());
        lemma_times_push(frees[hart], x, b);
    } else {
        assert(after.drop_last() =~= frees.drop_last().update(
            hart,
            frees.drop_last()[hart].push(x),
        ));
        lemma_queued_push(frees.drop_last(), hart, x, b);
    }
}

/// The frames of a region go back when its last holder lets go, and only then:
/// while others hold it the region stays, with one holder less, and nothing
/// goes back; after the last one it is gone and its frames are on their way
/// back exactly once more. Frames of other regions do not move.
pub proof fn law_last_holder_returns_the_frames(h: Holds, pa: u64, hart: int, b: PhysBacking)
    requires
        h.regions.contains_key(pa),
        h.regions[pa].refs > 0,
        0 <= hart < h.frees.len(),
    ensures
        refs_of(h.released(pa, hart).regions, pa) == h.regions[pa].refs - 1,
        h.released(pa, hart).regions.contains_key(pa) == (h.regions[pa].refs > 1),
        h.released(pa, hart).times_returned(b) == h.times_returned(b) + (if h.regions[pa].refs == 1
            && h.regions[pa].backing == b {
            1nat
        } else {
            0nat
        }),
        forall|k: u64|
            k != pa ==> (#[trigger] h.released(pa, hart).regions.contains_key(k)
                == h.regions.contains_key(k)) && (h.regions.contains_key(k) ==> h.released(
                pa,
                hart,
            ).regions[k] == h.regions[k]),
{
    let g = h.regions[pa];
    if g.refs == 1 {
        if h.frees[hart].len() < 63 {
            lemma_queued_push(h.frees, hart, g.backing, b);
        } else {
            let full = Effect::RingFull { hart: hart as u64 };
            assert(h.effects + seq![full, Effect::Free(g.backing)] =~= h.effects.push(full).push(
                Effect::Free(g.backing),
            ));
            lemma_times_push(h.effects, full, Effect::Free(b));
            lemma_times_push(h.effects.push(full), Effect::Free(g.backing), Effect::Free(b));
        }
    }
}

/// A region outlives its process as long as the network thread holds it: with
/// `n` holders it survives any `n - 1` of them letting go.
pub proof fn law_region_lives_while_it_is_held(h: Holds, pa: u64, hart: int, gone: Seq<u64>)
    requires
        h.regions.contains_key(pa),
        times_in(gone, pa) < h.regions[pa].refs,
    ensures
        h.all_released(gone, hart).regions.contains_key(pa),
        h.all_released(gone, hart).regions[pa].refs == h.regions[pa].refs - times_in(
            gone,
            pa,
        ),
        h.all_released(gone, hart).regions[pa].revoked == h.regions[pa].revoked,
    decreases gone.len(),
{
    if gone.len() > 0 {
        law_region_lives_while_it_is_held(h, pa, hart, gone.drop_last());
    }
}

/// The frames of a region that nobody holds any more are queued for the
/// hart's next round, or given back at once where its queue is full. While
/// it is held nothing is given back.
pub proof fn law_frames_are_queued_or_given_back(h: Holds, pa: u64, hart: int)
    requires
        h.regions.contains_key(pa),
        h.regions[pa].refs > 0,
        0 <= hart < h.frees.len(),
    ensures
        ({
            let n = h.released(pa, hart);
            let b = h.regions[pa].backing;
            &&& h.regions[pa].refs > 1 ==> n.frees == h.frees && n.effects == h.effects
            &&& h.regions[pa].refs == 1 && h.frees[hart].len() < 63 ==> {
                &&& n.frees[hart] == h.frees[hart].push(b)
                &&& n.effects == h.effects
            }
            &&& h.regions[pa].refs == 1 && h.frees[hart].len() >= 63 ==> {
                &&& n.frees == h.frees
                &&& n.effects.len() == h.effects.len() + 2
                &&& n.effects[h.effects.len() as int] == (Effect::RingFull { hart: hart as u64 })
                &&& n.effects.last() == Effect::Free(b)
            }
            &&& n.frees.len() == h.frees.len()
            &&& forall|o: int|
                0 <= o < h.frees.len() && o != hart ==> #[trigger] n.frees[o] == h.frees[o]
        }),
{
}

} // verus!
