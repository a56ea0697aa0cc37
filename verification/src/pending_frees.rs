//! Frames whose last reference was dropped, on their way back to the
//! allocator. One ring per hart; the manager drains them in hart order.

use crate::process::PhysBacking;
use heapless::spsc::Queue;
use vstd::prelude::*;

verus! {

/// A single-producer single-consumer ring of the `heapless` crate.
#[verifier::external_body]
pub struct FrameRing {
    q: Queue<PhysBacking, 64>,
}

/// The frames in one ring, oldest first.
pub uninterp spec fn ring_frames(q: FrameRing) -> Seq<PhysBacking>;

/// `heapless::spsc::Queue::new`: an empty ring.
#[verifier::external_body]
fn ring_new() -> (q: FrameRing)
    ensures
        ring_frames(q) == Seq::<PhysBacking>::empty(),
{
    FrameRing { q: Queue::new() }
}

/// `heapless::spsc::Queue::enqueue`: appends unless the ring holds as many
/// items as it can, one less than its size, and then hands the item back.
#[verifier::external_body]
fn ring_enqueue(q: &mut FrameRing, b: PhysBacking) -> (r: Result<(), PhysBacking>)
    ensures
        match r {
            Ok(()) => {
                &&& ring_frames(*old(q)).len() < 63
                &&& ring_frames(*final(q)) == ring_frames(*old(q)).push(b)
            },
            Err(x) => {
                &&& ring_frames(*old(q)).len() >= 63
                &&& x == b
                &&& ring_frames(*final(q)) == ring_frames(*old(q))
            },
        },
{
    q.q.enqueue(b)
}

/// `heapless::spsc::Queue::dequeue`: takes the oldest item.
#[verifier::external_body]
fn ring_dequeue(q: &mut FrameRing) -> (r: Option<PhysBacking>)
    ensures
        match r {
            Some(b) => {
                &&& ring_frames(*old(q)).len() > 0
                &&& b == ring_frames(*old(q))[0]
                &&& ring_frames(*final(q)) == ring_frames(*old(q)).skip(1)
            },
            None => {
                &&& ring_frames(*old(q)).len() == 0
                &&& ring_frames(*final(q)) == ring_frames(*old(q))
            },
        },
{
    q.q.dequeue()
}

/// Slots of a ring, one of which stays empty.
pub const FREE_RING_CAP: usize = 64;

/// One ring per hart.
pub struct FreeRings {
    rings: Vec<FrameRing>,
}

/// The frames of all rings, those of the lowest hart first.
pub open spec fn all_frames(v: Seq<Seq<PhysBacking>>) -> Seq<PhysBacking>
    decreases v.len(),
{
    if v.len() == 0 {
        Seq::empty()
    } else {
        all_frames(v.drop_last()) + v.last()
    }
}

impl View for FreeRings {
    type V = Seq<Seq<PhysBacking>>;

    closed spec fn view(&self) -> Seq<Seq<PhysBacking>> {
        self.rings@.map_values(|q: FrameRing| ring_frames(q))
    }
}

impl FreeRings {
    /// Empty rings for `num_harts` harts.
    pub fn init(num_harts: usize) -> (r: Self)
        requires
            num_harts > 0,
        ensures
            r@ == Seq::new(num_harts as nat, |i: int| Seq::<PhysBacking>::empty()),
    {
        let mut rings: Vec<FrameRing> = Vec::new();
        let mut i: usize = 0;
        while i < num_harts
            invariant
                i <= num_harts,
                rings@.len() == i,
                forall|j: int|
                    0 <= j < i ==> ring_frames(#[trigger] rings@[j]) == Seq::<PhysBacking>::empty(),
            decreases num_harts - i,
        {
            rings.push(ring_new());
            i = i + 1;
        }
        let r = FreeRings { rings };
        proof {
            assert(r@ =~= Seq::new(num_harts as nat, |i: int| Seq::<PhysBacking>::empty()));
        }
        r
    }

    /// Number of rings.
    pub fn harts(&self) -> (r: usize)
        ensures
            r == self@.len(),
    {
        self.rings.len()
    }

    /// Queues a frame on the ring of `hart`. `Err` hands it back when that
    /// ring is full.
    pub fn push(&mut self, hart: usize, b: PhysBacking) -> (r: Result<(), PhysBacking>)
        requires
            hart < old(self)@.len(),
        ensures
            old(self)@[hart as int].len() < 63 ==> r is Ok && final(self)@ == old(self)@.update(
                hart as int,
                old(self)@[hart as int].push(b),
            ),
            old(self)@[hart as int].len() >= 63 ==> r == Err::<(), PhysBacking>(b) && final(self)@
                == old(self)@,
    {
        let ghost before = self.rings@;
        let r = ring_enqueue(&mut self.rings[hart], b);
        proof {
            if r is Ok {
                assert(self@ =~= old(self)@.update(hart as int, old(self)@[hart as int].push(b)));
            } else {
                assert(self@ =~= old(self)@);
            }
        }
        r
    }

    /// Takes every queued frame, hart by hart, oldest first.
    pub fn drain(&mut self) -> (r: Vec<PhysBacking>)
        ensures
            r@ == all_frames(old(self)@),
            final(self)@ == old(self)@.map_values(|s: Seq<PhysBacking>| Seq::<PhysBacking>::empty()),
    {
        let mut out: Vec<PhysBacking> = Vec::new();
        let mut h: usize = 0;
        let ghost start = self@;
        while h < self.rings.len()
            invariant
                h <= self.rings@.len(),
                start == old(self)@,
                self@.len() == start.len(),
                self.rings@.len() == start.len(),
                out@ == all_frames(start.take(h as int)),
                forall|j: int| 0 <= j < h ==> (#[trigger] self@[j]) == Seq::<PhysBacking>::empty(),
                forall|j: int| h <= j < start.len() ==> (#[trigger] self@[j]) == start[j],
            decreases self.rings@.len() - h,
        {
            let ghost done = out@;
            let ghost here = self@[h as int];
            let ghost mut k: int = 0;
            loop
                invariant
                    h < self.rings@.len(),
                    self.rings@.len() == start.len(),
                    self@.len() == start.len(),
                    0 <= k <= here.len(),
                    here == start[h as int],
                    self@[h as int] == here.skip(k),
                    out@ == done + here.take(k),
                    forall|j: int|
                        0 <= j < h ==> (#[trigger] self@[j]) == Seq::<PhysBacking>::empty(),
                    forall|j: int| h < j < start.len() ==> (#[trigger] self@[j]) == start[j],
                ensures
                    k == here.len(),
                    self@[h as int] == here.skip(k),
                    out@ == done + here.take(k),
                decreases here.len() - k,
            {
                let ghost pre = self@;
                let x = ring_dequeue(&mut self.rings[h]);
                proof {
                    assert forall|j: int| 0 <= j < start.len() && j != h implies (
                        #[trigger] self@[j]) == pre[j] by {}
                }
                match x {
                    Some(b) => {
                        out.push(b);
                        proof {
                            assert(self@[h as int] =~= here.skip(k + 1));
                            assert(here.take(k + 1) =~= here.take(k).push(here[k]));
                            assert(out@ =~= done + here.take(k + 1));
                            k = k + 1;
                        }
                    },
                    None => {
                        proof {
                            assert(self@[h as int] =~= here.skip(k));
                        }
                        break ;
                    },
                }
            }
            proof {
                assert(here.take(k) =~= here);
                assert(here.skip(k) =~= Seq::<PhysBacking>::empty());
                let t = start.take(h + 1);
                assert(t.drop_last() =~= start.take(h as int));
                assert(t.last() == here);
            }
            h = h + 1;
        }
        proof {
            assert(start.take(h as int) =~= start);
            assert(self@ =~= start.map_values(|s: Seq<PhysBacking>| Seq::<PhysBacking>::empty()));
        }
        out
    }
}

} // verus!
