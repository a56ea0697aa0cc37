//! Telling the other harts to drop translations.

#[allow(unused_imports)]
use crate::orbit::MAX_HARTS;
use vstd::prelude::*;

verus! {

/// Spins after which a wait for the other harts is first reported.
pub const FIRST_WARN_AT: u64 = 1_000_000;

/// Which harts there are and whether they can be told.
pub struct Shootdown {
    cpu_count: u64,
    secondaries_kicked: bool,
}

impl View for Shootdown {
    type V = (u64, bool);

    closed spec fn view(&self) -> (u64, bool) {
        (self.cpu_count, self.secondaries_kicked)
    }
}

impl Shootdown {
    /// Before the number of harts is known.
    pub fn new() -> (r: Self)
        ensures
            r@ == (0u64, false),
    {
        Shootdown { cpu_count: 0, secondaries_kicked: false }
    }
}

/// Records the number of harts.
pub fn init(s: &mut Shootdown, cpu_count: u64)
    requires
        cpu_count <= MAX_HARTS,
    ensures
        final(s)@ == (cpu_count, old(s)@.1),
{
    s.cpu_count = cpu_count;
}

/// The other harts can be told.
pub open spec fn kicked(s: (u64, bool)) -> (u64, bool) {
    (s.0, true)
}

/// The other harts are running and will answer. A second call changes nothing.
pub fn mark_secondaries_kicked(s: &mut Shootdown)
    ensures
        final(s)@ == kicked(old(s)@),
{
    s.secondaries_kicked = true;
}

/// The harts to tell: all but `me`, or none while there is only one or the
/// others are not running yet.
pub open spec fn targets(s: (u64, bool), me: u64) -> Seq<u64> {
    if s.0 <= 1 || !s.1 {
        Seq::empty()
    } else {
        Seq::new(s.0 as nat, |i: int| i as u64).filter(all_but(me))
    }
}

/// Everybody but `me`.
pub open spec fn all_but(me: u64) -> spec_fn(u64) -> bool {
    |h: u64| h != me
}

/// Lists the harts to tell.
pub fn broadcast_targets(s: &Shootdown, me: u64) -> (r: Vec<u64>)
    ensures
        r@ == targets(s@, me),
{
    let mut out: Vec<u64> = Vec::new();
    let n: u64 = s.cpu_count;
    if n <= 1 || !s.secondaries_kicked {
        return out;
    }
    let ghost all = Seq::new(n as nat, |i: int| i as u64);
    let ghost f = all_but(me);
    let mut i: u64 = 0;
    proof {
        assert(all.take(0).filter(f) =~= Seq::<u64>::empty()) by {
            reveal(Seq::filter);
        }
    }
    while i < n
        invariant
            i <= n,
            all == Seq::new(n as nat, |i: int| i as u64),
            f == all_but(me),
            out@ == all.take(i as int).filter(f),
        decreases n - i,
    {
        proof {
            let t = all.take(i + 1);
            assert(t.drop_last() =~= all.take(i as int));
            assert(t.last() == i);
            reveal(Seq::filter);
        }
        if i != me {
            out.push(i);
        }
        i = i + 1;
    }
    proof {
        assert(all.take(n as int) =~= all);
    }
    out
}

/// Which translations a request is about.
#[derive(Clone, Copy, Debug, PartialEq, Eq, Structural)]
pub enum FlushScope {
    /// Those of every address space.
    All,
    /// Those of one address space.
    Asid(u16),
}

/// A request in the queue of a hart.
#[derive(Clone, Copy, Debug, PartialEq, Eq, Structural)]
pub struct FlushPost {
    pub hart: u64,
    pub scope: FlushScope,
    pub va: u64,
    pub len: u64,
}

/// A request for each of some harts.
pub open spec fn posts_to(harts: Seq<u64>, scope: FlushScope, va: u64, len: u64) -> Seq<FlushPost> {
    harts.map_values(|hart: u64| FlushPost { hart, scope, va, len })
}

/// What a broadcast from `me` puts into the queues of the other harts.
pub open spec fn posts(s: (u64, bool), me: u64, scope: FlushScope, va: u64, len: u64) -> Seq<
    FlushPost,
> {
    posts_to(targets(s, me), scope, va, len)
}

/// Lists the requests of a broadcast. Its sender flushes for itself.
pub fn broadcast_scope(s: &Shootdown, me: u64, scope: FlushScope, va: u64, len: u64) -> (r: Vec<
    FlushPost,
>)
    ensures
        r@ == posts(s@, me, scope, va, len),
{
    let harts = broadcast_targets(s, me);
    let mut out: Vec<FlushPost> = Vec::new();
    let mut i: usize = 0;
    while i < harts.len()
        invariant
            i <= harts@.len(),
            harts@ == targets(s@, me),
            out@ == posts_to(harts@.take(i as int), scope, va, len),
        decreases harts@.len() - i,
    {
        out.push(FlushPost { hart: harts[i], scope, va, len });
        proof {
            assert(out@ =~= posts_to(harts@.take(i + 1), scope, va, len));
        }
        i = i + 1;
    }
    proof {
        assert(harts@.take(i as int) =~= harts@);
    }
    out
}

/// The requests that make the other harts drop translations of one address
/// space: that of `va`, or all of them if it is zero.
pub fn broadcast(s: &Shootdown, me: u64, asid: u16, va: u64, len: u64) -> (r: Vec<FlushPost>)
    ensures
        r@ == posts(s@, me, FlushScope::Asid(asid), va, len),
{
    broadcast_scope(s, me, FlushScope::Asid(asid), va, len)
}

/// The requests that make the other harts drop every translation.
pub fn broadcast_all(s: &Shootdown, me: u64) -> (r: Vec<FlushPost>)
    ensures
        r@ == posts(s@, me, FlushScope::All, 0, 0),
{
    broadcast_scope(s, me, FlushScope::All, 0, 0)
}

/// A broadcast under way: the harts that were told and are to be woken, and how
/// many acknowledgements are awaited.
pub struct Broadcast {
    pub told: Vec<u64>,
    pub pending: u64,
    pub failed: u64,
}

/// Of the harts that `posts` are for, those whose queue took theirs.
pub open spec fn reached(posts: Seq<FlushPost>, queued: Seq<bool>) -> Seq<u64>
    decreases posts.len(),
{
    if posts.len() == 0 {
        Seq::empty()
    } else if queued[posts.len() - 1] {
        reached(posts.drop_last(), queued).push(posts.last().hart)
    } else {
        reached(posts.drop_last(), queued)
    }
}

/// Sorts out which harts were told. `queued` says for each request whether its
/// queue took it. A hart that could not be told is neither woken nor waited
/// for.
pub fn broadcast_told(posts: &Vec<FlushPost>, queued: &Vec<bool>) -> (r: Broadcast)
    requires
        queued@.len() == posts@.len(),
    ensures
        r.told@ == reached(posts@, queued@),
        r.pending == r.told@.len(),
        r.failed == posts@.len() - r.told@.len(),
{
    let mut told: Vec<u64> = Vec::new();
    let mut pending: u64 = posts.len() as u64;
    let mut failed: u64 = 0;
    let mut i: usize = 0;
    while i < posts.len()
        invariant
            i <= posts@.len(),
            queued@.len() == posts@.len(),
            told@ == reached(posts@.take(i as int), queued@),
            pending == posts@.len() - failed,
            failed == i - told@.len(),
            told@.len() <= i,
        decreases posts@.len() - i,
    {
        proof {
            let t = posts@.take(i + 1);
            assert(t.drop_last() =~= posts@.take(i as int));
            assert(t.last() == posts@[i as int]);
        }
        if queued[i] {
            told.push(posts[i].hart);
        } else {
            pending = pending - 1;
            failed = failed + 1;
        }
        i = i + 1;
    }
    proof {
        assert(posts@.take(posts@.len() as int) =~= posts@);
    }
    Broadcast { told, pending, failed }
}

/// What a hart flushes.
#[derive(Clone, Copy, Debug, PartialEq, Eq, Structural)]
pub enum Flush {
    Everything,
    AddressSpace(u16),
    Page { asid: u16, va: u64 },
}

/// What a request asks a hart to flush. Address zero stands for the whole
/// address space.
pub open spec fn flush_of(scope: FlushScope, va: u64) -> Flush {
    match scope {
        FlushScope::All => Flush::Everything,
        FlushScope::Asid(asid) => if va == 0 {
            Flush::AddressSpace(asid)
        } else {
            Flush::Page { asid, va }
        },
    }
}

/// Decides what a hart flushes for a request.
pub fn flush_for(scope: FlushScope, va: u64) -> (r: Flush)
    ensures
        r == flush_of(scope, va),
{
    match scope {
        FlushScope::All => Flush::Everything,
        FlushScope::Asid(asid) => {
            if va == 0 {
                Flush::AddressSpace(asid)
            } else {
                Flush::Page { asid, va }
            }
        },
    }
}

/// Whether a flush drops the translation of `va` in address space `asid`.
pub open spec fn drops(f: Flush, asid: u16, va: u64) -> bool {
    match f {
        Flush::Everything => true,
        Flush::AddressSpace(a) => a == asid,
        Flush::Page { asid: a, va: v } => a == asid && v == va,
    }
}

/// A request for a page drops that page's translation, one for address zero
/// drops every translation of the address space, a request for one address
/// space leaves the others alone, and a request for all spares nothing.
pub proof fn law_flush_covers_its_request(asid: u16, other: u16, va: u64, x: u64)
    ensures
        drops(flush_of(FlushScope::Asid(asid), va), asid, va),
        drops(flush_of(FlushScope::Asid(asid), 0), asid, x),
        asid != other ==> !drops(flush_of(FlushScope::Asid(asid), va), other, x),
        drops(flush_of(FlushScope::All, va), other, x),
{
}

/// The first `k` harts without `me`.
proof fn lemma_others(k: nat, me: u64)
    requires
        k <= u64::MAX,
    ensures
        ({
            let ts = Seq::new(k, |i: int| i as u64).filter(all_but(me));
            &&& ts.len() == (if me < k {
                k - 1
            } else {
                k as int
            })
            &&& forall|h: u64| #[trigger] ts.contains(h) <==> (h < k && h != me)
            &&& ts.no_duplicates()
        }),
    decreases k,
{
    let all = Seq::new(k, |i: int| i as u64);
    let f = all_but(me);
    let ts = all.filter(f);
    reveal(Seq::filter);
    if k > 0 {
        let fewer = Seq::new((k - 1) as nat, |i: int| i as u64);
        assert(all.drop_last() =~= fewer);
        lemma_others((k - 1) as nat, me);
        let before = fewer.filter(f);
        let last = (k - 1) as u64;
        assert(all.last() == last);
        assert(ts == (if f(last) {
            before.push(last)
        } else {
            before
        }));
        assert(!before.contains(last));
        assert forall|h: u64| #[trigger] ts.contains(h) <==> (h < k && h != me) by {
            if f(last) {
                if before.contains(h) {
                    let i = choose|i: int| 0 <= i < before.len() && before[i] == h;
                    assert(ts[i] == h);
                }
                if h == last {
                    assert(ts[before.len() as int] == h);
                }
                if ts.contains(h) {
                    let i = choose|i: int| 0 <= i < ts.len() && ts[i] == h;
                    if i < before.len() {
                        assert(before[i] == h);
                    }
                }
                assert(before.contains(h) <==> (h < k - 1 && h != me));
            }
        }
        assert(ts.no_duplicates()) by {
            assert forall|i: int, j: int| 0 <= i < j < ts.len() implies ts[i] != ts[j] by {
                if j < before.len() {
                    assert(before[i] != before[j]);
                } else {
                    assert(before.contains(before[i]));
                }
            }
        }
    }
}

/// If every queue takes its request, every hart that one is for is told.
proof fn lemma_all_reached(ps: Seq<FlushPost>, queued: Seq<bool>)
    requires
        queued.len() >= ps.len(),
        forall|i: int| 0 <= i < ps.len() ==> #[trigger] queued[i],
    ensures
        reached(ps, queued) == ps.map_values(|p: FlushPost| p.hart),
    decreases ps.len(),
{
    if ps.len() > 0 {
        lemma_all_reached(ps.drop_last(), queued);
        assert(queued[ps.len() - 1]);
    }
    assert(reached(ps, queued) =~= ps.map_values(|p: FlushPost| p.hart));
}

/// Until the other harts run, a broadcast is no more than the sender's own
/// flush. From then on each of them is posted the request once, with the scope,
/// the address and the length that were asked for, and, where the queues have
/// room, woken once and waited for. With one hart there is nobody to tell, and
/// marking the harts as running again changes nothing.
pub proof fn law_broadcast_reaches_every_other_hart(
    n: u64,
    me: u64,
    scope: FlushScope,
    va: u64,
    len: u64,
    queued: Seq<bool>,
)
    requires
        me < n,
        queued.len() == n - 1,
        forall|i: int| 0 <= i < queued.len() ==> #[trigger] queued[i],
    ensures
        kicked(kicked((n, false))) == kicked((n, false)),
        posts((n, false), me, scope, va, len).len() == 0,
        n <= 1 ==> posts(kicked((n, false)), me, scope, va, len).len() == 0,
        ({
            let ps = posts(kicked((n, false)), me, scope, va, len);
            let told = reached(ps, queued);
            &&& ps.len() == n - 1
            &&& forall|i: int|
                0 <= i < ps.len() ==> (#[trigger] ps[i]) == (FlushPost {
                    hart: ps[i].hart,
                    scope,
                    va,
                    len,
                }) && ps[i].hart < n && ps[i].hart != me
            &&& forall|i: int, j: int|
                0 <= i < j < ps.len() ==> (#[trigger] ps[i]).hart != (#[trigger] ps[j]).hart
            &&& told.len() == n - 1
            &&& told.no_duplicates()
            &&& forall|h: u64| #[trigger] told.contains(h) <==> (h < n && h != me)
        }),
{
    lemma_others(n as nat, me);
    let ts = targets(kicked((n, false)), me);
    let ps = posts(kicked((n, false)), me, scope, va, len);
    if n <= 1 {
        assert(reached(ps, queued) =~= Seq::<u64>::empty());
    } else {
        assert forall|i: int| 0 <= i < ps.len() implies (#[trigger] ps[i]).hart < n && ps[i].hart
            != me by {
            assert(ts.contains(ts[i]));
        }
        lemma_all_reached(ps, queued);
        assert(reached(ps, queued) =~= ts);
    }
}

proof fn lemma_reached_len(ps: Seq<FlushPost>, queued: Seq<bool>)
    ensures
        reached(ps, queued).len() <= ps.len(),
        forall|h: u64| #[trigger]
            reached(ps, queued).contains(h) ==> exists|i: int|
                0 <= i < ps.len() && (#[trigger] ps[i]).hart == h,
    decreases ps.len(),
{
    if ps.len() > 0 {
        let front = ps.drop_last();
        lemma_reached_len(front, queued);
        let rest = reached(front, queued);
        let all = reached(ps, queued);
        assert forall|h: u64| #[trigger] all.contains(h) implies exists|i: int|
            0 <= i < ps.len() && (#[trigger] ps[i]).hart == h by {
            if rest.contains(h) {
                let i = choose|i: int| 0 <= i < front.len() && (#[trigger] front[i]).hart == h;
                assert(ps[i].hart == h);
            } else {
                let j = choose|j: int| 0 <= j < all.len() && all[j] == h;
                if j < rest.len() {
                    assert(rest[j] == h);
                } else {
                    assert(ps[ps.len() - 1].hart == h);
                }
            }
        }
    }
}

/// A broadcast never tells the hart it comes from, whatever the queues take, and
/// never more harts than there are others.
pub proof fn law_broadcast_spares_its_sender(
    s: (u64, bool),
    me: u64,
    scope: FlushScope,
    va: u64,
    len: u64,
    queued: Seq<bool>,
)
    ensures
        ({
            let ps = posts(s, me, scope, va, len);
            !reached(ps, queued).contains(me) && reached(ps, queued).len() <= ps.len()
        }),
{
    let ps = posts(s, me, scope, va, len);
    lemma_reached_len(ps, queued);
    if reached(ps, queued).contains(me) {
        lemma_others(s.0 as nat, me);
        let i = choose|i: int| 0 <= i < ps.len() && (#[trigger] ps[i]).hart == me;
        assert(targets(s, me).contains(targets(s, me)[i]));
    }
}

/// Watches a wait. Says when to report it: after a million spins, and then each
/// time the spins have quadrupled.
pub struct SpinWatch {
    pub spins: u64,
    pub next_warn: u64,
}

impl SpinWatch {
    pub fn new() -> (r: Self)
        ensures
            r.spins == 0,
            r.next_warn == FIRST_WARN_AT,
    {
        SpinWatch { spins: 0, next_warn: FIRST_WARN_AT }
    }

    /// Counts one spin.
    pub fn spin(&mut self) -> (r: bool)
        ensures
            final(self).spins == vstd::wrapping::u64_specs::wrapping_add(old(self).spins, 1),
            r == (final(self).spins == old(self).next_warn),
            final(self).next_warn == (if r {
                if old(self).next_warn * 4 > u64::MAX {
                    u64::MAX
                } else {
                    (old(self).next_warn * 4) as u64
                }
            } else {
                old(self).next_warn
            }),
    {
        self.spins = self.spins.wrapping_add(1);
        if self.spins == self.next_warn {
            self.next_warn = if self.next_warn > u64::MAX / 4 {
                u64::MAX
            } else {
                self.next_warn * 4
            };
            true
        } else {
            false
        }
    }
}

/// A flush drops no more than it is asked to: for a page only that page of that
/// address space, for an address space nothing of another.
pub proof fn law_flush_is_no_wider_than_asked(asid: u16, other: u16, va: u64, x: u64)
    requires
        va != 0,
    ensures
        drops(flush_of(FlushScope::Asid(asid), va), other, x) <==> other == asid && x == va,
        drops(flush_of(FlushScope::Asid(asid), 0), other, x) <==> other == asid,
        drops(flush_of(FlushScope::All, va), other, x),
{
}

/// The harts that were told are those whose request was queued, in order; a
/// request that was not queued tells nobody.
pub proof fn law_only_queued_requests_tell(ps: Seq<FlushPost>, p: FlushPost, queued: Seq<bool>)
    requires
        queued.len() > ps.len(),
    ensures
        reached(ps.push(p), queued) == (if queued[ps.len() as int] {
            reached(ps, queued).push(p.hart)
        } else {
            reached(ps, queued)
        }),
        reached(Seq::empty(), queued).len() == 0,
{
    assert(ps.push(p).drop_last() =~= ps);
}

} // verus!
