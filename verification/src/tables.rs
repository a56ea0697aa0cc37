//! The keys of ordered maps and sets, listed in order.

use std::collections::{BTreeMap, BTreeSet};
use vstd::prelude::*;
use vstd::std_specs::cmp::OrdSpec;
use vstd::std_specs::iter::IteratorSpec;

verus! {

broadcast use {vstd::laws_cmp::group_laws_cmp, vstd::std_specs::btree::group_btree_axioms};

/// `s` lists the members of `dom` from the smallest to the largest.
pub open spec fn lists32(s: Seq<u32>, dom: Set<u32>) -> bool {
    &&& forall|i: int, j: int| 0 <= i < j < s.len() ==> s[i] < s[j]
    &&& forall|x: u32| #[trigger] dom.contains(x) <==> s.contains(x)
}

/// The members of a finite set of 32-bit identifiers in ascending order.
pub open spec fn sorted32(dom: Set<u32>) -> Seq<u32> {
    choose|s: Seq<u32>| lists32(s, dom)
}

/// `s` lists the members of `dom` from the smallest to the largest.
pub open spec fn lists64(s: Seq<u64>, dom: Set<u64>) -> bool {
    &&& forall|i: int, j: int| 0 <= i < j < s.len() ==> s[i] < s[j]
    &&& forall|x: u64| #[trigger] dom.contains(x) <==> s.contains(x)
}

/// The members of a finite set of 64-bit identifiers in ascending order.
pub open spec fn sorted64(dom: Set<u64>) -> Seq<u64> {
    choose|s: Seq<u64>| lists64(s, dom)
}

/// A set has one ascending listing.
pub proof fn lemma_listing_unique32(a: Seq<u32>, b: Seq<u32>, dom: Set<u32>)
    requires
        lists32(a, dom),
        lists32(b, dom),
    ensures
        a == b,
    decreases a.len(),
{
    if a.len() == 0 {
        if b.len() > 0 {
            assert(b.contains(b[0]));
            assert(dom.contains(b[0]));
        }
        assert(a =~= b);
    } else {
        let x = a.last();
        assert(a.contains(x));
        assert(dom.contains(x));
        assert(b.contains(x));
        let y = b.last();
        assert(b.contains(y));
        assert(dom.contains(y));
        assert(a.contains(y));
        let i = choose|i: int| 0 <= i < b.len() && b[i] == x;
        let j = choose|j: int| 0 <= j < a.len() && a[j] == y;
        assert(x == y);
        let d2 = dom.remove(x);
        let a2 = a.drop_last();
        let b2 = b.drop_last();
        assert forall|z: u32| #[trigger] d2.contains(z) <==> a2.contains(z) by {
            if d2.contains(z) {
                assert(a.contains(z));
                let k = choose|k: int| 0 <= k < a.len() && a[k] == z;
                assert(a2[k] == z);
            }
            if a2.contains(z) {
                let k = choose|k: int| 0 <= k < a2.len() && a2[k] == z;
                assert(a[k] == z);
                assert(a.contains(z));
            }
        }
        assert forall|z: u32| #[trigger] d2.contains(z) <==> b2.contains(z) by {
            if d2.contains(z) {
                assert(b.contains(z));
                let k = choose|k: int| 0 <= k < b.len() && b[k] == z;
                assert(b2[k] == z);
            }
            if b2.contains(z) {
                let k = choose|k: int| 0 <= k < b2.len() && b2[k] == z;
                assert(b[k] == z);
                assert(b.contains(z));
            }
        }
        lemma_listing_unique32(a2, b2, d2);
        assert(a =~= a2.push(x));
        assert(b =~= b2.push(y));
    }
}

/// A set has one ascending listing.
pub proof fn lemma_listing_unique64(a: Seq<u64>, b: Seq<u64>, dom: Set<u64>)
    requires
        lists64(a, dom),
        lists64(b, dom),
    ensures
        a == b,
    decreases a.len(),
{
    if a.len() == 0 {
        if b.len() > 0 {
            assert(b.contains(b[0]));
            assert(dom.contains(b[0]));
        }
        assert(a =~= b);
    } else {
        let x = a.last();
        assert(a.contains(x));
        assert(dom.contains(x));
        assert(b.contains(x));
        let y = b.last();
        assert(b.contains(y));
        assert(dom.contains(y));
        assert(a.contains(y));
        let i = choose|i: int| 0 <= i < b.len() && b[i] == x;
        let j = choose|j: int| 0 <= j < a.len() && a[j] == y;
        assert(x == y);
        let d2 = dom.remove(x);
        let a2 = a.drop_last();
        let b2 = b.drop_last();
        assert forall|z: u64| #[trigger] d2.contains(z) <==> a2.contains(z) by {
            if d2.contains(z) {
                assert(a.contains(z));
                let k = choose|k: int| 0 <= k < a.len() && a[k] == z;
                assert(a2[k] == z);
            }
            if a2.contains(z) {
                let k = choose|k: int| 0 <= k < a2.len() && a2[k] == z;
                assert(a[k] == z);
                assert(a.contains(z));
            }
        }
        assert forall|z: u64| #[trigger] d2.contains(z) <==> b2.contains(z) by {
            if d2.contains(z) {
                assert(b.contains(z));
                let k = choose|k: int| 0 <= k < b.len() && b[k] == z;
                assert(b2[k] == z);
            }
            if b2.contains(z) {
                let k = choose|k: int| 0 <= k < b2.len() && b2[k] == z;
                assert(b[k] == z);
                assert(b.contains(z));
            }
        }
        lemma_listing_unique64(a2, b2, d2);
        assert(a =~= a2.push(x));
        assert(b =~= b2.push(y));
    }
}

proof fn listing_below(dom: Set<u32>, n: int) -> (s: Seq<u32>)
    requires
        0 <= n <= 0x1_0000_0000,
    ensures
        lists32(s, dom.filter(|x: u32| x < n)),
    decreases n,
{
    if n == 0 {
        Seq::empty()
    } else {
        let t = listing_below(dom, n - 1);
        let last = (n - 1) as u32;
        let below = dom.filter(|x: u32| x < n - 1);
        assert forall|i: int| 0 <= i < t.len() implies t[i] < n - 1 by {
            assert(t.contains(t[i]));
            assert(below.contains(t[i]));
        }
        if dom.contains(last) {
            let s = t.push(last);
            let all = dom.filter(|x: u32| x < n);
            assert forall|x: u32| #[trigger] all.contains(x) <==> s.contains(x) by {
                if dom.contains(x) && x < n && x != last {
                    assert(below.contains(x));
                    let i = choose|i: int| 0 <= i < t.len() && t[i] == x;
                    assert(s[i] == x);
                }
                if x == last {
                    assert(s[t.len() as int] == x);
                }
                if s.contains(x) && x != last {
                    let i = choose|i: int| 0 <= i < s.len() && s[i] == x;
                    assert(t[i] == x);
                    assert(t.contains(x));
                    assert(below.contains(x));
                }
            }
            s
        } else {
            assert(dom.filter(|x: u32| x < n) =~= below);
            t
        }
    }
}

/// Every set of 32-bit identifiers has an ascending listing.
pub proof fn lemma_listed32(dom: Set<u32>)
    ensures
        lists32(sorted32(dom), dom),
{
    let s = listing_below(dom, 0x1_0000_0000);
    assert(dom.filter(|x: u32| x < 0x1_0000_0000int) =~= dom);
    assert(lists32(s, dom));
}

proof fn listing_below64(dom: Set<u64>, n: int) -> (s: Seq<u64>)
    requires
        0 <= n <= 0x1_0000_0000_0000_0000,
    ensures
        lists64(s, dom.filter(|x: u64| x < n)),
    decreases n,
{
    if n == 0 {
        Seq::empty()
    } else {
        let t = listing_below64(dom, n - 1);
        let last = (n - 1) as u64;
        let below = dom.filter(|x: u64| x < n - 1);
        assert forall|i: int| 0 <= i < t.len() implies t[i] < n - 1 by {
            assert(t.contains(t[i]));
            assert(below.contains(t[i]));
        }
        if dom.contains(last) {
            let s = t.push(last);
            let all = dom.filter(|x: u64| x < n);
            assert forall|x: u64| #[trigger] all.contains(x) <==> s.contains(x) by {
                if dom.contains(x) && x < n && x != last {
                    assert(below.contains(x));
                    let i = choose|i: int| 0 <= i < t.len() && t[i] == x;
                    assert(s[i] == x);
                }
                if x == last {
                    assert(s[t.len() as int] == x);
                }
                if s.contains(x) && x != last {
                    let i = choose|i: int| 0 <= i < s.len() && s[i] == x;
                    assert(t[i] == x);
                    assert(t.contains(x));
                    assert(below.contains(x));
                }
            }
            s
        } else {
            assert(dom.filter(|x: u64| x < n) =~= below);
            t
        }
    }
}

/// Every set of 64-bit identifiers has an ascending listing.
pub proof fn lemma_listed64(dom: Set<u64>)
    ensures
        lists64(sorted64(dom), dom),
{
    let s = listing_below64(dom, 0x1_0000_0000_0000_0000);
    assert(dom.filter(|x: u64| x < 0x1_0000_0000_0000_0000int) =~= dom);
    assert(lists64(s, dom));
}

/// The keys of a map in ascending order.
pub fn keys32<V>(m: &BTreeMap<u32, V>) -> (r: Vec<u32>)
    ensures
        r@ == sorted32(m@.dom()),
        lists32(r@, m@.dom()),
{
    let mut out: Vec<u32> = Vec::new();
    let ghost s = vstd::std_specs::btree::spec_keys_iter(m).remaining();
    for k in it: m.keys()
        invariant
            out@.len() == it.index(),
            forall|i: int| 0 <= i < out@.len() ==> out@[i] == *it.seq()[i],
            it.seq() == s,
            s == vstd::std_specs::btree::spec_keys_iter(m).remaining(),
    {
        out.push(*k);
    }
    proof {
        assert(out@ =~= s.unref());
        assert(vstd::std_specs::btree::increasing_seq(s));
        assert(vstd::laws_cmp::obeys_cmp::<&u32>());
        assert forall|x: u32| #[trigger] m@.dom().contains(x) <==> out@.contains(x) by {
            assert(s.unref().to_set().contains(x) <==> s.unref().contains(x));
        }
        assert forall|i: int, j: int| 0 <= i < j < out@.len() implies out@[i] < out@[j] by {
            assert(OrdSpec::cmp_spec(&s[i], &s[j]) is Less);
        }
        assert(lists32(out@, m@.dom()));
        lemma_listing_unique32(out@, sorted32(m@.dom()), m@.dom());
    }
    out
}

/// The keys of a map in ascending order.
pub fn keys64<V>(m: &BTreeMap<u64, V>) -> (r: Vec<u64>)
    ensures
        r@ == sorted64(m@.dom()),
        lists64(r@, m@.dom()),
{
    let mut out: Vec<u64> = Vec::new();
    let ghost s = vstd::std_specs::btree::spec_keys_iter(m).remaining();
    for k in it: m.keys()
        invariant
            out@.len() == it.index(),
            forall|i: int| 0 <= i < out@.len() ==> out@[i] == *it.seq()[i],
            it.seq() == s,
            s == vstd::std_specs::btree::spec_keys_iter(m).remaining(),
    {
        out.push(*k);
    }
    proof {
        assert(out@ =~= s.unref());
        assert(vstd::std_specs::btree::increasing_seq(s));
        assert(vstd::laws_cmp::obeys_cmp::<&u64>());
        assert forall|x: u64| #[trigger] m@.dom().contains(x) <==> out@.contains(x) by {
            assert(s.unref().to_set().contains(x) <==> s.unref().contains(x));
        }
        assert forall|i: int, j: int| 0 <= i < j < out@.len() implies out@[i] < out@[j] by {
            assert(OrdSpec::cmp_spec(&s[i], &s[j]) is Less);
        }
        assert(lists64(out@, m@.dom()));
        lemma_listing_unique64(out@, sorted64(m@.dom()), m@.dom());
    }
    out
}

/// The members of a set in ascending order.
pub fn members32(m: &BTreeSet<u32>) -> (r: Vec<u32>)
    ensures
        r@ == sorted32(m@),
        lists32(r@, m@),
{
    let mut out: Vec<u32> = Vec::new();
    let ghost s = vstd::std_specs::btree::spec_btree_keys_iter(m).remaining();
    for k in it: m.iter()
        invariant
            out@.len() == it.index(),
            forall|i: int| 0 <= i < out@.len() ==> out@[i] == *it.seq()[i],
            it.seq() == s,
            s == vstd::std_specs::btree::spec_btree_keys_iter(m).remaining(),
    {
        out.push(*k);
    }
    proof {
        assert(out@ =~= s.unref());
        assert(vstd::std_specs::btree::increasing_seq(s));
        assert(vstd::laws_cmp::obeys_cmp::<&u32>());
        assert forall|x: u32| #[trigger] m@.contains(x) <==> out@.contains(x) by {
            assert(s.unref().to_set().contains(x) <==> s.unref().contains(x));
        }
        assert forall|i: int, j: int| 0 <= i < j < out@.len() implies out@[i] < out@[j] by {
            assert(OrdSpec::cmp_spec(&s[i], &s[j]) is Less);
        }
        assert(lists32(out@, m@));
        lemma_listing_unique32(out@, sorted32(m@), m@);
    }
    out
}

/// The members of a set in ascending order.
pub fn members64(m: &BTreeSet<u64>) -> (r: Vec<u64>)
    ensures
        r@ == sorted64(m@),
        lists64(r@, m@),
{
    let mut out: Vec<u64> = Vec::new();
    let ghost s = vstd::std_specs::btree::spec_btree_keys_iter(m).remaining();
    for k in it: m.iter()
        invariant
            out@.len() == it.index(),
            forall|i: int| 0 <= i < out@.len() ==> out@[i] == *it.seq()[i],
            it.seq() == s,
            s == vstd::std_specs::btree::spec_btree_keys_iter(m).remaining(),
    {
        out.push(*k);
    }
    proof {
        assert(out@ =~= s.unref());
        assert(vstd::std_specs::btree::increasing_seq(s));
        assert(vstd::laws_cmp::obeys_cmp::<&u64>());
        assert forall|x: u64| #[trigger] m@.contains(x) <==> out@.contains(x) by {
            assert(s.unref().to_set().contains(x) <==> s.unref().contains(x));
        }
        assert forall|i: int, j: int| 0 <= i < j < out@.len() implies out@[i] < out@[j] by {
            assert(OrdSpec::cmp_spec(&s[i], &s[j]) is Less);
        }
        assert(lists64(out@, m@));
        lemma_listing_unique64(out@, sorted64(m@), m@);
    }
    out
}

} // verus!
