//! The canonical topological order of an event set: events by causal
//! depth (one more than the deepest parent, 1 without parents), ties
//! broken by the smaller wire hash. It is a function of the events
//! alone, whatever order they arrived in, and every parent comes before
//! its children.
use vstd::prelude::*;

use crate::bytes::{lemma_lex_lt_irreflexive, lemma_lex_lt_total, lemma_lex_lt_transitive, lex_lt};
use crate::event::EventView;
use crate::ids::EventHash;

verus! {

/// The parents of an event: its dependencies, and its prev unless zero.
pub open spec fn parents_of(ev: EventView) -> Set<EventHash> {
    if ev.prev.spec_is_zero() {
        ev.deps.to_set()
    } else {
        ev.deps.to_set().insert(ev.prev)
    }
}

/// Whether `depth` gives every event of `events` one more than the
/// deepest of its parents, which are all in `events` (1 for an event
/// without parents).
pub open spec fn depths_ok(events: Map<EventHash, EventView>, depth: Map<EventHash, u64>) -> bool {
    &&& depth.dom() == events.dom()
    &&& forall|h: EventHash, p: EventHash|
        #[trigger] events.contains_key(h) && #[trigger] parents_of(events[h]).contains(p) ==> events.contains_key(p)
            && depth[p] < depth[h]
    &&& forall|h: EventHash|
        #[trigger] events.contains_key(h) ==> {
            &&& parents_of(events[h]).is_empty() ==> depth[h] == 1
            &&& !parents_of(events[h]).is_empty() ==> exists|p: EventHash|
                #[trigger] parents_of(events[h]).contains(p) && depth[p] == depth[h] - 1
        }
}

/// Whether `a` comes before `b`: shallower first, ties broken by the
/// smaller wire hash.
pub open spec fn key_before(depth: Map<EventHash, u64>, a: EventHash, b: EventHash) -> bool {
    depth[a] < depth[b] || (depth[a] == depth[b] && lex_lt(a.bytes@, b.bytes@))
}

/// Whether `s` lists the members of `dom` in the order of `key_before`.
pub open spec fn canonical_order(dom: Set<EventHash>, depth: Map<EventHash, u64>, s: Seq<EventHash>) -> bool {
    &&& forall|h: EventHash| #[trigger] s.contains(h) <==> dom.contains(h)
    &&& forall|i: int, j: int| 0 <= i < j < s.len() ==> key_before(depth, #[trigger] s[i], #[trigger] s[j])
}

/// The order on (depth, hash) pairs.
pub open spec fn pair_before(a: (u64, EventHash), b: (u64, EventHash)) -> bool {
    a.0 < b.0 || (a.0 == b.0 && lex_lt(a.1.bytes@, b.1.bytes@))
}

/// Whether the pairs are in strictly increasing order.
pub open spec fn pairs_sorted(s: Seq<(u64, EventHash)>) -> bool {
    forall|i: int, j: int| 0 <= i < j < s.len() ==> pair_before(#[trigger] s[i], #[trigger] s[j])
}

/// The hashes of a sequence of pairs.
pub open spec fn hashes_of(s: Seq<(u64, EventHash)>) -> Seq<EventHash> {
    s.map_values(|p: (u64, EventHash)| p.1)
}

/// `pair_before` is irreflexive.
pub proof fn lemma_pair_irreflexive(a: (u64, EventHash))
    ensures
        !pair_before(a, a),
{
    lemma_lex_lt_irreflexive(a.1.bytes@);
}

/// `pair_before` is transitive.
pub proof fn lemma_pair_transitive(a: (u64, EventHash), b: (u64, EventHash), c: (u64, EventHash))
    requires
        pair_before(a, b),
        pair_before(b, c),
    ensures
        pair_before(a, c),
{
    if a.0 == b.0 && b.0 == c.0 {
        lemma_lex_lt_transitive(a.1.bytes@, b.1.bytes@, c.1.bytes@);
    }
}

/// Pairs with different hashes are ordered one way, and never both.
pub proof fn lemma_pair_total(a: (u64, EventHash), b: (u64, EventHash))
    ensures
        a.1 != b.1 ==> pair_before(a, b) || pair_before(b, a),
        !(pair_before(a, b) && pair_before(b, a)),
{
    lemma_lex_lt_total(a.1.bytes@, b.1.bytes@);
    if a.1 != b.1 && a.1.bytes@ == b.1.bytes@ {
        assert(a.1.bytes == b.1.bytes);
    }
}

/// `key_before` is asymmetric and irreflexive.
proof fn lemma_key_asymmetric(depth: Map<EventHash, u64>, a: EventHash, b: EventHash)
    ensures
        !(key_before(depth, a, b) && key_before(depth, b, a)),
        !key_before(depth, a, a),
{
    lemma_pair_total((depth[a], a), (depth[b], b));
    lemma_pair_irreflexive((depth[a], a));
}

/// The canonical order of a set is unique.
pub proof fn lemma_canonical_unique(
    dom: Set<EventHash>,
    depth: Map<EventHash, u64>,
    s1: Seq<EventHash>,
    s2: Seq<EventHash>,
)
    requires
        canonical_order(dom, depth, s1),
        canonical_order(dom, depth, s2),
    ensures
        s1 == s2,
    decreases s1.len(),
{
    if s1.len() == 0 {
        if s2.len() > 0 {
            assert(s2.contains(s2[0]));
            assert(s1.contains(s2[0]));
        }
        assert(s1 =~= s2);
    } else {
        let a = s1[0];
        assert(s1.contains(a));
        assert(s2.contains(a));
        let b = s2[0];
        if a != b {
            assert(s2.contains(b));
            assert(s1.contains(b));
            let j = choose|j: int| 0 <= j < s1.len() && s1[j] == b;
            let k = choose|k: int| 0 <= k < s2.len() && s2[k] == a;
            assert(key_before(depth, s1[0], s1[j]));
            assert(key_before(depth, s2[0], s2[k]));
            lemma_key_asymmetric(depth, a, b);
        }
        let t1 = s1.drop_first();
        let t2 = s2.drop_first();
        let d = dom.remove(a);
        assert forall|h: EventHash| #[trigger] t1.contains(h) <==> d.contains(h) by {
            lemma_drop_first_contains(dom, depth, s1, h);
        }
        assert forall|h: EventHash| #[trigger] t2.contains(h) <==> d.contains(h) by {
            lemma_drop_first_contains(dom, depth, s2, h);
        }
        assert forall|i: int, j: int| 0 <= i < j < t1.len() implies key_before(depth, #[trigger] t1[i], #[trigger] t1[j]) by {
            assert(t1[i] == s1[i + 1] && t1[j] == s1[j + 1]);
        }
        assert forall|i: int, j: int| 0 <= i < j < t2.len() implies key_before(depth, #[trigger] t2[i], #[trigger] t2[j]) by {
            assert(t2[i] == s2[i + 1] && t2[j] == s2[j + 1]);
        }
        lemma_canonical_unique(d, depth, t1, t2);
        assert(s1 =~= seq![a] + t1);
        assert(s2 =~= seq![a] + t2);
    }
}

/// Without its first entry, a canonical order lists the rest of the set.
proof fn lemma_drop_first_contains(dom: Set<EventHash>, depth: Map<EventHash, u64>, s: Seq<EventHash>, h: EventHash)
    requires
        canonical_order(dom, depth, s),
        s.len() > 0,
    ensures
        s.drop_first().contains(h) <==> dom.remove(s[0]).contains(h),
{
    let t = s.drop_first();
    if t.contains(h) {
        let i = choose|i: int| 0 <= i < t.len() && t[i] == h;
        assert(s[i + 1] == h);
        assert(s.contains(h));
        assert(key_before(depth, s[0], s[i + 1]));
        lemma_key_asymmetric(depth, h, h);
    }
    if dom.remove(s[0]).contains(h) {
        assert(s.contains(h));
        let i = choose|i: int| 0 <= i < s.len() && s[i] == h;
        assert(i != 0);
        assert(t[i - 1] == h);
    }
}

/// The depth of each event of a set is determined by the set.
pub proof fn lemma_depths_unique(events: Map<EventHash, EventView>, d1: Map<EventHash, u64>, d2: Map<EventHash, u64>)
    requires
        depths_ok(events, d1),
        depths_ok(events, d2),
    ensures
        d1 == d2,
{
    assert forall|h: EventHash| events.contains_key(h) implies d1[h] == d2[h] by {
        lemma_depth_agrees(events, d1, d2, h);
    }
    assert(d1 =~= d2);
}

/// Two valid depth maps agree at `h`, by induction on the depth.
proof fn lemma_depth_agrees(events: Map<EventHash, EventView>, d1: Map<EventHash, u64>, d2: Map<EventHash, u64>, h: EventHash)
    requires
        depths_ok(events, d1),
        depths_ok(events, d2),
        events.contains_key(h),
    ensures
        d1[h] == d2[h],
    decreases d1[h],
{
    let ps = parents_of(events[h]);
    if !ps.is_empty() {
        assert forall|p: EventHash| ps.contains(p) implies d1[p] == d2[p] by {
            assert(events.contains_key(p) && d1[p] < d1[h]);
            lemma_depth_agrees(events, d1, d2, p);
        }
        let p1 = choose|p: EventHash| #[trigger] ps.contains(p) && d1[p] == d1[h] - 1;
        let p2 = choose|p: EventHash| #[trigger] ps.contains(p) && d2[p] == d2[h] - 1;
        assert(d2[p1] < d2[h]);
        assert(d1[p2] < d1[h]);
    }
}

/// Inserting a pair after every pair it does not precede and before one
/// it precedes keeps a sorted sequence of pairs sorted, when its hash is
/// new.
pub proof fn lemma_pairs_insert(s: Seq<(u64, EventHash)>, p: int, x: (u64, EventHash))
    requires
        pairs_sorted(s),
        0 <= p <= s.len(),
        forall|q: int| 0 <= q < p ==> !pair_before(x, #[trigger] s[q]),
        p < s.len() ==> pair_before(x, s[p]),
        forall|q: int| 0 <= q < s.len() ==> (#[trigger] s[q]).1 != x.1,
    ensures
        pairs_sorted(s.insert(p, x)),
{
    let t = s.insert(p, x);
    assert forall|a: int, b: int| 0 <= a < b < t.len() implies pair_before(#[trigger] t[a], #[trigger] t[b]) by {
        if a == p {
            assert(t[b] == s[b - 1]);
            if b - 1 == p {
            } else {
                lemma_pair_transitive(x, s[p], s[b - 1]);
            }
        } else if b == p {
            assert(t[a] == s[a]);
            lemma_pair_total(x, s[a]);
        } else {
            let ia = if a < p { a } else { a - 1 };
            let ib = if b < p { b } else { b - 1 };
            assert(t[a] == s[ia]);
            assert(t[b] == s[ib]);
        }
    }
}

/// Whether every pair carries the depth of its hash.
pub open spec fn pairs_match(c: Seq<(u64, EventHash)>, depth: Map<EventHash, u64>) -> bool {
    forall|i: int| 0 <= i < c.len() ==> #[trigger] c[i].0 == depth[c[i].1]
}

/// Adding a new event whose depth is one more than its deepest parent
/// keeps the depths valid.
pub proof fn lemma_depths_insert(
    oe: Map<EventHash, EventView>,
    od: Map<EventHash, u64>,
    wire: EventHash,
    ev: EventView,
    d: u64,
)
    requires
        depths_ok(oe, od),
        !oe.contains_key(wire),
        forall|p: EventHash| #[trigger] parents_of(ev).contains(p) ==> oe.contains_key(p) && od[p] < d,
        parents_of(ev).is_empty() ==> d == 1,
        !parents_of(ev).is_empty() ==> exists|p: EventHash| #[trigger] parents_of(ev).contains(p) && od[p] == d - 1,
    ensures
        depths_ok(oe.insert(wire, ev), od.insert(wire, d)),
{
    let ne = oe.insert(wire, ev);
    let nd = od.insert(wire, d);
    assert(nd.dom() =~= ne.dom());
    assert forall|h: EventHash, p: EventHash|
        #[trigger] ne.contains_key(h) && #[trigger] parents_of(ne[h]).contains(p) implies ne.contains_key(p) && nd[p]
            < nd[h] by {
        if h != wire {
            assert(oe.contains_key(h) && parents_of(oe[h]).contains(p));
        }
    }
    assert forall|h: EventHash| #[trigger] ne.contains_key(h) implies {
        &&& parents_of(ne[h]).is_empty() ==> nd[h] == 1
        &&& !parents_of(ne[h]).is_empty() ==> exists|p: EventHash|
            #[trigger] parents_of(ne[h]).contains(p) && nd[p] == nd[h] - 1
    } by {
        if h != wire {
            assert(oe.contains_key(h));
            if !parents_of(oe[h]).is_empty() {
                let p = choose|p: EventHash| #[trigger] parents_of(oe[h]).contains(p) && od[p] == od[h] - 1;
                assert(oe.contains_key(p));
                assert(nd[p] == nd[h] - 1);
            }
        } else {
            if !parents_of(ev).is_empty() {
                let p = choose|p: EventHash| #[trigger] parents_of(ev).contains(p) && od[p] == d - 1;
                assert(nd[p] == nd[h] - 1);
            }
        }
    }
}

/// Placing a new hash's pair at its slot keeps the pairs sorted,
/// matching the depths, and listing the set with the new hash.
pub proof fn lemma_pairs_place(
    oc: Seq<(u64, EventHash)>,
    od: Map<EventHash, u64>,
    dom: Set<EventHash>,
    wire: EventHash,
    d: u64,
    slot: int,
)
    requires
        pairs_sorted(oc),
        pairs_match(oc, od),
        forall|h: EventHash| #[trigger] hashes_of(oc).contains(h) <==> dom.contains(h),
        !dom.contains(wire),
        0 <= slot <= oc.len(),
        forall|q: int| 0 <= q < slot ==> !pair_before((d, wire), #[trigger] oc[q]),
        slot < oc.len() ==> pair_before((d, wire), oc[slot]),
    ensures
        pairs_sorted(oc.insert(slot, (d, wire))),
        pairs_match(oc.insert(slot, (d, wire)), od.insert(wire, d)),
        forall|h: EventHash| #[trigger] hashes_of(oc.insert(slot, (d, wire))).contains(h) <==> dom.insert(wire).contains(h),
{
    let nc = oc.insert(slot, (d, wire));
    let nd = od.insert(wire, d);
    assert forall|q: int| 0 <= q < oc.len() implies (#[trigger] oc[q]).1 != wire by {
        assert(hashes_of(oc)[q] == oc[q].1);
        assert(hashes_of(oc).contains(oc[q].1));
    }
    lemma_pairs_insert(oc, slot, (d, wire));
    assert forall|i: int| 0 <= i < nc.len() implies #[trigger] nc[i].0 == nd[nc[i].1] by {
        if i < slot {
            assert(nc[i] == oc[i]);
            assert(oc[i].1 != wire);
        } else if i > slot {
            assert(nc[i] == oc[i - 1]);
            assert(oc[i - 1].1 != wire);
        }
    }
    let ho = hashes_of(oc);
    let hn = hashes_of(nc);
    assert(hn =~= ho.insert(slot, wire));
    assert forall|h: EventHash| #[trigger] hn.contains(h) <==> dom.insert(wire).contains(h) by {
        if hn.contains(h) && h != wire {
            let i = choose|i: int| 0 <= i < hn.len() && hn[i] == h;
            if i < slot {
                assert(ho[i] == h);
            } else {
                assert(ho[i - 1] == h);
            }
            assert(ho.contains(h));
        }
        if dom.insert(wire).contains(h) {
            if h == wire {
                assert(hn[slot] == h);
            } else {
                assert(ho.contains(h));
                let i = choose|i: int| 0 <= i < ho.len() && ho[i] == h;
                if i < slot {
                    assert(hn[i] == h);
                } else {
                    assert(hn[i + 1] == h);
                }
            }
        }
    }
}

} // verus!
