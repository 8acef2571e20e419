//! Drift detection support: the emit rate limit, the emit predicate on
//! topo indices, and anchor coverage.
//!
//! Times are nanoseconds on a monotonic clock (`u64`); durations are
//! nanoseconds. The elapsed time from `t` to `now` saturates at zero
//! when `now` is earlier than `t`.
use vstd::prelude::*;

use std::collections::VecDeque;

use crate::event::{AuthorSeq, DriftAnchor};
use crate::ids::{AuthorPubkey, IdMap, PeerPubkey};

verus! {

/// Twenty-four hours in nanoseconds.
pub const DAY_NANOS: u64 = 86_400_000_000_000;

/// Why a drift emit was refused.
#[derive(Clone, Copy, Debug, PartialEq, Eq)]
pub enum RateLimitKind {
    /// The minimum interval since the last granted emit has not elapsed.
    MinInterval,
    /// The trailing-24h window already holds `daily_cap` granted emits.
    DailyCap,
}

/// Time elapsed from `t` to `now`, zero if `now` is earlier.
pub open spec fn elapsed(now: u64, t: u64) -> int {
    if now >= t {
        now - t
    } else {
        0
    }
}

/// Whether the emit at `t` still counts in the trailing 24h window at `now`.
pub open spec fn in_window(now: u64, t: u64) -> bool {
    elapsed(now, t) < DAY_NANOS
}

/// The number of leading entries of `s` that have left the window at
/// `now` (eviction stops at the first entry still inside it).
pub open spec fn leading_expired(s: Seq<u64>, now: u64) -> nat
    decreases s.len(),
{
    if s.len() == 0 {
        0
    } else if !in_window(now, s[0]) {
        1 + leading_expired(s.drop_first(), now)
    } else {
        0
    }
}

/// The entries of `s` still in the window at `now`, in order.
pub open spec fn window(s: Seq<u64>, now: u64) -> Seq<u64> {
    s.filter(|t: u64| in_window(now, t))
}

/// Nondecreasing.
pub open spec fn sorted(s: Seq<u64>) -> bool {
    forall|i: int, j: int| 0 <= i <= j < s.len() ==> s[i] <= s[j]
}

/// Minimum-interval plus trailing-24h-cap gate on drift emits.
pub struct DriftRateLimit {
    /// Minimum time between granted emits (nanoseconds).
    pub min_interval: u64,
    /// Maximum granted emits within any trailing 24h window.
    pub daily_cap: u32,
    last_emit: Option<u64>,
    /// Granted emits still inside the window, oldest first.
    recent_emits: VecDeque<u64>,
    /// Every granted emit, oldest first.
    granted: Ghost<Seq<u64>>,
    /// The latest time passed to `try_emit`.
    latest: Ghost<Option<u64>>,
}

impl DriftRateLimit {
    /// The minimum interval.
    pub closed spec fn spec_min_interval(&self) -> u64 {
        self.min_interval
    }

    /// The daily cap.
    pub closed spec fn spec_daily_cap(&self) -> u32 {
        self.daily_cap
    }

    /// Time of the most recent granted emit.
    pub closed spec fn last(&self) -> Option<u64> {
        self.last_emit
    }

    /// Granted emits kept for the window, oldest first.
    pub closed spec fn recent(&self) -> Seq<u64> {
        self.recent_emits@
    }

    /// Every granted emit so far, oldest first.
    pub closed spec fn history(&self) -> Seq<u64> {
        self.granted@
    }

    /// The latest time `try_emit` was called with.
    pub closed spec fn latest(&self) -> Option<u64> {
        self.latest@
    }

    /// Invariant of a limiter driven with nondecreasing times: the kept
    /// emits are the tail of the history, every dropped emit had left
    /// the window by the latest call, and times are nondecreasing.
    pub closed spec fn inv(&self) -> bool {
        let h = self.granted@;
        let r = self.recent_emits@;
        &&& r.len() <= h.len()
        &&& r == h.skip(h.len() - r.len())
        &&& sorted(h)
        &&& (h.len() > 0 ==> self.latest@ is Some && h.last() <= self.latest@.unwrap())
        &&& forall|i: int|
            0 <= i < h.len() - r.len() ==> !in_window(self.latest@.unwrap(), #[trigger] h[i])
        &&& self.last_emit == (if h.len() > 0 {
            Some(h.last())
        } else {
            None
        })
    }

    /// The last granted emit is the latest of the granted emits: every
    /// earlier grant is no later, and none is later than the latest call.
    pub proof fn lemma_last_is_latest_grant(&self)
        requires
            self.inv(),
        ensures
            self.history().len() == 0 ==> self.last() is None,
            self.history().len() > 0 ==> {
                &&& self.last() == Some(self.history().last())
                &&& forall|i: int| 0 <= i < self.history().len() ==> #[trigger] self.history()[i] <= self.history().last()
                &&& self.latest() is Some && self.history().last() <= self.latest().unwrap()
            },
    {
    }

    /// Whether `now` is no earlier than every earlier call.
    pub open spec fn monotone(&self, now: u64) -> bool {
        self.latest() is Some ==> now >= self.latest().unwrap()
    }

    /// A limiter with the given minimum interval and daily cap.
    pub fn new(min_interval: u64, daily_cap: u32) -> (r: Self)
        ensures
            r.spec_min_interval() == min_interval,
            r.spec_daily_cap() == daily_cap,
            r.last() is None,
            r.recent() == Seq::<u64>::empty(),
            r.history() == Seq::<u64>::empty(),
            r.latest() is None,
            r.inv(),
    {
        let r = DriftRateLimit {
            min_interval,
            daily_cap,
            last_emit: None,
            recent_emits: VecDeque::new(),
            granted: Ghost(Seq::empty()),
            latest: Ghost(None),
        };
        assert(r.granted@.skip(0) =~= r.recent_emits@);
        r
    }

    /// Try to take an emit slot at time `now`.
    ///
    /// First drops the leading kept emits that have left the trailing 24h
    /// window. Refused with `DailyCap` when `daily_cap` emits remain,
    /// otherwise with `MinInterval` when less than `min_interval` has
    /// elapsed since the last granted emit; otherwise granted and
    /// recorded.
    pub fn try_emit(&mut self, now: u64) -> (r: Result<(), RateLimitKind>)
        ensures
            ({
                let kept = old(self).recent().skip(leading_expired(old(self).recent(), now) as int);
                let cap_hit = kept.len() >= old(self).spec_daily_cap();
                let too_soon = old(self).last() is Some && elapsed(now, old(self).last().unwrap())
                    < old(self).spec_min_interval();
                &&& r == (if cap_hit {
                    Err(RateLimitKind::DailyCap)
                } else if too_soon {
                    Err(RateLimitKind::MinInterval)
                } else {
                    Ok(())
                })
                &&& final(self).recent() == (if r is Ok {
                    kept.push(now)
                } else {
                    kept
                })
                &&& final(self).last() == (if r is Ok {
                    Some(now)
                } else {
                    old(self).last()
                })
                &&& final(self).history() == (if r is Ok {
                    old(self).history().push(now)
                } else {
                    old(self).history()
                })
            }),
            final(self).spec_min_interval() == old(self).spec_min_interval(),
            final(self).spec_daily_cap() == old(self).spec_daily_cap(),
            final(self).latest() == Some(now),
            old(self).inv() && old(self).monotone(now) ==> {
                &&& final(self).inv()
                &&& (r == Err::<(), RateLimitKind>(RateLimitKind::DailyCap)) <==> window(
                    old(self).history(),
                    now,
                ).len() >= old(self).spec_daily_cap()
                &&& (r == Err::<(), RateLimitKind>(RateLimitKind::DailyCap)) <==> old(self).history().filter(
                    |t: u64| t + DAY_NANOS > now,
                ).len() >= old(self).spec_daily_cap()
                &&& (r is Ok && old(self).last() is Some ==> now >= old(self).last().unwrap()
                    + old(self).spec_min_interval())
            },
    {
        let ghost old_recent = self.recent_emits@;
        let ghost mut k: int = 0;
        while self.recent_emits.len() > 0
            invariant
                k <= old_recent.len(),
                0 <= k,
                self.recent_emits@ == old_recent.skip(k),
                leading_expired(old_recent, now) == k + leading_expired(self.recent_emits@, now),
                self.min_interval == old(self).min_interval,
                self.daily_cap == old(self).daily_cap,
                self.last_emit == old(self).last_emit,
                self.granted == old(self).granted,
                self.latest == old(self).latest,
            ensures
                self.recent_emits@ == old_recent.skip(leading_expired(old_recent, now) as int),
                self.min_interval == old(self).min_interval,
                self.daily_cap == old(self).daily_cap,
                self.last_emit == old(self).last_emit,
                self.granted == old(self).granted,
                self.latest == old(self).latest,
            decreases self.recent_emits@.len(),
        {
            let front = self.recent_emits[0];
            let age = if now >= front {
                now - front
            } else {
                0
            };
            if age >= DAY_NANOS {
                let ghost before = self.recent_emits@;
                self.recent_emits.pop_front();
                proof {
                    k = k + 1;
                    assert(self.recent_emits@ =~= before.drop_first());
                    assert(old_recent.skip(k) =~= old_recent.skip(k - 1).drop_first());
                }
            } else {
                break;
            }
        }
        proof {
            if self.recent_emits@.len() == 0 {
                assert(leading_expired(self.recent_emits@, now) == 0);
            }
        }
        let ghost kept = self.recent_emits@;
        proof {
            if old(self).inv() && old(self).monotone(now) {
                lemma_window_of_history(old(self).granted@, old_recent, now, old(self).latest@);
            }
            let p1 = |t: u64| in_window(now, t);
            let p2 = |t: u64| t + DAY_NANOS > now;
            assert(p1 =~= p2);
            assert(window(old(self).granted@, now) == old(self).granted@.filter(p2));
        }
        self.latest = Ghost(Some(now));
        if self.recent_emits.len() >= self.daily_cap as usize {
            proof {
                if old(self).inv() && old(self).monotone(now) {
                    self.lemma_inv_after(old(self).granted@, old_recent, now, false);
                }
            }
            return Err(RateLimitKind::DailyCap);
        }
        match self.last_emit {
            Some(last) => {
                let since = if now >= last {
                    now - last
                } else {
                    0
                };
                if since < self.min_interval {
                    proof {
                        if old(self).inv() && old(self).monotone(now) {
                            self.lemma_inv_after(old(self).granted@, old_recent, now, false);
                        }
                    }
                    return Err(RateLimitKind::MinInterval);
                }
            },
            None => {},
        }
        self.recent_emits.push_back(now);
        self.last_emit = Some(now);
        self.granted = Ghost(self.granted@.push(now));
        proof {
            if old(self).inv() && old(self).monotone(now) {
                self.lemma_inv_after(old(self).granted@, old_recent, now, true);
            }
        }
        Ok(())
    }

    /// The invariant is restored after a call with a nondecreasing time.
    proof fn lemma_inv_after(&self, h0: Seq<u64>, r0: Seq<u64>, now: u64, granted: bool)
        requires
            r0.len() <= h0.len(),
            r0 == h0.skip(h0.len() - r0.len()),
            sorted(h0),
            h0.len() > 0 ==> h0.last() <= now,
            forall|i: int| 0 <= i < h0.len() - r0.len() ==> !in_window(now, #[trigger] h0[i]),
            self.latest@ == Some(now),
            granted ==> {
                &&& self.granted@ == h0.push(now)
                &&& self.recent_emits@ == r0.skip(leading_expired(r0, now) as int).push(now)
                &&& self.last_emit == Some(now)
            },
            !granted ==> {
                &&& self.granted@ == h0
                &&& self.recent_emits@ == r0.skip(leading_expired(r0, now) as int)
                &&& self.last_emit == (if h0.len() > 0 {
                    Some(h0.last())
                } else {
                    None
                })
            },
        ensures
            self.inv(),
    {
        let k = leading_expired(r0, now) as int;
        lemma_leading_expired(r0, now);
        let d = h0.len() - r0.len();
        let h = self.granted@;
        let r = self.recent_emits@;
        assert forall|i: int| 0 <= i < k implies !in_window(now, #[trigger] h0[d + i]) by {
            assert(r0[i] == h0[d + i]);
        }
        if granted {
            assert(r =~= h.skip(h.len() - r.len()));
            assert forall|i: int| 0 <= i < h.len() - r.len() implies !in_window(self.latest@.unwrap(), #[trigger] h[i]) by {
                if i < d {
                } else {
                    assert(h[i] == h0[d + (i - d)]);
                }
            }
        } else {
            assert(r =~= h.skip(h.len() - r.len()));
            assert forall|i: int| 0 <= i < h.len() - r.len() implies !in_window(self.latest@.unwrap(), #[trigger] h[i]) by {
                if i < d {
                } else {
                    assert(h[i] == h0[d + (i - d)]);
                }
            }
        }
    }
}

/// `leading_expired` counts a prefix of expired entries and never more
/// than the length.
proof fn lemma_leading_expired(s: Seq<u64>, now: u64)
    ensures
        leading_expired(s, now) <= s.len(),
        forall|i: int| 0 <= i < leading_expired(s, now) ==> !in_window(now, #[trigger] s[i]),
        leading_expired(s, now) < s.len() ==> in_window(now, s[leading_expired(s, now) as int]),
    decreases s.len(),
{
    if s.len() > 0 && !in_window(now, s[0]) {
        lemma_leading_expired(s.drop_first(), now);
        assert forall|i: int| 0 <= i < leading_expired(s, now) implies !in_window(now, #[trigger] s[i]) by {
            if i > 0 {
                assert(s[i] == s.drop_first()[i - 1]);
            }
        }
    }
}

/// With nondecreasing times, the entries kept after eviction are exactly
/// the history's emits inside the window.
proof fn lemma_window_of_history(h: Seq<u64>, r: Seq<u64>, now: u64, latest: Option<u64>)
    requires
        r.len() <= h.len(),
        r == h.skip(h.len() - r.len()),
        sorted(h),
        h.len() > 0 ==> latest is Some && h.last() <= latest.unwrap(),
        forall|i: int| 0 <= i < h.len() - r.len() ==> !in_window(latest.unwrap(), #[trigger] h[i]),
        latest is Some ==> now >= latest.unwrap(),
    ensures
        r.skip(leading_expired(r, now) as int) == window(h, now),
        h.len() > 0 ==> h.last() <= now,
        forall|i: int|
            0 <= i < h.len() - r.len() + leading_expired(r, now) ==> !in_window(now, #[trigger] h[i]),
{
    let d = h.len() - r.len();
    let k = leading_expired(r, now) as int;
    lemma_leading_expired(r, now);
    lemma_expired_prefix(h, r, now, latest);
    lemma_fresh_suffix(h, r, now);
    let p = |t: u64| in_window(now, t);
    let a = h.take(d + k);
    let b = h.skip(d + k);
    assert(h =~= a + b);
    Seq::filter_distributes_over_add(a, b, p);
    assert forall|i: int| 0 <= i < a.len() implies !p(#[trigger] a[i]) by {
        assert(a[i] == h[i]);
    }
    lemma_filter_none(a, p);
    assert forall|i: int| 0 <= i < b.len() implies p(#[trigger] b[i]) by {
        assert(b[i] == h[d + k + i]);
    }
    lemma_filter_all(b, p);
    assert(r.skip(k) =~= b);
}

proof fn lemma_expired_prefix(h: Seq<u64>, r: Seq<u64>, now: u64, latest: Option<u64>)
    requires
        r.len() <= h.len(),
        r == h.skip(h.len() - r.len()),
        sorted(h),
        h.len() > 0 ==> latest is Some && h.last() <= latest.unwrap(),
        forall|i: int| 0 <= i < h.len() - r.len() ==> !in_window(latest.unwrap(), #[trigger] h[i]),
        latest is Some ==> now >= latest.unwrap(),
        leading_expired(r, now) <= r.len(),
        forall|i: int| 0 <= i < leading_expired(r, now) ==> !in_window(now, #[trigger] r[i]),
    ensures
        h.len() > 0 ==> h.last() <= now,
        forall|i: int|
            0 <= i < h.len() - r.len() + leading_expired(r, now) ==> !in_window(now, #[trigger] h[i]),
{
    let d = h.len() - r.len();
    let k = leading_expired(r, now) as int;
    assert forall|i: int| 0 <= i < d + k implies !in_window(now, #[trigger] h[i]) by {
        if i < d {
            assert(h[i] <= h[h.len() - 1]);
            assert(!in_window(latest.unwrap(), h[i]));
        } else {
            assert(h[i] == r[i - d]);
            assert(!in_window(now, r[i - d]));
        }
    }
}

proof fn lemma_fresh_suffix(h: Seq<u64>, r: Seq<u64>, now: u64)
    requires
        r.len() <= h.len(),
        r == h.skip(h.len() - r.len()),
        sorted(h),
        h.len() > 0 ==> h.last() <= now,
        leading_expired(r, now) < r.len() ==> in_window(now, r[leading_expired(r, now) as int]),
    ensures
        forall|i: int|
            h.len() - r.len() + leading_expired(r, now) <= i < h.len() ==> in_window(now, #[trigger] h[i]),
{
    let d = h.len() - r.len();
    let k = leading_expired(r, now) as int;
    assert forall|i: int| d + k <= i < h.len() implies in_window(now, #[trigger] h[i]) by {
        assert(h[d + k] == r[k]);
        assert(h[d + k] <= h[i]);
        assert(h[i] <= h[h.len() - 1]);
    }
}

proof fn lemma_filter_none(s: Seq<u64>, p: spec_fn(u64) -> bool)
    requires
        forall|i: int| 0 <= i < s.len() ==> !p(#[trigger] s[i]),
    ensures
        s.filter(p) == Seq::<u64>::empty(),
    decreases s.len(),
{
    reveal_with_fuel(Seq::<_>::filter, 1);
    if s.len() > 0 {
        lemma_filter_none(s.drop_last(), p);
        assert(!p(s[s.len() - 1]));
    }
    if s.len() == 0 {
        assert(s.filter(p) =~= Seq::<u64>::empty());
    }
}

proof fn lemma_filter_all(s: Seq<u64>, p: spec_fn(u64) -> bool)
    requires
        forall|i: int| 0 <= i < s.len() ==> p(#[trigger] s[i]),
    ensures
        s.filter(p) == s,
    decreases s.len(),
{
    reveal_with_fuel(Seq::<_>::filter, 1);
    if s.len() > 0 {
        lemma_filter_all(s.drop_last(), p);
        assert(p(s[s.len() - 1]));
        assert(s.drop_last().push(s.last()) =~= s);
    } else {
        assert(s.filter(p) =~= s);
    }
}

/// Whether a drift message should be emitted at `topo_index`: never at
/// index 0 (the genesis point) nor when the interval is 0, otherwise at
/// every multiple of `drift_interval`.
pub fn should_emit(topo_index: u64, drift_interval: u64) -> (r: bool)
    ensures
        r == (drift_interval > 0 && topo_index > 0 && topo_index % drift_interval == 0),
{
    drift_interval > 0 && topo_index > 0 && topo_index % drift_interval == 0
}

/// The per-author bounds of an anchor, as a map from author to max seq
/// (a later entry for the same author overrides an earlier one).
pub fn anchor_bound_map(author_seq_vec: &[AuthorSeq]) -> (r: IdMap<AuthorPubkey, u64>)
    ensures
        r.wf(),
        forall|a: AuthorPubkey| #[trigger]
            r@.contains_key(a) <==> exists|i: int|
                0 <= i < author_seq_vec@.len() && (#[trigger] author_seq_vec@[i]).author == a,
        forall|i: int|
            0 <= i < author_seq_vec@.len() && (forall|j: int|
                i < j < author_seq_vec@.len() ==> (#[trigger] author_seq_vec@[j]).author
                    != author_seq_vec@[i].author) ==> r@[(#[trigger] author_seq_vec@[i]).author]
                == author_seq_vec@[i].max_seq,
{
    let mut m: IdMap<AuthorPubkey, u64> = IdMap::new();
    let mut i: usize = 0;
    while i < author_seq_vec.len()
        invariant
            i <= author_seq_vec@.len(),
            m.wf(),
            forall|a: AuthorPubkey| #[trigger]
                m@.contains_key(a) <==> exists|j: int| 0 <= j < i && (#[trigger] author_seq_vec@[j]).author == a,
            forall|j: int|
                0 <= j < i && (forall|l: int|
                    j < l < i ==> (#[trigger] author_seq_vec@[l]).author != author_seq_vec@[j].author)
                    ==> m@[(#[trigger] author_seq_vec@[j]).author] == author_seq_vec@[j].max_seq,
        decreases author_seq_vec@.len() - i,
    {
        let a = author_seq_vec[i];
        m.insert(a.author, a.max_seq);
        i = i + 1;
        proof {
            assert forall|x: AuthorPubkey| #[trigger]
                m@.contains_key(x) <==> exists|j: int| 0 <= j < i && (#[trigger] author_seq_vec@[j]).author == x by {
                if x == a.author {
                    assert(author_seq_vec@[i - 1].author == x);
                }
            }
        }
    }
    m
}

/// The max seq recorded for `a`, 0 if absent.
pub open spec fn seq_or_zero(m: Map<AuthorPubkey, u64>, a: AuthorPubkey) -> u64 {
    if m.contains_key(a) {
        m[a]
    } else {
        0
    }
}

/// Whether the peer's chains cover the anchor: every author of the
/// anchor is at or beyond the anchor's seq (a missing author counts as
/// seq 0).
pub fn anchor_covered(anchor: &DriftAnchor, current_seq_map: &IdMap<AuthorPubkey, u64>) -> (r: bool)
    requires
        current_seq_map.wf(),
    ensures
        r == (forall|i: int|
            0 <= i < anchor.author_seq_vec@.len() ==> seq_or_zero(
                current_seq_map@,
                (#[trigger] anchor.author_seq_vec@[i]).author,
            ) >= anchor.author_seq_vec@[i].max_seq),
{
    let v = &anchor.author_seq_vec;
    let mut i: usize = 0;
    while i < v.len()
        invariant
            i <= v@.len(),
            v@ == anchor.author_seq_vec@,
            current_seq_map.wf(),
            forall|j: int|
                0 <= j < i ==> seq_or_zero(current_seq_map@, (#[trigger] v@[j]).author)
                    >= v@[j].max_seq,
        decreases v@.len() - i,
    {
        let have = match current_seq_map.get(&v[i].author) {
            Some(s) => *s,
            None => 0,
        };
        assert(have == seq_or_zero(current_seq_map@, anchor.author_seq_vec@[i as int].author));
        if have < v[i].max_seq {
            assert(!(seq_or_zero(current_seq_map@, anchor.author_seq_vec@[i as int].author)
                >= anchor.author_seq_vec@[i as int].max_seq));
            return false;
        }
        i = i + 1;
    }
    true
}

/// A remote drift digest that disagrees with the local one at an anchor.
#[derive(Clone, Debug)]
pub struct DriftDetected {
    /// The peer that sent the disagreeing digest.
    pub peer: PeerPubkey,
    /// The anchor of the disagreement.
    pub anchor: DriftAnchor,
    /// Local state digest at the anchor.
    pub local_digest: [u8; 32],
    /// Digest claimed by `peer`.
    pub remote_digest: [u8; 32],
}

} // verus!
