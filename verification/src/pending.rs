//! Buffer of events waiting for cross-author dependencies.
//!
//! Two independent eviction policies bound the buffer: entries older
//! than the TTL are dropped lazily on every insert, and capacity is
//! enforced by evicting the oldest entry, first within the inserting
//! author's share (against a single author flooding the buffer), then
//! overall. Eviction is safe for convergence: peers re-request what
//! they miss. Age is the pair (insertion time, wire hash), so entries
//! inserted at the same instant still have a strict order.
//!
//! Entries are kept in ascending wire-hash order, which is the order in
//! which [`PendingBuffer::newly_satisfied`] hands events back.
use vstd::prelude::*;

use std::time::Instant;

use crate::bytes::{lemma_lex_lt_total, lemma_lex_lt_transitive, lex_lt};
use crate::clock::{clock_now, nanos_since};
use crate::event::{wire_hash_of, Event, EventView};
use crate::ids::{id_eq, id_lt, AuthorPubkey, EventHash, IdSet, Id32};

verus! {

broadcast use vstd::seq_lib::group_filter_ensures;

/// Capacity and age bounds of a [`PendingBuffer`].
#[derive(Clone, Copy, Debug, PartialEq, Eq)]
pub struct PendingCfg {
    /// Hard cap on the number of entries; the oldest is evicted on
    /// overflow.
    pub max_total: usize,
    /// Cap on the entries of a single author.
    pub max_per_author: usize,
    /// Age, in nanoseconds, after which an entry is evicted.
    pub ttl_nanos: u64,
}

impl Default for PendingCfg {
    /// Ten thousand entries, a fiftieth of them per author, one hour.
    fn default() -> (r: Self)
        ensures
            r.max_total == 10_000,
            r.max_per_author == 200,
            r.ttl_nanos == 3_600_000_000_000,
    {
        PendingCfg { max_total: 10_000, max_per_author: 10_000 / 50, ttl_nanos: 3_600_000_000_000 }
    }
}

/// The content of one buffered entry.
pub struct PendingItem {
    /// Wire hash of the event.
    pub hash: EventHash,
    /// The event.
    pub event: EventView,
    /// The dependencies it waits for.
    pub missing: Set<EventHash>,
    /// Clock reading (nanoseconds) at which it was inserted.
    pub inserted_at: u64,
}

struct PendingEntry {
    hash: EventHash,
    event: Event,
    missing_deps: IdSet<EventHash>,
    inserted_at: u64,
}

impl PendingEntry {
    spec fn item(&self) -> PendingItem {
        PendingItem {
            hash: self.hash,
            event: self.event@,
            missing: self.missing_deps@,
            inserted_at: self.inserted_at,
        }
    }
}

/// Entries in strictly ascending wire-hash order.
pub open spec fn sorted_by_hash(s: Seq<PendingItem>) -> bool {
    forall|i: int, j: int| 0 <= i < j < s.len() ==> lex_lt(#[trigger] s[i].hash.bytes@, #[trigger] s[j].hash.bytes@)
}

/// Every entry is stored under its event's wire hash.
pub open spec fn hashes_match(s: Seq<PendingItem>) -> bool {
    forall|i: int| 0 <= i < s.len() ==> (#[trigger] s[i]).hash.bytes@ == wire_hash_of(s[i].event)
}

/// `a` is older than `b`: inserted earlier, or at the same instant with
/// a smaller wire hash.
pub open spec fn key_lt(a: PendingItem, b: PendingItem) -> bool {
    a.inserted_at < b.inserted_at || (a.inserted_at == b.inserted_at && lex_lt(
        a.hash.bytes@,
        b.hash.bytes@,
    ))
}

/// Whether `it` is by `author` (every entry matches `None`).
pub open spec fn of_author(it: PendingItem, author: Option<AuthorPubkey>) -> bool {
    match author {
        None => true,
        Some(a) => it.event.author == a,
    }
}

/// Index of the oldest entry matching `author` (the first of equally
/// old ones), if any.
pub open spec fn oldest(s: Seq<PendingItem>, author: Option<AuthorPubkey>) -> Option<int>
    decreases s.len(),
{
    if s.len() == 0 {
        None
    } else {
        let before = oldest(s.drop_last(), author);
        let i = s.len() - 1;
        if of_author(s.last(), author) {
            match before {
                None => Some(i),
                Some(j) => if key_lt(s.last(), s[j]) {
                    Some(i)
                } else {
                    Some(j)
                },
            }
        } else {
            before
        }
    }
}

/// `s` without its oldest entry matching `author` (unchanged if none
/// matches).
pub open spec fn evict_oldest(s: Seq<PendingItem>, author: Option<AuthorPubkey>) -> Seq<PendingItem> {
    match oldest(s, author) {
        Some(i) => s.remove(i),
        None => s,
    }
}

/// The entries that have not expired at `now` under `ttl`: all of them
/// while `now < ttl`, else those inserted at or after `now - ttl`.
pub open spec fn unexpired(s: Seq<PendingItem>, now: u64, ttl: u64) -> Seq<PendingItem> {
    if now >= ttl {
        s.filter(|it: PendingItem| it.inserted_at >= (now - ttl) as u64)
    } else {
        s
    }
}

/// Number of entries by `a`.
pub open spec fn author_count(s: Seq<PendingItem>, a: AuthorPubkey) -> nat {
    s.filter(|it: PendingItem| it.event.author == a).len()
}

/// `s` after making room for an event by `author`: the oldest of the
/// author's entries goes when the author is at its cap, then the oldest
/// entry goes when the buffer is at its cap.
pub open spec fn make_room(s: Seq<PendingItem>, cfg: PendingCfg, author: AuthorPubkey) -> Seq<
    PendingItem,
> {
    let s2 = if author_count(s, author) >= cfg.max_per_author {
        evict_oldest(s, Some(author))
    } else {
        s
    };
    if s2.len() >= cfg.max_total {
        evict_oldest(s2, None)
    } else {
        s2
    }
}

/// `out` is `s` with the event `ev` placed: an entry with the same wire
/// hash takes the new event and missing set but keeps its age;
/// otherwise a new entry inserted at `now` joins at its hash position.
pub open spec fn placed(
    s: Seq<PendingItem>,
    ev: EventView,
    missing: Set<EventHash>,
    now: u64,
    out: Seq<PendingItem>,
) -> bool {
    if exists|i: int| 0 <= i < s.len() && #[trigger] s[i].hash.bytes@ == wire_hash_of(ev) {
        let i = choose|i: int| 0 <= i < s.len() && #[trigger] s[i].hash.bytes@ == wire_hash_of(ev);
        out == s.update(
            i,
            PendingItem { hash: s[i].hash, event: ev, missing, inserted_at: s[i].inserted_at },
        )
    } else {
        exists|pos: int, h: EventHash|
            0 <= pos <= s.len() && h.bytes@ == wire_hash_of(ev) && out == #[trigger] s.insert(
                pos,
                PendingItem { hash: h, event: ev, missing, inserted_at: now },
            )
    }
}

/// Whether every dependency `it` waits for is in `known`.
pub open spec fn is_ready(it: PendingItem, known: Set<EventHash>) -> bool {
    it.missing.subset_of(known)
}

/// The entries of `s` that are ready under `known`, in order.
pub open spec fn ready_items(s: Seq<PendingItem>, known: Set<EventHash>) -> Seq<PendingItem> {
    s.filter(|it: PendingItem| is_ready(it, known))
}

/// The entries of `s` that still wait under `known`, in order.
pub open spec fn waiting_items(s: Seq<PendingItem>, known: Set<EventHash>) -> Seq<PendingItem> {
    s.filter(|it: PendingItem| !is_ready(it, known))
}

/// Buffer of events waiting for their cross-author dependencies.
pub struct PendingBuffer {
    entries: Vec<PendingEntry>,
    cfg: PendingCfg,
    origin: Instant,
}

impl PendingBuffer {
    /// The entries, in ascending wire-hash order.
    pub closed spec fn items(&self) -> Seq<PendingItem> {
        self.entries@.map_values(|e: PendingEntry| e.item())
    }

    /// The configuration.
    pub closed spec fn config(&self) -> PendingCfg {
        self.cfg
    }

    /// Entries sorted by wire hash, each stored under its event's hash.
    pub open spec fn wf(&self) -> bool {
        sorted_by_hash(self.items()) && hashes_match(self.items())
    }

    /// An empty buffer with the given bounds; the buffer's clock starts
    /// now.
    pub fn new(cfg: PendingCfg) -> (r: Self)
        ensures
            r.wf(),
            r.items() == Seq::<PendingItem>::empty(),
            r.config() == cfg,
    {
        let r = PendingBuffer { entries: Vec::new(), cfg, origin: clock_now() };
        assert(r.items() =~= Seq::<PendingItem>::empty());
        r
    }

    /// Number of buffered entries.
    pub fn len(&self) -> (r: usize)
        ensures
            r == self.items().len(),
    {
        self.entries.len()
    }

    /// Whether no entry is buffered.
    pub fn is_empty(&self) -> (r: bool)
        ensures
            r == (self.items().len() == 0),
    {
        self.entries.len() == 0
    }

    /// Insert `event`, waiting for `missing_deps`, at the current reading
    /// of the buffer's clock. See [`PendingBuffer::insert_at`].
    pub fn insert(&mut self, event: Event, missing_deps: IdSet<EventHash>)
        requires
            old(self).wf(),
        ensures
            final(self).wf(),
            final(self).config() == old(self).config(),
            exists|now: u64|
                placed(
                    make_room(
                        #[trigger] unexpired(old(self).items(), now, old(self).config().ttl_nanos),
                        old(self).config(),
                        event@.author,
                    ),
                    event@,
                    missing_deps@,
                    now,
                    final(self).items(),
                ),
    {
        let now = nanos_since(&self.origin);
        self.insert_at(event, missing_deps, now);
    }

    /// Insert `event`, waiting for `missing_deps`, at clock reading `now`
    /// (nanoseconds): expired entries go first, then room is made under
    /// the per-author and total caps, then the event is placed.
    pub fn insert_at(&mut self, event: Event, missing_deps: IdSet<EventHash>, now: u64)
        requires
            old(self).wf(),
        ensures
            final(self).wf(),
            final(self).config() == old(self).config(),
            placed(
                make_room(
                    unexpired(old(self).items(), now, old(self).config().ttl_nanos),
                    old(self).config(),
                    event@.author,
                ),
                event@,
                missing_deps@,
                now,
                final(self).items(),
            ),
    {
        self.expire(now);
        let ghost s1 = self.items();
        let count = self.count_author(&event.author);
        if count >= self.cfg.max_per_author {
            self.evict(Some(event.author));
        }
        let ghost s2 = self.items();
        if self.entries.len() >= self.cfg.max_total {
            self.evict(None);
        }
        self.place(event, missing_deps, now);
    }

    /// Remove every entry that is not unexpired at `now`.
    fn expire(&mut self, now: u64)
        requires
            old(self).wf(),
        ensures
            final(self).wf(),
            final(self).cfg == old(self).cfg,
            final(self).origin == old(self).origin,
            final(self).items() == unexpired(old(self).items(), now, old(self).cfg.ttl_nanos),
    {
        if now < self.cfg.ttl_nanos {
            return;
        }
        let cutoff = now - self.cfg.ttl_nanos;
        let ghost p = |it: PendingItem| it.inserted_at >= cutoff;
        let ghost orig = self.items();
        let ghost n = orig.len();
        let len0 = self.entries.len();
        assert(n == len0);
        let mut i: usize = 0;
        let mut k: usize = 0;
        while i < self.entries.len()
            invariant
                self.cfg == old(self).cfg,
                self.origin == old(self).origin,
                p == (|it: PendingItem| it.inserted_at >= cutoff),
                orig == old(self).items(),
                n == orig.len(),
                n <= usize::MAX,
                k <= n,
                i <= k,
                self.entries@.len() == i + (n - k),
                self.items().subrange(0, i as int) == orig.subrange(0, k as int).filter(p),
                forall|j: int| i <= j < self.entries@.len() ==> #[trigger] self.items()[j] == orig[k + (j - i)],
            decreases n - k,
        {
            let ghost before = self.items();
            proof {
                lemma_filter_step(orig, k as int, p);
                assert(self.items()[i as int] == orig[k as int]);
            }
            if self.entries[i].inserted_at < cutoff {
                assert(!p(orig[k as int]));
                self.entries.remove(i);
                proof {
                    assert(self.items() =~= before.remove(i as int));
                    assert(self.items().subrange(0, i as int) =~= before.subrange(0, i as int));
                }
            } else {
                assert(p(orig[k as int]));
                proof {
                    assert(self.items().subrange(0, i + 1) =~= before.subrange(0, i as int).push(before[i as int]));
                }
                i = i + 1;
            }
            k = k + 1;
        }
        proof {
            assert(orig.subrange(0, n as int) =~= orig);
            assert(self.items() =~= self.items().subrange(0, i as int));
            lemma_filter_keeps_order(orig, p);
            lemma_filter_keeps_match(orig, p);
        }
    }

    /// Number of entries by `a`.
    fn count_author(&self, a: &AuthorPubkey) -> (r: usize)
        ensures
            r == author_count(self.items(), *a),
    {
        let ghost p = |it: PendingItem| it.event.author == *a;
        let ghost s = self.items();
        let mut c: usize = 0;
        let mut i: usize = 0;
        while i < self.entries.len()
            invariant
                s == self.items(),
                p == (|it: PendingItem| it.event.author == *a),
                i <= s.len(),
                c == s.subrange(0, i as int).filter(p).len(),
                c <= i,
            decreases s.len() - i,
        {
            proof {
                lemma_filter_step(s, i as int, p);
            }
            assert(p(s[i as int]) == (self.entries@[i as int].event.author == *a));
            if id_eq(&self.entries[i].event.author, a) {
                c = c + 1;
            }
            i = i + 1;
        }
        assert(s.subrange(0, s.len() as int) =~= s);
        c
    }

    /// Remove the oldest entry by `author` (the oldest entry at all when
    /// `author` is `None`), if there is one.
    fn evict(&mut self, author: Option<AuthorPubkey>)
        requires
            old(self).wf(),
        ensures
            final(self).wf(),
            final(self).cfg == old(self).cfg,
            final(self).origin == old(self).origin,
            final(self).items() == evict_oldest(old(self).items(), author),
    {
        let ghost s = self.items();
        let mut best: Option<usize> = None;
        let mut i: usize = 0;
        while i < self.entries.len()
            invariant
                s == self.items(),
                i <= s.len(),
                match best {
                    Some(b) => oldest(s.subrange(0, i as int), author) == Some(b as int) && b < i,
                    None => oldest(s.subrange(0, i as int), author) is None,
                },
            decreases s.len() - i,
        {
            let ghost t = s.subrange(0, i + 1);
            proof {
                assert(t.drop_last() =~= s.subrange(0, i as int));
                assert(t.last() == s[i as int]);
            }
            let matches = match author {
                None => true,
                Some(a) => id_eq(&self.entries[i].event.author, &a),
            };
            if matches {
                match best {
                    None => {
                        best = Some(i);
                    },
                    Some(b) => {
                        proof {
                            assert(t[b as int] == s[b as int]);
                        }
                        let e = &self.entries[i];
                        let f = &self.entries[b];
                        if e.inserted_at < f.inserted_at || (e.inserted_at == f.inserted_at
                            && id_lt(&e.hash, &f.hash)) {
                            best = Some(i);
                        }
                    },
                }
            }
            i = i + 1;
        }
        assert(s.subrange(0, s.len() as int) =~= s);
        match best {
            Some(b) => {
                self.entries.remove(b);
                proof {
                    assert(self.items() =~= s.remove(b as int));
                    lemma_remove_keeps_order(s, b as int);
                }
            },
            None => {},
        }
    }

    /// Place `event` (see [`placed`]) in hash order.
    fn place(&mut self, event: Event, missing_deps: IdSet<EventHash>, now: u64)
        requires
            old(self).wf(),
        ensures
            final(self).wf(),
            final(self).cfg == old(self).cfg,
            final(self).origin == old(self).origin,
            placed(old(self).items(), event@, missing_deps@, now, final(self).items()),
    {
        let hash = event.wire_hash();
        let ghost s = self.items();
        let ghost w = wire_hash_of(event@);
        let n = self.entries.len();
        let mut pos: usize = 0;
        while pos < n
            invariant
                s == self.items(),
                n == s.len(),
                pos <= n,
                forall|j: int| 0 <= j < pos ==> lex_lt(#[trigger] s[j].hash.bytes@, hash.bytes@),
            ensures
                pos <= n,
                forall|j: int| 0 <= j < pos ==> lex_lt(#[trigger] s[j].hash.bytes@, hash.bytes@),
                pos < n ==> !lex_lt(s[pos as int].hash.bytes@, hash.bytes@),
            decreases n - pos,
        {
            if !id_lt(&self.entries[pos].hash, &hash) {
                break;
            }
            pos = pos + 1;
        }
        proof {
            assert forall|j: int| 0 <= j < pos implies s[j].hash.bytes@ != w by {
                crate::bytes::lemma_lex_lt_irreflexive(w);
            }
        }
        if pos < n && id_eq(&self.entries[pos].hash, &hash) {
            let at = self.entries[pos].inserted_at;
            let ghost before = self.items();
            let new_entry = PendingEntry { hash, event, missing_deps, inserted_at: at };
            self.entries.set(pos, new_entry);
            proof {
                assert(s[pos as int].hash.bytes@ == w);
                let i = choose|i: int| 0 <= i < s.len() && #[trigger] s[i].hash.bytes@ == w;
                if i != pos {
                    if i < pos {
                        crate::bytes::lemma_lex_lt_irreflexive(w);
                    } else {
                        assert(lex_lt(s[pos as int].hash.bytes@, s[i].hash.bytes@));
                        crate::bytes::lemma_lex_lt_irreflexive(w);
                    }
                }
                assert(self.items() =~= s.update(
                    pos as int,
                    PendingItem { hash: s[pos as int].hash, event: event@, missing: missing_deps@, inserted_at: s[pos as int].inserted_at },
                ));
                lemma_update_keeps_order(
                    s,
                    pos as int,
                    PendingItem { hash: s[pos as int].hash, event: event@, missing: missing_deps@, inserted_at: s[pos as int].inserted_at },
                );
            }
            return;
        }
        proof {
            if pos < n {
                EventHash::lemma_id(s[pos as int].hash, hash);
                lemma_lex_lt_total(s[pos as int].hash.bytes@, w);
                assert(lex_lt(w, s[pos as int].hash.bytes@));
                assert forall|j: int| pos < j < n implies lex_lt(w, #[trigger] s[j].hash.bytes@) by {
                    lemma_lex_lt_transitive(w, s[pos as int].hash.bytes@, s[j].hash.bytes@);
                }
            }
            assert(!(exists|i: int| 0 <= i < s.len() && #[trigger] s[i].hash.bytes@ == w)) by {
                if exists|i: int| 0 <= i < s.len() && #[trigger] s[i].hash.bytes@ == w {
                    let i = choose|i: int| 0 <= i < s.len() && #[trigger] s[i].hash.bytes@ == w;
                    crate::bytes::lemma_lex_lt_irreflexive(w);
                    if i > pos {
                        assert(lex_lt(w, s[i].hash.bytes@));
                    }
                }
            }
        }
        let new_entry = PendingEntry { hash, event, missing_deps, inserted_at: now };
        self.entries.insert(pos, new_entry);
        proof {
            let it = PendingItem { hash, event: event@, missing: missing_deps@, inserted_at: now };
            assert(self.items() =~= s.insert(pos as int, it));
            lemma_insert_keeps_order(s, pos as int, it);
        }
    }

    /// Remove and return, in ascending wire-hash order, the events all of
    /// whose missing dependencies are in `known`. One pass: events that
    /// become ready because of what is returned are returned by a later
    /// call, once the caller has added the applied hashes to `known`.
    pub fn newly_satisfied(&mut self, known: &IdSet<EventHash>) -> (r: Vec<Event>)
        requires
            old(self).wf(),
        ensures
            final(self).wf(),
            final(self).config() == old(self).config(),
            final(self).items() == waiting_items(old(self).items(), known@),
            r@.len() == ready_items(old(self).items(), known@).len(),
            forall|i: int|
                0 <= i < r@.len() ==> (#[trigger] r@[i])@ == ready_items(old(self).items(), known@)[i].event,
    {
        let ghost keep = |it: PendingItem| !is_ready(it, known@);
        let ghost take = |it: PendingItem| is_ready(it, known@);
        let ghost orig = self.items();
        let ghost n = orig.len();
        let len0 = self.entries.len();
        assert(n == len0);
        let mut out: Vec<Event> = Vec::new();
        let mut i: usize = 0;
        let mut k: usize = 0;
        while i < self.entries.len()
            invariant
                self.cfg == old(self).cfg,
                self.origin == old(self).origin,
                keep == (|it: PendingItem| !is_ready(it, known@)),
                take == (|it: PendingItem| is_ready(it, known@)),
                orig == old(self).items(),
                n == orig.len(),
                n <= usize::MAX,
                k <= n,
                i <= k,
                self.entries@.len() == i + (n - k),
                self.items().subrange(0, i as int) == orig.subrange(0, k as int).filter(keep),
                forall|j: int| i <= j < self.entries@.len() ==> #[trigger] self.items()[j] == orig[k + (j - i)],
                out@.len() == orig.subrange(0, k as int).filter(take).len(),
                forall|j: int| 0 <= j < out@.len() ==> (#[trigger] out@[j])@ == orig.subrange(0, k as int).filter(take)[j].event,
            decreases n - k,
        {
            let ghost before = self.items();
            let ghost out_before = out@;
            proof {
                lemma_filter_step(orig, k as int, keep);
                lemma_filter_step(orig, k as int, take);
                assert(self.items()[i as int] == orig[k as int]);
            }
            if self.entries[i].missing_deps.is_subset(known) {
                assert(take(orig[k as int]) && !keep(orig[k as int]));
                let e = self.entries.remove(i);
                out.push(e.event);
                proof {
                    assert(self.items() =~= before.remove(i as int));
                    assert(self.items().subrange(0, i as int) =~= before.subrange(0, i as int));
                    assert forall|j: int| 0 <= j < out@.len() implies (#[trigger] out@[j])@ == orig.subrange(0, k + 1).filter(take)[j].event by {
                        if j < out_before.len() {
                            assert(out@[j] == out_before[j]);
                        }
                    }
                }
            } else {
                assert(!take(orig[k as int]) && keep(orig[k as int]));
                proof {
                    assert(self.items().subrange(0, i + 1) =~= before.subrange(0, i as int).push(before[i as int]));
                }
                i = i + 1;
            }
            k = k + 1;
        }
        proof {
            assert(orig.subrange(0, n as int) =~= orig);
            assert(self.items() =~= self.items().subrange(0, i as int));
            lemma_filter_keeps_order(orig, keep);
            lemma_filter_keeps_match(orig, keep);
        }
        out
    }
}

/// One more element of a prefix passes through the filter iff it
/// satisfies the predicate.
proof fn lemma_filter_step(s: Seq<PendingItem>, k: int, p: spec_fn(PendingItem) -> bool)
    requires
        0 <= k < s.len(),
    ensures
        s.subrange(0, k + 1).filter(p) == if p(s[k]) {
            s.subrange(0, k).filter(p).push(s[k])
        } else {
            s.subrange(0, k).filter(p)
        },
{
    reveal(Seq::filter);
    assert(s.subrange(0, k + 1).drop_last() =~= s.subrange(0, k));
    assert(s.subrange(0, k + 1).last() == s[k]);
}

/// Inserting an entry at its hash position keeps the entries sorted and
/// matched.
proof fn lemma_insert_keeps_order(s: Seq<PendingItem>, pos: int, it: PendingItem)
    requires
        sorted_by_hash(s),
        hashes_match(s),
        0 <= pos <= s.len(),
        forall|j: int| 0 <= j < pos ==> lex_lt(#[trigger] s[j].hash.bytes@, it.hash.bytes@),
        forall|j: int| pos <= j < s.len() ==> lex_lt(it.hash.bytes@, #[trigger] s[j].hash.bytes@),
        it.hash.bytes@ == wire_hash_of(it.event),
    ensures
        sorted_by_hash(s.insert(pos, it)),
        hashes_match(s.insert(pos, it)),
{
    let t = s.insert(pos, it);
    assert forall|j: int| 0 <= j < t.len() implies #[trigger] t[j] == if j < pos {
        s[j]
    } else if j == pos {
        it
    } else {
        s[j - 1]
    } by {}
    assert forall|i: int, j: int| 0 <= i < j < t.len() implies lex_lt(
        #[trigger] t[i].hash.bytes@,
        #[trigger] t[j].hash.bytes@,
    ) by {
        if i < pos && j > pos {
            lemma_lex_lt_transitive(t[i].hash.bytes@, it.hash.bytes@, t[j].hash.bytes@);
        }
    }
}

/// Replacing an entry by one with the same hash keeps the entries
/// sorted and matched.
proof fn lemma_update_keeps_order(s: Seq<PendingItem>, pos: int, it: PendingItem)
    requires
        sorted_by_hash(s),
        hashes_match(s),
        0 <= pos < s.len(),
        it.hash == s[pos].hash,
        it.hash.bytes@ == wire_hash_of(it.event),
    ensures
        sorted_by_hash(s.update(pos, it)),
        hashes_match(s.update(pos, it)),
{
    let t = s.update(pos, it);
    assert forall|j: int| 0 <= j < t.len() implies (#[trigger] t[j]).hash.bytes@ == wire_hash_of(t[j].event) by {
        if j != pos {
            assert(t[j] == s[j]);
        }
    }
    assert forall|a: int, b: int| 0 <= a < b < t.len() implies lex_lt(
        #[trigger] t[a].hash.bytes@,
        #[trigger] t[b].hash.bytes@,
    ) by {
        assert(t[a].hash == s[a].hash);
        assert(t[b].hash == s[b].hash);
    }
}

/// Filtering keeps entries in strictly ascending hash order.
proof fn lemma_filter_keeps_order(s: Seq<PendingItem>, p: spec_fn(PendingItem) -> bool)
    requires
        sorted_by_hash(s),
    ensures
        sorted_by_hash(s.filter(p)),
    decreases s.len(),
{
    reveal(Seq::filter);
    if s.len() > 0 {
        let rest = s.drop_last();
        assert(sorted_by_hash(rest));
        lemma_filter_keeps_order(rest, p);
        if p(s.last()) {
            let f = rest.filter(p);
            let t = f.push(s.last());
            assert forall|i: int, j: int| 0 <= i < j < t.len() implies lex_lt(
                #[trigger] t[i].hash.bytes@,
                #[trigger] t[j].hash.bytes@,
            ) by {
                if j == t.len() - 1 {
                    assert(f.contains(t[i]));
                    rest.lemma_filter_contains_rev(p, t[i]);
                    let k = choose|k: int| 0 <= k < rest.len() && rest[k] == t[i];
                    assert(s[k] == t[i]);
                }
            }
        }
    }
}

/// Filtering keeps every entry stored under its event's hash.
proof fn lemma_filter_keeps_match(s: Seq<PendingItem>, p: spec_fn(PendingItem) -> bool)
    requires
        hashes_match(s),
    ensures
        hashes_match(s.filter(p)),
{
    let f = s.filter(p);
    assert forall|i: int| 0 <= i < f.len() implies (#[trigger] f[i]).hash.bytes@ == wire_hash_of(f[i].event) by {
        assert(f.contains(f[i]));
        s.lemma_filter_contains_rev(p, f[i]);
        let k = choose|k: int| 0 <= k < s.len() && s[k] == f[i];
    }
}

/// Removing an entry keeps the rest sorted and matched.
proof fn lemma_remove_keeps_order(s: Seq<PendingItem>, b: int)
    requires
        sorted_by_hash(s),
        hashes_match(s),
        0 <= b < s.len(),
    ensures
        sorted_by_hash(s.remove(b)),
        hashes_match(s.remove(b)),
{
    let t = s.remove(b);
    assert forall|i: int, j: int| 0 <= i < j < t.len() implies lex_lt(
        #[trigger] t[i].hash.bytes@,
        #[trigger] t[j].hash.bytes@,
    ) by {
        let i2 = if i < b { i } else { i + 1 };
        let j2 = if j < b { j } else { j + 1 };
        assert(t[i] == s[i2]);
        assert(t[j] == s[j2]);
    }
    assert forall|i: int| 0 <= i < t.len() implies (#[trigger] t[i]).hash.bytes@ == wire_hash_of(t[i].event) by {
        let i2 = if i < b { i } else { i + 1 };
        assert(t[i] == s[i2]);
    }
}

/// The oldest matching entry is an entry of `s` that matches.
pub proof fn lemma_oldest_in_range(s: Seq<PendingItem>, author: Option<AuthorPubkey>)
    ensures
        match oldest(s, author) {
            Some(i) => 0 <= i < s.len() && of_author(s[i], author),
            None => forall|i: int| 0 <= i < s.len() ==> !of_author(#[trigger] s[i], author),
        },
    decreases s.len(),
{
    if s.len() > 0 {
        lemma_oldest_in_range(s.drop_last(), author);
        assert forall|i: int| 0 <= i < s.len() - 1 implies s.drop_last()[i] == #[trigger] s[i] by {}
    }
}

/// The entry evicted as oldest is no younger than any other matching
/// entry.
pub proof fn lemma_oldest_is_oldest(s: Seq<PendingItem>, author: Option<AuthorPubkey>, j: int)
    requires
        0 <= j < s.len(),
        of_author(s[j], author),
    ensures
        oldest(s, author) is Some,
        !key_lt(s[j], s[oldest(s, author)->0]),
    decreases s.len(),
{
    lemma_oldest_in_range(s, author);
    if j < s.len() - 1 {
        lemma_oldest_is_oldest(s.drop_last(), author, j);
        let b = oldest(s.drop_last(), author)->0;
        lemma_oldest_in_range(s.drop_last(), author);
        assert(s.drop_last()[b] == s[b]);
        assert(s.drop_last()[j] == s[j]);
        if key_lt(s.last(), s[b]) {
            // the new oldest is older than the previous one, which is no
            // younger than `s[j]`
            let x = s.last();
            let y = s[b];
            let z = s[j];
            if key_lt(z, x) {
                if z.inserted_at == x.inserted_at && x.inserted_at == y.inserted_at {
                    lemma_lex_lt_transitive(z.hash.bytes@, x.hash.bytes@, y.hash.bytes@);
                }
            }
        }
    } else {
        if s.len() > 1 {
            lemma_oldest_in_range(s.drop_last(), author);
        }
        match oldest(s.drop_last(), author) {
            None => {
                crate::bytes::lemma_lex_lt_irreflexive(s[j].hash.bytes@);
            },
            Some(b) => {
                if key_lt(s.last(), s[b]) {
                    crate::bytes::lemma_lex_lt_irreflexive(s[j].hash.bytes@);
                } else {
                    assert(s.drop_last()[b] == s[b]);
                }
            },
        }
    }
}

/// Capacity: an insert into a buffer within its total cap (of at least
/// one entry) leaves it within the cap.
pub proof fn lemma_insert_keeps_total_cap(
    s: Seq<PendingItem>,
    cfg: PendingCfg,
    ev: EventView,
    missing: Set<EventHash>,
    now: u64,
    out: Seq<PendingItem>,
)
    requires
        s.len() <= cfg.max_total,
        cfg.max_total >= 1,
        placed(make_room(unexpired(s, now, cfg.ttl_nanos), cfg, ev.author), ev, missing, now, out),
    ensures
        out.len() <= cfg.max_total,
{
    let s1 = unexpired(s, now, cfg.ttl_nanos);
    assert(s1.len() <= s.len());
    let s2 = if author_count(s1, ev.author) >= cfg.max_per_author {
        evict_oldest(s1, Some(ev.author))
    } else {
        s1
    };
    lemma_oldest_in_range(s1, Some(ev.author));
    assert(s2.len() <= s1.len());
    let s3 = make_room(s1, cfg, ev.author);
    lemma_oldest_in_range(s2, None);
    if s2.len() >= cfg.max_total {
        assert(of_author(s2[0], None));
        assert(s3.len() == s2.len() - 1);
    }
    assert(s3.len() < cfg.max_total);
    if exists|i: int| 0 <= i < s3.len() && #[trigger] s3[i].hash.bytes@ == wire_hash_of(ev) {
        assert(out.len() == s3.len());
    } else {
        let (pos, h) = choose|pos: int, h: EventHash|
            0 <= pos <= s3.len() && h.bytes@ == wire_hash_of(ev) && out == #[trigger] s3.insert(
                pos,
                PendingItem { hash: h, event: ev, missing, inserted_at: now },
            );
        assert(out.len() == s3.len() + 1);
    }
}

/// Whether `s` holds an entry for `ev` waiting for `missing`.
pub open spec fn buffers(s: Seq<PendingItem>, ev: EventView, missing: Set<EventHash>) -> bool {
    exists|i: int| 0 <= i < s.len() && #[trigger] s[i].event == ev && s[i].missing == missing
}

/// An insert leaves the event buffered, waiting for the given missing
/// dependencies.
pub proof fn lemma_insert_buffers_event(
    s: Seq<PendingItem>,
    ev: EventView,
    missing: Set<EventHash>,
    now: u64,
    out: Seq<PendingItem>,
)
    requires
        placed(s, ev, missing, now, out),
    ensures
        buffers(out, ev, missing),
{
    if exists|i: int| 0 <= i < s.len() && #[trigger] s[i].hash.bytes@ == wire_hash_of(ev) {
        let i = choose|i: int| 0 <= i < s.len() && #[trigger] s[i].hash.bytes@ == wire_hash_of(ev);
        assert(out[i].event == ev);
    } else {
        let (pos, h) = choose|pos: int, h: EventHash|
            0 <= pos <= s.len() && h.bytes@ == wire_hash_of(ev) && out == #[trigger] s.insert(
                pos,
                PendingItem { hash: h, event: ev, missing, inserted_at: now },
            );
        assert(out[pos].event == ev);
    }
}

/// Whether `states` is a run of inserts of `evs`, each waiting for the
/// matching missing set, at the matching clock readings, under `cfg`.
pub open spec fn insert_run(
    states: Seq<Seq<PendingItem>>,
    evs: Seq<EventView>,
    missings: Seq<Set<EventHash>>,
    nows: Seq<u64>,
    cfg: PendingCfg,
) -> bool {
    &&& states.len() == evs.len() + 1
    &&& missings.len() == evs.len()
    &&& nows.len() == evs.len()
    &&& forall|k: int|
        #![trigger evs[k]]
        0 <= k < evs.len() ==> placed(
            make_room(unexpired(states[k], nows[k], cfg.ttl_nanos), cfg, evs[k].author),
            evs[k],
            missings[k],
            nows[k],
            states[k + 1],
        )
}

/// Capacity over a run of inserts: a buffer that starts within its total
/// cap (of at least one entry) stays within it after every insert, and
/// each inserted event is buffered right after its insert.
pub proof fn lemma_insert_run(
    states: Seq<Seq<PendingItem>>,
    evs: Seq<EventView>,
    missings: Seq<Set<EventHash>>,
    nows: Seq<u64>,
    cfg: PendingCfg,
)
    requires
        insert_run(states, evs, missings, nows, cfg),
        states[0].len() <= cfg.max_total,
        cfg.max_total >= 1,
    ensures
        forall|k: int| 0 <= k < states.len() ==> (#[trigger] states[k]).len() <= cfg.max_total,
        forall|k: int| 0 <= k < evs.len() ==> buffers(states[k + 1], #[trigger] evs[k], missings[k]),
{
    assert forall|k: int| 0 <= k < states.len() implies (#[trigger] states[k]).len() <= cfg.max_total by {
        lemma_insert_run_cap(states, evs, missings, nows, cfg, k);
    }
    assert forall|k: int| 0 <= k < evs.len() implies buffers(states[k + 1], #[trigger] evs[k], missings[k]) by {
        lemma_insert_buffers_event(
            make_room(unexpired(states[k], nows[k], cfg.ttl_nanos), cfg, evs[k].author),
            evs[k],
            missings[k],
            nows[k],
            states[k + 1],
        );
    }
}

/// The cap holds at step `k` of a run of inserts.
proof fn lemma_insert_run_cap(
    states: Seq<Seq<PendingItem>>,
    evs: Seq<EventView>,
    missings: Seq<Set<EventHash>>,
    nows: Seq<u64>,
    cfg: PendingCfg,
    k: int,
)
    requires
        insert_run(states, evs, missings, nows, cfg),
        states[0].len() <= cfg.max_total,
        cfg.max_total >= 1,
        0 <= k < states.len(),
    ensures
        states[k].len() <= cfg.max_total,
    decreases k,
{
    if k > 0 {
        lemma_insert_run_cap(states, evs, missings, nows, cfg, k - 1);
        lemma_insert_keeps_total_cap(states[k - 1], cfg, evs[k - 1], missings[k - 1], nows[k - 1], states[k]);
    }
}

/// An insert into a buffer within its total cap (of at least one entry)
/// leaves it within the cap, and a later read under known hashes that
/// cover the event's missing dependencies returns the event (see
/// [`PendingBuffer::insert`] and [`PendingBuffer::newly_satisfied`]).
pub proof fn lemma_insert_then_ready(
    s: Seq<PendingItem>,
    cfg: PendingCfg,
    ev: EventView,
    missing: Set<EventHash>,
    now: u64,
    out: Seq<PendingItem>,
    known: Set<EventHash>,
)
    requires
        s.len() <= cfg.max_total,
        cfg.max_total >= 1,
        placed(make_room(unexpired(s, now, cfg.ttl_nanos), cfg, ev.author), ev, missing, now, out),
        missing.subset_of(known),
    ensures
        out.len() <= cfg.max_total,
        exists|i: int| 0 <= i < ready_items(out, known).len() && #[trigger] ready_items(out, known)[i].event == ev,
{
    lemma_insert_keeps_total_cap(s, cfg, ev, missing, now, out);
    lemma_insert_buffers_event(
        make_room(unexpired(s, now, cfg.ttl_nanos), cfg, ev.author),
        ev,
        missing,
        now,
        out,
    );
    let i = choose|i: int| 0 <= i < out.len() && #[trigger] out[i].event == ev && out[i].missing == missing;
    let p = |it: PendingItem| is_ready(it, known);
    assert(p(out[i]));
    out.lemma_filter_contains(p, i);
    let f = ready_items(out, known);
    assert(f.contains(out[i]));
    let j = choose|j: int| 0 <= j < f.len() && f[j] == out[i];
    assert(f[j].event == ev);
}

/// Age: after an insert at clock reading `now`, no entry was inserted
/// more than the TTL before `now`.
pub proof fn lemma_insert_drops_expired(
    s: Seq<PendingItem>,
    cfg: PendingCfg,
    ev: EventView,
    missing: Set<EventHash>,
    now: u64,
    out: Seq<PendingItem>,
)
    requires
        now >= cfg.ttl_nanos,
        placed(make_room(unexpired(s, now, cfg.ttl_nanos), cfg, ev.author), ev, missing, now, out),
    ensures
        forall|i: int| 0 <= i < out.len() ==> (#[trigger] out[i]).inserted_at >= now - cfg.ttl_nanos,
{
    let cutoff = (now - cfg.ttl_nanos) as u64;
    let fresh = |t: Seq<PendingItem>| forall|i: int| 0 <= i < t.len() ==> (#[trigger] t[i]).inserted_at >= cutoff;
    let s1 = unexpired(s, now, cfg.ttl_nanos);
    assert(fresh(s1));
    assert forall|t: Seq<PendingItem>, a: Option<AuthorPubkey>| fresh(t) implies #[trigger] fresh(evict_oldest(t, a)) by {
        lemma_oldest_in_range(t, a);
        match oldest(t, a) {
            Some(b) => {
                assert forall|i: int| 0 <= i < t.remove(b).len() implies (#[trigger] t.remove(b)[i]).inserted_at >= cutoff by {
                    if i < b {
                        assert(t.remove(b)[i] == t[i]);
                    } else {
                        assert(t.remove(b)[i] == t[i + 1]);
                    }
                }
            },
            None => {},
        }
    }
    let s3 = make_room(s1, cfg, ev.author);
    assert(fresh(s3));
    if exists|i: int| 0 <= i < s3.len() && #[trigger] s3[i].hash.bytes@ == wire_hash_of(ev) {
        let k = choose|i: int| 0 <= i < s3.len() && #[trigger] s3[i].hash.bytes@ == wire_hash_of(ev);
        assert forall|i: int| 0 <= i < out.len() implies (#[trigger] out[i]).inserted_at >= cutoff by {
            if i != k {
                assert(out[i] == s3[i]);
            }
        }
    } else {
        let (pos, h) = choose|pos: int, h: EventHash|
            0 <= pos <= s3.len() && h.bytes@ == wire_hash_of(ev) && out == #[trigger] s3.insert(
                pos,
                PendingItem { hash: h, event: ev, missing, inserted_at: now },
            );
        assert forall|i: int| 0 <= i < out.len() implies (#[trigger] out[i]).inserted_at >= cutoff by {
            if i < pos {
                assert(out[i] == s3[i]);
            } else if i > pos {
                assert(out[i] == s3[i - 1]);
            }
        }
    }
}

/// Readiness: what `newly_satisfied` returns waited only for known
/// dependencies, and every entry it leaves still waits for an unknown
/// one.
pub proof fn lemma_newly_satisfied_partition(s: Seq<PendingItem>, known: Set<EventHash>)
    ensures
        forall|i: int|
            0 <= i < ready_items(s, known).len() ==> (#[trigger] ready_items(s, known)[i]).missing.subset_of(known),
        forall|i: int|
            0 <= i < waiting_items(s, known).len() ==> !(#[trigger] waiting_items(s, known)[i]).missing.subset_of(known),
        ready_items(s, known).len() + waiting_items(s, known).len() == s.len(),
    decreases s.len(),
{
    let take = |it: PendingItem| is_ready(it, known);
    let keep = |it: PendingItem| !is_ready(it, known);
    assert forall|i: int| 0 <= i < s.filter(take).len() implies (#[trigger] s.filter(take)[i]).missing.subset_of(known) by {
        s.lemma_filter_pred(take, i);
    }
    assert forall|i: int| 0 <= i < s.filter(keep).len() implies !(#[trigger] s.filter(keep)[i]).missing.subset_of(known) by {
        s.lemma_filter_pred(keep, i);
    }
    reveal(Seq::filter);
    if s.len() > 0 {
        lemma_newly_satisfied_partition(s.drop_last(), known);
    }
}

/// Removing an entry lowers the count of entries satisfying `p` by one
/// if the entry does, else leaves it.
proof fn lemma_filter_len_remove(s: Seq<PendingItem>, i: int, p: spec_fn(PendingItem) -> bool)
    requires
        0 <= i < s.len(),
    ensures
        s.remove(i).filter(p).len() + (if p(s[i]) { 1int } else { 0int }) == s.filter(p).len(),
    decreases s.len(),
{
    reveal(Seq::filter);
    if i == s.len() - 1 {
        assert(s.remove(i) =~= s.drop_last());
    } else {
        assert(s.remove(i).drop_last() =~= s.drop_last().remove(i));
        assert(s.remove(i).last() == s.last());
        lemma_filter_len_remove(s.drop_last(), i, p);
    }
}

/// Inserting an entry raises the count of entries satisfying `p` by one
/// if the entry does, else leaves it.
proof fn lemma_filter_len_insert(s: Seq<PendingItem>, i: int, x: PendingItem, p: spec_fn(PendingItem) -> bool)
    requires
        0 <= i <= s.len(),
    ensures
        s.insert(i, x).filter(p).len() == s.filter(p).len() + (if p(x) { 1int } else { 0int }),
    decreases s.len(),
{
    reveal(Seq::filter);
    if i == s.len() {
        assert(s.insert(i, x) =~= s.push(x));
        assert(s.push(x).drop_last() =~= s);
    } else {
        assert(s.insert(i, x).drop_last() =~= s.drop_last().insert(i, x));
        assert(s.insert(i, x).last() == s.last());
        lemma_filter_len_insert(s.drop_last(), i, x, p);
    }
}

/// Filtering by `q` first counts no more entries satisfying `p`.
proof fn lemma_filter_len_filter(s: Seq<PendingItem>, q: spec_fn(PendingItem) -> bool, p: spec_fn(PendingItem) -> bool)
    ensures
        s.filter(q).filter(p).len() <= s.filter(p).len(),
    decreases s.len(),
{
    reveal(Seq::filter);
    if s.len() > 0 {
        lemma_filter_len_filter(s.drop_last(), q, p);
        if q(s.last()) {
            assert(s.filter(q) == s.drop_last().filter(q).push(s.last()));
            assert(s.drop_last().filter(q).push(s.last()).drop_last() =~= s.drop_last().filter(q));
        }
    }
}

/// A sequence in which nothing satisfies `p` filters to nothing.
proof fn lemma_filter_none(s: Seq<PendingItem>, p: spec_fn(PendingItem) -> bool)
    requires
        forall|i: int| 0 <= i < s.len() ==> !p(#[trigger] s[i]),
    ensures
        s.filter(p).len() == 0,
{
    if s.filter(p).len() > 0 {
        s.lemma_filter_pred(p, 0);
        assert(s.filter(p).contains(s.filter(p)[0]));
        s.lemma_filter_contains_rev(p, s.filter(p)[0]);
    }
}

/// Per-author cap: an insert into a buffer where no author exceeds its
/// cap (of at least one entry) leaves every author within the cap,
/// provided wire hashes identify events' authors (an entry with the
/// new event's wire hash is by the same author).
pub proof fn lemma_insert_keeps_author_cap(
    s: Seq<PendingItem>,
    cfg: PendingCfg,
    ev: EventView,
    missing: Set<EventHash>,
    now: u64,
    out: Seq<PendingItem>,
    b: AuthorPubkey,
)
    requires
        cfg.max_per_author >= 1,
        forall|a: AuthorPubkey| author_count(s, a) <= cfg.max_per_author,
        forall|i: int| 0 <= i < s.len() && s[i].hash.bytes@ == wire_hash_of(ev) ==> s[i].event.author == ev.author,
        placed(make_room(unexpired(s, now, cfg.ttl_nanos), cfg, ev.author), ev, missing, now, out),
    ensures
        author_count(out, b) <= cfg.max_per_author,
{
    let a = ev.author;
    let pa = |it: PendingItem| it.event.author == a;
    let pb = |it: PendingItem| it.event.author == b;
    let s1 = unexpired(s, now, cfg.ttl_nanos);
    if now >= cfg.ttl_nanos {
        let q = |it: PendingItem| it.inserted_at >= (now - cfg.ttl_nanos) as u64;
        lemma_filter_len_filter(s, q, pa);
        lemma_filter_len_filter(s, q, pb);
    }
    assert(author_count(s1, a) <= author_count(s, a));
    assert(author_count(s1, b) <= author_count(s, b));
    // entries of `s1` come from `s`
    assert forall|i: int| 0 <= i < s1.len() && s1[i].hash.bytes@ == wire_hash_of(ev) implies s1[i].event.author == a by {
        if now >= cfg.ttl_nanos {
            let q = |it: PendingItem| it.inserted_at >= (now - cfg.ttl_nanos) as u64;
            assert(s1.contains(s1[i]));
            s.lemma_filter_contains_rev(q, s1[i]);
        }
    }
    let s2 = if author_count(s1, a) >= cfg.max_per_author {
        evict_oldest(s1, Some(a))
    } else {
        s1
    };
    lemma_oldest_in_range(s1, Some(a));
    if author_count(s1, a) >= cfg.max_per_author {
        match oldest(s1, Some(a)) {
            Some(i) => {
                lemma_filter_len_remove(s1, i, pa);
                lemma_filter_len_remove(s1, i, pb);
            },
            None => {
                lemma_filter_none(s1, pa);
            },
        }
    }
    assert(author_count(s2, b) <= author_count(s1, b));
    assert(author_count(s1, a) >= cfg.max_per_author ==> author_count(s2, a) < cfg.max_per_author);
    assert(author_count(s1, a) < cfg.max_per_author ==> author_count(s2, a) < cfg.max_per_author);
    assert forall|i: int| 0 <= i < s2.len() && s2[i].hash.bytes@ == wire_hash_of(ev) implies s2[i].event.author == a by {
        if author_count(s1, a) >= cfg.max_per_author {
            match oldest(s1, Some(a)) {
                Some(k) => {
                    if i < k {
                        assert(s2[i] == s1[i]);
                    } else {
                        assert(s2[i] == s1[i + 1]);
                    }
                },
                None => {},
            }
        }
    }
    let s3 = make_room(s1, cfg, a);
    lemma_oldest_in_range(s2, None);
    if s2.len() >= cfg.max_total {
        match oldest(s2, None) {
            Some(i) => {
                lemma_filter_len_remove(s2, i, pa);
                lemma_filter_len_remove(s2, i, pb);
            },
            None => {},
        }
    }
    assert(author_count(s3, b) <= author_count(s2, b));
    assert(author_count(s3, a) < cfg.max_per_author);
    assert forall|i: int| 0 <= i < s3.len() && s3[i].hash.bytes@ == wire_hash_of(ev) implies s3[i].event.author == a by {
        if s2.len() >= cfg.max_total {
            match oldest(s2, None) {
                Some(k) => {
                    if i < k {
                        assert(s3[i] == s2[i]);
                    } else {
                        assert(s3[i] == s2[i + 1]);
                    }
                },
                None => {},
            }
        }
    }
    if exists|i: int| 0 <= i < s3.len() && #[trigger] s3[i].hash.bytes@ == wire_hash_of(ev) {
        let k = choose|i: int| 0 <= i < s3.len() && #[trigger] s3[i].hash.bytes@ == wire_hash_of(ev);
        let x = PendingItem { hash: s3[k].hash, event: ev, missing, inserted_at: s3[k].inserted_at };
        assert(out == s3.update(k, x));
        assert(s3.update(k, x) =~= s3.remove(k).insert(k, x));
        lemma_filter_len_remove(s3, k, pb);
        lemma_filter_len_insert(s3.remove(k), k, x, pb);
    } else {
        let (pos, h) = choose|pos: int, h: EventHash|
            0 <= pos <= s3.len() && h.bytes@ == wire_hash_of(ev) && out == #[trigger] s3.insert(
                pos,
                PendingItem { hash: h, event: ev, missing, inserted_at: now },
            );
        lemma_filter_len_insert(s3, pos, PendingItem { hash: h, event: ev, missing, inserted_at: now }, pb);
    }
}

/// Provenance: after an insert, every entry was already buffered, or is
/// the inserted event with the missing set it was inserted with.
pub proof fn lemma_insert_provenance(
    s: Seq<PendingItem>,
    cfg: PendingCfg,
    ev: EventView,
    missing: Set<EventHash>,
    now: u64,
    out: Seq<PendingItem>,
)
    requires
        placed(make_room(unexpired(s, now, cfg.ttl_nanos), cfg, ev.author), ev, missing, now, out),
    ensures
        forall|i: int|
            0 <= i < out.len() ==> s.contains(#[trigger] out[i]) || (out[i].event == ev && out[i].missing
                == missing),
{
    let s1 = unexpired(s, now, cfg.ttl_nanos);
    assert forall|x: PendingItem| s1.contains(x) implies s.contains(x) by {
        if now >= cfg.ttl_nanos {
            let q = |it: PendingItem| it.inserted_at >= (now - cfg.ttl_nanos) as u64;
            s.lemma_filter_contains_rev(q, x);
        }
    }
    assert forall|t: Seq<PendingItem>, a: Option<AuthorPubkey>, x: PendingItem| #[trigger]
        evict_oldest(t, a).contains(x) implies t.contains(x) by {
        lemma_oldest_in_range(t, a);
        match oldest(t, a) {
            Some(b) => {
                let k = choose|k: int| 0 <= k < t.remove(b).len() && t.remove(b)[k] == x;
                if k < b {
                    assert(t[k] == x);
                } else {
                    assert(t[k + 1] == x);
                }
            },
            None => {},
        }
    }
    let s2 = if author_count(s1, ev.author) >= cfg.max_per_author {
        evict_oldest(s1, Some(ev.author))
    } else {
        s1
    };
    let s3 = make_room(s1, cfg, ev.author);
    assert forall|x: PendingItem| s2.contains(x) implies s1.contains(x) by {
        if author_count(s1, ev.author) >= cfg.max_per_author {
            assert(evict_oldest(s1, Some(ev.author)).contains(x));
        }
    }
    assert forall|x: PendingItem| s3.contains(x) implies s.contains(x) by {
        if s2.len() >= cfg.max_total {
            assert(evict_oldest(s2, None).contains(x));
        }
    }
    if exists|i: int| 0 <= i < s3.len() && #[trigger] s3[i].hash.bytes@ == wire_hash_of(ev) {
        let k = choose|i: int| 0 <= i < s3.len() && #[trigger] s3[i].hash.bytes@ == wire_hash_of(ev);
        assert forall|i: int| 0 <= i < out.len() implies s.contains(#[trigger] out[i]) || (out[i].event == ev
            && out[i].missing == missing) by {
            if i != k {
                assert(out[i] == s3[i]);
                assert(s3.contains(s3[i]));
            }
        }
    } else {
        let (pos, h) = choose|pos: int, h: EventHash|
            0 <= pos <= s3.len() && h.bytes@ == wire_hash_of(ev) && out == #[trigger] s3.insert(
                pos,
                PendingItem { hash: h, event: ev, missing, inserted_at: now },
            );
        assert forall|i: int| 0 <= i < out.len() implies s.contains(#[trigger] out[i]) || (out[i].event == ev
            && out[i].missing == missing) by {
            if i < pos {
                assert(out[i] == s3[i]);
                assert(s3.contains(s3[i]));
            } else if i > pos {
                assert(out[i] == s3[i - 1]);
                assert(s3.contains(s3[i - 1]));
            }
        }
    }
}

} // verus!
