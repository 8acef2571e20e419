//! The receiving and emitting side of drift detection: drift messages
//! whose anchor our DAG does not cover yet wait in a stash keyed by the
//! anchor's author positions (the least key is evicted when the stash
//! is full); our own digests are cached per anchor; an emitted message
//! carries our digest at the anchor, signed.
use vstd::prelude::*;

use crate::bytes::{bytes32_lt, lemma_lex_lt_irreflexive, lemma_lex_lt_total, lemma_lex_lt_transitive, lex_lt};
use crate::crypto::{blake3_digest, blake3_hash, ed25519_signature, ed25519_verifies};
use crate::dag::EventDag;
use crate::drift::{DriftDetected, DriftRateLimit};
use crate::drift_message::{
    compare_drift, drift_emit_gate, drift_payload_bytes, limiter_after_attempt, rate_verdict, screen_drift_message, sign_drift_payload,
    DriftGate, DriftMessage, DriftSignedPayload,
};
use crate::identity::PeerKeypair;
use crate::runtime::PeerWarning;
use crate::state_apply::{ApplyError, StateApplyHandle};
use crate::replay::{anchor_digest, anchor_envelopes, answers_of, calls_since, extends_calls, fold_state, replays, ApplyCall};
use crate::drift::{anchor_covered, seq_or_zero};
use crate::event::{AuthorSeq, DriftAnchor};
use crate::ids::{id_eq, AuthorPubkey, EventHash, Id32, IdMap, PeerPubkey};

verus! {

broadcast use vstd::array::group_array_axioms;

/// Strict order of author positions: by the author's key bytes, then by
/// seq.
pub open spec fn pos_lt(a: AuthorSeq, b: AuthorSeq) -> bool {
    lex_lt(a.author.bytes@, b.author.bytes@) || (a.author == b.author && a.max_seq < b.max_seq)
}

/// `a` and `b` agree before index `k`, where `a` comes first: it ends
/// there while `b` goes on, or its position there is smaller.
pub open spec fn first_below_at(a: Seq<AuthorSeq>, b: Seq<AuthorSeq>, k: int) -> bool {
    &&& 0 <= k <= a.len()
    &&& k <= b.len()
    &&& forall|j: int| 0 <= j < k ==> a[j] == b[j]
    &&& ((k == a.len() && k < b.len()) || (k < a.len() && k < b.len() && pos_lt(a[k], b[k])))
}

/// Lexicographic strict order of position lists; a proper prefix comes
/// first.
pub open spec fn key_lt(a: Seq<AuthorSeq>, b: Seq<AuthorSeq>) -> bool {
    exists|k: int| #[trigger] first_below_at(a, b, k)
}

/// `pos_lt` is a strict total order.
pub proof fn lemma_pos_lt_order(a: AuthorSeq, b: AuthorSeq, c: AuthorSeq)
    ensures
        !pos_lt(a, a),
        pos_lt(a, b) && pos_lt(b, c) ==> pos_lt(a, c),
        a != b ==> pos_lt(a, b) || pos_lt(b, a),
{
    lemma_lex_lt_irreflexive(a.author.bytes@);
    if pos_lt(a, b) && pos_lt(b, c) {
        if lex_lt(a.author.bytes@, b.author.bytes@) && lex_lt(b.author.bytes@, c.author.bytes@) {
            lemma_lex_lt_transitive(a.author.bytes@, b.author.bytes@, c.author.bytes@);
        }
    }
    if a != b {
        <AuthorPubkey as Id32>::lemma_id(a.author, b.author);
        lemma_lex_lt_total(a.author.bytes@, b.author.bytes@);
    }
}

/// `key_lt` is irreflexive.
pub proof fn lemma_key_lt_irreflexive(a: Seq<AuthorSeq>)
    ensures
        !key_lt(a, a),
{
    if key_lt(a, a) {
        let k = choose|k: int| #[trigger] first_below_at(a, a, k);
        lemma_pos_lt_order(a[k], a[k], a[k]);
    }
}

/// `key_lt` is transitive.
pub proof fn lemma_key_lt_transitive(a: Seq<AuthorSeq>, b: Seq<AuthorSeq>, c: Seq<AuthorSeq>)
    requires
        key_lt(a, b),
        key_lt(b, c),
    ensures
        key_lt(a, c),
{
    let k1 = choose|k: int| #[trigger] first_below_at(a, b, k);
    let k2 = choose|k: int| #[trigger] first_below_at(b, c, k);
    if k1 < k2 {
        assert(first_below_at(a, c, k1));
    } else if k1 > k2 {
        assert(a[k2] == b[k2]);
        assert(first_below_at(a, c, k2));
    } else {
        if k1 < a.len() {
            lemma_pos_lt_order(a[k1], b[k1], c[k1]);
        }
        assert(first_below_at(a, c, k1));
    }
}

/// Two different position lists are ordered one way or the other.
pub proof fn lemma_key_lt_total(a: Seq<AuthorSeq>, b: Seq<AuthorSeq>)
    ensures
        a != b ==> key_lt(a, b) || key_lt(b, a),
        !(key_lt(a, b) && key_lt(b, a)),
{
    if key_lt(a, b) && key_lt(b, a) {
        lemma_key_lt_transitive(a, b, a);
        lemma_key_lt_irreflexive(a);
    }
    if a != b {
        let n = if a.len() < b.len() { a.len() as int } else { b.len() as int };
        if forall|j: int| 0 <= j < n ==> a[j] == b[j] {
            if a.len() < b.len() {
                assert(first_below_at(a, b, n));
            } else if b.len() < a.len() {
                assert(first_below_at(b, a, n));
            } else {
                assert(a =~= b);
            }
        } else {
            let k = choose|k: int| 0 <= k < n && a[k] != b[k];
            lemma_first_difference(a, b, k);
        }
    }
}

proof fn lemma_first_difference(a: Seq<AuthorSeq>, b: Seq<AuthorSeq>, k: int)
    requires
        0 <= k < a.len(),
        k < b.len(),
        a[k] != b[k],
    ensures
        key_lt(a, b) || key_lt(b, a),
    decreases k,
{
    if exists|j: int| 0 <= j < k && a[j] != b[j] {
        let j = choose|j: int| 0 <= j < k && a[j] != b[j];
        lemma_first_difference(a, b, j);
    } else {
        lemma_pos_lt_order(a[k], b[k], a[k]);
        if pos_lt(a[k], b[k]) {
            assert(first_below_at(a, b, k));
        } else {
            assert(first_below_at(b, a, k));
        }
    }
}

/// Whether two author positions are equal.
fn pos_eq(a: &AuthorSeq, b: &AuthorSeq) -> (r: bool)
    ensures
        r == (*a == *b),
{
    id_eq(&a.author, &b.author) && a.max_seq == b.max_seq
}

/// Whether `a` precedes `b`.
fn pos_less(a: &AuthorSeq, b: &AuthorSeq) -> (r: bool)
    ensures
        r == pos_lt(*a, *b),
{
    bytes32_lt(&a.author.bytes, &b.author.bytes) || (id_eq(&a.author, &b.author) && a.max_seq < b.max_seq)
}

/// Whether two position lists are equal.
pub fn key_eq(a: &[AuthorSeq], b: &[AuthorSeq]) -> (r: bool)
    ensures
        r == (a@ == b@),
{
    if a.len() != b.len() {
        return false;
    }
    let mut i: usize = 0;
    while i < a.len()
        invariant
            a@.len() == b@.len(),
            i <= a@.len(),
            forall|j: int| 0 <= j < i ==> a@[j] == b@[j],
        decreases a@.len() - i,
    {
        if !pos_eq(&a[i], &b[i]) {
            return false;
        }
        i = i + 1;
    }
    assert(a@ =~= b@);
    true
}

/// Whether the position list `a` precedes `b`.
pub fn key_less(a: &[AuthorSeq], b: &[AuthorSeq]) -> (r: bool)
    ensures
        r == key_lt(a@, b@),
{
    let mut i: usize = 0;
    while i < a.len() && i < b.len()
        invariant
            i <= a@.len(),
            i <= b@.len(),
            forall|j: int| 0 <= j < i ==> a@[j] == b@[j],
        decreases a@.len() - i,
    {
        if !pos_eq(&a[i], &b[i]) {
            let r = pos_less(&a[i], &b[i]);
            proof {
                lemma_pos_lt_order(a@[i as int], b@[i as int], a@[i as int]);
                if r {
                    assert(first_below_at(a@, b@, i as int));
                } else {
                    assert(first_below_at(b@, a@, i as int));
                    lemma_key_lt_total(a@, b@);
                }
            }
            return r;
        }
        i = i + 1;
    }
    let r = a.len() < b.len();
    proof {
        if r {
            assert(first_below_at(a@, b@, i as int));
        } else if key_lt(a@, b@) {
            let k = choose|k: int| #[trigger] first_below_at(a@, b@, k);
            lemma_pos_lt_order(a@[k], a@[k], a@[k]);
            assert(a@[k] == b@[k]);
        }
    }
    r
}

/// A stash entry's view: the anchor positions and the messages waiting
/// on them, oldest first.
pub type StashView = (Seq<AuthorSeq>, Seq<DriftMessage>);

/// Stash entries in strictly ascending key order.
pub open spec fn keys_sorted(s: Seq<StashView>) -> bool {
    forall|i: int, j: int| 0 <= i < j < s.len() ==> key_lt(#[trigger] s[i].0, #[trigger] s[j].0)
}

/// The stash after making room: when it holds `cap` keys or more, its
/// least key goes.
pub open spec fn after_eviction(s: Seq<StashView>, cap: usize) -> Seq<StashView> {
    if s.len() >= cap && s.len() > 0 {
        s.drop_first()
    } else {
        s
    }
}

/// `out` is `s` with `msg` stashed under `key`: appended to the
/// messages of that key, or under a new key at its place in the order.
pub open spec fn stashed(s: Seq<StashView>, key: Seq<AuthorSeq>, msg: DriftMessage, out: Seq<StashView>) -> bool {
    if exists|i: int| 0 <= i < s.len() && #[trigger] s[i].0 == key {
        let i = choose|i: int| 0 <= i < s.len() && #[trigger] s[i].0 == key;
        out == s.update(i, (key, s[i].1.push(msg)))
    } else {
        exists|pos: int| 0 <= pos <= s.len() && out == #[trigger] s.insert(pos, (key, seq![msg]))
    }
}

/// Filtering keeps a sorted stash sorted.
proof fn lemma_filter_sorted(s: Seq<StashView>, p: spec_fn(StashView) -> bool, a: int, b: int)
    requires
        keys_sorted(s),
        0 <= a < b < s.filter(p).len(),
    ensures
        key_lt(s.filter(p)[a].0, s.filter(p)[b].0),
    decreases s.len(),
{
    reveal(Seq::filter);
    let t = s.drop_last();
    assert forall|i: int, j: int| 0 <= i < j < t.len() implies key_lt(#[trigger] t[i].0, #[trigger] t[j].0) by {
        assert(t[i] == s[i] && t[j] == s[j]);
    }
    if p(s.last()) {
        assert(s.filter(p) == t.filter(p).push(s.last()));
        if b < t.filter(p).len() {
            lemma_filter_sorted(t, p, a, b);
        } else {
            let x = t.filter(p)[a];
            assert(t.filter(p).contains(x));
            t.lemma_filter_contains_rev(p, x);
            let k = choose|k: int| 0 <= k < t.len() && t[k] == x;
            assert(s[k] == x);
            assert(key_lt(s[k].0, s[s.len() - 1].0));
        }
    } else {
        lemma_filter_sorted(t, p, a, b);
    }
}

/// Capacity: stashing into a stash of at most `cap` keys (`cap` at least
/// one) leaves at most `cap` keys.
pub proof fn lemma_stash_within_cap(
    s: Seq<StashView>,
    cap: usize,
    key: Seq<AuthorSeq>,
    msg: DriftMessage,
    out: Seq<StashView>,
)
    requires
        cap >= 1,
        s.len() <= cap,
        stashed(after_eviction(s, cap), key, msg, out),
    ensures
        out.len() <= cap,
{
    let e = after_eviction(s, cap);
    assert(e.len() < cap);
    if exists|i: int| 0 <= i < e.len() && #[trigger] e[i].0 == key {
        let i = choose|i: int| 0 <= i < e.len() && #[trigger] e[i].0 == key;
        assert(out.len() == e.len());
    } else {
        let pos = choose|pos: int| 0 <= pos <= e.len() && out == #[trigger] e.insert(pos, (key, seq![msg]));
        assert(out.len() == e.len() + 1);
    }
}

/// Copy a list of author positions.
fn copy_positions(v: &[AuthorSeq]) -> (r: Vec<AuthorSeq>)
    ensures
        r@ == v@,
{
    let mut out: Vec<AuthorSeq> = Vec::new();
    let mut i: usize = 0;
    while i < v.len()
        invariant
            i <= v@.len(),
            out@ == v@.subrange(0, i as int),
        decreases v@.len() - i,
    {
        out.push(v[i]);
        i = i + 1;
        assert(out@ =~= v@.subrange(0, i as int));
    }
    assert(v@.subrange(0, v@.len() as int) =~= v@);
    out
}

/// Whether positions `key` are covered by the head seqs `m`: every
/// author is at or beyond its seq there (a missing author counts as 0).
pub open spec fn covered(key: Seq<AuthorSeq>, m: Map<AuthorPubkey, u64>) -> bool {
    forall|i: int| 0 <= i < key.len() ==> seq_or_zero(m, (#[trigger] key[i]).author) >= key[i].max_seq
}

/// Whether a stash entry is covered by `m`.
pub open spec fn entry_covered(m: Map<AuthorPubkey, u64>) -> spec_fn(StashView) -> bool {
    |e: StashView| covered(e.0, m)
}

/// Whether a stash entry is not covered by `m`.
pub open spec fn entry_waiting(m: Map<AuthorPubkey, u64>) -> spec_fn(StashView) -> bool {
    |e: StashView| !covered(e.0, m)
}

/// The messages of the entries `s`, entry by entry.
pub open spec fn messages_of(s: Seq<StashView>) -> Seq<DriftMessage>
    decreases s.len(),
{
    if s.len() == 0 {
        Seq::empty()
    } else {
        messages_of(s.drop_last()) + s.last().1
    }
}

/// The digest format named in the drift messages we emit.
pub const DRIFT_DIGEST_FORMAT: &'static str = "bincode-1.3";

/// What became of a received drift message.
#[derive(Clone, Debug)]
pub enum DriftStep {
    /// Our own message: dropped.
    Ignored,
    /// Its signature does not verify: the warning to report.
    Rejected(PeerWarning),
    /// Our DAG does not cover its anchor yet: stashed.
    Stashed,
    /// Compared with our cached digest at its anchor: the drift, if any.
    Compared(Option<DriftDetected>),
    /// Covered, but no digest of ours is cached at its anchor: settle it
    /// with [`DriftInbox::settle_with_digest`].
    NeedsDigest(DriftMessage),
}

/// Drift messages waiting until our DAG covers their anchor, and our
/// own state digests per anchor.
pub struct DriftInbox {
    stash: Vec<(Vec<AuthorSeq>, Vec<DriftMessage>)>,
    cap: usize,
    digests: Vec<(Vec<AuthorSeq>, [u8; 32])>,
}

impl DriftInbox {
    /// The stash, in ascending key order.
    pub closed spec fn entries(&self) -> Seq<StashView> {
        self.stash@.map_values(|e: (Vec<AuthorSeq>, Vec<DriftMessage>)| (e.0@, e.1@))
    }

    /// Most keys the stash holds.
    pub closed spec fn capacity(&self) -> usize {
        self.cap
    }

    /// Our cached digests, per anchor positions.
    pub closed spec fn digest_map(&self) -> Map<Seq<AuthorSeq>, [u8; 32]> {
        Map::new(
            |k: Seq<AuthorSeq>| exists|i: int| 0 <= i < self.digests@.len() && #[trigger] self.digests@[i].0@ == k,
            |k: Seq<AuthorSeq>|
                self.digests@[choose|i: int| 0 <= i < self.digests@.len() && #[trigger] self.digests@[i].0@ == k].1,
        )
    }

    /// Stash keys ascend strictly; cached digests have distinct keys.
    pub closed spec fn wf(&self) -> bool {
        &&& keys_sorted(self.entries())
        &&& forall|i: int, j: int|
            0 <= i < j < self.digests@.len() ==> #[trigger] self.digests@[i].0@ != #[trigger] self.digests@[j].0@
    }

    /// An empty inbox whose stash holds at most `cap` keys.
    pub fn new(cap: usize) -> (r: Self)
        ensures
            r.wf(),
            r.entries() == Seq::<StashView>::empty(),
            r.capacity() == cap,
            r.digest_map() == Map::<Seq<AuthorSeq>, [u8; 32]>::empty(),
    {
        let r = DriftInbox { stash: Vec::new(), cap, digests: Vec::new() };
        assert(r.entries() =~= Seq::<StashView>::empty());
        assert(r.digest_map() =~= Map::<Seq<AuthorSeq>, [u8; 32]>::empty());
        r
    }

    /// Number of stashed keys.
    pub fn stash_len(&self) -> (r: usize)
        ensures
            r == self.entries().len(),
    {
        self.stash.len()
    }

    /// Stash `msg` under its anchor's positions, after evicting the least
    /// key when the stash is full.
    pub fn stash(&mut self, msg: DriftMessage)
        requires
            old(self).wf(),
        ensures
            final(self).wf(),
            final(self).capacity() == old(self).capacity(),
            final(self).digest_map() == old(self).digest_map(),
            stashed(
                after_eviction(old(self).entries(), old(self).capacity()),
                msg.anchor.author_seq_vec@,
                msg,
                final(self).entries(),
            ),
    {
        if self.stash.len() >= self.cap && self.stash.len() > 0 {
            let ghost before = self.entries();
            self.stash.remove(0);
            assert(self.entries() =~= before.drop_first());
        }
        let ghost s = self.entries();
        let key = copy_positions(msg.anchor.author_seq_vec.as_slice());
        let mut i: usize = 0;
        while i < self.stash.len() && key_less(self.stash[i].0.as_slice(), key.as_slice())
            invariant
                s == self.entries(),
                keys_sorted(s),
                i <= s.len(),
                forall|j: int| 0 <= j < i ==> key_lt(#[trigger] s[j].0, key@),
            decreases s.len() - i,
        {
            i = i + 1;
        }
        if i < self.stash.len() && key_eq(self.stash[i].0.as_slice(), key.as_slice()) {
            let (k, mut msgs) = self.stash.remove(i);
            msgs.push(msg);
            self.stash.insert(i, (k, msgs));
            proof {
                assert(self.entries() =~= s.update(i as int, (key@, s[i as int].1.push(msg))));
                assert(s[i as int].0 == key@);
                assert forall|j: int| 0 <= j < s.len() && #[trigger] s[j].0 == key@ implies j == i by {
                    if j < i {
                        lemma_key_lt_irreflexive(key@);
                    } else if j > i {
                        assert(key_lt(s[i as int].0, s[j].0));
                        lemma_key_lt_irreflexive(key@);
                    }
                }
            }
        } else {
            let ghost entry = (key@, seq![msg]);
            let mut msgs: Vec<DriftMessage> = Vec::new();
            msgs.push(msg);
            self.stash.insert(i, (key, msgs));
            proof {
                assert(self.entries() =~= s.insert(i as int, entry));
                if i < s.len() {
                    lemma_key_lt_total(s[i as int].0, key@);
                    assert(key_lt(key@, s[i as int].0));
                }
                assert forall|j: int| 0 <= j < s.len() implies #[trigger] s[j].0 != key@ by {
                    if j < i {
                        lemma_key_lt_irreflexive(key@);
                    } else {
                        if j > i {
                            lemma_key_lt_transitive(key@, s[i as int].0, s[j].0);
                        }
                        lemma_key_lt_irreflexive(key@);
                    }
                }
                let t = self.entries();
                assert forall|a: int, b: int| 0 <= a < b < t.len() implies key_lt(#[trigger] t[a].0, #[trigger] t[b].0) by {
                    if b < i {
                    } else if a < i && b == i {
                    } else if a < i && b > i {
                        assert(t[b] == s[b - 1]);
                        if b - 1 > i {
                            lemma_key_lt_transitive(key@, s[i as int].0, s[b - 1].0);
                        }
                        lemma_key_lt_transitive(s[a].0, key@, s[b - 1].0);
                    } else if a == i {
                        assert(t[b] == s[b - 1]);
                        if b - 1 > i {
                            lemma_key_lt_transitive(key@, s[i as int].0, s[b - 1].0);
                        }
                    } else {
                        assert(t[a] == s[a - 1]);
                        assert(t[b] == s[b - 1]);
                    }
                }
            }
        }
    }
    /// Remove the entries whose positions `current` covers and return
    /// their messages, in key order and oldest first within a key.
    pub fn take_covered(&mut self, current: &IdMap<AuthorPubkey, u64>) -> (r: Vec<DriftMessage>)
        requires
            old(self).wf(),
            current.wf(),
        ensures
            final(self).wf(),
            final(self).capacity() == old(self).capacity(),
            final(self).digest_map() == old(self).digest_map(),
            final(self).entries() == old(self).entries().filter(entry_waiting(current@)),
            r@ == messages_of(old(self).entries().filter(entry_covered(current@))),
    {
        let ghost s = self.entries();
        let ghost cov = entry_covered(current@);
        let ghost wait = entry_waiting(current@);
        let mut rest: Vec<(Vec<AuthorSeq>, Vec<DriftMessage>)> = Vec::new();
        std::mem::swap(&mut rest, &mut self.stash);
        let mut out: Vec<DriftMessage> = Vec::new();
        let ghost mut n: int = 0;
        assert(rest@.map_values(|e: (Vec<AuthorSeq>, Vec<DriftMessage>)| (e.0@, e.1@)) =~= s.subrange(0, s.len() as int));
        while rest.len() > 0
            invariant
                cov == entry_covered(current@),
                wait == entry_waiting(current@),
                current.wf(),
                keys_sorted(s),
                0 <= n <= s.len(),
                rest@.len() == s.len() - n,
                forall|j: int| 0 <= j < rest@.len() ==> (#[trigger] rest@[j]).0@ == s[n + j].0 && rest@[j].1@ == s[n + j].1,
                self.entries() == s.subrange(0, n).filter(wait),
                out@ == messages_of(s.subrange(0, n).filter(cov)),
                self.cap == old(self).cap,
                self.digests == old(self).digests,
            decreases rest@.len(),
        {
            let (k, msgs) = rest.remove(0);
            proof {
                reveal(Seq::filter);
                assert(s.subrange(0, n + 1).drop_last() =~= s.subrange(0, n));
                assert(s.subrange(0, n + 1).last() == s[n]);
                assert(k@ == s[n].0 && msgs@ == s[n].1);
            }
            let anchor = DriftAnchor { event_hash: EventHash::zero(), author_seq_vec: k };
            if anchor_covered(&anchor, current) {
                let ghost before = out@;
                let mut m = msgs;
                let ghost all = m@;
                let total = m.len();
                let mut taken: usize = 0;
                while m.len() > 0
                    invariant
                        all.len() == total,
                        taken <= all.len(),
                        m@.len() == all.len() - taken,
                        m@ == all.subrange(taken as int, all.len() as int),
                        out@ == before + all.subrange(0, taken as int),
                    decreases m@.len(),
                {
                    let x = m.remove(0);
                    out.push(x);
                    taken = taken + 1;
                    assert(out@ =~= before + all.subrange(0, taken as int));
                    assert(m@ =~= all.subrange(taken as int, all.len() as int));
                }
                assert(all.subrange(0, all.len() as int) =~= all);
                proof {
                    assert(cov(s[n]));
                    assert(s.subrange(0, n + 1).filter(cov) == s.subrange(0, n).filter(cov).push(s[n]));
                    assert(s.subrange(0, n + 1).filter(cov).drop_last() =~= s.subrange(0, n).filter(cov));
                    assert(out@ =~= messages_of(s.subrange(0, n + 1).filter(cov)));
                    assert(!wait(s[n]));
                    assert(self.entries() =~= s.subrange(0, n + 1).filter(wait));
                }
            } else {
                let ghost before = self.entries();
                self.stash.push((anchor.author_seq_vec, msgs));
                proof {
                    assert(wait(s[n]));
                    assert(self.entries() =~= before.push(s[n]));
                    assert(s.subrange(0, n + 1).filter(wait) == s.subrange(0, n).filter(wait).push(s[n]));
                    assert(!cov(s[n]));
                }
            }
            proof {
                n = n + 1;
            }
        }
        assert(s.subrange(0, s.len() as int) =~= s);
        proof {
            let t = self.entries();
            assert forall|a: int, b: int| 0 <= a < b < t.len() implies key_lt(#[trigger] t[a].0, #[trigger] t[b].0) by {
                lemma_filter_sorted(s, wait, a, b);
            }
        }
        out
    }

    /// Our cached digest at the positions `key`, if any.
    pub fn cached_digest(&self, key: &[AuthorSeq]) -> (r: Option<[u8; 32]>)
        requires
            self.wf(),
        ensures
            r == (if self.digest_map().contains_key(key@) {
                Some(self.digest_map()[key@])
            } else {
                None::<[u8; 32]>
            }),
    {
        let mut i: usize = 0;
        while i < self.digests.len()
            invariant
                self.wf(),
                i <= self.digests@.len(),
                forall|j: int| 0 <= j < i ==> self.digests@[j].0@ != key@,
            decreases self.digests@.len() - i,
        {
            if key_eq(self.digests[i].0.as_slice(), key) {
                proof {
                    self.lemma_digest_at(i as int);
                }
                return Some(self.digests[i].1);
            }
            i = i + 1;
        }
        None
    }

    proof fn lemma_digest_at(&self, i: int)
        requires
            self.wf(),
            0 <= i < self.digests@.len(),
        ensures
            self.digest_map().contains_key(self.digests@[i].0@),
            self.digest_map()[self.digests@[i].0@] == self.digests@[i].1,
    {
        let k = self.digests@[i].0@;
        assert(self.digest_map().dom().contains(k));
        let c = choose|j: int| 0 <= j < self.digests@.len() && #[trigger] self.digests@[j].0@ == k;
        if c != i {
            if c < i {
                assert(self.digests@[c].0@ != self.digests@[i].0@);
            } else {
                assert(self.digests@[i].0@ != self.digests@[c].0@);
            }
        }
    }

    /// Cache our digest at the positions `key`, replacing an earlier one.
    pub fn remember_digest(&mut self, key: Vec<AuthorSeq>, digest: [u8; 32])
        requires
            old(self).wf(),
        ensures
            final(self).wf(),
            final(self).entries() == old(self).entries(),
            final(self).capacity() == old(self).capacity(),
            final(self).digest_map() == old(self).digest_map().insert(key@, digest),
    {
        let ghost k = key@;
        let ghost before = self.digests@;
        let mut i: usize = 0;
        while i < self.digests.len()
            invariant
                self.wf(),
                old(self).wf(),
                self.digests@ == before,
                before == old(self).digests@,
                self.stash == old(self).stash,
                self.cap == old(self).cap,
                i <= before.len(),
                forall|j: int| 0 <= j < i ==> before[j].0@ != k,
                key@ == k,
            decreases before.len() - i,
        {
            if key_eq(self.digests[i].0.as_slice(), key.as_slice()) {
                let ghost old_map = self.digest_map();
                self.digests.set(i, (key, digest));
                proof {
                    assert forall|a: int, b: int| 0 <= a < b < self.digests@.len() implies #[trigger] self.digests@[a].0@
                        != #[trigger] self.digests@[b].0@ by {
                        assert(before[a].0@ != before[b].0@);
                    }
                    assert forall|x: Seq<AuthorSeq>| #[trigger] self.digest_map().contains_key(x) <==> old_map.insert(k, digest).contains_key(x) by {
                        if x == k {
                            assert(self.digests@[i as int].0@ == x);
                        }
                        if old_map.contains_key(x) {
                            let j = choose|j: int| 0 <= j < before.len() && #[trigger] before[j].0@ == x;
                            if j != i {
                                assert(self.digests@[j].0@ == x);
                            } else {
                                assert(self.digests@[i as int].0@ == x);
                            }
                        }
                        if self.digest_map().contains_key(x) {
                            let j = choose|j: int| 0 <= j < self.digests@.len() && #[trigger] self.digests@[j].0@ == x;
                            if j != i {
                                assert(before[j].0@ == x);
                            }
                        }
                    }
                    assert forall|x: Seq<AuthorSeq>| #[trigger] self.digest_map().contains_key(x) implies self.digest_map()[x]
                        == old_map.insert(k, digest)[x] by {
                        let j = choose|j: int| 0 <= j < self.digests@.len() && #[trigger] self.digests@[j].0@ == x;
                        self.lemma_digest_at(j);
                        if j != i {
                            assert(before[j].0@ == x);
                            assert(old(self).digests@ == before);
                            old(self).lemma_digest_at(j);
                        }
                    }
                    assert(self.digest_map() =~= old_map.insert(k, digest));
                }
                return;
            }
            i = i + 1;
        }
        let ghost old_map = self.digest_map();
        self.digests.push((key, digest));
        proof {
            let d = self.digests@;
            assert forall|a: int, b: int| 0 <= a < b < d.len() implies #[trigger] d[a].0@ != #[trigger] d[b].0@ by {
                if b < before.len() {
                    assert(before[a].0@ != before[b].0@);
                }
            }
            let n = before.len() as int;
            assert forall|x: Seq<AuthorSeq>| #[trigger] self.digest_map().contains_key(x) <==> old_map.insert(k, digest).contains_key(x) by {
                if old_map.contains_key(x) {
                    let j = choose|j: int| 0 <= j < before.len() && #[trigger] before[j].0@ == x;
                    assert(d[j].0@ == x);
                }
                if x == k {
                    assert(d[n].0@ == x);
                }
                if self.digest_map().contains_key(x) {
                    let j = choose|j: int| 0 <= j < d.len() && #[trigger] d[j].0@ == x;
                    if j < n {
                        assert(before[j].0@ == x);
                    }
                }
            }
            assert forall|x: Seq<AuthorSeq>| #[trigger] self.digest_map().contains_key(x) implies self.digest_map()[x]
                == old_map.insert(k, digest)[x] by {
                let j = choose|j: int| 0 <= j < d.len() && #[trigger] d[j].0@ == x;
                self.lemma_digest_at(j);
                if j < n {
                    assert(before[j].0@ == x);
                    old(self).lemma_digest_at(j);
                }
            }
            assert(self.digest_map() =~= old_map.insert(k, digest));
        }
    }
    /// Receive a drift message, given the head seq of every author in
    /// our DAG: our own is dropped, a bad signature is reported, an
    /// anchor we do not cover yet is stashed, otherwise the message is
    /// compared with our cached digest at its anchor, if any.
    pub fn receive(&mut self, own: PeerPubkey, current: &IdMap<AuthorPubkey, u64>, msg: DriftMessage) -> (r: DriftStep)
        requires
            old(self).wf(),
            current.wf(),
        ensures
            final(self).wf(),
            final(self).capacity() == old(self).capacity(),
            final(self).digest_map() == old(self).digest_map(),
            !(r is Stashed) ==> final(self).entries() == old(self).entries(),
            msg.signed_by_peer == own ==> r is Ignored,
            msg.signed_by_peer != own && !ed25519_verifies(
                msg.signed_by_peer.bytes@,
                drift_payload_bytes(msg.anchor, msg.digest@, msg.digest_format@),
                msg.signature@,
            ) ==> r == DriftStep::Rejected(PeerWarning::SignatureInvalid { peer: Some(msg.signed_by_peer) }),
            msg.signed_by_peer != own && ed25519_verifies(
                msg.signed_by_peer.bytes@,
                drift_payload_bytes(msg.anchor, msg.digest@, msg.digest_format@),
                msg.signature@,
            ) ==> {
                &&& !covered(msg.anchor.author_seq_vec@, current@) ==> r is Stashed && stashed(
                    after_eviction(old(self).entries(), old(self).capacity()),
                    msg.anchor.author_seq_vec@,
                    msg,
                    final(self).entries(),
                )
                &&& covered(msg.anchor.author_seq_vec@, current@) && old(self).digest_map().contains_key(
                    msg.anchor.author_seq_vec@,
                ) ==> r == DriftStep::Compared(
                    if old(self).digest_map()[msg.anchor.author_seq_vec@] == msg.digest {
                        None
                    } else {
                        Some(
                            DriftDetected {
                                peer: msg.signed_by_peer,
                                anchor: msg.anchor,
                                local_digest: old(self).digest_map()[msg.anchor.author_seq_vec@],
                                remote_digest: msg.digest,
                            },
                        )
                    },
                )
                &&& covered(msg.anchor.author_seq_vec@, current@) && !old(self).digest_map().contains_key(
                    msg.anchor.author_seq_vec@,
                ) ==> r == DriftStep::NeedsDigest(msg)
            },
    {
        match screen_drift_message(own, &msg) {
            Err(None) => {
                return DriftStep::Ignored;
            },
            Err(Some(w)) => {
                return DriftStep::Rejected(w);
            },
            Ok(()) => {},
        }
        if !anchor_covered(&msg.anchor, current) {
            self.stash(msg);
            return DriftStep::Stashed;
        }
        match self.cached_digest(msg.anchor.author_seq_vec.as_slice()) {
            Some(d) => DriftStep::Compared(compare_drift(d, msg)),
            None => DriftStep::NeedsDigest(msg),
        }
    }

    /// Our drift message after the event `anchor_event_hash`, where the
    /// state component's digest bytes are `state_digest`: the anchor
    /// holds every author's head seq in the DAG, the digest is the BLAKE3
    /// of the digest bytes (cached for the anchor), signed under the peer
    /// key.
    pub fn emit(&mut self, key: &PeerKeypair, dag: &EventDag, anchor_event_hash: EventHash, state_digest: &[u8]) -> (r:
        DriftMessage)
        requires
            old(self).wf(),
            dag.wf(),
        ensures
            final(self).wf(),
            final(self).entries() == old(self).entries(),
            final(self).capacity() == old(self).capacity(),
            r.anchor.event_hash == anchor_event_hash,
            r.anchor.author_seq_vec@.len() == dag.author_order().len(),
            forall|i: int|
                0 <= i < r.anchor.author_seq_vec@.len() ==> #[trigger] r.anchor.author_seq_vec@[i] == (AuthorSeq {
                    author: dag.author_order()[i],
                    max_seq: dag.chains()[dag.author_order()[i]].head_seq,
                }),
            r.digest@ == blake3_digest(state_digest@),
            r.digest_format@ == DRIFT_DIGEST_FORMAT@,
            r.signed_by_peer == key.peer_key(),
            r.signature@ == ed25519_signature(key.seed(), drift_payload_bytes(r.anchor, r.digest@, r.digest_format@)),
            final(self).digest_map() == old(self).digest_map().insert(r.anchor.author_seq_vec@, r.digest),
    {
        let digest = blake3_hash(state_digest);
        let positions = dag.author_seq_vec();
        self.remember_digest(copy_positions(positions.as_slice()), digest);
        let payload = DriftSignedPayload {
            anchor: DriftAnchor { event_hash: anchor_event_hash, author_seq_vec: positions },
            digest,
            digest_format: DRIFT_DIGEST_FORMAT.to_owned(),
        };
        let signature = sign_drift_payload(key, &payload);
        let DriftSignedPayload { anchor, digest, digest_format } = payload;
        DriftMessage { anchor, digest, digest_format, signed_by_peer: key.public_key(), signature }
    }
}

/// The drift of `msg` against our digest at its anchor: none when we
/// have no digest or it agrees.
pub fn resolve_drift(msg: DriftMessage, local: Option<[u8; 32]>) -> (r: Option<DriftDetected>)
    ensures
        match local {
            None => r is None,
            Some(d) => {
                &&& d == msg.digest ==> r is None
                &&& d != msg.digest ==> r == Some(
                    DriftDetected { peer: msg.signed_by_peer, anchor: msg.anchor, local_digest: d, remote_digest: msg.digest },
                )
            },
        },
{
    match local {
        None => None,
        Some(d) => compare_drift(d, msg),
    }
}

impl DriftInbox {
    /// Settle a message whose anchor we cover but at which no digest of
    /// ours is cached: our digest over the events the anchor covers (see
    /// [`anchor_digest`]) is cached for the anchor and compared. When it
    /// cannot be computed nothing is cached or detected.
    pub fn settle_with_digest(&mut self, msg: DriftMessage, dag: &EventDag, handle: &mut StateApplyHandle) -> (r: Option<
        DriftDetected,
    >)
        requires
            old(self).wf(),
            dag.wf(),
        ensures
            final(self).wf(),
            final(self).entries() == old(self).entries(),
            final(self).capacity() == old(self).capacity(),
            extends_calls(old(handle).apply_calls(), final(handle).apply_calls()),
            replays(
                Seq::empty(),
                anchor_envelopes(dag, msg.anchor.author_seq_vec@),
                calls_since(old(handle).apply_calls(), final(handle).apply_calls()),
            ),
            ({
                let answers = answers_of(calls_since(old(handle).apply_calls(), final(handle).apply_calls()));
                match fold_state(Seq::empty(), answers) {
                    Err(_) => {
                        &&& r is None
                        &&& final(handle).digest_calls() == old(handle).digest_calls()
                        &&& final(self).digest_map() == old(self).digest_map()
                    },
                    Ok(s) => {
                        let d = final(handle).digest_calls().last().1;
                        &&& answers.len() == anchor_envelopes(dag, msg.anchor.author_seq_vec@).len()
                        &&& final(handle).digest_calls() == old(handle).digest_calls().push((s, d))
                        &&& d is Err ==> r is None && final(self).digest_map() == old(self).digest_map()
                        &&& d matches Ok(b) ==> exists|x: [u8; 32]|
                            #[trigger] blake3_digest(b) == x@ && final(self).digest_map() == old(self).digest_map().insert(
                                msg.anchor.author_seq_vec@,
                                x,
                            ) && r == (if x == msg.digest {
                                None
                            } else {
                                Some(
                                    DriftDetected {
                                        peer: msg.signed_by_peer,
                                        anchor: msg.anchor,
                                        local_digest: x,
                                        remote_digest: msg.digest,
                                    },
                                )
                            })
                    },
                }
            }),
    {
        let local = anchor_digest(dag, handle, &msg.anchor);
        match local {
            Some(x) => {
                self.remember_digest(copy_positions(msg.anchor.author_seq_vec.as_slice()), x);
            },
            None => {},
        }
        resolve_drift(msg, local)
    }
}

/// Whether `receive` answers `NeedsDigest`: the message is another
/// peer's, its signature verifies, our DAG covers its anchor and no
/// digest of ours is cached there.
pub open spec fn needs_digest(inbox: DriftInbox, own: PeerPubkey, current: Map<AuthorPubkey, u64>, msg: DriftMessage) -> bool {
    &&& msg.signed_by_peer != own
    &&& ed25519_verifies(
        msg.signed_by_peer.bytes@,
        drift_payload_bytes(msg.anchor, msg.digest@, msg.digest_format@),
        msg.signature@,
    )
    &&& covered(msg.anchor.author_seq_vec@, current)
    &&& !inbox.digest_map().contains_key(msg.anchor.author_seq_vec@)
}

impl DriftInbox {
    /// Take a received drift message all the way: as
    /// [`DriftInbox::receive`], and when that needs our digest at the
    /// anchor, settled with [`DriftInbox::settle_with_digest`].
    pub fn process(
        &mut self,
        own: PeerPubkey,
        current: &IdMap<AuthorPubkey, u64>,
        msg: DriftMessage,
        dag: &EventDag,
        handle: &mut StateApplyHandle,
    ) -> (r: DriftStep)
        requires
            old(self).wf(),
            current.wf(),
            dag.wf(),
        ensures
            final(self).wf(),
            final(self).capacity() == old(self).capacity(),
            !(r is NeedsDigest),
            !(r is Stashed) ==> final(self).entries() == old(self).entries(),
            extends_calls(old(handle).apply_calls(), final(handle).apply_calls()),
            !needs_digest(*old(self), own, current@, msg) ==> {
                &&& final(self).digest_map() == old(self).digest_map()
                &&& final(handle).apply_calls() == old(handle).apply_calls()
                &&& final(handle).digest_calls() == old(handle).digest_calls()
            },
            msg.signed_by_peer == own ==> r is Ignored,
            msg.signed_by_peer != own && !ed25519_verifies(
                msg.signed_by_peer.bytes@,
                drift_payload_bytes(msg.anchor, msg.digest@, msg.digest_format@),
                msg.signature@,
            ) ==> r == DriftStep::Rejected(PeerWarning::SignatureInvalid { peer: Some(msg.signed_by_peer) }),
            msg.signed_by_peer != own && ed25519_verifies(
                msg.signed_by_peer.bytes@,
                drift_payload_bytes(msg.anchor, msg.digest@, msg.digest_format@),
                msg.signature@,
            ) ==> {
                &&& !covered(msg.anchor.author_seq_vec@, current@) ==> r is Stashed && stashed(
                    after_eviction(old(self).entries(), old(self).capacity()),
                    msg.anchor.author_seq_vec@,
                    msg,
                    final(self).entries(),
                )
                &&& covered(msg.anchor.author_seq_vec@, current@) && old(self).digest_map().contains_key(
                    msg.anchor.author_seq_vec@,
                ) ==> r == DriftStep::Compared(
                    if old(self).digest_map()[msg.anchor.author_seq_vec@] == msg.digest {
                        None
                    } else {
                        Some(
                            DriftDetected {
                                peer: msg.signed_by_peer,
                                anchor: msg.anchor,
                                local_digest: old(self).digest_map()[msg.anchor.author_seq_vec@],
                                remote_digest: msg.digest,
                            },
                        )
                    },
                )
            },
            needs_digest(*old(self), own, current@, msg) ==> {
                let calls = calls_since(old(handle).apply_calls(), final(handle).apply_calls());
                let answers = answers_of(calls);
                &&& replays(Seq::empty(), anchor_envelopes(dag, msg.anchor.author_seq_vec@), calls)
                &&& match fold_state(Seq::empty(), answers) {
                    Err(_) => {
                        &&& r == DriftStep::Compared(None)
                        &&& final(handle).digest_calls() == old(handle).digest_calls()
                        &&& final(self).digest_map() == old(self).digest_map()
                    },
                    Ok(s) => {
                        let d = final(handle).digest_calls().last().1;
                        &&& answers.len() == anchor_envelopes(dag, msg.anchor.author_seq_vec@).len()
                        &&& final(handle).digest_calls() == old(handle).digest_calls().push((s, d))
                        &&& d is Err ==> r == DriftStep::Compared(None) && final(self).digest_map() == old(
                            self,
                        ).digest_map()
                        &&& d matches Ok(b) ==> exists|x: [u8; 32]|
                            #[trigger] blake3_digest(b) == x@ && final(self).digest_map() == old(
                                self,
                            ).digest_map().insert(msg.anchor.author_seq_vec@, x) && r == DriftStep::Compared(
                                if x == msg.digest {
                                    None
                                } else {
                                    Some(
                                        DriftDetected {
                                            peer: msg.signed_by_peer,
                                            anchor: msg.anchor,
                                            local_digest: x,
                                            remote_digest: msg.digest,
                                        },
                                    )
                                },
                            )
                    },
                }
            },
    {
        proof {
            let c = old(handle).apply_calls();
            assert(c.take(c.len() as int) =~= c);
        }
        match self.receive(own, current, msg) {
            DriftStep::NeedsDigest(m) => DriftStep::Compared(self.settle_with_digest(m, dag, handle)),
            other => other,
        }
    }
}

impl DriftInbox {
    /// Process the stashed messages whose anchor the head seqs `current`
    /// now cover: they leave the stash, in stash order, and each is taken
    /// as a received message (see [`DriftInbox::process`]), one step
    /// each.
    pub fn drain_stash(
        &mut self,
        own: PeerPubkey,
        current: &IdMap<AuthorPubkey, u64>,
        dag: &EventDag,
        handle: &mut StateApplyHandle,
    ) -> (r: Vec<DriftStep>)
        requires
            old(self).wf(),
            current.wf(),
            dag.wf(),
        ensures
            final(self).wf(),
            final(self).capacity() == old(self).capacity(),
            extends_calls(old(handle).apply_calls(), final(handle).apply_calls()),
            r@.len() == messages_of(old(self).entries().filter(entry_covered(current@))).len(),
            forall|i: int| 0 <= i < r@.len() ==> !(#[trigger] r@[i] is NeedsDigest),
    {
        proof {
            let c = old(handle).apply_calls();
            assert(c.take(c.len() as int) =~= c);
        }
        let mut msgs = self.take_covered(current);
        let ghost total = msgs@.len();
        let mut out: Vec<DriftStep> = Vec::new();
        while msgs.len() > 0
            invariant
                self.wf(),
                current.wf(),
                dag.wf(),
                self.capacity() == old(self).capacity(),
                extends_calls(old(handle).apply_calls(), handle.apply_calls()),
                out@.len() + msgs@.len() == total,
                forall|i: int| 0 <= i < out@.len() ==> !(#[trigger] out@[i] is NeedsDigest),
            decreases msgs@.len(),
        {
            let m = msgs.remove(0);
            let ghost c1 = handle.apply_calls();
            let step = self.process(own, current, m, dag, handle);
            proof {
                crate::replay::lemma_extends_trans(old(handle).apply_calls(), c1, handle.apply_calls());
            }
            out.push(step);
        }
        out
    }
}

/// What a drift emission attempt came to.
#[derive(Clone, Debug)]
pub enum DriftEmission {
    /// The index is not a multiple of the interval.
    NotDue,
    /// Due, but refused by the rate limiter: the warning to report.
    RateLimited(PeerWarning),
    /// The state component did not give its digest bytes.
    DigestFailed,
    /// The message to publish.
    Emitted(DriftMessage),
}

/// What considering a drift emission gives (see [`maybe_emit_drift`]):
/// from the inbox `ib`, the limiter `lb` and the component's call records
/// `cb` and `db`, to `ia`, `la`, `ca`, `da` and the answer `r`, for the
/// state `state` after the event at `topo_index` with wire hash
/// `anchor_event_hash`.
pub open spec fn emit_outcome(
    ib: DriftInbox,
    ia: DriftInbox,
    lb: DriftRateLimit,
    la: DriftRateLimit,
    cb: Seq<ApplyCall>,
    ca: Seq<ApplyCall>,
    db: Seq<(Seq<u8>, Result<Seq<u8>, ApplyError>)>,
    da: Seq<(Seq<u8>, Result<Seq<u8>, ApplyError>)>,
    state: Seq<u8>,
    key: PeerKeypair,
    dag: &EventDag,
    topo_index: u64,
    anchor_event_hash: EventHash,
    drift_interval: u64,
    now: u64,
    r: DriftEmission,
) -> bool {
    &&& (ia.wf())
    &&& (ia.entries() == ib.entries())
    &&& (ia.capacity() == ib.capacity())
    &&& (!(r is Emitted) ==> ia.digest_map() =~= ib.digest_map())
    &&& (!(drift_interval > 0 && topo_index > 0 && topo_index % drift_interval == 0) ==> r is NotDue && la
        == lb)
    &&& ((drift_interval > 0 && topo_index > 0 && topo_index % drift_interval == 0) && rate_verdict(lb, now)
        is Err ==> r == DriftEmission::RateLimited(
        PeerWarning::DriftRateLimited { kind: rate_verdict(lb, now)->Err_0 },
    ))
    &&& (ca =~= cb)
    &&& (!((drift_interval > 0 && topo_index > 0 && topo_index % drift_interval == 0) && rate_verdict(
        lb,
        now,
    ) is Ok) ==> da =~= db)
    &&& ((drift_interval > 0 && topo_index > 0 && topo_index % drift_interval == 0) ==> limiter_after_attempt(
        lb,
        la,
        now,
    ))
    &&& ((drift_interval > 0 && topo_index > 0 && topo_index % drift_interval == 0) && rate_verdict(lb, now)
        is Ok ==> {
        let ans = da.last().1;
        &&& da =~= db.push((state, ans))
        &&& ans is Err ==> r is DigestFailed
        &&& ans matches Ok(b) ==> r matches DriftEmission::Emitted(m) && m.digest@ == blake3_digest(b)
    })
    &&& (r matches DriftEmission::Emitted(m) ==> {
        &&& m.anchor.event_hash == anchor_event_hash
        &&& m.anchor.author_seq_vec@.len() == dag.author_order().len()
        &&& forall|i: int|
            0 <= i < m.anchor.author_seq_vec@.len() ==> #[trigger] m.anchor.author_seq_vec@[i] == (AuthorSeq {
                author: dag.author_order()[i],
                max_seq: dag.chains()[dag.author_order()[i]].head_seq,
            })
        &&& m.digest_format@ == DRIFT_DIGEST_FORMAT@
        &&& m.signed_by_peer == key.peer_key()
        &&& ia.digest_map() =~= ib.digest_map().insert(m.anchor.author_seq_vec@, m.digest)
        &&& m.signature@ == ed25519_signature(key.seed(), drift_payload_bytes(m.anchor, m.digest@, m.digest_format@))
    })
}

/// Consider emitting a drift message after the event at `topo_index`
/// with wire hash `anchor_event_hash`: only when it is due (see
/// [`drift_emit_gate`]) and the rate limiter grants the slot at `now`;
/// then the state component's digest bytes of `state` are signed into a
/// message (see [`DriftInbox::emit`]).
pub fn maybe_emit_drift(
    inbox: &mut DriftInbox,
    limiter: &mut DriftRateLimit,
    handle: &mut StateApplyHandle,
    state: &[u8],
    key: &PeerKeypair,
    dag: &EventDag,
    topo_index: u64,
    anchor_event_hash: EventHash,
    drift_interval: u64,
    now: u64,
) -> (r: DriftEmission)
    requires
        old(inbox).wf(),
        dag.wf(),
    ensures
        emit_outcome(
            *old(inbox),
            *final(inbox),
            *old(limiter),
            *final(limiter),
            old(handle).apply_calls(),
            final(handle).apply_calls(),
            old(handle).digest_calls(),
            final(handle).digest_calls(),
            state@,
            *key,
            dag,
            topo_index,
            anchor_event_hash,
            drift_interval,
            now,
            r,
        ),
{
    match drift_emit_gate(limiter, topo_index, drift_interval, now) {
        DriftGate::NotDue => DriftEmission::NotDue,
        DriftGate::Limited(kind) => DriftEmission::RateLimited(PeerWarning::DriftRateLimited { kind }),
        DriftGate::Emit => match handle.state_digest(state) {
            Err(_) => DriftEmission::DigestFailed,
            Ok(bytes) => DriftEmission::Emitted(inbox.emit(key, dag, anchor_event_hash, bytes.as_slice())),
        },
    }
}

} // verus!
