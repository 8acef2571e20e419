//! The decisions of the per-topic runtime that do not wait on the
//! network: configuration, error and observation types, heads-summary
//! classification, backfill pagination, the peer-authority index,
//! staleness of distribution logs, and the fuel-table version check.
//!
//! Times are nanoseconds: durations as counts, instants as readings of
//! the clock the caller uses.
use vstd::prelude::*;

use crate::dag::DagError;
use crate::distribution::backfill::{DistributionBackfillRequest, DistributionEnvelope, DistributionLogKind};
use crate::distribution::dispatch::{verify_publication, verify_revocation};
use crate::distribution::heads::{PublicationHeads, RevocationHeads};
use crate::distribution::publication::{
    publication_check, version_bytes, PublicationEvent, PublicationLog, MAX_VERSION_LEN,
};
use crate::distribution::revocation::{
    reason_bytes, revocation_check, RevocationEvent, RevocationLog, MAX_REASON_LEN,
};
use crate::distribution::signed_envelope::{envelope_check, SignedEnvelope};
use crate::drift::{elapsed, leading_expired, DriftRateLimit, RateLimitKind};
use crate::drift_message::limiter_after_attempt;
use crate::event::{AuthorHead, EventRequest};
use crate::ids::{id_eq, AuthorPubkey, BlobHash, EventHash, IdMap, PeerPubkey};
use crate::pending::PendingCfg;
use crate::state_apply::ApplyError;

verus! {

/// Per-topic runtime configuration.
#[derive(Clone, Copy, Debug, PartialEq, Eq)]
pub struct RuntimeCfg {
    /// Events between candidate drift-message emits.
    pub drift_interval: u64,
    /// Minimum gap, in nanoseconds, between drift emits.
    pub drift_min_interval_nanos: u64,
    /// Rolling 24-hour cap on drift emits.
    pub drift_daily_cap: u32,
    /// Cadence, in nanoseconds, of heads-summary broadcasts.
    pub heads_summary_tick_nanos: u64,
    /// Cadence, in nanoseconds, of distribution head-summary broadcasts.
    pub distribution_sync_tick_nanos: u64,
    /// Out-of-order buffer bounds.
    pub pending_cfg: PendingCfg,
    /// Capacity of internal broadcast channels.
    pub broadcast_capacity: usize,
    /// Local kernel-fuel table version.
    pub kernel_fuel_table_version: u32,
    /// Cap on stashed incoming drift messages.
    pub drift_stash_cap: usize,
    /// Consecutive transport errors after which the runtime halts.
    pub transport_error_halt_threshold: usize,
}

impl Default for RuntimeCfg {
    fn default() -> (r: Self)
        ensures
            r.drift_interval == 1024,
            r.drift_min_interval_nanos == 60_000_000_000,
            r.drift_daily_cap == 1024,
            r.heads_summary_tick_nanos == 5_000_000_000,
            r.distribution_sync_tick_nanos == 30_000_000_000,
            r.pending_cfg.max_total == 10_000,
            r.pending_cfg.max_per_author == 200,
            r.pending_cfg.ttl_nanos == 3_600_000_000_000,
            r.broadcast_capacity == 256,
            r.kernel_fuel_table_version == 1,
            r.drift_stash_cap == 256,
            r.transport_error_halt_threshold == 5,
    {
        RuntimeCfg {
            drift_interval: 1024,
            drift_min_interval_nanos: 60_000_000_000,
            drift_daily_cap: 1024,
            heads_summary_tick_nanos: 5_000_000_000,
            distribution_sync_tick_nanos: 30_000_000_000,
            pending_cfg: PendingCfg::default(),
            broadcast_capacity: 256,
            kernel_fuel_table_version: 1,
            drift_stash_cap: 256,
            transport_error_halt_threshold: 5,
        }
    }
}

/// Failures that abort a runtime operation.
#[derive(Debug, Clone, PartialEq, Eq)]
pub enum RuntimeError {
    /// The transport failed, with its description.
    Network(String),
    /// State-apply or the pre-check failed.
    Apply(ApplyError),
    /// The DAG rejected an event.
    Dag(DagError),
    /// The local pre-check rejected an authored event.
    PreCheckRejected(String),
    /// A canonical encoding failed, or the runtime task is gone.
    Canonical(String),
    /// The runtime has no author key.
    ReadOnly,
    /// The runtime has no state-propose component.
    NoProposeComponent,
    /// The state-propose component declined or failed.
    ProposeRejected(String),
}

/// An author published two different events at one seq.
#[derive(Clone, Debug, PartialEq, Eq)]
pub struct EquivocationFlag {
    /// The author.
    pub author: AuthorPubkey,
    /// The seq published twice.
    pub seq: u64,
    /// The hash seen first.
    pub local_hash: EventHash,
    /// The conflicting hash.
    pub remote_hash: EventHash,
    /// The peer that delivered the conflict, when known.
    pub peer: Option<PeerPubkey>,
}

/// A verified revocation was applied to an author's log.
#[derive(Clone, Debug, PartialEq, Eq)]
pub struct RevocationApplied {
    /// The author.
    pub author: AuthorPubkey,
    /// The revoked bundle.
    pub revoked_bundle_hash: BlobHash,
    /// The envelope's seq.
    pub revocation_seq: u64,
}

/// A verified publication was applied to an author's log.
#[derive(Clone, Debug, PartialEq, Eq)]
pub struct PublicationAnnounced {
    /// The author.
    pub author: AuthorPubkey,
    /// The announced manifest.
    pub manifest_hash: BlobHash,
    /// The announced version.
    pub version: String,
    /// The envelope's seq.
    pub publication_seq: u64,
}

/// Non-fatal anomalies the runtime reports.
#[derive(Clone, Debug, PartialEq, Eq)]
pub enum PeerWarning {
    /// A peer's kernel-fuel table version differs from ours.
    KernelFuelTableMismatch {
        /// The peer, when known.
        peer: Option<PeerPubkey>,
        /// Its version.
        remote_version: u32,
        /// Ours.
        local_version: u32,
    },
    /// A drift emit was suppressed by the rate limiter.
    DriftRateLimited {
        /// The rule that refused it.
        kind: RateLimitKind,
    },
    /// The subscription lagged and dropped messages.
    BroadcastLagged {
        /// How many.
        dropped: u64,
    },
    /// A message failed to decode or was misrouted.
    DecodeFailed {
        /// The forwarding peer, when known.
        peer: Option<PeerPubkey>,
    },
    /// A chain lookup that the DAG invariants guarantee came back empty.
    ChainHashLookupMissing {
        /// The author.
        author: AuthorPubkey,
        /// The seq looked up.
        seq: u64,
    },
    /// Re-inserting a drained pending event did not apply it.
    PendingDrainAnomaly {
        /// The event's author.
        author: AuthorPubkey,
        /// The event's seq.
        seq: u64,
        /// What happened instead.
        reason: String,
    },
    /// A message's signature does not verify against its claimed signer.
    SignatureInvalid {
        /// The claimed signer, when known.
        peer: Option<PeerPubkey>,
    },
    /// The transport reported an error.
    TransportError {
        /// Its description.
        reason: String,
        /// Consecutive errors so far.
        consecutive: usize,
    },
    /// A direct request to a peer failed.
    DirectRequestFailed {
        /// The peer.
        peer: PeerPubkey,
        /// Its description.
        reason: String,
    },
}

/// How a remote author head compares with ours.
#[derive(Clone, Copy, Debug, PartialEq, Eq)]
pub enum AuthorDiff {
    /// We are behind: request the gap.
    Behind {
        /// The author.
        author: AuthorPubkey,
        /// Our head seq.
        local_seq: u64,
        /// The remote head seq.
        remote_seq: u64,
    },
    /// Same seq and hash: nothing to do.
    Equal,
    /// Same seq, different hash: the author equivocated.
    EqualDivergent {
        /// The author.
        author: AuthorPubkey,
        /// The seq.
        seq: u64,
        /// Our hash.
        local_hash: EventHash,
        /// The remote hash.
        remote_hash: EventHash,
    },
    /// We are ahead: push the gap, after checking the remote hash
    /// against our history.
    Ahead {
        /// The author.
        author: AuthorPubkey,
        /// Our head seq.
        local_seq: u64,
        /// The remote head seq.
        remote_seq: u64,
        /// The remote head hash.
        remote_hash: EventHash,
    },
}

/// Classify a remote author head against our head `(local_seq,
/// local_hash)` for that author.
pub fn classify_author_diff(local_seq: u64, local_hash: EventHash, remote_head: &AuthorHead) -> (r: AuthorDiff)
    ensures
        local_seq < remote_head.seq ==> r == (AuthorDiff::Behind {
            author: remote_head.author,
            local_seq,
            remote_seq: remote_head.seq,
        }),
        local_seq == remote_head.seq && local_hash == remote_head.hash ==> r == AuthorDiff::Equal,
        local_seq == remote_head.seq && local_hash != remote_head.hash ==> r == (AuthorDiff::EqualDivergent {
            author: remote_head.author,
            seq: remote_head.seq,
            local_hash,
            remote_hash: remote_head.hash,
        }),
        local_seq > remote_head.seq ==> r == (AuthorDiff::Ahead {
            author: remote_head.author,
            local_seq,
            remote_seq: remote_head.seq,
            remote_hash: remote_head.hash,
        }),
{
    if local_seq < remote_head.seq {
        AuthorDiff::Behind { author: remote_head.author, local_seq, remote_seq: remote_head.seq }
    } else if local_seq == remote_head.seq {
        if id_eq(&local_hash, &remote_head.hash) {
            AuthorDiff::Equal
        } else {
            AuthorDiff::EqualDivergent {
                author: remote_head.author,
                seq: remote_head.seq,
                local_hash,
                remote_hash: remote_head.hash,
            }
        }
    } else {
        AuthorDiff::Ahead {
            author: remote_head.author,
            local_seq,
            remote_seq: remote_head.seq,
            remote_hash: remote_head.hash,
        }
    }
}

/// Most events a single backfill request may cover.
pub const PAGE_EVENTS: u64 = 256;

/// The requests covering `author`'s seqs `from..=to` in pages of at most
/// [`PAGE_EVENTS`] events, in order.
pub open spec fn pages(author: AuthorPubkey, from: u64, to: u64) -> Seq<EventRequest>
    decreases to - from + 1,
{
    if from > to {
        Seq::empty()
    } else {
        let end: u64 = if to - from < PAGE_EVENTS { to } else { (from + PAGE_EVENTS - 1) as u64 };
        let page = EventRequest { author, from_seq: from, to_seq: end };
        if end == to {
            seq![page]
        } else {
            seq![page] + pages(author, (end + 1) as u64, to)
        }
    }
}

/// Append the requests covering `author`'s seqs `from..=to` (none when
/// `from > to`).
pub fn paginate_into(author: AuthorPubkey, from: u64, to: u64, out: &mut Vec<EventRequest>)
    ensures
        final(out)@ == old(out)@ + pages(author, from, to),
{
    let ghost base = old(out)@;
    let mut cur = from;
    if cur > to {
        return;
    }
    loop
        invariant
            base == old(out)@,
            from <= cur <= to,
            out@ + pages(author, cur, to) == base + pages(author, from, to),
        decreases to - cur,
    {
        let end = if to - cur < 256 { to } else { cur + 255 };
        let ghost before = out@;
        out.push(EventRequest { author, from_seq: cur, to_seq: end });
        if end == to {
            assert(pages(author, cur, to) == seq![EventRequest { author, from_seq: cur, to_seq: end }]);
            assert(out@ =~= before + pages(author, cur, to));
            return;
        }
        proof {
            assert(pages(author, cur, to) == seq![EventRequest { author, from_seq: cur, to_seq: end }] + pages(author, (end + 1) as u64, to));
            assert(out@ + pages(author, (end + 1) as u64, to) =~= before + pages(author, cur, to));
        }
        cur = end + 1;
    }
}

/// The pages of `from..=to` tile it: the first starts at `from`, the
/// last ends at `to`, each starts right after the previous one ends,
/// and none covers more than [`PAGE_EVENTS`] seqs.
pub proof fn lemma_pages_tile(author: AuthorPubkey, from: u64, to: u64)
    requires
        from <= to,
    ensures
        pages(author, from, to).len() > 0,
        pages(author, from, to)[0].from_seq == from,
        pages(author, from, to).last().to_seq == to,
        forall|i: int|
            0 <= i < pages(author, from, to).len() ==> {
                let p = #[trigger] pages(author, from, to)[i];
                &&& p.author == author
                &&& p.from_seq <= p.to_seq
                &&& p.to_seq - p.from_seq < PAGE_EVENTS
            },
        forall|i: int|
            0 <= i < pages(author, from, to).len() - 1 ==> #[trigger] pages(author, from, to)[i + 1].from_seq
                == pages(author, from, to)[i].to_seq + 1,
    decreases to - from,
{
    let end: u64 = if to - from < PAGE_EVENTS { to } else { (from + PAGE_EVENTS - 1) as u64 };
    let page = EventRequest { author, from_seq: from, to_seq: end };
    if end != to {
        lemma_pages_tile(author, (end + 1) as u64, to);
        let rest = pages(author, (end + 1) as u64, to);
        let all = pages(author, from, to);
        assert(all == seq![page] + rest);
        assert forall|i: int| 0 <= i < all.len() - 1 implies #[trigger] all[i + 1].from_seq == all[i].to_seq + 1 by {
            if i == 0 {
                assert(all[0] == page);
                assert(all[1] == rest[0]);
            } else {
                assert(all[i] == rest[i - 1]);
                assert(all[i + 1] == rest[i]);
                assert(rest[(i - 1) + 1].from_seq == rest[i - 1].to_seq + 1);
            }
        }
        assert forall|i: int| 0 <= i < all.len() implies {
            let p = #[trigger] all[i];
            &&& p.author == author
            &&& p.from_seq <= p.to_seq
            &&& p.to_seq - p.from_seq < PAGE_EVENTS
        } by {
            if i > 0 {
                assert(all[i] == rest[i - 1]);
            }
        }
    }
}

/// The pages of `from..=to` cover exactly the seqs `from..=to`: a seq
/// lies in some page if and only if it lies in that range.
pub proof fn lemma_pages_cover(author: AuthorPubkey, from: u64, to: u64, s: u64)
    ensures
        (exists|i: int|
            0 <= i < pages(author, from, to).len() && #[trigger] pages(author, from, to)[i].from_seq <= s
                <= pages(author, from, to)[i].to_seq) <==> from <= s <= to,
    decreases to - from + 1,
{
    let all = pages(author, from, to);
    if from <= to {
        let end: u64 = if to - from < PAGE_EVENTS { to } else { (from + PAGE_EVENTS - 1) as u64 };
        let page = EventRequest { author, from_seq: from, to_seq: end };
        if end == to {
            assert(all == seq![page]);
            if from <= s <= to {
                assert(all[0].from_seq <= s <= all[0].to_seq);
            }
        } else {
            let rest = pages(author, (end + 1) as u64, to);
            lemma_pages_cover(author, (end + 1) as u64, to, s);
            assert(all == seq![page] + rest);
            if from <= s <= end {
                assert(all[0].from_seq <= s <= all[0].to_seq);
            } else if end + 1 <= s <= to {
                let k = choose|k: int| 0 <= k < rest.len() && #[trigger] rest[k].from_seq <= s <= rest[k].to_seq;
                assert(all[k + 1] == rest[k]);
            }
            if exists|i: int| 0 <= i < all.len() && #[trigger] all[i].from_seq <= s <= all[i].to_seq {
                let i = choose|i: int| 0 <= i < all.len() && #[trigger] all[i].from_seq <= s <= all[i].to_seq;
                if i > 0 {
                    assert(all[i] == rest[i - 1]);
                }
            }
        }
    }
}

/// Peers remembered per author in the peer-authority index.
pub const PEER_AUTHORITY_PER_AUTHOR_CAP: usize = 8;

/// Whether a peer is other than `peer`.
pub open spec fn other_than(peer: PeerPubkey) -> spec_fn(PeerPubkey) -> bool {
    |p: PeerPubkey| p != peer
}

/// `peers` without `peer`, in order.
pub open spec fn without(peers: Seq<PeerPubkey>, peer: PeerPubkey) -> Seq<PeerPubkey> {
    peers.filter(other_than(peer))
}

/// `peers` with `peer` moved (or added) to the front, cut to the cap.
pub open spec fn promote(peers: Seq<PeerPubkey>, peer: PeerPubkey) -> Seq<PeerPubkey> {
    let moved = seq![peer] + without(peers, peer);
    if moved.len() > PEER_AUTHORITY_PER_AUTHOR_CAP {
        moved.subrange(0, PEER_AUTHORITY_PER_AUTHOR_CAP as int)
    } else {
        moved
    }
}

/// For each author, the peers that advertised it in a signed heads
/// summary, most recent first.
pub struct PeerAuthorityIndex {
    by_author: IdMap<AuthorPubkey, Vec<PeerPubkey>>,
}

impl PeerAuthorityIndex {
    /// The recorded peers of each author, most recent first.
    pub closed spec fn peers(&self) -> Map<AuthorPubkey, Seq<PeerPubkey>> {
        Map::new(|a: AuthorPubkey| self.by_author@.contains_key(a), |a: AuthorPubkey| self.by_author@[a]@)
    }

    /// The index's structural invariant.
    pub closed spec fn wf(&self) -> bool {
        self.by_author.wf()
    }

    /// The recorded peers of `a` (none when unknown).
    pub open spec fn peers_of(&self, a: AuthorPubkey) -> Seq<PeerPubkey> {
        if self.peers().contains_key(a) {
            self.peers()[a]
        } else {
            Seq::empty()
        }
    }

    /// An empty index.
    pub fn new() -> (r: Self)
        ensures
            r.wf(),
            r.peers() == Map::<AuthorPubkey, Seq<PeerPubkey>>::empty(),
    {
        let r = PeerAuthorityIndex { by_author: IdMap::new() };
        assert(r.peers() =~= Map::<AuthorPubkey, Seq<PeerPubkey>>::empty());
        r
    }

    /// Record that `peer` advertised `author`: `peer` becomes the most
    /// recent for `author`, and the list is cut to the cap.
    pub fn record(&mut self, peer: PeerPubkey, author: AuthorPubkey)
        requires
            old(self).wf(),
        ensures
            final(self).wf(),
            final(self).peers() == old(self).peers().insert(author, promote(old(self).peers_of(author), peer)),
    {
        let ghost old_list = self.peers_of(author);
        let mut list: Vec<PeerPubkey> = match self.by_author.remove(&author) {
            Some(v) => v,
            None => Vec::new(),
        };
        assert(list@ == old_list);
        let ghost keep = other_than(peer);
        let mut moved: Vec<PeerPubkey> = Vec::new();
        moved.push(peer);
        let mut i: usize = 0;
        while i < list.len()
            invariant
                keep == other_than(peer),
                i <= list@.len(),
                list@ == old_list,
                moved@ == seq![peer] + list@.subrange(0, i as int).filter(keep),
            decreases list@.len() - i,
        {
            proof {
                reveal(Seq::filter);
                assert(list@.subrange(0, i + 1).drop_last() =~= list@.subrange(0, i as int));
                assert(list@.subrange(0, i + 1).last() == list@[i as int]);
            }
            if !id_eq(&list[i], &peer) {
                moved.push(list[i]);
                assert(moved@ =~= seq![peer] + list@.subrange(0, i + 1).filter(keep));
            } else {
                assert(moved@ =~= seq![peer] + list@.subrange(0, i + 1).filter(keep));
            }
            i = i + 1;
        }
        assert(list@.subrange(0, list@.len() as int) =~= list@);
        assert(moved@ == seq![peer] + without(old_list, peer));
        if moved.len() > PEER_AUTHORITY_PER_AUTHOR_CAP {
            let ghost full = moved@;
            moved.truncate(PEER_AUTHORITY_PER_AUTHOR_CAP);
            assert(moved@ =~= full.subrange(0, PEER_AUTHORITY_PER_AUTHOR_CAP as int));
        }
        assert(moved@ =~= promote(old_list, peer));
        let ghost before = self.by_author@;
        self.by_author.insert(author, moved);
        assert(self.peers() =~= old(self).peers().insert(author, promote(old_list, peer))) by {
            assert forall|a: AuthorPubkey| #[trigger] self.peers().contains_key(a) implies self.peers()[a]
                == old(self).peers().insert(author, promote(old_list, peer))[a] by {
                if a != author {
                    assert(before[a] == old(self).by_author@[a]);
                }
            }
        }
    }

    /// The most recent peer that advertised `author`.
    pub fn lookup(&self, author: &AuthorPubkey) -> (r: Option<PeerPubkey>)
        requires
            self.wf(),
        ensures
            self.peers_of(*author).len() == 0 ==> r is None,
            self.peers_of(*author).len() > 0 ==> r == Some(self.peers_of(*author)[0]),
    {
        match self.by_author.get(author) {
            None => None,
            Some(v) => {
                if v.len() == 0 {
                    None
                } else {
                    Some(v[0])
                }
            },
        }
    }
}

/// After `peer` is recorded for `author`, it is the peer looked up
/// first; the list never exceeds the cap and never holds a peer twice.
pub proof fn lemma_promote_front(peers: Seq<PeerPubkey>, peer: PeerPubkey)
    requires
        peers.no_duplicates(),
    ensures
        promote(peers, peer).len() > 0,
        promote(peers, peer)[0] == peer,
        promote(peers, peer).len() <= PEER_AUTHORITY_PER_AUTHOR_CAP,
        promote(peers, peer).no_duplicates(),
{
    let keep = other_than(peer);
    let f = peers.filter(keep);
    let moved = seq![peer] + f;
    lemma_filter_no_duplicates(peers, keep);
    assert forall|i: int, j: int| 0 <= i < moved.len() && 0 <= j < moved.len() && i != j implies moved[i]
        != moved[j] by {
        if i == 0 {
            assert(moved[j] == f[j - 1]);
            peers.lemma_filter_pred(keep, j - 1);
        } else if j == 0 {
            assert(moved[i] == f[i - 1]);
            peers.lemma_filter_pred(keep, i - 1);
        } else {
            assert(moved[i] == f[i - 1]);
            assert(moved[j] == f[j - 1]);
        }
    }
    assert(moved.no_duplicates());
    if moved.len() > PEER_AUTHORITY_PER_AUTHOR_CAP {
        let t = moved.subrange(0, PEER_AUTHORITY_PER_AUTHOR_CAP as int);
        assert forall|i: int, j: int| 0 <= i < t.len() && 0 <= j < t.len() && i != j implies t[i] != t[j] by {
            assert(t[i] == moved[i]);
            assert(t[j] == moved[j]);
        }
    }
}

/// Filtering keeps a sequence free of duplicates.
proof fn lemma_filter_no_duplicates<A>(s: Seq<A>, p: spec_fn(A) -> bool)
    requires
        s.no_duplicates(),
    ensures
        s.filter(p).no_duplicates(),
    decreases s.len(),
{
    reveal(Seq::filter);
    if s.len() > 0 {
        let rest = s.drop_last();
        assert(rest.no_duplicates());
        lemma_filter_no_duplicates(rest, p);
        if p(s.last()) {
            let f = rest.filter(p);
            let t = f.push(s.last());
            assert forall|i: int, j: int| 0 <= i < t.len() && 0 <= j < t.len() && i != j implies t[i] != t[j] by {
                if i == t.len() - 1 || j == t.len() - 1 {
                    let k = if i == t.len() - 1 { j } else { i };
                    assert(f.contains(t[k]));
                    rest.lemma_filter_contains_rev(p, t[k]);
                    let m = choose|m: int| 0 <= m < rest.len() && rest[m] == t[k];
                    assert(s[m] == rest[m]);
                }
            }
        }
    }
}

/// Installed authors that have not synced within `threshold`
/// nanoseconds of `now`: never synced, or synced strictly more than
/// `threshold` before `now` (a sync reading after `now` counts as
/// fresh). In installation order.
pub open spec fn is_stale(last_sync: Map<AuthorPubkey, u64>, a: AuthorPubkey, now: u64, threshold: u64) -> bool {
    !last_sync.contains_key(a) || (last_sync[a] <= now && now - last_sync[a] > threshold)
}

/// The installed authors whose distribution logs may be stale.
pub fn stale_authors(
    installed: &[AuthorPubkey],
    last_sync: &IdMap<AuthorPubkey, u64>,
    now: u64,
    threshold: u64,
) -> (r: Vec<AuthorPubkey>)
    requires
        last_sync.wf(),
    ensures
        r@ == installed@.filter(|a: AuthorPubkey| is_stale(last_sync@, a, now, threshold)),
{
    let ghost p = |a: AuthorPubkey| is_stale(last_sync@, a, now, threshold);
    let mut out: Vec<AuthorPubkey> = Vec::new();
    let mut i: usize = 0;
    while i < installed.len()
        invariant
            last_sync.wf(),
            p == (|a: AuthorPubkey| is_stale(last_sync@, a, now, threshold)),
            i <= installed@.len(),
            out@ == installed@.subrange(0, i as int).filter(p),
        decreases installed@.len() - i,
    {
        proof {
            reveal(Seq::filter);
            assert(installed@.subrange(0, i + 1).drop_last() =~= installed@.subrange(0, i as int));
            assert(installed@.subrange(0, i + 1).last() == installed@[i as int]);
        }
        let a = installed[i];
        let stale = match last_sync.get(&a) {
            None => true,
            Some(last) => *last <= now && now - *last > threshold,
        };
        if stale {
            out.push(a);
        }
        i = i + 1;
    }
    assert(installed@.subrange(0, installed@.len() as int) =~= installed@);
    out
}

/// The warning owed when a peer's kernel-fuel table version differs
/// from ours (none when they agree).
pub fn check_fuel_table_version(local_version: u32, remote_version: u32) -> (r: Option<PeerWarning>)
    ensures
        local_version == remote_version ==> r is None,
        local_version != remote_version ==> r == Some(
            PeerWarning::KernelFuelTableMismatch { peer: None, remote_version, local_version },
        ),
{
    if remote_version == local_version {
        None
    } else {
        Some(PeerWarning::KernelFuelTableMismatch { peer: None, remote_version, local_version })
    }
}

/// Backfill dials one advertiser may goad this peer into per trailing
/// 24 hours.
pub const DISTRIBUTION_DIAL_DAILY_CAP: u32 = 32;

/// Whether the seqs of `s` strictly increase.
pub open spec fn seqs_increasing(s: Seq<RevocationEvent>) -> bool {
    forall|i: int, j: int| 0 <= i < j < s.len() ==> #[trigger] s[i].revocation_seq < #[trigger] s[j].revocation_seq
}

/// Lowest seq a revocation backfill from `from_seq` serves.
pub open spec fn serve_floor(from_seq: u64) -> u64 {
    if from_seq == u64::MAX {
        u64::MAX
    } else {
        (from_seq + 1) as u64
    }
}

/// Whether a revocation is served to a backfill from `from_seq`.
pub open spec fn served_from(from_seq: u64) -> spec_fn(RevocationEvent) -> bool {
    |e: RevocationEvent| e.revocation_seq >= serve_floor(from_seq)
}

/// Whether `l` grants an emit at `now`: after the entries that left the
/// trailing day are dropped, fewer than the daily cap remain, and the
/// minimum interval has passed since the last grant.
pub open spec fn admits(l: DriftRateLimit, now: u64) -> bool {
    let kept = l.recent().skip(leading_expired(l.recent(), now) as int);
    &&& kept.len() < l.spec_daily_cap()
    &&& !(l.last() is Some && elapsed(now, l.last().unwrap()) < l.spec_min_interval())
}

/// The distribution-log state of a runtime: each installed author's
/// revocation and publication logs, the envelopes kept to serve
/// backfills, the per-advertiser dial limits and in-flight pulls, and
/// the observation logs.
pub struct DistributionState {
    revocation_logs: IdMap<AuthorPubkey, RevocationLog>,
    publication_logs: IdMap<AuthorPubkey, PublicationLog>,
    revocation_archive: IdMap<AuthorPubkey, Vec<RevocationEvent>>,
    publication_latest: IdMap<AuthorPubkey, PublicationEvent>,
    dial_limits: IdMap<PeerPubkey, DriftRateLimit>,
    in_flight: Vec<(AuthorPubkey, DistributionLogKind)>,
    revocation_events: Vec<RevocationApplied>,
    publication_events: Vec<PublicationAnnounced>,
    peer_warnings: Vec<PeerWarning>,
}

impl DistributionState {
    /// Revocations applied, in order.
    pub closed spec fn applied(&self) -> Seq<RevocationApplied> {
        self.revocation_events@
    }

    /// Publications applied, in order.
    pub closed spec fn announced(&self) -> Seq<PublicationAnnounced> {
        self.publication_events@
    }

    /// Warnings, in order.
    pub closed spec fn warnings(&self) -> Seq<PeerWarning> {
        self.peer_warnings@
    }

    /// Revocations applied, in order.
    pub fn revocation_events(&self) -> (r: &[RevocationApplied])
        ensures
            r@ == self.applied(),
    {
        self.revocation_events.as_slice()
    }

    /// Publications applied, in order.
    pub fn publication_events(&self) -> (r: &[PublicationAnnounced])
        ensures
            r@ == self.announced(),
    {
        self.publication_events.as_slice()
    }

    /// Warnings, in order.
    pub fn peer_warnings(&self) -> (r: &[PeerWarning])
        ensures
            r@ == self.warnings(),
    {
        self.peer_warnings.as_slice()
    }

    /// The revocation log of each author.
    pub closed spec fn rev_logs(&self) -> Map<AuthorPubkey, RevocationLog> {
        self.revocation_logs@
    }

    /// The publication log of each author.
    pub closed spec fn pub_logs(&self) -> Map<AuthorPubkey, PublicationLog> {
        self.publication_logs@
    }

    /// The accepted revocation envelopes of each author, in order.
    pub closed spec fn rev_archive(&self) -> Map<AuthorPubkey, Seq<RevocationEvent>> {
        Map::new(
            |a: AuthorPubkey| self.revocation_archive@.contains_key(a),
            |a: AuthorPubkey| self.revocation_archive@[a]@,
        )
    }

    /// The latest accepted publication envelope of each author.
    pub closed spec fn pub_latest(&self) -> Map<AuthorPubkey, PublicationEvent> {
        self.publication_latest@
    }

    /// The dial limiter of each advertiser.
    pub closed spec fn dial_limits(&self) -> Map<PeerPubkey, DriftRateLimit> {
        self.dial_limits@
    }

    /// The pulls in progress.
    pub closed spec fn pulls(&self) -> Set<(AuthorPubkey, DistributionLogKind)> {
        self.in_flight@.to_set()
    }

    /// Last accepted revocation seq of `a` (0 without a log).
    pub open spec fn rev_last(&self, a: AuthorPubkey) -> u64 {
        if self.rev_logs().contains_key(a) {
            self.rev_logs()[a].last_observed_seq
        } else {
            0
        }
    }

    /// Bundles revoked by `a` (none without a log).
    pub open spec fn rev_set(&self, a: AuthorPubkey) -> Set<BlobHash> {
        if self.rev_logs().contains_key(a) {
            self.rev_logs()[a].revoked_bundles@
        } else {
            Set::empty()
        }
    }

    /// Last accepted publication seq of `a` (0 without a log).
    pub open spec fn pub_last(&self, a: AuthorPubkey) -> u64 {
        if self.pub_logs().contains_key(a) {
            self.pub_logs()[a].last_observed_seq
        } else {
            0
        }
    }

    /// The accepted revocations of `a` (none without an archive).
    pub open spec fn archive_of(&self, a: AuthorPubkey) -> Seq<RevocationEvent> {
        if self.rev_archive().contains_key(a) {
            self.rev_archive()[a]
        } else {
            Seq::empty()
        }
    }

    /// Structural invariant: every log's set is well formed; an author's
    /// archive increases strictly in seq up to its log's last seq; the
    /// latest publication kept is the one at its log's last seq.
    pub closed spec fn wf(&self) -> bool {
        &&& self.revocation_logs.wf()
        &&& self.publication_logs.wf()
        &&& self.revocation_archive.wf()
        &&& self.publication_latest.wf()
        &&& self.dial_limits.wf()
        &&& forall|a: AuthorPubkey| #[trigger] self.rev_logs().contains_key(a) ==> self.rev_logs()[a].revoked_bundles.wf()
        &&& forall|a: AuthorPubkey| #[trigger] self.rev_archive().contains_key(a) ==> {
            &&& self.rev_logs().contains_key(a)
            &&& seqs_increasing(self.rev_archive()[a])
            &&& forall|i: int| 0 <= i < self.rev_archive()[a].len() ==> #[trigger] self.rev_archive()[a][i].revocation_seq
                <= self.rev_logs()[a].last_observed_seq
        }
        &&& forall|a: AuthorPubkey| #[trigger] self.pub_latest().contains_key(a) ==> {
            &&& self.pub_logs().contains_key(a)
            &&& self.pub_latest()[a].publication_seq == self.pub_logs()[a].last_observed_seq
        }
    }

    /// No logs, no archive, no pulls, empty observation logs.
    pub fn new() -> (r: Self)
        ensures
            r.wf(),
            r.rev_logs() == Map::<AuthorPubkey, RevocationLog>::empty(),
            r.pub_logs() == Map::<AuthorPubkey, PublicationLog>::empty(),
            r.rev_archive() == Map::<AuthorPubkey, Seq<RevocationEvent>>::empty(),
            r.pub_latest() == Map::<AuthorPubkey, PublicationEvent>::empty(),
            r.pulls() == Set::<(AuthorPubkey, DistributionLogKind)>::empty(),
            r.dial_limits() == Map::<PeerPubkey, DriftRateLimit>::empty(),
            r.applied() == Seq::<RevocationApplied>::empty(),
            r.announced() == Seq::<PublicationAnnounced>::empty(),
            r.warnings() == Seq::<PeerWarning>::empty(),
    {
        let r = DistributionState {
            revocation_logs: IdMap::new(),
            publication_logs: IdMap::new(),
            revocation_archive: IdMap::new(),
            publication_latest: IdMap::new(),
            dial_limits: IdMap::new(),
            in_flight: Vec::new(),
            revocation_events: Vec::new(),
            publication_events: Vec::new(),
            peer_warnings: Vec::new(),
        };
        assert(r.rev_archive() =~= Map::<AuthorPubkey, Seq<RevocationEvent>>::empty());
        assert(r.pulls() =~= Set::<(AuthorPubkey, DistributionLogKind)>::empty());
        r
    }

    /// The revocation log of `author`, if any.
    pub fn revocation_log(&self, author: &AuthorPubkey) -> (r: Option<&RevocationLog>)
        requires
            self.wf(),
        ensures
            match r {
                Some(l) => self.rev_logs().contains_key(*author) && *l == self.rev_logs()[*author],
                None => !self.rev_logs().contains_key(*author),
            },
    {
        self.revocation_logs.get(author)
    }

    /// The publication log of `author`, if any.
    pub fn publication_log(&self, author: &AuthorPubkey) -> (r: Option<&PublicationLog>)
        requires
            self.wf(),
        ensures
            match r {
                Some(l) => self.pub_logs().contains_key(*author) && *l == self.pub_logs()[*author],
                None => !self.pub_logs().contains_key(*author),
            },
    {
        self.publication_logs.get(author)
    }

    /// The accepted revocation envelopes of `author`, in seq order.
    pub fn archived_revocations(&self, author: &AuthorPubkey) -> (r: &[RevocationEvent])
        requires
            self.wf(),
        ensures
            r@ == self.archive_of(*author),
    {
        match self.revocation_archive.get(author) {
            Some(v) => v.as_slice(),
            None => {
                let r: &[RevocationEvent] = &[];
                assert(r@ =~= Seq::<RevocationEvent>::empty());
                r
            },
        }
    }

    /// The latest accepted publication envelope of `author`, if any.
    pub fn latest_publication(&self, author: &AuthorPubkey) -> (r: Option<&PublicationEvent>)
        requires
            self.wf(),
        ensures
            match r {
                Some(e) => self.pub_latest().contains_key(*author) && *e == self.pub_latest()[*author],
                None => !self.pub_latest().contains_key(*author),
            },
    {
        self.publication_latest.get(author)
    }

    /// Verify and apply a revocation that arrived on `author`'s topic.
    /// A forged envelope is reported as [`PeerWarning::SignatureInvalid`]
    /// before any seq check; a verified envelope the log refuses is
    /// reported as [`PeerWarning::DecodeFailed`]; an accepted one
    /// advances the log, is kept for backfill and is reported as
    /// [`RevocationApplied`].
    pub fn handle_revocation(&mut self, author: AuthorPubkey, ev: &RevocationEvent)
        requires
            old(self).wf(),
        ensures
            final(self).wf(),
            final(self).pub_logs() == old(self).pub_logs(),
            final(self).pub_latest() == old(self).pub_latest(),
            final(self).announced() == old(self).announced(),
            final(self).dial_limits() == old(self).dial_limits(),
            final(self).pulls() == old(self).pulls(),
            final(self).rev_logs().remove(author) == old(self).rev_logs().remove(author),
            final(self).rev_archive().remove(author) == old(self).rev_archive().remove(author),
            envelope_check(reason_bytes(*ev).len() > MAX_REASON_LEN, author, ev.target_bytes(), ev.signature@) is Err ==> {
                &&& final(self).rev_logs() == old(self).rev_logs()
                &&& final(self).rev_archive() == old(self).rev_archive()
                &&& final(self).applied() == old(self).applied()
                &&& final(self).warnings() == old(self).warnings().push(PeerWarning::SignatureInvalid { peer: None })
            },
            envelope_check(reason_bytes(*ev).len() > MAX_REASON_LEN, author, ev.target_bytes(), ev.signature@) is Ok
                && revocation_check(old(self).rev_last(author), *ev, author) is Ok ==> {
                &&& final(self).rev_logs().contains_key(author)
                &&& final(self).rev_last(author) == ev.revocation_seq
                &&& final(self).rev_set(author) == old(self).rev_set(author).insert(ev.revoked_bundle_hash)
                &&& final(self).archive_of(author) == old(self).archive_of(author).push(*ev)
                &&& final(self).applied() == old(self).applied().push(RevocationApplied {
                    author,
                    revoked_bundle_hash: ev.revoked_bundle_hash,
                    revocation_seq: ev.revocation_seq,
                })
                &&& final(self).warnings() == old(self).warnings()
            },
            envelope_check(reason_bytes(*ev).len() > MAX_REASON_LEN, author, ev.target_bytes(), ev.signature@) is Ok
                && revocation_check(old(self).rev_last(author), *ev, author) is Err ==> {
                &&& final(self).rev_logs().contains_key(author)
                &&& final(self).rev_last(author) == old(self).rev_last(author)
                &&& final(self).rev_set(author) == old(self).rev_set(author)
                &&& final(self).rev_archive() == old(self).rev_archive()
                &&& final(self).applied() == old(self).applied()
                &&& final(self).warnings() == old(self).warnings().push(PeerWarning::DecodeFailed { peer: None })
            },
    {
        if verify_revocation(ev, &author).is_err() {
            self.peer_warnings.push(PeerWarning::SignatureInvalid { peer: None });
            proof {
                self.lemma_wf_frame(old(self));
            }
            return;
        }
        let prior = match self.revocation_logs.get(&author) {
            Some(log) => log.clone(),
            None => RevocationLog::new(),
        };
        assert(prior.last_observed_seq == old(self).rev_last(author));
        assert(prior.revoked_bundles@ == old(self).rev_set(author));
        let backup = prior.clone();
        proof {
            assert(backup.revoked_bundles@ =~= prior.revoked_bundles@);
        }
        match prior.apply(ev, &author) {
            Ok(new_log) => {
                let ghost arch_before = self.revocation_archive@;
                self.revocation_logs.insert(author, new_log);
                let mut kept: Vec<RevocationEvent> = match self.revocation_archive.remove(&author) {
                    Some(v) => v,
                    None => Vec::new(),
                };
                assert(kept@ == old(self).archive_of(author));
                kept.push(ev.clone());
                self.revocation_archive.insert(author, kept);
                self.revocation_events.push(
                    RevocationApplied {
                        author,
                        revoked_bundle_hash: ev.revoked_bundle_hash,
                        revocation_seq: ev.revocation_seq,
                    },
                );
                proof {
                    assert(self.rev_archive().remove(author) =~= old(self).rev_archive().remove(author));
                    assert(self.archive_of(author) == old(self).archive_of(author).push(*ev));
                    self.lemma_wf_after_revocation(old(self), author, *ev);
                }
            },
            Err(_) => {
                self.peer_warnings.push(PeerWarning::DecodeFailed { peer: None });
                self.revocation_logs.insert(author, backup);
                proof {
                    assert(self.rev_archive() =~= old(self).rev_archive());
                    self.lemma_wf_after_reinsert(old(self), author);
                }
            },
        }
    }

    /// Verify and apply a publication that arrived on `author`'s topic;
    /// the same gate order and reporting as
    /// [`DistributionState::handle_revocation`]. An accepted envelope
    /// becomes the author's latest, kept for backfill.
    pub fn handle_publication(&mut self, author: AuthorPubkey, ev: PublicationEvent)
        requires
            old(self).wf(),
        ensures
            final(self).wf(),
            final(self).rev_logs() == old(self).rev_logs(),
            final(self).rev_archive() == old(self).rev_archive(),
            final(self).applied() == old(self).applied(),
            final(self).dial_limits() == old(self).dial_limits(),
            final(self).pulls() == old(self).pulls(),
            final(self).pub_logs().remove(author) == old(self).pub_logs().remove(author),
            final(self).pub_latest().remove(author) == old(self).pub_latest().remove(author),
            envelope_check(version_bytes(ev).len() > MAX_VERSION_LEN, author, ev.target_bytes(), ev.signature@) is Err ==> {
                &&& final(self).pub_logs() == old(self).pub_logs()
                &&& final(self).pub_latest() == old(self).pub_latest()
                &&& final(self).announced() == old(self).announced()
                &&& final(self).warnings() == old(self).warnings().push(PeerWarning::SignatureInvalid { peer: None })
            },
            envelope_check(version_bytes(ev).len() > MAX_VERSION_LEN, author, ev.target_bytes(), ev.signature@) is Ok
                && publication_check(old(self).pub_last(author), ev, author) is Ok ==> {
                &&& final(self).pub_logs().contains_key(author)
                &&& final(self).pub_last(author) == ev.publication_seq
                &&& final(self).pub_logs()[author].latest_announcement matches Some((h, v)) && h == ev.manifest_hash && v@ == ev.version@
                &&& final(self).pub_latest().contains_key(author)
                &&& final(self).pub_latest()[author] == ev
                &&& final(self).announced() == old(self).announced().push(PublicationAnnounced {
                    author,
                    manifest_hash: ev.manifest_hash,
                    version: ev.version,
                    publication_seq: ev.publication_seq,
                })
                &&& final(self).warnings() == old(self).warnings()
            },
            envelope_check(version_bytes(ev).len() > MAX_VERSION_LEN, author, ev.target_bytes(), ev.signature@) is Ok
                && publication_check(old(self).pub_last(author), ev, author) is Err ==> {
                &&& final(self).pub_logs().contains_key(author)
                &&& (old(self).pub_logs().contains_key(author) ==> final(self).pub_logs()[author] == old(self).pub_logs()[author])
                &&& final(self).pub_last(author) == old(self).pub_last(author)
                &&& final(self).pub_latest() == old(self).pub_latest()
                &&& final(self).announced() == old(self).announced()
                &&& final(self).warnings() == old(self).warnings().push(PeerWarning::DecodeFailed { peer: None })
            },
    {
        if verify_publication(&ev, &author).is_err() {
            self.peer_warnings.push(PeerWarning::SignatureInvalid { peer: None });
            proof {
                self.lemma_wf_frame(old(self));
            }
            return;
        }
        let prior = match self.publication_logs.get(&author) {
            Some(log) => log.clone(),
            None => PublicationLog::new(),
        };
        assert(prior.last_observed_seq == old(self).pub_last(author));
        let backup = prior.clone();
        match prior.apply(&ev, &author) {
            Ok(new_log) => {
                self.publication_logs.insert(author, new_log);
                self.publication_latest.insert(author, ev.clone());
                self.publication_events.push(
                    PublicationAnnounced {
                        author,
                        manifest_hash: ev.manifest_hash,
                        version: ev.version,
                        publication_seq: ev.publication_seq,
                    },
                );
                proof {
                    assert(self.pub_logs().remove(author) =~= old(self).pub_logs().remove(author));
                    assert(self.pub_latest().remove(author) =~= old(self).pub_latest().remove(author));
                    self.lemma_wf_after_publication(old(self), author);
                }
            },
            Err(_) => {
                self.peer_warnings.push(PeerWarning::DecodeFailed { peer: None });
                self.publication_logs.insert(author, backup);
                proof {
                    assert(self.pub_logs().remove(author) =~= old(self).pub_logs().remove(author));
                    assert(self.pub_latest().remove(author) =~= old(self).pub_latest().remove(author));
                    self.lemma_wf_after_publication(old(self), author);
                }
            },
        }
    }

    proof fn lemma_wf_after_publication(&self, old_state: &Self, author: AuthorPubkey)
        requires
            old_state.wf(),
            self.revocation_logs == old_state.revocation_logs,
            self.publication_logs.wf(),
            self.revocation_archive == old_state.revocation_archive,
            self.publication_latest.wf(),
            self.dial_limits == old_state.dial_limits,
            self.pub_logs().contains_key(author),
            self.pub_logs().remove(author) == old_state.pub_logs().remove(author),
            self.pub_latest().remove(author) == old_state.pub_latest().remove(author),
            self.pub_latest().contains_key(author) ==> self.pub_latest()[author].publication_seq
                == self.pub_logs()[author].last_observed_seq,
        ensures
            self.wf(),
    {
        assert(self.rev_logs() == old_state.rev_logs());
        assert(self.rev_archive() =~= old_state.rev_archive());
        assert(self.dial_limits() == old_state.dial_limits());
        assert forall|a: AuthorPubkey| #[trigger] self.pub_latest().contains_key(a) implies {
            &&& self.pub_logs().contains_key(a)
            &&& self.pub_latest()[a].publication_seq == self.pub_logs()[a].last_observed_seq
        } by {
            if a != author {
                assert(self.pub_latest().remove(author).contains_key(a));
                assert(old_state.pub_latest().contains_key(a));
                assert(self.pub_latest().remove(author)[a] == self.pub_latest()[a]);
                assert(old_state.pub_latest().remove(author)[a] == old_state.pub_latest()[a]);
                assert(old_state.pub_logs().contains_key(a));
                assert(self.pub_logs().remove(author).contains_key(a));
                assert(self.pub_logs().remove(author)[a] == self.pub_logs()[a]);
                assert(old_state.pub_logs().remove(author)[a] == old_state.pub_logs()[a]);
            }
        }
    }

    /// The envelopes that answer a backfill request from this peer's
    /// archive: for revocations, every kept envelope of the author from
    /// seq `from_seq + 1` on, in seq order; for publications, the kept
    /// latest envelope if its seq is above `from_seq`.
    pub fn serve_distribution_request(&self, request: &DistributionBackfillRequest) -> (r: Vec<DistributionEnvelope>)
        requires
            self.wf(),
        ensures
            request.kind == DistributionLogKind::Revocation ==> {
                let kept = self.archive_of(request.author).filter(served_from(request.from_seq));
                &&& r@.len() == kept.len()
                &&& forall|i: int| 0 <= i < r@.len() ==> #[trigger] r@[i] == DistributionEnvelope::Revocation(kept[i])
                &&& forall|e: RevocationEvent| #[trigger] r@.contains(DistributionEnvelope::Revocation(e)) <==> {
                    &&& self.archive_of(request.author).contains(e)
                    &&& e.revocation_seq > request.from_seq || e.revocation_seq == u64::MAX
                }
                &&& forall|i: int| 0 <= i < r@.len() ==> #[trigger] r@[i] is Revocation
                &&& forall|i: int, j: int|
                    0 <= i < j < r@.len() ==> (#[trigger] r@[i])->Revocation_0.revocation_seq < (
                    #[trigger] r@[j])->Revocation_0.revocation_seq
            },
            request.kind == DistributionLogKind::Publication ==> {
                if self.pub_latest().contains_key(request.author) && self.pub_latest()[request.author].publication_seq
                    > request.from_seq {
                    r@ == seq![DistributionEnvelope::Publication(self.pub_latest()[request.author])]
                } else {
                    r@.len() == 0
                }
            },
    {
        let mut out: Vec<DistributionEnvelope> = Vec::new();
        match request.kind {
            DistributionLogKind::Revocation => {
                let floor = if request.from_seq == u64::MAX { u64::MAX } else { request.from_seq + 1 };
                match self.revocation_archive.get(&request.author) {
                    None => {
                        proof {
                            reveal(Seq::filter);
                        }
                    },
                    Some(archive) => {
                        let ghost s = archive@;
                        let ghost p = served_from(request.from_seq);
                        assert(s == self.archive_of(request.author));
                        let mut i: usize = 0;
                        while i < archive.len()
                            invariant
                                s == archive@,
                                p == served_from(request.from_seq),
                                floor == serve_floor(request.from_seq),
                                i <= s.len(),
                                out@.len() == s.subrange(0, i as int).filter(p).len(),
                                forall|j: int| 0 <= j < out@.len() ==> #[trigger] out@[j]
                                    == DistributionEnvelope::Revocation(s.subrange(0, i as int).filter(p)[j]),
                            decreases s.len() - i,
                        {
                            proof {
                                reveal(Seq::filter);
                                assert(s.subrange(0, i + 1).drop_last() =~= s.subrange(0, i as int));
                                assert(s.subrange(0, i + 1).last() == s[i as int]);
                            }
                            let ghost before = out@;
                            if archive[i].revocation_seq >= floor {
                                out.push(DistributionEnvelope::Revocation(archive[i].clone()));
                                assert forall|j: int| 0 <= j < out@.len() implies #[trigger] out@[j]
                                    == DistributionEnvelope::Revocation(s.subrange(0, i + 1).filter(p)[j]) by {
                                    if j < before.len() {
                                        assert(out@[j] == before[j]);
                                    }
                                }
                            }
                            i = i + 1;
                        }
                        assert(s.subrange(0, s.len() as int) =~= s);
                    },
                }
            },
            DistributionLogKind::Publication => {
                match self.publication_latest.get(&request.author) {
                    None => {},
                    Some(ev) => {
                        if ev.publication_seq > request.from_seq {
                            out.push(DistributionEnvelope::Publication(ev.clone()));
                            assert(out@ =~= seq![DistributionEnvelope::Publication(self.pub_latest()[request.author])]);
                        }
                    },
                }
            },
        }
        proof {
            if request.kind == DistributionLogKind::Revocation {
                let s = self.archive_of(request.author);
                let kept = s.filter(served_from(request.from_seq));
                self.lemma_archive_ascends(request.author);
                lemma_served_revocations_ascend(s, request.from_seq);
                lemma_served_revocations_exact(s, request.from_seq);
                assert forall|e: RevocationEvent| #[trigger] out@.contains(DistributionEnvelope::Revocation(e))
                    <==> kept.contains(e) by {
                    if out@.contains(DistributionEnvelope::Revocation(e)) {
                        let i = choose|i: int| 0 <= i < out@.len() && out@[i] == DistributionEnvelope::Revocation(e);
                        assert(kept[i] == e);
                    }
                    if kept.contains(e) {
                        let i = choose|i: int| 0 <= i < kept.len() && kept[i] == e;
                        assert(out@[i] == DistributionEnvelope::Revocation(e));
                    }
                }
                assert forall|i: int, j: int| 0 <= i < j < out@.len() implies (#[trigger] out@[i])->Revocation_0.revocation_seq
                    < (#[trigger] out@[j])->Revocation_0.revocation_seq by {
                    assert(out@[i] == DistributionEnvelope::Revocation(kept[i]));
                    assert(out@[j] == DistributionEnvelope::Revocation(kept[j]));
                }
            }
        }
        out
    }

    /// The pull owed on hearing a revocation head summary on `topic_author`'s
    /// topic: a summary naming another author is reported as
    /// [`PeerWarning::DecodeFailed`] and ignored; a head at or below ours
    /// needs nothing; a head above ours needs the envelopes after our
    /// last seq from the advertiser.
    pub fn revocation_heads_pull(&mut self, topic_author: AuthorPubkey, heads: &RevocationHeads) -> (r: Option<
        (PeerPubkey, DistributionBackfillRequest),
    >)
        requires
            old(self).wf(),
        ensures
            final(self).wf(),
            final(self).rev_logs() == old(self).rev_logs(),
            final(self).pub_logs() == old(self).pub_logs(),
            final(self).rev_archive() == old(self).rev_archive(),
            final(self).pub_latest() == old(self).pub_latest(),
            final(self).applied() == old(self).applied(),
            final(self).announced() == old(self).announced(),
            final(self).dial_limits() == old(self).dial_limits(),
            final(self).pulls() == old(self).pulls(),
            heads.author != topic_author ==> r is None && final(self).warnings() == old(self).warnings().push(
                PeerWarning::DecodeFailed { peer: None },
            ),
            heads.author == topic_author ==> final(self).warnings() == old(self).warnings() && if heads.last_observed_seq
                <= old(self).rev_last(topic_author) {
                r is None
            } else {
                r == Some((heads.advertiser, DistributionBackfillRequest {
                    author: topic_author,
                    kind: DistributionLogKind::Revocation,
                    from_seq: old(self).rev_last(topic_author),
                }))
            },
    {
        if !id_eq(&heads.author, &topic_author) {
            self.peer_warnings.push(PeerWarning::DecodeFailed { peer: None });
            proof {
                self.lemma_wf_frame(old(self));
            }
            return None;
        }
        let local = match self.revocation_logs.get(&topic_author) {
            Some(log) => log.last_observed_seq,
            None => 0,
        };
        if heads.last_observed_seq <= local {
            return None;
        }
        Some((heads.advertiser, DistributionBackfillRequest {
            author: topic_author,
            kind: DistributionLogKind::Revocation,
            from_seq: local,
        }))
    }

    /// The publication twin of [`DistributionState::revocation_heads_pull`].
    pub fn publication_heads_pull(&mut self, topic_author: AuthorPubkey, heads: &PublicationHeads) -> (r: Option<
        (PeerPubkey, DistributionBackfillRequest),
    >)
        requires
            old(self).wf(),
        ensures
            final(self).wf(),
            final(self).rev_logs() == old(self).rev_logs(),
            final(self).pub_logs() == old(self).pub_logs(),
            final(self).rev_archive() == old(self).rev_archive(),
            final(self).pub_latest() == old(self).pub_latest(),
            final(self).applied() == old(self).applied(),
            final(self).announced() == old(self).announced(),
            final(self).dial_limits() == old(self).dial_limits(),
            final(self).pulls() == old(self).pulls(),
            heads.author != topic_author ==> r is None && final(self).warnings() == old(self).warnings().push(
                PeerWarning::DecodeFailed { peer: None },
            ),
            heads.author == topic_author ==> final(self).warnings() == old(self).warnings() && if heads.last_observed_seq
                <= old(self).pub_last(topic_author) {
                r is None
            } else {
                r == Some((heads.advertiser, DistributionBackfillRequest {
                    author: topic_author,
                    kind: DistributionLogKind::Publication,
                    from_seq: old(self).pub_last(topic_author),
                }))
            },
    {
        if !id_eq(&heads.author, &topic_author) {
            self.peer_warnings.push(PeerWarning::DecodeFailed { peer: None });
            proof {
                self.lemma_wf_frame(old(self));
            }
            return None;
        }
        let local = match self.publication_logs.get(&topic_author) {
            Some(log) => log.last_observed_seq,
            None => 0,
        };
        if heads.last_observed_seq <= local {
            return None;
        }
        Some((heads.advertiser, DistributionBackfillRequest {
            author: topic_author,
            kind: DistributionLogKind::Publication,
            from_seq: local,
        }))
    }

    /// Claim a pull of `author`'s `kind` log from `advertiser` at clock
    /// reading `now` (nanoseconds): refused while a pull of the same log
    /// is in flight; otherwise claimed, then refused (and released) when
    /// the advertiser's dial limiter refuses; otherwise the request to
    /// send.
    pub fn begin_distribution_backfill(
        &mut self,
        advertiser: PeerPubkey,
        author: AuthorPubkey,
        kind: DistributionLogKind,
        from_seq: u64,
        now: u64,
    ) -> (r: Option<DistributionBackfillRequest>)
        requires
            old(self).wf(),
        ensures
            final(self).wf(),
            final(self).rev_logs() == old(self).rev_logs(),
            final(self).pub_logs() == old(self).pub_logs(),
            final(self).rev_archive() == old(self).rev_archive(),
            final(self).pub_latest() == old(self).pub_latest(),
            final(self).applied() == old(self).applied(),
            final(self).announced() == old(self).announced(),
            final(self).warnings() == old(self).warnings(),
            old(self).pulls().contains((author, kind)) ==> r is None && final(self).pulls() == old(self).pulls()
                && final(self).dial_limits() == old(self).dial_limits(),
            !old(self).pulls().contains((author, kind)) ==> {
                &&& final(self).dial_limits().dom() == old(self).dial_limits().dom().insert(advertiser)
                &&& (!old(self).dial_limits().contains_key(advertiser) ==> r is Some)
                &&& (old(self).dial_limits().contains_key(advertiser) ==> (r is Some <==> admits(
                    old(self).dial_limits()[advertiser],
                    now,
                )))
                &&& (r is Some ==> r == Some(DistributionBackfillRequest { author, kind, from_seq })
                    && final(self).pulls() == old(self).pulls().insert((author, kind)))
                &&& (r is None ==> final(self).pulls() == old(self).pulls())
                &&& (old(self).dial_limits().contains_key(advertiser) ==> limiter_after_attempt(
                    old(self).dial_limits()[advertiser],
                    final(self).dial_limits()[advertiser],
                    now,
                ))
                &&& (!old(self).dial_limits().contains_key(advertiser) ==> {
                    let l = final(self).dial_limits()[advertiser];
                    &&& l.recent() == seq![now]
                    &&& l.history() == seq![now]
                    &&& l.last() == Some(now)
                    &&& l.latest() == Some(now)
                    &&& l.spec_daily_cap() == DISTRIBUTION_DIAL_DAILY_CAP
                    &&& l.spec_min_interval() == 0
                    &&& l.inv()
                })
                &&& forall|a: PeerPubkey|
                    a != advertiser && #[trigger] old(self).dial_limits().contains_key(a)
                        ==> final(self).dial_limits()[a] == old(self).dial_limits()[a]
            },
    {
        let mut i: usize = 0;
        let mut found = false;
        while i < self.in_flight.len()
            invariant
                i <= self.in_flight@.len(),
                found ==> self.in_flight@.contains((author, kind)),
                !found ==> forall|j: int| 0 <= j < i ==> self.in_flight@[j] != (author, kind),
            ensures
                found ==> self.in_flight@.contains((author, kind)),
                !found ==> forall|j: int| 0 <= j < self.in_flight@.len() ==> self.in_flight@[j] != (author, kind),
            decreases self.in_flight@.len() - i,
        {
            let (a, k) = self.in_flight[i];
            if id_eq(&a, &author) && k == kind {
                assert(self.in_flight@[i as int] == (author, kind));
                found = true;
                break;
            }
            i = i + 1;
        }
        if found {
            proof {
                self.lemma_wf_frame(old(self));
            }
            return None;
        }
        assert(!old(self).pulls().contains((author, kind)));
        let mut limiter = match self.dial_limits.remove(&advertiser) {
            Some(l) => l,
            None => DriftRateLimit::new(0, DISTRIBUTION_DIAL_DAILY_CAP),
        };
        let admitted = limiter.try_emit(now).is_ok();
        proof {
            if !old(self).dial_limits().contains_key(advertiser) {
                assert(limiter.recent() =~= seq![now]);
            }
        }
        self.dial_limits.insert(advertiser, limiter);
        proof {
            assert(self.dial_limits().dom() =~= old(self).dial_limits().dom().insert(advertiser));
        }
        if !admitted {
            proof {
                self.lemma_wf_frame_limits(old(self), advertiser);
            }
            return None;
        }
        self.in_flight.push((author, kind));
        proof {
            assert(self.pulls() =~= old(self).pulls().insert((author, kind))) by {
                assert forall|x: (AuthorPubkey, DistributionLogKind)| #[trigger] self.pulls().contains(x) <==> old(self).pulls().insert((author, kind)).contains(x) by {
                    if self.pulls().contains(x) {
                        let j = choose|j: int| 0 <= j < self.in_flight@.len() && #[trigger] self.in_flight@[j] == x;
                        if j < old(self).in_flight@.len() {
                            assert(old(self).in_flight@[j] == x);
                        }
                    }
                    if old(self).pulls().contains(x) {
                        let j = choose|j: int| 0 <= j < old(self).in_flight@.len() && #[trigger] old(self).in_flight@[j] == x;
                        assert(self.in_flight@[j] == x);
                    }
                    if x == (author, kind) {
                        assert(self.in_flight@[self.in_flight@.len() - 1] == x);
                    }
                }
            }
            self.lemma_wf_frame_limits(old(self), advertiser);
        }
        Some(DistributionBackfillRequest { author, kind, from_seq })
    }

    /// A pull request to `advertiser` for `author`'s `kind` log failed
    /// with `reason`: the failure is reported and the claim released, so
    /// that the next heads summary can retry.
    pub fn distribution_request_failed(
        &mut self,
        advertiser: PeerPubkey,
        author: AuthorPubkey,
        kind: DistributionLogKind,
        reason: String,
    )
        requires
            old(self).wf(),
        ensures
            final(self).wf(),
            final(self).pulls() == old(self).pulls().remove((author, kind)),
            final(self).warnings() == old(self).warnings().push(PeerWarning::DirectRequestFailed { peer: advertiser, reason }),
            final(self).rev_logs() == old(self).rev_logs(),
            final(self).pub_logs() == old(self).pub_logs(),
            final(self).rev_archive() == old(self).rev_archive(),
            final(self).pub_latest() == old(self).pub_latest(),
            final(self).dial_limits() == old(self).dial_limits(),
            final(self).applied() == old(self).applied(),
            final(self).announced() == old(self).announced(),
    {
        self.peer_warnings.push(PeerWarning::DirectRequestFailed { peer: advertiser, reason });
        proof {
            self.lemma_wf_frame(old(self));
        }
        self.clear_distribution_in_flight(author, kind);
    }

    /// Release the claim on a pull of `author`'s `kind` log (nothing
    /// happens if there is none).
    pub fn clear_distribution_in_flight(&mut self, author: AuthorPubkey, kind: DistributionLogKind)
        requires
            old(self).wf(),
        ensures
            final(self).wf(),
            final(self).pulls() == old(self).pulls().remove((author, kind)),
            final(self).rev_logs() == old(self).rev_logs(),
            final(self).pub_logs() == old(self).pub_logs(),
            final(self).rev_archive() == old(self).rev_archive(),
            final(self).pub_latest() == old(self).pub_latest(),
            final(self).dial_limits() == old(self).dial_limits(),
            final(self).applied() == old(self).applied(),
            final(self).announced() == old(self).announced(),
            final(self).warnings() == old(self).warnings(),
    {
        let ghost p = |x: (AuthorPubkey, DistributionLogKind)| x != (author, kind);
        let ghost orig = self.in_flight@;
        let mut kept: Vec<(AuthorPubkey, DistributionLogKind)> = Vec::new();
        let mut i: usize = 0;
        while i < self.in_flight.len()
            invariant
                p == (|x: (AuthorPubkey, DistributionLogKind)| x != (author, kind)),
                orig == self.in_flight@,
                i <= orig.len(),
                kept@ == orig.subrange(0, i as int).filter(p),
            decreases orig.len() - i,
        {
            proof {
                reveal(Seq::filter);
                assert(orig.subrange(0, i + 1).drop_last() =~= orig.subrange(0, i as int));
                assert(orig.subrange(0, i + 1).last() == orig[i as int]);
            }
            let (a, k) = self.in_flight[i];
            if !(id_eq(&a, &author) && k == kind) {
                kept.push((a, k));
            }
            i = i + 1;
        }
        assert(orig.subrange(0, orig.len() as int) =~= orig);
        self.in_flight = kept;
        proof {
            assert forall|x: (AuthorPubkey, DistributionLogKind)| #[trigger] self.pulls().contains(x) <==> old(self).pulls().remove((author, kind)).contains(x) by {
                if self.in_flight@.contains(x) {
                    orig.lemma_filter_contains_rev(p, x);
                    let j = orig.filter(p).index_of(x);
                    orig.lemma_filter_pred(p, j);
                }
                if old(self).pulls().remove((author, kind)).contains(x) {
                    let j = choose|j: int| 0 <= j < orig.len() && #[trigger] orig[j] == x;
                    orig.lemma_filter_contains(p, j);
                }
            }
            assert(self.pulls() =~= old(self).pulls().remove((author, kind)));
            self.lemma_wf_frame(old(self));
        }
    }

    /// The head summaries to advertise for each installed author, in
    /// order: our last accepted revocation seq and publication seq (0
    /// without a log), stamped with `advertiser`.
    pub fn distribution_heads(&self, installed: &[AuthorPubkey], advertiser: PeerPubkey) -> (r: Vec<
        (RevocationHeads, PublicationHeads),
    >)
        requires
            self.wf(),
        ensures
            r@.len() == installed@.len(),
            forall|i: int|
                0 <= i < r@.len() ==> #[trigger] r@[i] == (
                    RevocationHeads {
                        author: installed@[i],
                        advertiser,
                        last_observed_seq: self.rev_last(installed@[i]),
                    },
                    PublicationHeads {
                        author: installed@[i],
                        advertiser,
                        last_observed_seq: self.pub_last(installed@[i]),
                    },
                ),
    {
        let mut out: Vec<(RevocationHeads, PublicationHeads)> = Vec::new();
        let mut i: usize = 0;
        while i < installed.len()
            invariant
                self.wf(),
                i <= installed@.len(),
                out@.len() == i,
                forall|j: int|
                    0 <= j < i ==> #[trigger] out@[j] == (
                        RevocationHeads {
                            author: installed@[j],
                            advertiser,
                            last_observed_seq: self.rev_last(installed@[j]),
                        },
                        PublicationHeads {
                            author: installed@[j],
                            advertiser,
                            last_observed_seq: self.pub_last(installed@[j]),
                        },
                    ),
            decreases installed@.len() - i,
        {
            let author = installed[i];
            let rev_seq = match self.revocation_logs.get(&author) {
                Some(log) => log.last_observed_seq,
                None => 0,
            };
            let pub_seq = match self.publication_logs.get(&author) {
                Some(log) => log.last_observed_seq,
                None => 0,
            };
            out.push(
                (
                    RevocationHeads { author, advertiser, last_observed_seq: rev_seq },
                    PublicationHeads { author, advertiser, last_observed_seq: pub_seq },
                ),
            );
            i = i + 1;
        }
        out
    }

    /// The invariant after only the advertiser's limiter changed to one
    /// that keeps its own invariant.
    proof fn lemma_wf_frame_limits(&self, old_state: &Self, advertiser: PeerPubkey)
        requires
            old_state.wf(),
            self.revocation_logs == old_state.revocation_logs,
            self.publication_logs == old_state.publication_logs,
            self.revocation_archive == old_state.revocation_archive,
            self.publication_latest == old_state.publication_latest,
            self.dial_limits.wf(),
        ensures
            self.wf(),
    {
        assert(self.rev_logs() == old_state.rev_logs());
        assert(self.rev_archive() =~= old_state.rev_archive());
        assert(self.pub_logs() == old_state.pub_logs());
        assert(self.pub_latest() == old_state.pub_latest());
    }

    /// The invariant depends only on the logs, archives and limiters.
    proof fn lemma_wf_frame(&self, old_state: &Self)
        requires
            old_state.wf(),
            self.revocation_logs == old_state.revocation_logs,
            self.publication_logs == old_state.publication_logs,
            self.revocation_archive == old_state.revocation_archive,
            self.publication_latest == old_state.publication_latest,
            self.dial_limits == old_state.dial_limits,
        ensures
            self.wf(),
    {
        assert(self.rev_logs() == old_state.rev_logs());
        assert(self.rev_archive() =~= old_state.rev_archive());
        assert(self.pub_logs() == old_state.pub_logs());
        assert(self.pub_latest() == old_state.pub_latest());
        assert(self.dial_limits() == old_state.dial_limits());
    }

    proof fn lemma_wf_after_revocation(&self, old_state: &Self, author: AuthorPubkey, ev: RevocationEvent)
        requires
            old_state.wf(),
            self.revocation_logs.wf(),
            self.publication_logs == old_state.publication_logs,
            self.revocation_archive.wf(),
            self.publication_latest == old_state.publication_latest,
            self.dial_limits == old_state.dial_limits,
            self.rev_logs().contains_key(author),
            self.rev_logs() == old_state.rev_logs().insert(author, self.rev_logs()[author]),
            self.rev_logs()[author].revoked_bundles.wf(),
            self.rev_logs()[author].last_observed_seq == ev.revocation_seq,
            ev.revocation_seq > old_state.rev_last(author),
            self.rev_archive().remove(author) == old_state.rev_archive().remove(author),
            self.rev_archive().contains_key(author),
            self.archive_of(author) == old_state.archive_of(author).push(ev),
        ensures
            self.wf(),
    {
        assert forall|a: AuthorPubkey| #[trigger] self.rev_logs().contains_key(a) implies self.rev_logs()[a].revoked_bundles.wf() by {
            if a != author {
                assert(old_state.rev_logs().contains_key(a));
            }
        }
        assert forall|a: AuthorPubkey| #[trigger] self.rev_archive().contains_key(a) implies {
            &&& self.rev_logs().contains_key(a)
            &&& seqs_increasing(self.rev_archive()[a])
            &&& forall|i: int| 0 <= i < self.rev_archive()[a].len() ==> #[trigger] self.rev_archive()[a][i].revocation_seq
                <= self.rev_logs()[a].last_observed_seq
        } by {
            if a != author {
                assert(self.rev_archive().remove(author).contains_key(a));
                assert(old_state.rev_archive().contains_key(a));
                assert(self.rev_archive().remove(author)[a] == self.rev_archive()[a]);
                assert(old_state.rev_archive().remove(author)[a] == old_state.rev_archive()[a]);
                assert(self.rev_logs()[a] == old_state.rev_logs()[a]);
            } else {
                let s = self.rev_archive()[a];
                let o = old_state.archive_of(author);
                assert(s == o.push(ev));
                if old_state.rev_archive().contains_key(author) {
                    assert(old_state.rev_logs().contains_key(author));
                }
                assert forall|i: int| 0 <= i < o.len() implies #[trigger] o[i].revocation_seq <= old_state.rev_last(author) by {
                    assert(old_state.rev_archive().contains_key(author));
                    assert(old_state.rev_logs().contains_key(author));
                }
                assert forall|i: int, j: int| 0 <= i < j < s.len() implies #[trigger] s[i].revocation_seq < #[trigger] s[j].revocation_seq by {
                    assert(s[i] == o[i]);
                    if j < s.len() - 1 {
                        assert(s[j] == o[j]);
                        assert(old_state.rev_archive().contains_key(author));
                    }
                }
                assert forall|i: int| 0 <= i < s.len() implies #[trigger] s[i].revocation_seq <= self.rev_logs()[a].last_observed_seq by {
                    if i < o.len() {
                        assert(s[i] == o[i]);
                    }
                }
            }
        }
        assert(self.pub_logs() == old_state.pub_logs());
        assert(self.pub_latest() == old_state.pub_latest());
        assert(self.dial_limits() == old_state.dial_limits());
    }

    proof fn lemma_wf_after_reinsert(&self, old_state: &Self, author: AuthorPubkey)
        requires
            old_state.wf(),
            self.revocation_logs.wf(),
            self.publication_logs == old_state.publication_logs,
            self.revocation_archive == old_state.revocation_archive,
            self.publication_latest == old_state.publication_latest,
            self.dial_limits == old_state.dial_limits,
            self.rev_logs().contains_key(author),
            self.rev_logs() == old_state.rev_logs().insert(author, self.rev_logs()[author]),
            self.rev_logs()[author].revoked_bundles.wf(),
            self.rev_logs()[author].last_observed_seq == old_state.rev_last(author),
        ensures
            self.wf(),
    {
        assert(self.rev_archive() =~= old_state.rev_archive());
        assert forall|a: AuthorPubkey| #[trigger] self.rev_logs().contains_key(a) implies self.rev_logs()[a].revoked_bundles.wf() by {
            if a != author {
                assert(old_state.rev_logs().contains_key(a));
            }
        }
        assert forall|a: AuthorPubkey| #[trigger] self.rev_archive().contains_key(a) implies {
            &&& self.rev_logs().contains_key(a)
            &&& seqs_increasing(self.rev_archive()[a])
            &&& forall|i: int| 0 <= i < self.rev_archive()[a].len() ==> #[trigger] self.rev_archive()[a][i].revocation_seq
                <= self.rev_logs()[a].last_observed_seq
        } by {
            assert(old_state.rev_archive().contains_key(a));
            assert(old_state.rev_logs().contains_key(a));
            if a != author {
                assert(self.rev_logs()[a] == old_state.rev_logs()[a]);
            }
        }
        assert(self.pub_logs() == old_state.pub_logs());
        assert(self.pub_latest() == old_state.pub_latest());
        assert(self.dial_limits() == old_state.dial_limits());
    }
}

impl DistributionState {
    /// Every revocation archive is in strictly increasing seq order.
    pub proof fn lemma_archive_ascends(&self, a: AuthorPubkey)
        requires
            self.wf(),
        ensures
            seqs_increasing(self.archive_of(a)),
    {
    }
}

/// A revocation backfill serves the gap in order: what an archive in
/// increasing seq order serves from `from_seq` is in increasing seq
/// order, starts at the serve floor, and holds every archived entry at
/// or above it.
pub proof fn lemma_served_revocations_ascend(s: Seq<RevocationEvent>, from_seq: u64)
    requires
        seqs_increasing(s),
    ensures
        seqs_increasing(s.filter(served_from(from_seq))),
        forall|i: int|
            0 <= i < s.filter(served_from(from_seq)).len() ==> #[trigger] s.filter(
                served_from(from_seq),
            )[i].revocation_seq >= serve_floor(from_seq),
        forall|i: int|
            0 <= i < s.len() && #[trigger] s[i].revocation_seq >= serve_floor(from_seq) ==> s.filter(
                served_from(from_seq),
            ).contains(s[i]),
    decreases s.len(),
{
    let p = served_from(from_seq);
    let f = s.filter(p);
    assert forall|i: int| 0 <= i < f.len() implies #[trigger] f[i].revocation_seq >= serve_floor(from_seq) by {
        s.lemma_filter_pred(p, i);
    }
    assert forall|i: int| 0 <= i < s.len() && #[trigger] s[i].revocation_seq >= serve_floor(from_seq) implies f.contains(
        s[i],
    ) by {
        s.lemma_filter_contains(p, i);
    }
    if s.len() > 0 {
        let t = s.drop_last();
        assert forall|i: int, j: int| 0 <= i < j < t.len() implies #[trigger] t[i].revocation_seq
            < #[trigger] t[j].revocation_seq by {
            assert(t[i] == s[i] && t[j] == s[j]);
        }
        lemma_served_revocations_ascend(t, from_seq);
        reveal(Seq::filter);
        if p(s.last()) {
            assert(f == t.filter(p).push(s.last()));
            assert forall|i: int, j: int| 0 <= i < j < f.len() implies #[trigger] f[i].revocation_seq
                < #[trigger] f[j].revocation_seq by {
                if j == f.len() - 1 {
                    let x = t.filter(p)[i];
                    assert(t.filter(p).contains(x));
                    t.lemma_filter_contains_rev(p, x);
                    let k = choose|k: int| 0 <= k < t.len() && t[k] == x;
                    assert(s[k] == x);
                } else {
                    assert(f[i] == t.filter(p)[i] && f[j] == t.filter(p)[j]);
                }
            }
        }
    }
}

/// A revocation backfill from `from_seq` serves exactly the archived
/// entries whose seq lies above `from_seq` (the top seq is served even
/// to a request from the top seq, as the range start saturates).
pub proof fn lemma_served_revocations_exact(s: Seq<RevocationEvent>, from_seq: u64)
    ensures
        forall|e: RevocationEvent| #[trigger]
            s.filter(served_from(from_seq)).contains(e) <==> s.contains(e) && (e.revocation_seq > from_seq
                || e.revocation_seq == u64::MAX),
{
    let p = served_from(from_seq);
    assert forall|e: RevocationEvent| #[trigger]
        s.filter(p).contains(e) <==> s.contains(e) && (e.revocation_seq > from_seq || e.revocation_seq == u64::MAX) by {
        if s.filter(p).contains(e) {
            s.lemma_filter_contains_rev(p, e);
        }
        if s.contains(e) && (e.revocation_seq > from_seq || e.revocation_seq == u64::MAX) {
            let k = choose|k: int| 0 <= k < s.len() && s[k] == e;
            s.lemma_filter_contains(p, k);
        }
    }
}

/// Whether a distribution backfill request is served: only for an
/// author this runtime is installed for.
pub fn admit_backfill(installed: &[AuthorPubkey], req: &DistributionBackfillRequest) -> (r: bool)
    ensures
        r == installed@.contains(req.author),
{
    let mut i: usize = 0;
    while i < installed.len()
        invariant
            i <= installed@.len(),
            forall|j: int| 0 <= j < i ==> installed@[j] != req.author,
        decreases installed@.len() - i,
    {
        if id_eq(&installed[i], &req.author) {
            assert(installed@[i as int] == req.author);
            return true;
        }
        i = i + 1;
    }
    false
}

} // verus!
