//! Intake of inbound events: each event goes into the DAG; one that
//! waits for dependencies goes into the pending buffer; once an event is
//! applied, the buffer is drained until nothing in it is ready.
//!
//! The caller acts on the returned [`IngestAction`]: it replays the
//! state with [`crate::replay`] (from the applied tip when nothing was
//! drained, in full otherwise), requests missing history over the
//! network, or does nothing.
use vstd::prelude::*;

use crate::dag::{
    admissible, equivocates, genesis_ok, head_seq_of, missing_deps, prev_matches, signature_ok,
    AuthorChain, DagError, EventDag, Inserted,
};
use crate::crypto::ed25519_signature;
use crate::event::{body_hash_of, envelope_bytes, wire_hash_of, AuthorHead, Event, EventRequest, EventView, Hlc};
use crate::event_builder::{canonical_envelope, EventBuilder};
use crate::identity::AuthorKeypair;
use crate::state_apply::{ApplyAnswer, ApplyError, ApplyOutcome, PreCheckResult, StateApplyHandle};
use crate::ids::{id_eq, AuthorPubkey, BundleHash, EventHash, Id32, IdSet, PeerPubkey, Topic};
use crate::pending::{
    is_ready, lemma_insert_provenance, lemma_newly_satisfied_partition, make_room, placed, ready_items,
    unexpired, waiting_items, PendingBuffer, PendingCfg, PendingItem,
};
use crate::runtime::{
    check_fuel_table_version, classify_author_diff, lemma_pages_cover, lemma_pages_tile, paginate_into, pages, promote, AuthorDiff, PAGE_EVENTS,
    EquivocationFlag, PeerAuthorityIndex, PeerWarning, RuntimeError,
};

verus! {

broadcast use {vstd::seq_lib::group_filter_ensures, vstd::std_specs::btree::group_btree_axioms};

/// How to recover history that an event showed to be missing.
#[derive(Clone, Copy, Debug, PartialEq, Eq)]
pub enum Recovery {
    /// Backfill `author`'s chain over `from_seq..=to_seq`.
    ChainGap {
        /// The author.
        author: AuthorPubkey,
        /// First missing seq.
        from_seq: u64,
        /// Last missing seq.
        to_seq: u64,
    },
    /// Publish our heads summary, so that peers diff it and push what we
    /// lack.
    HeadsSummary,
}

/// What the caller does after [`EventIngest::handle_event`].
#[derive(Clone, Copy, Debug, PartialEq, Eq)]
pub enum IngestAction {
    /// At least one event was applied. `topo_index` and `hash` are those
    /// of the last one applied; `drained` counts the events applied from
    /// the pending buffer after the inbound one. Replay from `hash` when
    /// `drained` is zero, in full otherwise, then consider a drift
    /// emission for `(topo_index, hash)`.
    Applied {
        /// Topological index of the last applied event.
        topo_index: u64,
        /// Wire hash of the last applied event.
        hash: EventHash,
        /// Events applied from the buffer.
        drained: u64,
    },
    /// The event was buffered until its dependencies arrive.
    Buffered(Recovery),
    /// The event skips ahead of its author's chain: backfill
    /// `author`'s seqs `from_seq..=to_seq`.
    ChainSkip {
        /// The author.
        author: AuthorPubkey,
        /// The author's next expected seq.
        from_seq: u64,
        /// The seq just before the event's.
        to_seq: u64,
    },
    /// Nothing to do: duplicate, invalid or equivocating input.
    Ignored,
}

/// Every dependency of `it`'s event is known or among those it waits for.
pub open spec fn waits_only_for_missing(known: Set<EventHash>, it: PendingItem) -> bool {
    forall|d: EventHash| #[trigger] it.event.deps.contains(d) ==> known.contains(d) || it.missing.contains(d)
}

/// Every entry of `s` waits only for dependencies missing from `known`.
pub open spec fn buffered_consistently(known: Set<EventHash>, s: Seq<PendingItem>) -> bool {
    forall|i: int| 0 <= i < s.len() ==> waits_only_for_missing(known, #[trigger] s[i])
}

/// The recovery for an event that waits for dependencies: its author's
/// gap when it skips ahead of the author's head, else a heads summary.
pub open spec fn missing_recovery_of(dag: &EventDag, ev: EventView) -> Recovery {
    if ev.seq > head_seq_of(dag, ev.author) + 1 {
        Recovery::ChainGap {
            author: ev.author,
            from_seq: (head_seq_of(dag, ev.author) + 1) as u64,
            to_seq: (ev.seq - 1) as u64,
        }
    } else {
        Recovery::HeadsSummary
    }
}

/// The recovery for `event`, which waits for dependencies: when it is
/// ahead of its author's known head, the author's gap, else a heads
/// summary (the missing dependencies belong to another author, whose
/// chain a bare hash does not identify).
pub fn missing_recovery(dag: &EventDag, event: &Event) -> (r: Recovery)
    requires
        dag.wf(),
    ensures
        r == missing_recovery_of(dag, event@),
{
    let known_head_seq: u64 = match dag.author_chain(&event.author) {
        Some(c) => c.head_seq,
        None => 0,
    };
    if known_head_seq < u64::MAX && event.seq > known_head_seq + 1 {
        Recovery::ChainGap { author: event.author, from_seq: known_head_seq + 1, to_seq: event.seq - 1 }
    } else {
        Recovery::HeadsSummary
    }
}

/// A buffer consistent with a set of known hashes stays so as the set
/// grows.
proof fn lemma_consistency_grows(k1: Set<EventHash>, k2: Set<EventHash>, s: Seq<PendingItem>)
    requires
        buffered_consistently(k1, s),
        k1.subset_of(k2),
    ensures
        buffered_consistently(k2, s),
{
    assert forall|i: int| 0 <= i < s.len() implies waits_only_for_missing(k2, #[trigger] s[i]) by {
        assert(waits_only_for_missing(k1, s[i]));
        assert forall|d: EventHash| #[trigger] s[i].event.deps.contains(d) implies k2.contains(d)
            || s[i].missing.contains(d) by {
            if k1.contains(d) {
            }
        }
    }
}

/// The all-zero hash.
pub open spec fn zero_hash() -> EventHash {
    choose|h: EventHash| h.spec_is_zero()
}

/// Our head hash of `a` (the zero hash when `a` is unknown).
pub open spec fn head_hash_of(dag: &EventDag, a: AuthorPubkey) -> EventHash {
    if dag.chains().contains_key(a) {
        dag.chains()[a].head_hash
    } else {
        zero_hash()
    }
}

/// The hashes at seqs `from..=to` of the chain `c`, in order.
pub open spec fn chain_range(c: AuthorChain, from: u64, to: u64) -> Seq<EventHash> {
    if from <= to {
        Seq::new((to - from + 1) as nat, |i: int| c.seq_to_hash@[(from + i) as u64])
    } else {
        Seq::empty()
    }
}

/// The backfill requests owed for a remote head: the pages after our
/// head when the remote is ahead of us.
pub open spec fn head_requests(dag: &EventDag, h: AuthorHead) -> Seq<EventRequest> {
    if head_seq_of(dag, h.author) < h.seq {
        pages(h.author, (head_seq_of(dag, h.author) + 1) as u64, h.seq)
    } else {
        Seq::empty()
    }
}

/// Whether we are ahead of a remote head and our chain has a hash at
/// its seq.
pub open spec fn ahead_with_hash(dag: &EventDag, h: AuthorHead) -> bool {
    &&& head_seq_of(dag, h.author) > h.seq
    &&& dag.chains()[h.author].seq_to_hash@.contains_key(h.seq)
}

/// The equivocation shown by a remote head: the same seq with another
/// hash than our head, or, when we are ahead, another hash than ours at
/// its seq.
pub open spec fn head_flags(dag: &EventDag, h: AuthorHead) -> Seq<EquivocationFlag> {
    if head_seq_of(dag, h.author) == h.seq && head_hash_of(dag, h.author) != h.hash {
        seq![EquivocationFlag {
            author: h.author,
            seq: h.seq,
            local_hash: head_hash_of(dag, h.author),
            remote_hash: h.hash,
            peer: None,
        }]
    } else if ahead_with_hash(dag, h) && dag.chains()[h.author].seq_to_hash@[h.seq] != h.hash {
        seq![EquivocationFlag {
            author: h.author,
            seq: h.seq,
            local_hash: dag.chains()[h.author].seq_to_hash@[h.seq],
            remote_hash: h.hash,
            peer: None,
        }]
    } else {
        Seq::empty()
    }
}

/// The warning owed when we are ahead of a remote head but hold no hash
/// at its seq.
pub open spec fn head_warnings(dag: &EventDag, h: AuthorHead) -> Seq<PeerWarning> {
    if head_seq_of(dag, h.author) > h.seq && !dag.chains()[h.author].seq_to_hash@.contains_key(h.seq) {
        seq![PeerWarning::ChainHashLookupMissing { author: h.author, seq: h.seq }]
    } else {
        Seq::empty()
    }
}

/// Our events to push for a remote head we are ahead of, when our
/// history agrees with it at its seq: those after its seq.
pub open spec fn head_push(dag: &EventDag, h: AuthorHead) -> Seq<EventHash> {
    if ahead_with_hash(dag, h) && dag.chains()[h.author].seq_to_hash@[h.seq] == h.hash {
        chain_range(dag.chains()[h.author], (h.seq + 1) as u64, head_seq_of(dag, h.author))
    } else {
        Seq::empty()
    }
}

/// The backfill requests owed for the remote heads `hs`, in order.
pub open spec fn summary_requests(dag: &EventDag, hs: Seq<AuthorHead>) -> Seq<EventRequest>
    decreases hs.len(),
{
    if hs.len() == 0 {
        Seq::empty()
    } else {
        summary_requests(dag, hs.drop_last()) + head_requests(dag, hs.last())
    }
}

/// The equivocations shown by the remote heads `hs`, in order.
pub open spec fn summary_flags(dag: &EventDag, hs: Seq<AuthorHead>) -> Seq<EquivocationFlag>
    decreases hs.len(),
{
    if hs.len() == 0 {
        Seq::empty()
    } else {
        summary_flags(dag, hs.drop_last()) + head_flags(dag, hs.last())
    }
}

/// The warnings owed for the remote heads `hs`, in order.
pub open spec fn summary_warnings(dag: &EventDag, hs: Seq<AuthorHead>) -> Seq<PeerWarning>
    decreases hs.len(),
{
    if hs.len() == 0 {
        Seq::empty()
    } else {
        summary_warnings(dag, hs.drop_last()) + head_warnings(dag, hs.last())
    }
}

/// Our events to push for the remote heads `hs`, in order.
pub open spec fn summary_push(dag: &EventDag, hs: Seq<AuthorHead>) -> Seq<EventHash>
    decreases hs.len(),
{
    if hs.len() == 0 {
        Seq::empty()
    } else {
        summary_push(dag, hs.drop_last()) + head_push(dag, hs.last())
    }
}

/// The whole chains of the authors of `order` that are not in `remote`,
/// in order.
pub open spec fn lacked_push(dag: &EventDag, order: Seq<AuthorPubkey>, remote: Set<AuthorPubkey>) -> Seq<EventHash>
    decreases order.len(),
{
    if order.len() == 0 {
        Seq::empty()
    } else {
        lacked_push(dag, order.drop_last(), remote) + if remote.contains(order.last()) {
            Seq::empty()
        } else {
            chain_range(dag.chains()[order.last()], 1, dag.chains()[order.last()].head_seq)
        }
    }
}

/// The peers recorded for `a` in `m` (none when unknown).
pub open spec fn peers_in(m: Map<AuthorPubkey, Seq<PeerPubkey>>, a: AuthorPubkey) -> Seq<PeerPubkey> {
    if m.contains_key(a) {
        m[a]
    } else {
        Seq::empty()
    }
}

/// `m` after recording `peer` for the author of each head of `hs`, in
/// order.
pub open spec fn recorded(m: Map<AuthorPubkey, Seq<PeerPubkey>>, peer: PeerPubkey, hs: Seq<AuthorHead>) -> Map<
    AuthorPubkey,
    Seq<PeerPubkey>,
>
    decreases hs.len(),
{
    if hs.len() == 0 {
        m
    } else {
        let m1 = recorded(m, peer, hs.drop_last());
        m1.insert(hs.last().author, promote(peers_in(m1, hs.last().author), peer))
    }
}

/// The fuel-table warning owed for a remote version.
pub open spec fn fuel_warnings(local_version: u32, remote_version: u32) -> Seq<PeerWarning> {
    if local_version == remote_version {
        Seq::empty()
    } else {
        seq![PeerWarning::KernelFuelTableMismatch { peer: None, remote_version, local_version }]
    }
}

/// What the caller does after [`EventIngest::handle_heads_summary`].
#[derive(Clone, Debug, PartialEq, Eq)]
pub struct HeadsPlan {
    /// Backfill requests for the authors on which we are behind, in the
    /// order of the summary.
    pub requests: Vec<EventRequest>,
    /// The peer to ask: the signer, unless there is nothing to ask or
    /// the summary is our own.
    pub backfill_from: Option<PeerPubkey>,
    /// Wire hashes of our events to publish, in order.
    pub push: Vec<EventHash>,
}

/// A hash whose bytes are all zero is the zero hash.
proof fn lemma_zero_hash(z: EventHash)
    requires
        z.spec_is_zero(),
    ensures
        z == zero_hash(),
{
    assert(zero_hash().spec_is_zero());
    <EventHash as Id32>::lemma_id(z, zero_hash());
}

/// The authors of the heads `hs`.
pub open spec fn authors_of(hs: Seq<AuthorHead>) -> Set<AuthorPubkey> {
    Set::new(|a: AuthorPubkey| exists|k: int| 0 <= k < hs.len() && #[trigger] hs[k].author == a)
}

/// Append the hashes at seqs `from..=to` of the chain `c`.
fn push_chain_range(c: &AuthorChain, from: u64, to: u64, out: &mut Vec<EventHash>)
    requires
        c.wf(),
        1 <= from,
        to <= c.head_seq,
    ensures
        final(out)@ == old(out)@ + chain_range(*c, from, to),
{
    if from > to {
        assert(old(out)@ + chain_range(*c, from, to) =~= old(out)@);
        return;
    }
    let ghost base = old(out)@;
    let ghost range = chain_range(*c, from, to);
    let n: u64 = to - from + 1;
    let mut k: u64 = 0;
    while k < n
        invariant
            c.wf(),
            1 <= from <= to <= c.head_seq,
            n == to - from + 1,
            range == chain_range(*c, from, to),
            k <= n,
            out@ == base + range.take(k as int),
        decreases n - k,
    {
        let s: u64 = from + k;
        match c.seq_to_hash.get(&s) {
            Some(h) => {
                out.push(*h);
            },
            None => {},
        }
        proof {
            assert(range.take(k + 1) =~= range.take(k as int).push(range[k as int]));
        }
        k = k + 1;
    }
    assert(range.take(n as int) =~= range);
}

/// The event that `key` authors on `dag` with these deps, clock and
/// payload: at the author's next slot, signed over its body hash.
pub open spec fn authored_view(key: AuthorKeypair, dag: &EventDag, deps: Seq<EventHash>, hlc: Hlc, payload: Seq<u8>) -> EventView {
    let body = EventView {
        author: key.author_key(),
        seq: (head_seq_of(dag, key.author_key()) + 1) as u64,
        prev: slot_prev(dag, key.author_key()),
        deps,
        hlc,
        payload,
        signature: Seq::empty(),
    };
    EventView { signature: ed25519_signature(key.seed(), body_hash_of(body)), ..body }
}

/// An event with the fields of the authored slot and the author's
/// signature over its body hash is the authored event.
proof fn lemma_authored_view(key: AuthorKeypair, dag: &EventDag, ev: EventView)
    requires
        ev.author == key.author_key(),
        ev.seq == head_seq_of(dag, key.author_key()) + 1,
        ev.prev == slot_prev(dag, key.author_key()),
        ev.signature == ed25519_signature(key.seed(), body_hash_of(ev)),
    ensures
        ev == authored_view(key, dag, ev.deps, ev.hlc, ev.payload),
{
    let body = EventView { signature: Seq::empty(), ..ev };
    assert(crate::event::signed_body_bytes(body) =~= crate::event::signed_body_bytes(ev));
}

/// Whether a drained event is accounted for: it is in the DAG, or an
/// equivocation flag or a drain-anomaly warning names its author and
/// seq.
pub open spec fn accounted(
    dag: &EventDag,
    flags: Seq<EquivocationFlag>,
    warnings: Seq<PeerWarning>,
    ev: EventView,
) -> bool {
    ||| dag.knows(wire_hash_of(ev))
    ||| exists|i: int| 0 <= i < flags.len() && #[trigger] flags[i].author == ev.author && flags[i].seq == ev.seq
    ||| exists|i: int|
        0 <= i < warnings.len() && (#[trigger] warnings[i] matches PeerWarning::PendingDrainAnomaly { author, seq, .. }
            && author == ev.author && seq == ev.seq)
}

/// Whether every entry of the buffer `before` is still buffered in
/// `after`, or was ready and is accounted for.
pub open spec fn drained_from(
    before: Seq<PendingItem>,
    after: Seq<PendingItem>,
    dag: &EventDag,
    flags: Seq<EquivocationFlag>,
    warnings: Seq<PeerWarning>,
) -> bool {
    forall|x: PendingItem| #[trigger]
        before.contains(x) ==> after.contains(x) || (is_ready(x, dag.events().dom()) && accounted(
            dag,
            flags,
            warnings,
            x.event,
        ))
}

/// Being accounted for survives a DAG that only grows and records that
/// are only appended to.
proof fn lemma_accounted_grows(
    d1: &EventDag,
    f1: Seq<EquivocationFlag>,
    w1: Seq<PeerWarning>,
    d2: &EventDag,
    f2: Seq<EquivocationFlag>,
    w2: Seq<PeerWarning>,
    ev: EventView,
)
    requires
        accounted(d1, f1, w1, ev),
        forall|h: EventHash| #[trigger] d1.events().contains_key(h) ==> d2.events().contains_key(h),
        f1.len() <= f2.len(),
        f2.subrange(0, f1.len() as int) == f1,
        w1.len() <= w2.len(),
        w2.subrange(0, w1.len() as int) == w1,
    ensures
        accounted(d2, f2, w2, ev),
{
    if d1.knows(wire_hash_of(ev)) {
        let h = choose|h: EventHash| #[trigger] d1.events().contains_key(h) && h.bytes@ == wire_hash_of(ev);
        assert(d2.events().contains_key(h));
    } else if exists|i: int| 0 <= i < f1.len() && #[trigger] f1[i].author == ev.author && f1[i].seq == ev.seq {
        let i = choose|i: int| 0 <= i < f1.len() && #[trigger] f1[i].author == ev.author && f1[i].seq == ev.seq;
        assert(f2.subrange(0, f1.len() as int)[i] == f2[i]);
        assert(f2[i].author == ev.author);
    } else {
        let i = choose|i: int|
            0 <= i < w1.len() && (#[trigger] w1[i] matches PeerWarning::PendingDrainAnomaly { author, seq, .. }
                && author == ev.author && seq == ev.seq);
        assert(w2.subrange(0, w1.len() as int)[i] == w2[i]);
        assert(w2[i] == w1[i]);
    }
}

/// Processing the ready entry at `i` keeps every earlier entry buffered,
/// pending in the rest of the ready run, or ready and accounted for.
proof fn lemma_drained_step(
    p_init: Seq<PendingItem>,
    items: Seq<PendingItem>,
    rs: Seq<PendingItem>,
    i: int,
    k_at: Set<EventHash>,
    d1: &EventDag,
    f1: Seq<EquivocationFlag>,
    w1: Seq<PeerWarning>,
    d2: &EventDag,
    f2: Seq<EquivocationFlag>,
    w2: Seq<PeerWarning>,
)
    requires
        0 <= i < rs.len(),
        forall|x: PendingItem| #[trigger]
            p_init.contains(x) ==> items.contains(x) || rs.subrange(i, rs.len() as int).contains(x) || (is_ready(
                x,
                d1.events().dom(),
            ) && accounted(d1, f1, w1, x.event)),
        forall|h: EventHash| k_at.contains(h) ==> #[trigger] d1.events().contains_key(h),
        is_ready(rs[i], k_at),
        accounted(d2, f2, w2, rs[i].event),
        forall|h: EventHash| #[trigger] d1.events().contains_key(h) ==> d2.events().contains_key(h),
        f1.len() <= f2.len(),
        f2.subrange(0, f1.len() as int) == f1,
        w1.len() <= w2.len(),
        w2.subrange(0, w1.len() as int) == w1,
    ensures
        forall|x: PendingItem| #[trigger]
            p_init.contains(x) ==> items.contains(x) || rs.subrange(i + 1, rs.len() as int).contains(x) || (
            is_ready(x, d2.events().dom()) && accounted(d2, f2, w2, x.event)),
{
    assert forall|x: PendingItem| #[trigger] p_init.contains(x) implies items.contains(x) || rs.subrange(
        i + 1,
        rs.len() as int,
    ).contains(x) || (is_ready(x, d2.events().dom()) && accounted(d2, f2, w2, x.event)) by {
        if !items.contains(x) {
            if rs.subrange(i, rs.len() as int).contains(x) {
                let k = choose|k: int| 0 <= k < rs.len() - i && rs.subrange(i, rs.len() as int)[k] == x;
                if k == 0 {
                    assert(x == rs[i]);
                    assert forall|h: EventHash| x.missing.contains(h) implies d2.events().dom().contains(h) by {
                        assert(k_at.contains(h));
                        assert(d1.events().contains_key(h));
                    }
                } else {
                    assert(rs.subrange(i + 1, rs.len() as int)[k - 1] == x);
                }
            } else {
                lemma_accounted_grows(d1, f1, w1, d2, f2, w2, x.event);
                assert forall|h: EventHash| x.missing.contains(h) implies d2.events().dom().contains(h) by {
                    assert(d1.events().contains_key(h));
                }
            }
        }
    }
}

/// The prev of `a`'s next event: its head hash, or the zero hash before
/// its first event.
pub open spec fn slot_prev(dag: &EventDag, a: AuthorPubkey) -> EventHash {
    if head_seq_of(dag, a) == 0 {
        zero_hash()
    } else {
        dag.chains()[a].head_hash
    }
}

/// The slot `(seq, prev)` of `author`'s next event: right after the
/// head of its chain, or seq 1 after the zero hash.
pub fn next_slot(dag: &EventDag, author: &AuthorPubkey) -> (r: (u64, EventHash))
    requires
        dag.wf(),
        dag.size() < u64::MAX,
    ensures
        r.0 == head_seq_of(dag, *author) + 1,
        r.1 == slot_prev(dag, *author),
{
    proof {
        dag.lemma_head_seq_bounded(*author);
    }
    match dag.author_chain(author) {
        Some(c) => {
            if c.head_seq == 0 {
                let z = EventHash::zero();
                proof {
                    lemma_zero_hash(z);
                }
                (1, z)
            } else {
                (c.head_seq + 1, c.head_hash)
            }
        },
        None => {
            let z = EventHash::zero();
            proof {
                lemma_zero_hash(z);
            }
            (1, z)
        },
    }
}

/// The wire hashes served for one direct backfill request: none for an
/// inverted range, a range over [`PAGE_EVENTS`] events, or an unknown
/// author; else the author's hashes at the seqs of the range that its
/// chain holds, in order.
pub open spec fn served_for(dag: &EventDag, r: EventRequest) -> Seq<EventHash> {
    if r.to_seq < r.from_seq || r.to_seq - r.from_seq > PAGE_EVENTS - 1 || !dag.chains().contains_key(r.author) {
        Seq::empty()
    } else {
        let c = dag.chains()[r.author];
        chain_range(
            c,
            if r.from_seq < 1 { 1 } else { r.from_seq },
            if r.to_seq > c.head_seq { c.head_seq } else { r.to_seq },
        )
    }
}

/// The wire hashes served for the requests `rs`, in order.
pub open spec fn served(dag: &EventDag, rs: Seq<EventRequest>) -> Seq<EventHash>
    decreases rs.len(),
{
    if rs.len() == 0 {
        Seq::empty()
    } else {
        served(dag, rs.drop_last()) + served_for(dag, rs.last())
    }
}

/// How to carry out a [`Recovery::ChainGap`].
#[derive(Clone, Debug, PartialEq, Eq)]
pub enum GapPlan {
    /// The range is empty: nothing to request.
    Nothing,
    /// No peer is known to serve the author: publish our heads summary.
    PublishHeads,
    /// Ask `peer` for these pages of the author's chain.
    Backfill {
        /// The peer that most recently advertised the author.
        peer: PeerPubkey,
        /// The page requests, in order.
        requests: Vec<EventRequest>,
    },
}

/// The plan for backfilling `author`'s seqs `from_seq..=to_seq`: nothing
/// for an empty or inverted range (or one ending at zero); a heads
/// summary when no peer is known for the author; else the pages of the
/// range, asked of the peer that most recently advertised the author.
pub fn plan_chain_gap(index: &PeerAuthorityIndex, author: AuthorPubkey, from_seq: u64, to_seq: u64) -> (r:
    GapPlan)
    requires
        index.wf(),
    ensures
        to_seq < from_seq || to_seq == 0 ==> r == GapPlan::Nothing,
        !(to_seq < from_seq || to_seq == 0) && index.peers_of(author).len() == 0 ==> r == GapPlan::PublishHeads,
        !(to_seq < from_seq || to_seq == 0) && index.peers_of(author).len() > 0 ==> {
            &&& r matches GapPlan::Backfill { peer, requests }
            &&& peer == index.peers_of(author)[0]
            &&& requests@ == pages(author, from_seq, to_seq)
        },
{
    if to_seq < from_seq || to_seq == 0 {
        return GapPlan::Nothing;
    }
    match index.lookup(&author) {
        None => GapPlan::PublishHeads,
        Some(peer) => {
            let mut requests: Vec<EventRequest> = Vec::new();
            paginate_into(author, from_seq, to_seq, &mut requests);
            assert(requests@ =~= pages(author, from_seq, to_seq));
            GapPlan::Backfill { peer, requests }
        },
    }
}

/// The text of the reason recorded when re-inserting a drained event
/// fails with `err`: a fixed prefix, then the error's kind (and, for a
/// genesis error, its message).
pub open spec fn drain_error_text(err: DagError) -> Seq<char> {
    "pending-drain insert error: "@ + match err {
        DagError::InvalidSignature => "InvalidSignature"@,
        DagError::InvalidGenesis(msg) => "InvalidGenesis: "@ + msg@,
        DagError::InvalidTopic { .. } => "InvalidTopic"@,
        DagError::InvalidChain { .. } => "InvalidChain"@,
        DagError::Equivocation { .. } => "Equivocation"@,
    }
}

/// The reason recorded when re-inserting a drained event fails.
fn drain_error_reason(err: &DagError) -> (r: String)
    ensures
        r@ == drain_error_text(*err),
{
    let mut reason = "pending-drain insert error: ".to_owned();
    match err {
        DagError::InvalidSignature => reason.append("InvalidSignature"),
        DagError::InvalidGenesis(msg) => {
            reason.append("InvalidGenesis: ");
            reason.append(msg);
        },
        DagError::InvalidTopic { .. } => reason.append("InvalidTopic"),
        DagError::InvalidChain { .. } => reason.append("InvalidChain"),
        DagError::Equivocation { .. } => reason.append("Equivocation"),
    }
    reason
}

/// What feeding `event` to the intake `before` gives: the intake
/// `after` and the action `r` (see [`EventIngest::handle_event`]).
pub open spec fn ingest_outcome(before: EventIngest, event: Event, after: EventIngest, r: IngestAction) -> bool {
    &&& (after.wf())
    &&& (after.dag_state().topic() == before.dag_state().topic())
    &&& (after.dag_state().bundle() == before.dag_state().bundle())
    &&& (after.dag_state().name_bytes() == before.dag_state().name_bytes())
    &&& (after.buffer_state().config() == before.buffer_state().config())
    &&& (before.flags().len() <= after.flags().len())
    &&& (after.flags().subrange(0, before.flags().len() as int) =~= before.flags())
    &&& (before.warnings_seq().len() <= after.warnings_seq().len())
    &&& (after.warnings_seq().subrange(0, before.warnings_seq().len() as int) =~= before.warnings_seq())
    &&& (!admissible(&before.dag_state(), event@) ==> {
        &&& after.dag_state().events() == before.dag_state().events()
        &&& after.dag_state().chains() == before.dag_state().chains()
        &&& after.dag_state().size() == before.dag_state().size()
        &&& after.dag_state().order() == before.dag_state().order()
        &&& after.buffer_state().items() == before.buffer_state().items()
        &&& after.warnings_seq() == before.warnings_seq()
    })
    &&& (signature_ok(event@) && !before.dag_state().knows(wire_hash_of(event@)) && genesis_ok(
        &before.dag_state(),
        event@,
    ) && equivocates(&before.dag_state(), event@) ==> {
        &&& r == IngestAction::Ignored
        &&& after.flags().len() == before.flags().len() + 1
        &&& after.flags().last().author == event.author
        &&& after.flags().last().seq == event.seq
        &&& after.flags().last().local_hash == before.dag_state().chains()[event.author].seq_to_hash@[event.seq]
        &&& after.flags().last().remote_hash.bytes@ == wire_hash_of(event@)
        &&& after.flags().last().peer is None
    })
    &&& (signature_ok(event@) && !before.dag_state().knows(wire_hash_of(event@)) && genesis_ok(
        &before.dag_state(),
        event@,
    ) && !equivocates(&before.dag_state(), event@) && event.seq > head_seq_of(
        &before.dag_state(),
        event.author,
    ) + 1 ==> {
        &&& r == (IngestAction::ChainSkip {
            author: event.author,
            from_seq: (head_seq_of(&before.dag_state(), event.author) + 1) as u64,
            to_seq: (event.seq - 1) as u64,
        })
        &&& after.flags() == before.flags()
    })
    &&& (!admissible(&before.dag_state(), event@) && !(signature_ok(event@) && !before.dag_state().knows(
        wire_hash_of(event@),
    ) && genesis_ok(&before.dag_state(), event@) && (equivocates(&before.dag_state(), event@)
        || event.seq > head_seq_of(&before.dag_state(), event.author) + 1)) ==> {
        &&& r == IngestAction::Ignored
        &&& after.flags() == before.flags()
    })
    &&& (admissible(&before.dag_state(), event@) && !missing_deps(&before.dag_state(), event@).is_empty() ==> {
        &&& r == IngestAction::Buffered(Recovery::HeadsSummary)
        &&& after.dag_state().events() == before.dag_state().events()
        &&& after.dag_state().order() == before.dag_state().order()
        &&& after.dag_state().chains() == before.dag_state().chains()
        &&& after.dag_state().size() == before.dag_state().size()
        &&& after.flags() == before.flags()
        &&& after.warnings_seq() == before.warnings_seq()
        &&& exists|now: u64|
            placed(
                make_room(
                    #[trigger] unexpired(
                        before.buffer_state().items(),
                        now,
                        before.buffer_state().config().ttl_nanos,
                    ),
                    before.buffer_state().config(),
                    event.author,
                ),
                event@,
                missing_deps(&before.dag_state(), event@),
                now,
                after.buffer_state().items(),
            )
    })
    &&& (admissible(&before.dag_state(), event@) && missing_deps(&before.dag_state(), event@).is_empty() ==> {
        &&& r matches IngestAction::Applied { topo_index, hash, drained }
        &&& after.dag_state().knows(wire_hash_of(event@))
        &&& forall|h: EventHash| #[trigger]
            before.dag_state().events().contains_key(h) ==> after.dag_state().events().contains_key(h)
                && after.dag_state().events()[h] == before.dag_state().events()[h]
        &&& forall|h: EventHash| #[trigger]
            after.dag_state().events().contains_key(h) ==> before.dag_state().events().contains_key(h)
                || after.dag_state().events()[h] == event@ || exists|k: int|
                0 <= k < before.buffer_state().items().len()
                    && #[trigger] before.buffer_state().items()[k].event == after.dag_state().events()[h]
        &&& forall|i: int|
            0 <= i < after.buffer_state().items().len() ==> before.buffer_state().items().contains(
                #[trigger] after.buffer_state().items()[i],
            )
        &&& forall|i: int|
            0 <= i < after.buffer_state().items().len() ==> !is_ready(
                #[trigger] after.buffer_state().items()[i],
                after.dag_state().events().dom(),
            )
        &&& after.dag_state().size() == before.dag_state().size() + 1 + drained
        &&& topo_index == after.dag_state().size() - 1
        &&& after.dag_state().events().contains_key(hash)
        &&& after.dag_state().order()[topo_index as int] == hash
        &&& after.dag_state().order().subrange(0, before.dag_state().order().len() as int)
            =~= before.dag_state().order()
        &&& drained == 0 ==> hash.bytes@ == wire_hash_of(event@)
        &&& drained_from(
            before.buffer_state().items(),
            after.buffer_state().items(),
            &after.dag_state(),
            after.flags(),
            after.warnings_seq(),
        )
    })
}

/// What authoring gives (see [`EventIngest::author`]): from the intake
/// `before`, the component's call records `cb` and `db` and the clock
/// counter `hlc_before`, to `after`, `ca`, `da`, `hlc_after` and the
/// answer `r`, for `key`, the dry-run state `state`, `payload`, `deps`
/// and the wall clock `wall_ms`.
pub open spec fn author_outcome(
    before: EventIngest,
    key: Option<&AuthorKeypair>,
    cb: Seq<(Seq<u8>, Seq<u8>, ApplyAnswer)>,
    db: Seq<(Seq<u8>, Result<Seq<u8>, ApplyError>)>,
    state: Seq<u8>,
    payload: Seq<u8>,
    deps: Seq<EventHash>,
    wall_ms: u64,
    hlc_before: u32,
    after: EventIngest,
    ca: Seq<(Seq<u8>, Seq<u8>, ApplyAnswer)>,
    da: Seq<(Seq<u8>, Result<Seq<u8>, ApplyError>)>,
    hlc_after: u32,
    r: Result<(Event, Inserted), RuntimeError>,
) -> bool {
    &&& (after.wf())
    &&& (after.dag_state().topic() == before.dag_state().topic())
    &&& (after.dag_state().bundle() == before.dag_state().bundle())
    &&& (after.dag_state().name_bytes() == before.dag_state().name_bytes())
    &&& (after.buffer_state() == before.buffer_state())
    &&& (after.flags() == before.flags())
    &&& (after.warnings_seq() == before.warnings_seq())
    &&& (key is None ==> {
        &&& r == Err::<(Event, Inserted), RuntimeError>(RuntimeError::ReadOnly)
        &&& hlc_after == hlc_before
        &&& after.dag_state().events() == before.dag_state().events()
    })
    &&& (key is None ==> ca =~= cb)
    &&& (key is Some ==> hlc_after == if hlc_before < u32::MAX {
        (hlc_before + 1) as u32
    } else {
        hlc_before
    })
    &&& (key matches Some(k) ==> {
        let ev = authored_view(
            *k,
            &before.dag_state(),
            deps,
            Hlc { wall_ms, logical: hlc_after },
            payload,
        );
        let d = before.dag_state();
        let ans = ca.last().2;
        &&& ca =~= cb.push((state, envelope_bytes(ev), ans))
        &&& da =~= db
        &&& r != Err::<(Event, Inserted), RuntimeError>(RuntimeError::ReadOnly)
        &&& (r matches Ok((e, _)) ==> e@ == ev)
        &&& (ans matches Err(x) ==> r == Err::<(Event, Inserted), RuntimeError>(RuntimeError::Apply(x)))
        &&& (ans matches Ok((ApplyOutcome::Rejected(x), _)) ==> r == Err::<(Event, Inserted), RuntimeError>(
            RuntimeError::PreCheckRejected(x),
        ))
        &&& (ans matches Ok((ApplyOutcome::Accepted, _)) ==> {
            &&& !signature_ok(ev) ==> r == Err::<(Event, Inserted), RuntimeError>(
                RuntimeError::Dag(DagError::InvalidSignature),
            )
            &&& !admissible(&d, ev) ==> (r matches Err(RuntimeError::Dag(_)) || r matches Ok(
                (_, Inserted::AlreadyKnown),
            ))
            &&& admissible(&d, ev) && !missing_deps(&d, ev).is_empty() ==> (r matches Ok(
                (_, Inserted::Pending(m)),
            ) && m@ == missing_deps(&d, ev))
            &&& admissible(&d, ev) && missing_deps(&d, ev).is_empty() ==> (r matches Ok(
                (_, Inserted::NewlyApplied { .. }),
            ))
        })
        &&& (signature_ok(ev) && ev.seq > 1 ==> admissible(&d, ev) || d.knows(wire_hash_of(ev)))
    })
    &&& (r matches Ok((e, ins)) ==> {
        &&& key matches Some(k)
        &&& e@.author == k.author_key()
        &&& e@.seq == head_seq_of(&before.dag_state(), k.author_key()) + 1
        &&& e@.prev == slot_prev(&before.dag_state(), k.author_key())
        &&& e@.deps == deps
        &&& e@.hlc == (Hlc { wall_ms, logical: hlc_after })
        &&& e@.payload == payload
        &&& e@.signature == ed25519_signature(k.seed(), body_hash_of(e@))
        &&& (ins matches Inserted::NewlyApplied { topo_index, hash } ==> {
            &&& topo_index == before.dag_state().size()
            &&& hash.bytes@ == wire_hash_of(e@)
            &&& after.dag_state().events() =~= before.dag_state().events().insert(hash, e@)
            &&& after.dag_state().order() =~= before.dag_state().order().push(hash)
        })
        &&& (!(ins is NewlyApplied) ==> after.dag_state().events() == before.dag_state().events()
            && after.dag_state().order() == before.dag_state().order())
    })
}

/// The event DAG of a topic with its pending buffer and the anomalies
/// seen while feeding it.
pub struct EventIngest {
    dag: EventDag,
    pending: PendingBuffer,
    equivocations: Vec<EquivocationFlag>,
    warnings: Vec<PeerWarning>,
}

impl EventIngest {
    /// The DAG.
    pub closed spec fn dag_state(&self) -> EventDag {
        self.dag
    }

    /// The pending buffer.
    pub closed spec fn buffer_state(&self) -> PendingBuffer {
        self.pending
    }

    /// The equivocations recorded so far, oldest first.
    pub closed spec fn flags(&self) -> Seq<EquivocationFlag> {
        self.equivocations@
    }

    /// The warnings recorded so far, oldest first.
    pub closed spec fn warnings_seq(&self) -> Seq<PeerWarning> {
        self.warnings@
    }

    /// DAG and buffer are well formed, and every buffered event waits
    /// only for dependencies the DAG lacks.
    pub open spec fn wf(&self) -> bool {
        &&& self.dag_state().wf()
        &&& self.buffer_state().wf()
        &&& buffered_consistently(self.dag_state().events().dom(), self.buffer_state().items())
    }

    /// An empty DAG for `topic` (see [`EventDag::new`]) with an empty
    /// buffer bounded by `cfg`.
    pub fn new(topic: Topic, app_bundle_hash: BundleHash, topic_name: String, cfg: PendingCfg) -> (r: Self)
        ensures
            r.wf(),
            r.dag_state().events() == Map::<EventHash, EventView>::empty(),
            r.dag_state().size() == 0,
            r.dag_state().topic() == topic,
            r.dag_state().bundle() == app_bundle_hash,
            r.dag_state().name_bytes() == vstd::utf8::encode_utf8(topic_name@),
            r.buffer_state().items() == Seq::<PendingItem>::empty(),
            r.buffer_state().config() == cfg,
            r.flags() == Seq::<EquivocationFlag>::empty(),
            r.warnings_seq() == Seq::<PeerWarning>::empty(),
    {
        EventIngest {
            dag: EventDag::new(topic, app_bundle_hash, topic_name),
            pending: PendingBuffer::new(cfg),
            equivocations: Vec::new(),
            warnings: Vec::new(),
        }
    }

    /// The DAG.
    pub fn dag(&self) -> (r: &EventDag)
        ensures
            *r == self.dag_state(),
    {
        &self.dag
    }

    /// The pending buffer.
    pub fn pending(&self) -> (r: &PendingBuffer)
        ensures
            *r == self.buffer_state(),
    {
        &self.pending
    }

    /// The equivocations recorded so far, oldest first.
    pub fn equivocations(&self) -> (r: &[EquivocationFlag])
        ensures
            r@ == self.flags(),
    {
        self.equivocations.as_slice()
    }

    /// The warnings recorded so far, oldest first.
    pub fn peer_warnings(&self) -> (r: &[PeerWarning])
        ensures
            r@ == self.warnings_seq(),
    {
        self.warnings.as_slice()
    }
    /// Re-insert buffered events until none is ready; `(topo_index,
    /// hash)` is the event just applied. Returns the index and hash of
    /// the last applied event and how many buffered events were applied.
    fn drain_pending(&mut self, topo_index: u64, hash: EventHash) -> (r: (u64, EventHash, u64))
        requires
            old(self).wf(),
            old(self).dag_state().size() + old(self).buffer_state().items().len() < u64::MAX,
            old(self).dag_state().size() >= 1,
            topo_index == old(self).dag_state().size() - 1,
            old(self).dag_state().events().contains_key(hash),
            old(self).dag_state().order()[topo_index as int] == hash,
        ensures
            final(self).dag_state().order().len() == final(self).dag_state().size(),
            final(self).dag_state().order()[r.0 as int] == r.1,
            final(self).dag_state().order().subrange(0, old(self).dag_state().order().len() as int)
                == old(self).dag_state().order(),
            final(self).wf(),
            final(self).dag_state().topic() == old(self).dag_state().topic(),
            final(self).dag_state().bundle() == old(self).dag_state().bundle(),
            final(self).dag_state().name_bytes() == old(self).dag_state().name_bytes(),
            final(self).buffer_state().config() == old(self).buffer_state().config(),
            forall|h: EventHash| #[trigger]
                old(self).dag_state().events().contains_key(h) ==> final(self).dag_state().events().contains_key(h)
                    && final(self).dag_state().events()[h] == old(self).dag_state().events()[h],
            forall|h: EventHash| #[trigger]
                final(self).dag_state().events().contains_key(h) ==> old(self).dag_state().events().contains_key(h)
                    || exists|k: int|
                    0 <= k < old(self).buffer_state().items().len()
                        && #[trigger] old(self).buffer_state().items()[k].event == final(self).dag_state().events()[h],
            forall|i: int|
                0 <= i < final(self).buffer_state().items().len() ==> old(self).buffer_state().items().contains(
                    #[trigger] final(self).buffer_state().items()[i],
                ),
            forall|i: int|
                0 <= i < final(self).buffer_state().items().len() ==> !is_ready(
                    #[trigger] final(self).buffer_state().items()[i],
                    final(self).dag_state().events().dom(),
                ),
            final(self).dag_state().size() == old(self).dag_state().size() + r.2,
            r.0 == final(self).dag_state().size() - 1,
            final(self).dag_state().events().contains_key(r.1),
            r.2 == 0 ==> r.1 == hash,
            old(self).flags().len() <= final(self).flags().len(),
            final(self).flags().subrange(0, old(self).flags().len() as int) == old(self).flags(),
            old(self).warnings_seq().len() <= final(self).warnings_seq().len(),
            final(self).warnings_seq().subrange(0, old(self).warnings_seq().len() as int) == old(self).warnings_seq(),
            drained_from(
                old(self).buffer_state().items(),
                final(self).buffer_state().items(),
                &final(self).dag_state(),
                final(self).flags(),
                final(self).warnings_seq(),
            ),
    {
        let ghost d_init = self.dag.events();
        let ghost p_init = self.pending.items();
        let ghost f_init = self.equivocations@;
        let ghost w_init = self.warnings@;
        let ghost size_init = self.dag.size();
        let ghost order_init = self.dag.order();
        proof {
            self.dag.lemma_order_lists_events();
        }
        let mut last_index = topo_index;
        let mut last_hash = hash;
        let mut drained: u64 = 0;
        loop
            invariant
                self.dag.wf(),
                self.pending.wf(),
                buffered_consistently(self.dag.events().dom(), self.pending.items()),
                self.dag.topic() == old(self).dag.topic(),
                self.dag.bundle() == old(self).dag.bundle(),
                self.dag.name_bytes() == old(self).dag.name_bytes(),
                self.pending.config() == old(self).pending.config(),
                d_init == old(self).dag.events(),
                p_init == old(self).pending.items(),
                f_init == old(self).equivocations@,
                w_init == old(self).warnings@,
                size_init == old(self).dag.size(),
                size_init + p_init.len() < u64::MAX,
                self.dag.size() + self.pending.items().len() <= size_init + p_init.len(),
                self.dag.size() == size_init + drained,
                last_index == self.dag.size() - 1,
                self.dag.events().contains_key(last_hash),
                self.dag.order().len() == self.dag.size(),
                self.dag.order()[last_index as int] == last_hash,
                order_init == old(self).dag.order(),
                order_init.len() == size_init,
                self.dag.order().subrange(0, order_init.len() as int) == order_init,
                drained == 0 ==> last_hash == hash,
                forall|h: EventHash| #[trigger]
                    d_init.contains_key(h) ==> self.dag.events().contains_key(h) && self.dag.events()[h] == d_init[h],
                forall|h: EventHash| #[trigger]
                    self.dag.events().contains_key(h) ==> d_init.contains_key(h) || exists|k: int|
                        0 <= k < p_init.len() && #[trigger] p_init[k].event == self.dag.events()[h],
                forall|i: int| 0 <= i < self.pending.items().len() ==> p_init.contains(#[trigger] self.pending.items()[i]),
                f_init.len() <= self.equivocations@.len(),
                self.equivocations@.subrange(0, f_init.len() as int) == f_init,
                w_init.len() <= self.warnings@.len(),
                self.warnings@.subrange(0, w_init.len() as int) == w_init,
                drained_from(p_init, self.pending.items(), &self.dag, self.equivocations@, self.warnings@),
            ensures
                self.dag.wf(),
                self.pending.wf(),
                buffered_consistently(self.dag.events().dom(), self.pending.items()),
                self.dag.topic() == old(self).dag.topic(),
                self.dag.bundle() == old(self).dag.bundle(),
                self.dag.name_bytes() == old(self).dag.name_bytes(),
                self.pending.config() == old(self).pending.config(),
                self.dag.size() == size_init + drained,
                last_index == self.dag.size() - 1,
                self.dag.events().contains_key(last_hash),
                self.dag.order().len() == self.dag.size(),
                self.dag.order()[last_index as int] == last_hash,
                order_init == old(self).dag.order(),
                order_init.len() == size_init,
                self.dag.order().subrange(0, order_init.len() as int) == order_init,
                drained == 0 ==> last_hash == hash,
                forall|h: EventHash| #[trigger]
                    d_init.contains_key(h) ==> self.dag.events().contains_key(h) && self.dag.events()[h] == d_init[h],
                forall|h: EventHash| #[trigger]
                    self.dag.events().contains_key(h) ==> d_init.contains_key(h) || exists|k: int|
                        0 <= k < p_init.len() && #[trigger] p_init[k].event == self.dag.events()[h],
                forall|i: int| 0 <= i < self.pending.items().len() ==> p_init.contains(#[trigger] self.pending.items()[i]),
                forall|i: int|
                    0 <= i < self.pending.items().len() ==> !is_ready(
                        #[trigger] self.pending.items()[i],
                        self.dag.events().dom(),
                    ),
                f_init.len() <= self.equivocations@.len(),
                self.equivocations@.subrange(0, f_init.len() as int) == f_init,
                w_init.len() <= self.warnings@.len(),
                self.warnings@.subrange(0, w_init.len() as int) == w_init,
                drained_from(p_init, self.pending.items(), &self.dag, self.equivocations@, self.warnings@),
            decreases self.pending.items().len(),
        {
            let known = self.dag.known_hashes();
            let ghost p_before = self.pending.items();
            let ghost k_at = known@;
            let ready = self.pending.newly_satisfied(&known);
            proof {
                lemma_newly_satisfied_partition(p_before, k_at);
            }
            let ghost rs = ready_items(p_before, k_at);
            let ghost take = |it: PendingItem| is_ready(it, k_at);
            let ghost keep = |it: PendingItem| !is_ready(it, k_at);
            proof {
                assert forall|i: int| 0 <= i < self.pending.items().len() implies p_init.contains(
                    #[trigger] self.pending.items()[i],
                ) by {
                    let x = self.pending.items()[i];
                    assert(p_before.filter(keep).contains(x));
                    p_before.lemma_filter_contains_rev(keep, x);
                }
                assert forall|i: int| 0 <= i < self.pending.items().len() implies waits_only_for_missing(
                    k_at,
                    #[trigger] self.pending.items()[i],
                ) by {
                    let x = self.pending.items()[i];
                    assert(p_before.filter(keep).contains(x));
                    p_before.lemma_filter_contains_rev(keep, x);
                    let k = choose|k: int| 0 <= k < p_before.len() && p_before[k] == x;
                    assert(waits_only_for_missing(k_at, p_before[k]));
                }
            }
            proof {
                assert forall|x: PendingItem| #[trigger] p_init.contains(x) implies self.pending.items().contains(x)
                    || rs.subrange(0, rs.len() as int).contains(x) || (is_ready(x, self.dag.events().dom())
                    && accounted(&self.dag, self.equivocations@, self.warnings@, x.event)) by {
                    if p_before.contains(x) && !(is_ready(x, self.dag.events().dom()) && accounted(
                        &self.dag,
                        self.equivocations@,
                        self.warnings@,
                        x.event,
                    )) {
                        let k = choose|k: int| 0 <= k < p_before.len() && p_before[k] == x;
                        if is_ready(x, k_at) {
                            p_before.lemma_filter_contains(take, k);
                            assert(rs.subrange(0, rs.len() as int) =~= rs);
                        } else {
                            p_before.lemma_filter_contains(keep, k);
                        }
                    }
                }
            }
            if ready.len() == 0 {
                proof {
                    assert(rs.subrange(0, rs.len() as int).len() == 0);
                }
                break;
            }
            proof {
                assert forall|j: int, d: EventHash|
                    0 <= j < rs.len() && #[trigger] rs[j].event.deps.contains(d) implies self.dag.events().contains_key(d) by {
                    let x = rs[j];
                    assert(p_before.filter(take).contains(x));
                    p_before.lemma_filter_contains_rev(take, x);
                    let k = choose|k: int| 0 <= k < p_before.len() && p_before[k] == x;
                    assert(waits_only_for_missing(k_at, p_before[k]));
                    assert(x.missing.subset_of(k_at));
                }
                assert forall|j: int| 0 <= j < rs.len() implies p_init.contains(#[trigger] rs[j]) by {
                    let x = rs[j];
                    assert(p_before.filter(take).contains(x));
                    p_before.lemma_filter_contains_rev(take, x);
                    let k = choose|k: int| 0 <= k < p_before.len() && p_before[k] == x;
                    assert(p_init.contains(p_before[k]));
                }
            }
            proof {
                assert forall|j: int| 0 <= j < rs.len() implies is_ready(#[trigger] rs[j], k_at) by {
                    let x = rs[j];
                    assert(p_before.filter(take).contains(x));
                    p_before.lemma_filter_contains_rev(take, x);
                }
            }
            let mut i: usize = 0;
            while i < ready.len()
                invariant
                    self.dag.wf(),
                    self.pending.wf(),
                    self.pending.items() == waiting_items(p_before, k_at),
                    buffered_consistently(self.dag.events().dom(), self.pending.items()),
                    self.dag.topic() == old(self).dag.topic(),
                    self.dag.bundle() == old(self).dag.bundle(),
                    self.dag.name_bytes() == old(self).dag.name_bytes(),
                    self.pending.config() == old(self).pending.config(),
                    d_init == old(self).dag.events(),
                    p_init == old(self).pending.items(),
                    f_init == old(self).equivocations@,
                    w_init == old(self).warnings@,
                    size_init == old(self).dag.size(),
                    size_init + p_init.len() < u64::MAX,
                    rs == ready_items(p_before, k_at),
                    ready@.len() == rs.len(),
                    forall|j: int| 0 <= j < ready@.len() ==> (#[trigger] ready@[j])@ == rs[j].event,
                    rs.len() + self.pending.items().len() == p_before.len(),
                    i <= ready@.len(),
                    self.dag.size() + self.pending.items().len() + (rs.len() - i) <= size_init + p_init.len(),
                    self.dag.size() == size_init + drained,
                    last_index == self.dag.size() - 1,
                    self.dag.events().contains_key(last_hash),
                    self.dag.order().len() == self.dag.size(),
                    self.dag.order()[last_index as int] == last_hash,
                    order_init == old(self).dag.order(),
                    order_init.len() == size_init,
                    self.dag.order().subrange(0, order_init.len() as int) == order_init,
                    drained == 0 ==> last_hash == hash,
                    forall|j: int, d: EventHash|
                        0 <= j < rs.len() && #[trigger] rs[j].event.deps.contains(d) ==> self.dag.events().contains_key(d),
                    forall|j: int| 0 <= j < rs.len() ==> p_init.contains(#[trigger] rs[j]),
                    forall|h: EventHash| #[trigger]
                        d_init.contains_key(h) ==> self.dag.events().contains_key(h) && self.dag.events()[h] == d_init[h],
                    forall|h: EventHash| #[trigger]
                        self.dag.events().contains_key(h) ==> d_init.contains_key(h) || exists|k: int|
                            0 <= k < p_init.len() && #[trigger] p_init[k].event == self.dag.events()[h],
                    forall|i: int| 0 <= i < self.pending.items().len() ==> p_init.contains(#[trigger] self.pending.items()[i]),
                    f_init.len() <= self.equivocations@.len(),
                    self.equivocations@.subrange(0, f_init.len() as int) == f_init,
                    w_init.len() <= self.warnings@.len(),
                    self.warnings@.subrange(0, w_init.len() as int) == w_init,
                    forall|h: EventHash| k_at.contains(h) ==> #[trigger] self.dag.events().contains_key(h),
                    forall|j: int| 0 <= j < rs.len() ==> is_ready(#[trigger] rs[j], k_at),
                    forall|x: PendingItem| #[trigger]
                        p_init.contains(x) ==> self.pending.items().contains(x) || rs.subrange(i as int, rs.len() as int).contains(
                            x,
                        ) || (is_ready(x, self.dag.events().dom()) && accounted(
                            &self.dag,
                            self.equivocations@,
                            self.warnings@,
                            x.event,
                        )),
                decreases ready@.len() - i,
            {
                let e = ready[i].clone();
                let ghost evj = e@;
                let ghost k_before = self.dag.events().dom();
                let ghost f_before = self.equivocations@;
                let ghost w_before = self.warnings@;
                proof {
                    assert(evj == rs[i as int].event);
                    assert(missing_deps(&self.dag, evj) =~= Set::<EventHash>::empty()) by {
                        assert forall|d: EventHash| #[trigger] evj.deps.to_set().contains(d) implies self.dag.events().contains_key(d) by {
                            assert(rs[i as int].event.deps.contains(d));
                        }
                    }
                }
                let drain_author = e.author;
                let drain_seq = e.seq;
                let ghost order_before = self.dag.order();
                let ghost dag_before = self.dag;
                match self.dag.insert(e.clone()) {
                    Ok(Inserted::NewlyApplied { topo_index: ti, hash: h }) => {
                        proof {
                            assert(p_init.contains(rs[i as int]));
                            let k = choose|k: int| 0 <= k < p_init.len() && p_init[k] == rs[i as int];
                            assert(p_init[k].event == self.dag.events()[h]);
                        }
                        proof {
                            self.dag.lemma_keys_are_wire_hashes(h);
                            assert(self.dag.events().contains_key(h) && h.bytes@ == wire_hash_of(evj));
                        }
                        last_index = ti;
                        last_hash = h;
                        drained = drained + 1;
                        assert(self.dag.order().subrange(0, order_init.len() as int) =~= order_before.subrange(
                            0,
                            order_init.len() as int,
                        ));
                    },
                    Ok(Inserted::AlreadyKnown) => {
                        proof {
                            assert(dag_before.knows(wire_hash_of(evj)));
                            let w = choose|w: EventHash| #[trigger] dag_before.events().contains_key(w) && w.bytes@
                                == wire_hash_of(evj);
                            assert(self.dag.events().contains_key(w));
                        }
                    },
                    Ok(Inserted::Pending(still_missing)) => {
                        self.pending.insert(e, still_missing);
                        self.warnings.push(
                            PeerWarning::PendingDrainAnomaly {
                                author: drain_author,
                                seq: drain_seq,
                                reason: "pending-drain produced Pending(_); re-buffered".to_owned(),
                            },
                        );
                    },
                    Err(DagError::Equivocation { author, seq, local_hash, remote_hash }) => {
                        self.equivocations.push(
                            EquivocationFlag { author, seq, local_hash, remote_hash, peer: None },
                        );
                        assert(self.equivocations@.subrange(0, f_init.len() as int) =~= f_init);
                        proof {
                            let n = self.equivocations@.len() - 1;
                            assert(self.equivocations@[n].author == evj.author && self.equivocations@[n].seq == evj.seq);
                        }
                    },
                    Err(err) => {
                        let reason = drain_error_reason(&err);
                        self.warnings.push(
                            PeerWarning::PendingDrainAnomaly { author: drain_author, seq: drain_seq, reason },
                        );
                        assert(self.warnings@.subrange(0, w_init.len() as int) =~= w_init);
                        proof {
                            let n = self.warnings@.len() - 1;
                            assert(self.warnings@[n] matches PeerWarning::PendingDrainAnomaly { author, seq, .. }
                                && author == evj.author && seq == evj.seq);
                        }
                    },
                }
                proof {
                    lemma_consistency_grows(k_before, self.dag.events().dom(), self.pending.items());
                    assert(self.equivocations@.subrange(0, f_before.len() as int) =~= f_before);
                    assert(self.warnings@.subrange(0, w_before.len() as int) =~= w_before);
                    lemma_drained_step(
                        p_init,
                        self.pending.items(),
                        rs,
                        i as int,
                        k_at,
                        &dag_before,
                        f_before,
                        w_before,
                        &self.dag,
                        self.equivocations@,
                        self.warnings@,
                    );
                }
                i = i + 1;
            }
        }
        (last_index, last_hash, drained)
    }
    /// Feed one inbound event. An applied event triggers a drain of the
    /// buffer; an event that waits for dependencies is buffered; an
    /// equivocation is recorded; an event ahead of its author's chain
    /// asks for the gap; anything else is dropped.
    pub fn handle_event(&mut self, event: Event) -> (r: IngestAction)
        requires
            old(self).wf(),
            old(self).dag_state().size() + old(self).buffer_state().items().len() + 1 < u64::MAX,
        ensures
            ingest_outcome(*old(self), event, *final(self), r),
    {
        let ghost ev = event@;
        let ghost d0 = self.dag.events();
        let ghost p0 = self.pending.items();
        proof {
            self.dag.lemma_order_lists_events();
        }
        match self.dag.insert(event.clone()) {
            Ok(Inserted::NewlyApplied { topo_index, hash }) => {
                proof {
                    lemma_consistency_grows(d0.dom(), self.dag.events().dom(), self.pending.items());
                }
                let ghost d1 = self.dag.events();
                let ghost o1 = self.dag.order();
                let (last_index, last_hash, drained) = self.drain_pending(topo_index, hash);
                proof {
                    let o0 = old(self).dag.order();
                    assert(o1 == o0.push(hash));
                    assert(self.dag.order().subrange(0, o0.len() as int) =~= self.dag.order().subrange(
                        0,
                        o1.len() as int,
                    ).subrange(0, o0.len() as int));
                    assert(d1.contains_key(hash));
                    assert(!d0.contains_key(hash));
                    assert forall|h: EventHash| #[trigger] d0.contains_key(h) implies self.dag.events().contains_key(h)
                        && self.dag.events()[h] == d0[h] by {
                        assert(d1.contains_key(h));
                    }
                    assert(self.dag.events().contains_key(hash) && hash.bytes@ == wire_hash_of(ev));
                    assert forall|h: EventHash| #[trigger] self.dag.events().contains_key(h) implies d0.contains_key(h)
                        || self.dag.events()[h] == ev || exists|k: int|
                        0 <= k < p0.len() && #[trigger] p0[k].event == self.dag.events()[h] by {
                        if d1.contains_key(h) && !d0.contains_key(h) {
                            assert(h == hash);
                        }
                    }
                }
                IngestAction::Applied { topo_index: last_index, hash: last_hash, drained }
            },
            Ok(Inserted::Pending(missing)) => {
                let recovery = missing_recovery(&self.dag, &event);
                let ghost known = self.dag.events().dom();
                self.pending.insert(event, missing);
                proof {
                    let cfg = self.pending.config();
                    let now = choose|now: u64|
                        placed(
                            make_room(#[trigger] unexpired(p0, now, cfg.ttl_nanos), cfg, ev.author),
                            ev,
                            missing@,
                            now,
                            self.pending.items(),
                        );
                    lemma_insert_provenance(p0, cfg, ev, missing@, now, self.pending.items());
                    let s = self.pending.items();
                    assert forall|i: int| 0 <= i < s.len() implies waits_only_for_missing(known, #[trigger] s[i]) by {
                        if p0.contains(s[i]) {
                            let k = choose|k: int| 0 <= k < p0.len() && p0[k] == s[i];
                            assert(waits_only_for_missing(known, p0[k]));
                        } else {
                            assert forall|d: EventHash| #[trigger] s[i].event.deps.contains(d) implies known.contains(d)
                                || s[i].missing.contains(d) by {
                                assert(ev.deps.to_set().contains(d));
                            }
                        }
                    }
                }
                IngestAction::Buffered(recovery)
            },
            Err(DagError::Equivocation { author, seq, local_hash, remote_hash }) => {
                self.equivocations.push(EquivocationFlag { author, seq, local_hash, remote_hash, peer: None });
                assert(self.equivocations@.subrange(0, old(self).equivocations@.len() as int) =~= old(
                    self,
                ).equivocations@);
                IngestAction::Ignored
            },
            Err(DagError::InvalidChain { author, expected_seq, got_seq, .. }) => {
                if got_seq > expected_seq {
                    IngestAction::ChainSkip { author, from_seq: expected_seq, to_seq: got_seq - 1 }
                } else {
                    IngestAction::Ignored
                }
            },
            Ok(Inserted::AlreadyKnown) | Err(_) => IngestAction::Ignored,
        }
    }
    /// What a remote head we are ahead of asks for: when our history has
    /// its hash at its seq, the events after it are pushed; another hash
    /// there is an equivocation; no hash there is reported.
    fn heads_ahead(
        &mut self,
        author: AuthorPubkey,
        local_seq: u64,
        remote_seq: u64,
        remote_hash: EventHash,
        push: &mut Vec<EventHash>,
    )
        requires
            old(self).dag.wf(),
            head_seq_of(&old(self).dag, author) == local_seq,
            local_seq > remote_seq,
        ensures
            final(self).dag == old(self).dag,
            final(self).pending == old(self).pending,
            final(self).equivocations@ == old(self).equivocations@ + head_flags(
                &old(self).dag,
                AuthorHead { author, seq: remote_seq, hash: remote_hash },
            ),
            final(self).warnings@ == old(self).warnings@ + head_warnings(
                &old(self).dag,
                AuthorHead { author, seq: remote_seq, hash: remote_hash },
            ),
            final(push)@ == old(push)@ + head_push(&old(self).dag, AuthorHead { author, seq: remote_seq, hash: remote_hash }),
    {
        let ghost h = AuthorHead { author, seq: remote_seq, hash: remote_hash };
        let chain = match self.dag.author_chain(&author) {
            Some(c) => c,
            None => {
                return;
            },
        };
        proof {
            self.dag.lemma_chain_wf(author);
        }
        let at: Option<EventHash> = match chain.seq_to_hash.get(&remote_seq) {
            Some(x) => Some(*x),
            None => None,
        };
        match at {
            Some(local_h) => {
                if id_eq(&local_h, &remote_hash) {
                    if remote_seq < u64::MAX {
                        push_chain_range(chain, remote_seq + 1, local_seq, push);
                    }
                    assert(self.equivocations@ =~= old(self).equivocations@ + head_flags(&old(self).dag, h));
                    assert(self.warnings@ =~= old(self).warnings@ + head_warnings(&old(self).dag, h));
                } else {
                    self.equivocations.push(
                        EquivocationFlag { author, seq: remote_seq, local_hash: local_h, remote_hash, peer: None },
                    );
                    assert(self.warnings@ =~= old(self).warnings@ + head_warnings(&old(self).dag, h));
                    assert(push@ =~= old(push)@ + head_push(&old(self).dag, h));
                }
            },
            None => {
                self.warnings.push(PeerWarning::ChainHashLookupMissing { author, seq: remote_seq });
                assert(self.equivocations@ =~= old(self).equivocations@ + head_flags(&old(self).dag, h));
                assert(push@ =~= old(push)@ + head_push(&old(self).dag, h));
            },
        }
    }

    /// Act on a peer's verified heads summary: record the signer as an
    /// authority for every author it lists, then, author by author,
    /// request what we lack, flag a divergent head, or push what the
    /// peer lacks; finally push the whole chains of the authors it does
    /// not list. A fuel-table version other than ours is reported.
    pub fn handle_heads_summary(
        &mut self,
        index: &mut PeerAuthorityIndex,
        remote: &[AuthorHead],
        signed_by: PeerPubkey,
        own_peer: PeerPubkey,
        remote_fuel_version: u32,
        local_fuel_version: u32,
    ) -> (r: HeadsPlan)
        requires
            old(self).wf(),
            old(index).wf(),
        ensures
            final(self).wf(),
            final(self).dag_state() == old(self).dag_state(),
            final(self).buffer_state() == old(self).buffer_state(),
            final(index).wf(),
            final(index).peers() == recorded(old(index).peers(), signed_by, remote@),
            final(self).flags() == old(self).flags() + summary_flags(&old(self).dag_state(), remote@),
            final(self).warnings_seq() == old(self).warnings_seq() + fuel_warnings(
                local_fuel_version,
                remote_fuel_version,
            ) + summary_warnings(&old(self).dag_state(), remote@),
            r.requests@ == summary_requests(&old(self).dag_state(), remote@),
            r.push@ == summary_push(&old(self).dag_state(), remote@) + lacked_push(
                &old(self).dag_state(),
                old(self).dag_state().author_order(),
                authors_of(remote@),
            ),
            r.backfill_from == (if r.requests@.len() > 0 && signed_by != own_peer {
                Some(signed_by)
            } else {
                None::<PeerPubkey>
            }),
    {
        let ghost d = self.dag;
        let ghost p = self.pending;
        let ghost f0 = self.equivocations@;
        let ghost w0 = self.warnings@;
        let ghost hs = remote@;
        match check_fuel_table_version(local_fuel_version, remote_fuel_version) {
            Some(w) => self.warnings.push(w),
            None => {},
        }
        let ghost w1 = self.warnings@;
        assert(w1 =~= w0 + fuel_warnings(local_fuel_version, remote_fuel_version));
        let mut i: usize = 0;
        while i < remote.len()
            invariant
                index.wf(),
                hs == remote@,
                i <= hs.len(),
                index.peers() == recorded(old(index).peers(), signed_by, hs.take(i as int)),
            decreases hs.len() - i,
        {
            index.record(signed_by, remote[i].author);
            proof {
                assert(hs.take(i + 1).drop_last() =~= hs.take(i as int));
            }
            i = i + 1;
        }
        assert(hs.take(hs.len() as int) =~= hs);
        let mut requests: Vec<EventRequest> = Vec::new();
        let mut push: Vec<EventHash> = Vec::new();
        let mut i: usize = 0;
        while i < remote.len()
            invariant
                self.dag == d,
                self.pending == p,
                d.wf(),
                hs == remote@,
                i <= hs.len(),
                self.equivocations@ == f0 + summary_flags(&d, hs.take(i as int)),
                self.warnings@ == w1 + summary_warnings(&d, hs.take(i as int)),
                requests@ == summary_requests(&d, hs.take(i as int)),
                push@ == summary_push(&d, hs.take(i as int)),
            decreases hs.len() - i,
        {
            let h = remote[i];
            let ghost before_f = self.equivocations@;
            let ghost before_w = self.warnings@;
            let ghost before_r = requests@;
            let ghost before_p = push@;
            let (ls, lh) = match self.dag.author_chain(&h.author) {
                Some(c) => (c.head_seq, c.head_hash),
                None => (0u64, EventHash::zero()),
            };
            proof {
                if !d.chains().contains_key(h.author) {
                    lemma_zero_hash(lh);
                }
                assert(ls == head_seq_of(&d, h.author));
                assert(lh == head_hash_of(&d, h.author));
                assert(hs.take(i + 1).drop_last() =~= hs.take(i as int));
                assert(hs.take(i + 1).last() == h);
            }
            match classify_author_diff(ls, lh, &h) {
                AuthorDiff::Behind { author, local_seq, remote_seq } => {
                    paginate_into(author, local_seq + 1, remote_seq, &mut requests);
                    assert(self.equivocations@ =~= before_f + head_flags(&d, h));
                    assert(self.warnings@ =~= before_w + head_warnings(&d, h));
                    assert(push@ =~= before_p + head_push(&d, h));
                },
                AuthorDiff::Equal => {
                    assert(self.equivocations@ =~= before_f + head_flags(&d, h));
                    assert(self.warnings@ =~= before_w + head_warnings(&d, h));
                    assert(push@ =~= before_p + head_push(&d, h));
                    assert(requests@ =~= before_r + head_requests(&d, h));
                },
                AuthorDiff::EqualDivergent { author, seq, local_hash, remote_hash } => {
                    self.equivocations.push(EquivocationFlag { author, seq, local_hash, remote_hash, peer: None });
                    assert(self.equivocations@ =~= before_f + head_flags(&d, h));
                    assert(self.warnings@ =~= before_w + head_warnings(&d, h));
                    assert(push@ =~= before_p + head_push(&d, h));
                    assert(requests@ =~= before_r + head_requests(&d, h));
                },
                AuthorDiff::Ahead { author, local_seq, remote_seq, remote_hash } => {
                    self.heads_ahead(author, local_seq, remote_seq, remote_hash, &mut push);
                    assert(requests@ =~= before_r + head_requests(&d, h));
                },
            }
            proof {
                assert(self.equivocations@ =~= f0 + summary_flags(&d, hs.take(i + 1)));
                assert(self.warnings@ =~= w1 + summary_warnings(&d, hs.take(i + 1)));
                assert(requests@ =~= summary_requests(&d, hs.take(i + 1)));
                assert(push@ =~= summary_push(&d, hs.take(i + 1)));
            }
            i = i + 1;
        }
        let ghost pushed_for_heads = push@;
        let mut remote_set: IdSet<AuthorPubkey> = IdSet::new();
        let mut j: usize = 0;
        while j < remote.len()
            invariant
                hs == remote@,
                j <= hs.len(),
                remote_set.wf(),
                remote_set@ == authors_of(hs.take(j as int)),
            decreases hs.len() - j,
        {
            remote_set.insert(remote[j].author);
            proof {
                let t1 = hs.take(j + 1);
                let t0 = hs.take(j as int);
                assert forall|a: AuthorPubkey| authors_of(t1).contains(a) <==> #[trigger] authors_of(t0).insert(
                    hs[j as int].author,
                ).contains(a) by {
                    if authors_of(t1).contains(a) {
                        let k = choose|k: int| 0 <= k < t1.len() && #[trigger] t1[k].author == a;
                        if k < j {
                            assert(t0[k].author == a);
                        }
                    }
                    if authors_of(t0).contains(a) {
                        let k = choose|k: int| 0 <= k < t0.len() && #[trigger] t0[k].author == a;
                        assert(t1[k].author == a);
                    }
                    if a == hs[j as int].author {
                        assert(t1[j as int].author == a);
                    }
                }
                assert(authors_of(t1) =~= authors_of(t0).insert(hs[j as int].author));
            }
            j = j + 1;
        }
        let heads = self.dag.author_heads();
        proof {
            d.lemma_author_order();
        }
        let ghost order = d.author_order();
        let ghost rset = authors_of(hs);
        let mut k: usize = 0;
        while k < heads.len()
            invariant
                self.dag == d,
                d.wf(),
                hs == remote@,
                order == d.author_order(),
                order.no_duplicates(),
                forall|a: AuthorPubkey| #[trigger] order.contains(a) <==> d.chains().contains_key(a),
                heads@.len() == order.len(),
                forall|x: int|
                    0 <= x < heads@.len() ==> #[trigger] heads@[x] == (AuthorHead {
                        author: order[x],
                        seq: d.chains()[order[x]].head_seq,
                        hash: d.chains()[order[x]].head_hash,
                    }),
                remote_set@ == rset,
                k <= heads@.len(),
                push@ == pushed_for_heads + lacked_push(&d, order.take(k as int), rset),
            decreases heads@.len() - k,
        {
            let hd = heads[k];
            let ghost before = push@;
            proof {
                assert(order.take(k + 1).drop_last() =~= order.take(k as int));
                assert(order.take(k + 1).last() == order[k as int]);
                assert(order.contains(order[k as int]));
            }
            if !remote_set.contains(&hd.author) {
                match self.dag.author_chain(&hd.author) {
                    Some(c) => {
                        proof {
                            d.lemma_chain_wf(hd.author);
                        }
                        push_chain_range(c, 1, hd.seq, &mut push);
                    },
                    None => {},
                }
            }
            proof {
                assert(push@ =~= pushed_for_heads + lacked_push(&d, order.take(k + 1), rset));
            }
            k = k + 1;
        }
        assert(hs.take(hs.len() as int) =~= hs);
        assert(order.take(order.len() as int) =~= order);
        let backfill_from = if requests.len() > 0 && !id_eq(&signed_by, &own_peer) {
            Some(signed_by)
        } else {
            None
        };
        HeadsPlan { requests, backfill_from, push }
    }
    /// Commit an event this peer authored, given the answer `pre` of the
    /// state component's dry run on it: a failed dry run or a rejection
    /// aborts; an accepted event goes into the DAG as it is (the buffer
    /// is neither consulted nor drained).
    pub fn admit_authored(&mut self, event: Event, pre: Result<PreCheckResult, ApplyError>) -> (r: Result<
        Inserted,
        RuntimeError,
    >)
        requires
            old(self).wf(),
            old(self).dag_state().size() < u64::MAX,
        ensures
            final(self).wf(),
            final(self).dag_state().topic() == old(self).dag_state().topic(),
            final(self).dag_state().bundle() == old(self).dag_state().bundle(),
            final(self).dag_state().name_bytes() == old(self).dag_state().name_bytes(),
            final(self).buffer_state() == old(self).buffer_state(),
            final(self).flags() == old(self).flags(),
            final(self).warnings_seq() == old(self).warnings_seq(),
            !(r matches Ok(Inserted::NewlyApplied { .. })) ==> {
                &&& final(self).dag_state().events() == old(self).dag_state().events()
                &&& final(self).dag_state().chains() == old(self).dag_state().chains()
                &&& final(self).dag_state().size() == old(self).dag_state().size()
                &&& final(self).dag_state().order() == old(self).dag_state().order()
            },
            pre matches Err(e) ==> r == Err::<Inserted, RuntimeError>(RuntimeError::Apply(e)),
            pre is Ok && pre->Ok_0.outcome is Rejected ==> r == Err::<Inserted, RuntimeError>(
                RuntimeError::PreCheckRejected(pre->Ok_0.outcome->Rejected_0),
            ),
            pre is Ok && pre->Ok_0.outcome is Accepted ==> {
                &&& !signature_ok(event@) ==> r == Err::<Inserted, RuntimeError>(
                    RuntimeError::Dag(DagError::InvalidSignature),
                )
                &&& !admissible(&old(self).dag_state(), event@) ==> (r matches Err(RuntimeError::Dag(_))
                    || r matches Ok(Inserted::AlreadyKnown))
                &&& admissible(&old(self).dag_state(), event@) && !missing_deps(
                    &old(self).dag_state(),
                    event@,
                ).is_empty() ==> (r matches Ok(Inserted::Pending(m)) && m@ == missing_deps(
                    &old(self).dag_state(),
                    event@,
                ))
                &&& admissible(&old(self).dag_state(), event@) && missing_deps(
                    &old(self).dag_state(),
                    event@,
                ).is_empty() ==> {
                    &&& r matches Ok(Inserted::NewlyApplied { topo_index, hash })
                    &&& topo_index == old(self).dag_state().size()
                    &&& hash.bytes@ == wire_hash_of(event@)
                    &&& final(self).dag_state().events() == old(self).dag_state().events().insert(hash, event@)
                    &&& final(self).dag_state().order() == old(self).dag_state().order().push(hash)
                    &&& final(self).dag_state().size() == old(self).dag_state().size() + 1
                }
            },
    {
        let p = match pre {
            Err(e) => {
                return Err(RuntimeError::Apply(e));
            },
            Ok(p) => p,
        };
        match p.outcome {
            ApplyOutcome::Rejected(reason) => {
                return Err(RuntimeError::PreCheckRejected(reason));
            },
            ApplyOutcome::Accepted => {},
        }
        let ghost d0 = self.dag.events();
        match self.dag.insert(event) {
            Ok(ins) => {
                proof {
                    lemma_consistency_grows(d0.dom(), self.dag.events().dom(), self.pending.items());
                }
                Ok(ins)
            },
            Err(e) => Err(RuntimeError::Dag(e)),
        }
    }

    /// Author an event carrying `payload` under `key`: at the author's
    /// next slot, with the given deps, stamped with the wall clock
    /// `wall_ms` and the next logical tick of `hlc_counter`, signed, dry
    /// run through the state component on `state`, then committed (see
    /// [`EventIngest::admit_authored`]). Without a key the runtime is
    /// read-only. Returns the event, to be published, and how the DAG
    /// took it.
    pub fn author(
        &mut self,
        key: Option<&AuthorKeypair>,
        handle: &mut StateApplyHandle,
        state: &[u8],
        payload: Vec<u8>,
        deps: IdSet<EventHash>,
        wall_ms: u64,
        hlc_counter: &mut u32,
    ) -> (r: Result<(Event, Inserted), RuntimeError>)
        requires
            old(self).wf(),
            old(self).dag_state().size() < u64::MAX,
        ensures
            author_outcome(
                *old(self),
                key,
                old(handle).apply_calls(),
                old(handle).digest_calls(),
                state@,
                payload@,
                deps.elems(),
                wall_ms,
                *old(hlc_counter),
                *final(self),
                final(handle).apply_calls(),
                final(handle).digest_calls(),
                *final(hlc_counter),
                r,
            ),
    {
        let k = match key {
            None => {
                return Err(RuntimeError::ReadOnly);
            },
            Some(k) => k,
        };
        let author = k.public_key();
        let (seq, prev) = next_slot(&self.dag, &author);
        if *hlc_counter < u32::MAX {
            *hlc_counter = *hlc_counter + 1;
        }
        let hlc = Hlc { wall_ms, logical: *hlc_counter };
        let event = EventBuilder::new(k).at_slot(seq, prev, deps, hlc, payload);
        let envelope = canonical_envelope(&event);
        let pre = handle.pre_check(state, envelope.as_slice());
        let ghost d = self.dag;
        proof {
            lemma_authored_view(*k, &d, event@);
            if signature_ok(event@) && event@.seq > 1 && !d.knows(wire_hash_of(event@)) {
                d.lemma_head_seq_bounded(author);
                if d.chains().contains_key(author) {
                    d.lemma_chain_wf(author);
                    assert(!d.chains()[author].seq_to_hash@.contains_key(event@.seq));
                }
                assert(prev_matches(&d, event@));
                assert(!equivocates(&d, event@));
                assert(genesis_ok(&d, event@));
            }
        }
        match self.admit_authored(event.clone(), pre) {
            Ok(ins) => Ok((event, ins)),
            Err(e) => Err(e),
        }
    }
    /// The events to stream back for a peer's direct backfill requests:
    /// for each request in order, the requested author's events at the
    /// seqs of its range (ranges that are inverted or span more than
    /// [`PAGE_EVENTS`] events, and unknown authors, are skipped).
    pub fn serve_heads_request(&self, requests: &[EventRequest]) -> (r: Vec<Event>)
        requires
            self.wf(),
        ensures
            r@.len() == served(&self.dag_state(), requests@).len(),
            forall|i: int|
                0 <= i < r@.len() ==> (#[trigger] r@[i])@ == self.dag_state().events()[served(
                    &self.dag_state(),
                    requests@,
                )[i]],
    {
        let ghost d = self.dag;
        let ghost rs = requests@;
        let mut hashes: Vec<EventHash> = Vec::new();
        let mut i: usize = 0;
        while i < requests.len()
            invariant
                self.dag == d,
                d.wf(),
                rs == requests@,
                i <= rs.len(),
                hashes@ == served(&d, rs.take(i as int)),
                forall|j: int| 0 <= j < hashes@.len() ==> d.events().contains_key(#[trigger] hashes@[j]),
            decreases rs.len() - i,
        {
            let q = requests[i];
            let ghost before = hashes@;
            proof {
                assert(rs.take(i + 1).drop_last() =~= rs.take(i as int));
                assert(rs.take(i + 1).last() == q);
            }
            if q.to_seq >= q.from_seq && q.to_seq - q.from_seq <= 255 {
                match self.dag.author_chain(&q.author) {
                    Some(c) => {
                        proof {
                            d.lemma_chain_wf(q.author);
                        }
                        let lo = if q.from_seq < 1 { 1 } else { q.from_seq };
                        let hi = if q.to_seq > c.head_seq { c.head_seq } else { q.to_seq };
                        push_chain_range(c, lo, hi, &mut hashes);
                        proof {
                            assert forall|j: int| 0 <= j < hashes@.len() implies d.events().contains_key(
                                #[trigger] hashes@[j],
                            ) by {
                                if j >= before.len() {
                                    let s = (lo + (j - before.len())) as u64;
                                    d.lemma_chain_hashes_known(q.author, s);
                                }
                            }
                        }
                    },
                    None => {
                        assert(hashes@ =~= before + served_for(&d, q));
                    },
                }
            } else {
                assert(hashes@ =~= before + served_for(&d, q));
            }
            i = i + 1;
        }
        assert(rs.take(rs.len() as int) =~= rs);
        let mut out: Vec<Event> = Vec::new();
        let mut k: usize = 0;
        while k < hashes.len()
            invariant
                self.dag == d,
                d.wf(),
                k <= hashes@.len(),
                forall|j: int| 0 <= j < hashes@.len() ==> d.events().contains_key(#[trigger] hashes@[j]),
                out@.len() == k,
                forall|j: int| 0 <= j < k ==> (#[trigger] out@[j])@ == d.events()[hashes@[j]],
            decreases hashes@.len() - k,
        {
            match self.dag.get(&hashes[k]) {
                Some(e) => {
                    out.push(e.clone());
                },
                None => {
                    assert(d.events().contains_key(hashes@[k as int]));
                },
            }
            k = k + 1;
        }
        out
    }
}


/// The backfill owed for a remote head asks for exactly the seqs the
/// remote has past our head of its author: a seq is requested if and
/// only if it lies above our head and at or below the remote's seq, and
/// every request names that author.
pub proof fn lemma_head_requests_span(dag: &EventDag, h: AuthorHead, s: u64)
    ensures
        forall|i: int| 0 <= i < head_requests(dag, h).len() ==> (#[trigger] head_requests(dag, h)[i]).author == h.author,
        (exists|i: int|
            0 <= i < head_requests(dag, h).len() && #[trigger] head_requests(dag, h)[i].from_seq <= s
                <= head_requests(dag, h)[i].to_seq) <==> head_seq_of(dag, h.author) < s <= h.seq,
{
    if head_seq_of(dag, h.author) < h.seq {
        let from = (head_seq_of(dag, h.author) + 1) as u64;
        lemma_pages_cover(h.author, from, h.seq, s);
        lemma_pages_tile(h.author, from, h.seq);
        let ps = pages(h.author, from, h.seq);
        assert(head_requests(dag, h) == ps);
        if exists|i: int| 0 <= i < ps.len() && #[trigger] ps[i].from_seq <= s <= ps[i].to_seq {
            let i = choose|i: int| 0 <= i < ps.len() && #[trigger] ps[i].from_seq <= s <= ps[i].to_seq;
            assert(head_requests(dag, h)[i] == ps[i]);
        }
        if head_seq_of(dag, h.author) < s <= h.seq {
            let i = choose|i: int| 0 <= i < ps.len() && #[trigger] ps[i].from_seq <= s <= ps[i].to_seq;
            assert(head_requests(dag, h)[i] == ps[i]);
        }
    }
}

/// What we push for a remote head that we are ahead of, on a chain that
/// holds the remote's hash at its seq, is our chain's hashes at the seqs
/// right after the remote's seq up to our head, in seq order; for any
/// other remote head we push nothing.
pub proof fn lemma_head_push_span(dag: &EventDag, h: AuthorHead)
    ensures
        ahead_with_hash(dag, h) && dag.chains()[h.author].seq_to_hash@[h.seq] == h.hash ==> {
            &&& head_push(dag, h).len() == head_seq_of(dag, h.author) - h.seq
            &&& forall|i: int|
                0 <= i < head_push(dag, h).len() ==> #[trigger] head_push(dag, h)[i]
                    == dag.chains()[h.author].seq_to_hash@[(h.seq + 1 + i) as u64]
        },
        !(ahead_with_hash(dag, h) && dag.chains()[h.author].seq_to_hash@[h.seq] == h.hash) ==> head_push(dag, h).len()
            == 0,
{
}

/// An event that skips ahead of its author's chain is answered by a
/// backfill of exactly the gap: every seq above our head of that author
/// and below the event's own seq, none of which our chain holds.
pub proof fn lemma_chain_skip_is_the_gap(before: EventIngest, event: Event, after: EventIngest, r: IngestAction)
    requires
        before.wf(),
        ingest_outcome(before, event, after, r),
        r is ChainSkip,
    ensures
        r->ChainSkip_author == event.author,
        r->ChainSkip_from_seq <= r->ChainSkip_to_seq,
        r->ChainSkip_from_seq == head_seq_of(&before.dag_state(), event.author) + 1,
        r->ChainSkip_to_seq + 1 == event.seq,
        forall|s: u64|
            r->ChainSkip_from_seq <= s <= r->ChainSkip_to_seq ==> !(before.dag_state().chains().contains_key(event.author)
                && #[trigger] before.dag_state().chains()[event.author].seq_to_hash@.contains_key(s)),
{
    if before.dag_state().chains().contains_key(event.author) {
        before.dag_state().lemma_chain_wf(event.author);
    }
}

} // verus!
