//! Building signed events: genesis events, chain successors, the wire
//! envelope and the counter payload encoding.
use vstd::prelude::*;

use crate::dag::{admissible, genesis_fields, is_genesis_payload, missing_deps, signature_ok, EventDag};
use crate::event::{
    body_hash_of, envelope_bytes, genesis_bytes, lemma_genesis_bytes_injective, topic_preimage,
    wire_hash_of, Event, EventView, GenesisV1, Hlc,
};
use crate::crypto::{blake3_digest, ed25519_signature};
use crate::identity::AuthorKeypair;
use crate::ids::{AuthorPubkey, BundleHash, EventHash, IdSet};

verus! {

/// Whether `ev` is the genesis event by `author` with topic seed `seed`
/// and application payload `app`: seq 1, zero prev, no deps, zero
/// clock, the encoded genesis payload (any signature).
pub open spec fn is_genesis_of(ev: EventView, author: AuthorPubkey, seed: Seq<u8>, app: Seq<u8>) -> bool {
    &&& ev.author == author
    &&& ev.seq == 1
    &&& ev.prev.spec_is_zero()
    &&& ev.deps == Seq::<EventHash>::empty()
    &&& ev.hlc == (Hlc { wall_ms: 0, logical: 0 })
    &&& ev.payload == genesis_bytes(seed, author, app)
}

/// The event after `prev` in `author`'s chain, with the given deps,
/// payload and signature: seq `prev.seq + 1`, prev the wire hash of
/// `prev`, zero clock.
pub open spec fn successor_view(
    author: AuthorPubkey,
    prev: EventView,
    prev_hash: EventHash,
    deps: Seq<EventHash>,
    payload: Seq<u8>,
    sig: Seq<u8>,
) -> EventView {
    EventView {
        author,
        seq: (prev.seq + 1) as u64,
        prev: prev_hash,
        deps,
        hlc: Hlc { wall_ms: 0, logical: 0 },
        payload,
        signature: sig,
    }
}

/// Builds events signed by one author key. Payloads are opaque.
pub struct EventBuilder<'a> {
    /// The key that signs every event built.
    pub author_key: &'a AuthorKeypair,
}

impl<'a> EventBuilder<'a> {
    /// A builder around `author_key`.
    pub fn new(author_key: &'a AuthorKeypair) -> (r: Self)
        ensures
            r.author_key == author_key,
    {
        EventBuilder { author_key }
    }

    /// The signed genesis event (seq 1, zero prev, no deps) whose payload
    /// encodes `seed`, this author as founder, and `app_payload`. The
    /// bundle hash and topic name do not enter the event: they bind the
    /// DAG that will accept it.
    pub fn genesis(
        &self,
        app_bundle_hash: &BundleHash,
        seed: [u8; 32],
        topic_name: &str,
        app_payload: Vec<u8>,
    ) -> (r: Event)
        ensures
            r.deps.wf(),
            is_genesis_of(r@, self.author_key.author_key(), seed@, app_payload@),
            r@.signature == ed25519_signature(self.author_key.seed(), body_hash_of(r@)),
    {
        let author = self.author_key.public_key();
        let genesis = GenesisV1 { seed, founder_pubkey: author, app_payload };
        let payload = genesis.encode();
        let body = Event {
            author,
            seq: 1,
            prev: EventHash::zero(),
            deps: IdSet::new(),
            hlc: Hlc { wall_ms: 0, logical: 0 },
            payload,
            signature: [0u8; 64],
        };
        self.sign(body)
    }

    /// The signed successor of `prev` in this author's chain: seq
    /// `prev.seq + 1`, prev the wire hash of `prev`.
    pub fn next(&self, prev: &Event, deps: IdSet<EventHash>, payload: Vec<u8>) -> (r: Event)
        requires
            prev.seq < u64::MAX,
            deps.wf(),
        ensures
            r.deps.wf(),
            r@.author == self.author_key.author_key(),
            r@.seq == prev.seq + 1,
            r@.prev.bytes@ == wire_hash_of(prev@),
            r@.deps == deps.elems(),
            r@.hlc == (Hlc { wall_ms: 0, logical: 0 }),
            r@.payload == payload@,
            r@.signature == ed25519_signature(self.author_key.seed(), body_hash_of(r@)),
    {
        let body = Event {
            author: self.author_key.public_key(),
            seq: prev.seq + 1,
            prev: prev.wire_hash(),
            deps,
            hlc: Hlc { wall_ms: 0, logical: 0 },
            payload,
            signature: [0u8; 64],
        };
        self.sign(body)
    }

    /// The signed event at `seq` after `prev`, with the given deps, clock
    /// and payload.
    pub fn at_slot(&self, seq: u64, prev: EventHash, deps: IdSet<EventHash>, hlc: Hlc, payload: Vec<u8>) -> (r:
        Event)
        ensures
            r.deps == deps,
            r@.author == self.author_key.author_key(),
            r@.seq == seq,
            r@.prev == prev,
            r@.deps == deps.elems(),
            r@.hlc == hlc,
            r@.payload == payload@,
            r@.signature == ed25519_signature(self.author_key.seed(), body_hash_of(r@)),
    {
        let body = Event {
            author: self.author_key.public_key(),
            seq,
            prev,
            deps,
            hlc,
            payload,
            signature: [0u8; 64],
        };
        self.sign(body)
    }

    /// Stamp `body` with the author's signature over its body hash.
    fn sign(&self, body: Event) -> (r: Event)
        requires
            body.author == self.author_key.author_key(),
        ensures
            r.deps == body.deps,
            r@ == (EventView { signature: r@.signature, ..body@ }),
            r@.signature == ed25519_signature(self.author_key.seed(), body_hash_of(r@)),
    {
        let body_hash = body.hash_signed_body();
        let signature = self.author_key.sign_body_hash(body_hash);
        let mut r = body;
        r.signature = signature;
        assert(body_hash_of(r@) == body_hash_of(body@)) by {
            assert(crate::event::signed_body_bytes(r@) =~= crate::event::signed_body_bytes(body@));
        }
        r
    }
}

/// The canonical wire envelope of `event`.
pub fn canonical_envelope(event: &Event) -> (r: Vec<u8>)
    ensures
        r@ == envelope_bytes(event@),
{
    event.envelope()
}

/// The eight bytes of `x` in two's complement, most significant first.
pub open spec fn i64_be(x: i64) -> Seq<u8> {
    let u = x as u64;
    seq![
        ((u >> 56u64) & 0xff) as u8,
        ((u >> 48u64) & 0xff) as u8,
        ((u >> 40u64) & 0xff) as u8,
        ((u >> 32u64) & 0xff) as u8,
        ((u >> 24u64) & 0xff) as u8,
        ((u >> 16u64) & 0xff) as u8,
        ((u >> 8u64) & 0xff) as u8,
        (u & 0xff) as u8,
    ]
}

/// The payload of a counter increment: `delta` as eight big-endian
/// bytes.
pub fn counter_increment_payload(delta: i64) -> (r: Vec<u8>)
    ensures
        r@ == i64_be(delta),
{
    let u = delta as u64;
    let mut out: Vec<u8> = Vec::new();
    out.push(((u >> 56) & 0xff) as u8);
    out.push(((u >> 48) & 0xff) as u8);
    out.push(((u >> 40) & 0xff) as u8);
    out.push(((u >> 32) & 0xff) as u8);
    out.push(((u >> 24) & 0xff) as u8);
    out.push(((u >> 16) & 0xff) as u8);
    out.push(((u >> 8) & 0xff) as u8);
    out.push((u & 0xff) as u8);
    assert(out@ =~= i64_be(delta));
    out
}

/// The integer that eight big-endian two's-complement bytes denote.
pub open spec fn i64_of_be(b: Seq<u8>) -> i64 {
    (((b[0] as u64) << 56u64) | ((b[1] as u64) << 48u64) | ((b[2] as u64) << 40u64) | ((b[3] as u64) << 32u64)
        | ((b[4] as u64) << 24u64) | ((b[5] as u64) << 16u64) | ((b[6] as u64) << 8u64) | (b[7] as u64)) as i64
}

/// A counter increment payload decodes back to its delta.
pub proof fn lemma_counter_payload_decodes(delta: i64)
    ensures
        i64_be(delta).len() == 8,
        i64_of_be(i64_be(delta)) == delta,
{
    let u = delta as u64;
    assert(((((u >> 56u64) & 0xff) as u8 as u64) << 56u64 | (((u >> 48u64) & 0xff) as u8 as u64) << 48u64 | (((u
        >> 40u64) & 0xff) as u8 as u64) << 40u64 | (((u >> 32u64) & 0xff) as u8 as u64) << 32u64 | (((u >> 24u64)
        & 0xff) as u8 as u64) << 24u64 | (((u >> 16u64) & 0xff) as u8 as u64) << 16u64 | (((u >> 8u64) & 0xff) as u8
        as u64) << 8u64 | ((u & 0xff) as u8 as u64)) == u) by (bit_vector);
    assert((u as i64) == delta) by (bit_vector)
        requires
            u == delta as u64,
    ;
}

/// A genesis event signed by its author is accepted by an empty DAG
/// bound to the topic derived from the DAG's bundle hash, the event's
/// seed and the DAG's topic name: every check before the dependency
/// check passes and no dependency is missing, so `insert` applies it.
pub proof fn lemma_genesis_accepted_by_empty_dag(
    dag: &EventDag,
    author: AuthorPubkey,
    seed: Seq<u8>,
    app: Seq<u8>,
    ev: EventView,
)
    requires
        dag.wf(),
        dag.events() == Map::<EventHash, EventView>::empty(),
        dag.chains() == Map::<AuthorPubkey, crate::dag::AuthorChain>::empty(),
        seed.len() == 32,
        dag.topic().bytes@ == blake3_digest(topic_preimage(dag.bundle(), seed, dag.name_bytes())),
        is_genesis_of(ev, author, seed, app),
        signature_ok(ev),
    ensures
        admissible(dag, ev),
        missing_deps(dag, ev).is_empty(),
{
    assert(is_genesis_payload(ev.payload)) by {
        assert(genesis_bytes(seed, author, app) == ev.payload);
    }
    let (s2, f2, p2) = choose|s: Seq<u8>, f: AuthorPubkey, p: Seq<u8>|
        s.len() == 32 && #[trigger] genesis_bytes(s, f, p) == ev.payload;
    lemma_genesis_bytes_injective(seed, author, app, s2, f2, p2);
    assert(genesis_fields(ev.payload) == (seed, author));
    assert(ev.prev.bytes@ =~= crate::ids::zero_bytes());
    assert(!dag.knows(wire_hash_of(ev)));
    assert(missing_deps(dag, ev) =~= Set::<EventHash>::empty());
}

} // verus!
