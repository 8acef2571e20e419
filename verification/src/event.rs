//! Events, genesis payloads and their canonical encodings.
//!
//! The canonical encoding is fixed-width little-endian framing: a
//! 32-byte identifier is its 32 bytes, a `u64`/`u32` is 8/4 bytes
//! least significant first, a byte string or a set of identifiers is a
//! `u64` count followed by the items, and a signature is its 64 bytes.
//! An event's *signed body* is every field but the signature; its
//! *envelope* is the signed body followed by the signature. The body
//! hash (what the author signs) and the wire hash (the event's
//! identity) are the BLAKE3 digests of these two byte strings.
use vstd::prelude::*;
use vstd::string::StringSliceAdditionalSpecFns;

use crate::bytes::{
    copy_range, extend_bytes, lemma_u64_le_roundtrip, push_u32_le, push_u64_le, read_array32,
    read_u64_le, u32_le, u64_le,
};
use crate::crypto::{blake3_digest, blake3_hash};
use crate::ids::{AuthorPubkey, BundleHash, EventHash, IdSet, Topic};

verus! {

broadcast use vstd::array::group_array_axioms;

/// Hybrid logical clock stamp carried by an event.
#[derive(Clone, Copy, PartialEq, Eq, Debug, Hash)]
pub struct Hlc {
    /// Wall-clock milliseconds.
    pub wall_ms: u64,
    /// Logical counter.
    pub logical: u32,
}

/// A signed event in an author's chain.
#[derive(Debug)]
pub struct Event {
    /// Author's verifying key.
    pub author: AuthorPubkey,
    /// Position in the author's chain, starting at 1.
    pub seq: u64,
    /// Wire hash of the author's previous event (zero at genesis).
    pub prev: EventHash,
    /// Cross-author causal dependencies.
    pub deps: IdSet<EventHash>,
    /// Clock stamp.
    pub hlc: Hlc,
    /// Application payload bytes.
    pub payload: Vec<u8>,
    /// Ed25519 signature over the body hash.
    pub signature: [u8; 64],
}

/// The mathematical content of an [`Event`].
pub struct EventView {
    pub author: AuthorPubkey,
    pub seq: u64,
    pub prev: EventHash,
    pub deps: Seq<EventHash>,
    pub hlc: Hlc,
    pub payload: Seq<u8>,
    pub signature: Seq<u8>,
}

impl Event {
    /// The content of the event.
    pub open spec fn view(&self) -> EventView {
        EventView {
            author: self.author,
            seq: self.seq,
            prev: self.prev,
            deps: self.deps.elems(),
            hlc: self.hlc,
            payload: self.payload@,
            signature: self.signature@,
        }
    }
}

impl Clone for Event {
    fn clone(&self) -> (r: Self)
        ensures
            r@ == self@,
    {
        let mut payload: Vec<u8> = Vec::new();
        extend_bytes(&mut payload, self.payload.as_slice());
        Event {
            author: self.author,
            seq: self.seq,
            prev: self.prev,
            deps: self.deps.clone(),
            hlc: self.hlc,
            payload,
            signature: self.signature,
        }
    }
}

/// Encoding of a sequence of identifiers, without a count.
pub open spec fn ids_bytes(s: Seq<EventHash>) -> Seq<u8>
    decreases s.len(),
{
    if s.len() == 0 {
        Seq::empty()
    } else {
        ids_bytes(s.drop_last()) + s.last().bytes@
    }
}

/// Encoding of a set of identifiers: the count, then each member.
pub open spec fn id_set_bytes(s: Seq<EventHash>) -> Seq<u8> {
    u64_le(s.len() as u64) + ids_bytes(s)
}

/// Encoding of a byte string: the length, then the bytes.
pub open spec fn byte_string(b: Seq<u8>) -> Seq<u8> {
    u64_le(b.len() as u64) + b
}

/// The canonical encoding of an event's signed body (all fields but
/// the signature, in declaration order).
pub open spec fn signed_body_bytes(e: EventView) -> Seq<u8> {
    e.author.bytes@ + u64_le(e.seq) + e.prev.bytes@ + id_set_bytes(e.deps) + u64_le(e.hlc.wall_ms)
        + u32_le(e.hlc.logical) + byte_string(e.payload)
}

/// The canonical wire envelope of an event: the signed body followed by
/// the signature.
pub open spec fn envelope_bytes(e: EventView) -> Seq<u8> {
    signed_body_bytes(e) + e.signature
}

/// The hash the author signs.
pub open spec fn body_hash_of(e: EventView) -> Seq<u8> {
    blake3_digest(signed_body_bytes(e))
}

/// The event's identity: the hash of its envelope.
pub open spec fn wire_hash_of(e: EventView) -> Seq<u8> {
    blake3_digest(envelope_bytes(e))
}

/// Append the encoding of a set of identifiers.
pub fn push_id_set(out: &mut Vec<u8>, s: &IdSet<EventHash>)
    ensures
        final(out)@ == old(out)@ + id_set_bytes(s.elems()),
{
    let items = s.as_slice();
    push_u64_le(out, items.len() as u64);
    let ghost base = out@;
    let mut i: usize = 0;
    while i < items.len()
        invariant
            i <= items@.len(),
            items@ == s.elems(),
            out@ == base + ids_bytes(items@.subrange(0, i as int)),
        decreases items@.len() - i,
    {
        extend_bytes(out, &items[i].bytes);
        proof {
            let t = items@.subrange(0, i + 1);
            assert(t.drop_last() =~= items@.subrange(0, i as int));
            assert(t.last() == items@[i as int]);
        }
        i = i + 1;
        assert(out@ =~= base + ids_bytes(items@.subrange(0, i as int)));
    }
    assert(items@.subrange(0, items@.len() as int) =~= items@);
    assert(out@ =~= old(out)@ + id_set_bytes(s.elems()));
}

/// Append the encoding of a byte string.
pub fn push_byte_string(out: &mut Vec<u8>, b: &[u8])
    ensures
        final(out)@ == old(out)@ + byte_string(b@),
{
    push_u64_le(out, b.len() as u64);
    extend_bytes(out, b);
    assert(out@ =~= old(out)@ + byte_string(b@));
}

impl Event {
    /// The canonical encoding of the signed body.
    pub fn signed_body(&self) -> (r: Vec<u8>)
        ensures
            r@ == signed_body_bytes(self@),
    {
        let mut out: Vec<u8> = Vec::new();
        extend_bytes(&mut out, &self.author.bytes);
        push_u64_le(&mut out, self.seq);
        extend_bytes(&mut out, &self.prev.bytes);
        push_id_set(&mut out, &self.deps);
        push_u64_le(&mut out, self.hlc.wall_ms);
        push_u32_le(&mut out, self.hlc.logical);
        push_byte_string(&mut out, self.payload.as_slice());
        assert(out@ =~= signed_body_bytes(self@));
        out
    }

    /// The canonical wire envelope.
    pub fn envelope(&self) -> (r: Vec<u8>)
        ensures
            r@ == envelope_bytes(self@),
    {
        let mut out = self.signed_body();
        extend_bytes(&mut out, &self.signature);
        out
    }

    /// BLAKE3 of the signed body: what the author signs.
    pub fn hash_signed_body(&self) -> (r: EventHash)
        ensures
            r.bytes@ == body_hash_of(self@),
    {
        let body = self.signed_body();
        EventHash::from_bytes(blake3_hash(body.as_slice()))
    }

    /// BLAKE3 of the envelope: the event's identity.
    pub fn wire_hash(&self) -> (r: EventHash)
        ensures
            r.bytes@ == wire_hash_of(self@),
    {
        let env = self.envelope();
        EventHash::from_bytes(blake3_hash(env.as_slice()))
    }
}

/// Payload of a genesis event (seq 1): the topic seed, the founder and
/// the application's initial payload.
#[derive(Clone, Debug)]
pub struct GenesisV1 {
    /// Seed from which the topic is derived.
    pub seed: [u8; 32],
    /// The founding author; must equal the genesis event's author.
    pub founder_pubkey: AuthorPubkey,
    /// Application-defined initial payload.
    pub app_payload: Vec<u8>,
}

/// The canonical encoding of a genesis payload.
pub open spec fn genesis_bytes(seed: Seq<u8>, founder: AuthorPubkey, app_payload: Seq<u8>) -> Seq<
    u8,
> {
    seed + founder.bytes@ + byte_string(app_payload)
}

impl GenesisV1 {
    /// The canonical encoding.
    pub fn encode(&self) -> (r: Vec<u8>)
        ensures
            r@ == genesis_bytes(self.seed@, self.founder_pubkey, self.app_payload@),
    {
        let mut out: Vec<u8> = Vec::new();
        extend_bytes(&mut out, &self.seed);
        extend_bytes(&mut out, &self.founder_pubkey.bytes);
        push_byte_string(&mut out, self.app_payload.as_slice());
        assert(out@ =~= genesis_bytes(self.seed@, self.founder_pubkey, self.app_payload@));
        out
    }

    /// Decode a canonical genesis payload. Fails unless `b` is exactly
    /// the encoding of some genesis payload (no trailing bytes).
    pub fn decode(b: &[u8]) -> (r: Option<GenesisV1>)
        ensures
            match r {
                Some(g) => b@ == genesis_bytes(g.seed@, g.founder_pubkey, g.app_payload@),
                None => !(exists|seed: Seq<u8>, founder: AuthorPubkey, p: Seq<u8>|
                    seed.len() == 32 && #[trigger] genesis_bytes(seed, founder, p) == b@),
            },
    {
        let n = b.len();
        if n < 72 {
            proof {
                if exists|seed: Seq<u8>, founder: AuthorPubkey, p: Seq<u8>|
                    seed.len() == 32 && #[trigger] genesis_bytes(seed, founder, p) == b@ {
                    let (seed, founder, p) = choose|seed: Seq<u8>, founder: AuthorPubkey, p: Seq<u8>|
                        seed.len() == 32 && #[trigger] genesis_bytes(seed, founder, p) == b@;
                    assert(genesis_bytes(seed, founder, p).len() >= 72);
                }
            }
            return None;
        }
        let len = read_u64_le(b, 64);
        if len != (n - 72) as u64 {
            proof {
                if exists|seed: Seq<u8>, founder: AuthorPubkey, p: Seq<u8>|
                    seed.len() == 32 && #[trigger] genesis_bytes(seed, founder, p) == b@ {
                    let (seed, founder, p) = choose|seed: Seq<u8>, founder: AuthorPubkey, p: Seq<u8>|
                        seed.len() == 32 && #[trigger] genesis_bytes(seed, founder, p) == b@;
                    assert(b@ == (seed + founder.bytes@) + u64_le(p.len() as u64) + p);
                    lemma_u64_le_roundtrip(p.len() as u64, seed + founder.bytes@, p);
                    assert(p.len() == n - 72);
                }
            }
            return None;
        }
        let seed = read_array32(b, 0);
        let founder = AuthorPubkey::from_bytes(read_array32(b, 32));
        let app_payload = copy_range(b, 72, n);
        let g = GenesisV1 { seed, founder_pubkey: founder, app_payload };
        proof {
            let framed = u64_le(len);
            assert(framed =~= b@.subrange(64, 72)) by {
                let x = len;
                let b0 = b@[64];
                let b1 = b@[65];
                let b2 = b@[66];
                let b3 = b@[67];
                let b4 = b@[68];
                let b5 = b@[69];
                let b6 = b@[70];
                let b7 = b@[71];
                assert(x == (b0 as u64) | ((b1 as u64) << 8u64) | ((b2 as u64) << 16u64) | ((b3
                    as u64) << 24u64) | ((b4 as u64) << 32u64) | ((b5 as u64) << 40u64) | ((b6
                    as u64) << 48u64) | ((b7 as u64) << 56u64));
                assert(b0 == (x & 0xff) as u8 && b1 == ((x >> 8u64) & 0xff) as u8 && b2 == ((x
                    >> 16u64) & 0xff) as u8 && b3 == ((x >> 24u64) & 0xff) as u8 && b4 == ((x
                    >> 32u64) & 0xff) as u8 && b5 == ((x >> 40u64) & 0xff) as u8 && b6 == ((x
                    >> 48u64) & 0xff) as u8 && b7 == ((x >> 56u64) & 0xff) as u8) by (bit_vector)
                    requires
                        x == (b0 as u64) | ((b1 as u64) << 8u64) | ((b2 as u64) << 16u64) | ((b3
                            as u64) << 24u64) | ((b4 as u64) << 32u64) | ((b5 as u64) << 40u64)
                            | ((b6 as u64) << 48u64) | ((b7 as u64) << 56u64),
                ;
            }
            assert(b@ =~= genesis_bytes(g.seed@, g.founder_pubkey, g.app_payload@));
        }
        Some(g)
    }
}

/// Decoding the encoding of a genesis payload gives it back: the
/// encoding is injective on payloads with a 32-byte seed.
pub proof fn lemma_genesis_bytes_injective(
    seed1: Seq<u8>,
    f1: AuthorPubkey,
    p1: Seq<u8>,
    seed2: Seq<u8>,
    f2: AuthorPubkey,
    p2: Seq<u8>,
)
    requires
        seed1.len() == 32,
        seed2.len() == 32,
        genesis_bytes(seed1, f1, p1) == genesis_bytes(seed2, f2, p2),
    ensures
        seed1 == seed2,
        f1 == f2,
        p1 == p2,
{
    let b = genesis_bytes(seed1, f1, p1);
    assert(b == (seed1 + f1.bytes@) + u64_le(p1.len() as u64) + p1);
    assert(b == (seed2 + f2.bytes@) + u64_le(p2.len() as u64) + p2);
    assert(seed1 =~= b.subrange(0, 32));
    assert(seed2 =~= b.subrange(0, 32));
    assert(f1.bytes@ =~= b.subrange(32, 64));
    assert(f2.bytes@ =~= b.subrange(32, 64));
    assert(f1.bytes == f2.bytes);
    assert(p1 =~= b.subrange(72, b.len() as int));
    assert(p2 =~= b.subrange(72, b.len() as int));
}

/// The byte string hashed to derive a topic: a domain separator, the
/// bundle hash, the seed and the topic name's UTF-8 bytes.
pub open spec fn topic_preimage(bundle: BundleHash, seed: Seq<u8>, name: Seq<u8>) -> Seq<u8> {
    topic_domain() + bundle.bytes@ + seed + name
}

/// Domain separator for topic derivation: the ASCII bytes of
/// `myrhiza/topic/v1`.
pub open spec fn topic_domain() -> Seq<u8> {
    seq![109u8, 121, 114, 104, 105, 122, 97, 47, 116, 111, 112, 105, 99, 47, 118, 49]
}

/// Append the topic-derivation domain separator.
fn push_topic_domain(out: &mut Vec<u8>)
    ensures
        final(out)@ == old(out)@ + topic_domain(),
{
    let d: [u8; 16] = [109u8, 121, 114, 104, 105, 122, 97, 47, 116, 111, 112, 105, 99, 47, 118, 49];
    extend_bytes(out, &d);
    assert(d@ =~= topic_domain());
}

impl Topic {
    /// Derive the topic of an application instance from its bundle
    /// hash, its genesis seed and its (already normalized) name.
    pub fn derive(bundle: &BundleHash, seed: &[u8; 32], topic_name: &str) -> (r: Topic)
        ensures
            r.bytes@ == blake3_digest(topic_preimage(*bundle, seed@, topic_name.spec_bytes())),
    {
        let mut pre: Vec<u8> = Vec::new();
        push_topic_domain(&mut pre);
        extend_bytes(&mut pre, &bundle.bytes);
        extend_bytes(&mut pre, seed);
        extend_bytes(&mut pre, topic_name.as_bytes());
        assert(pre@ =~= topic_preimage(*bundle, seed@, topic_name.spec_bytes()));
        Topic::from_bytes(blake3_hash(pre.as_slice()))
    }
}

/// One author's position in a drift anchor: its highest seq.
#[derive(Clone, Copy, PartialEq, Eq, Debug, Hash)]
pub struct AuthorSeq {
    /// The author.
    pub author: AuthorPubkey,
    /// Highest seq of the author covered by the anchor.
    pub max_seq: u64,
}

/// A canonical "after this event" point at which peers compare state
/// digests.
#[derive(Clone, Debug, PartialEq, Eq)]
pub struct DriftAnchor {
    /// The event after which the digest was taken.
    pub event_hash: EventHash,
    /// Per-author coverage of the anchor.
    pub author_seq_vec: Vec<AuthorSeq>,
}

/// An author's chain head as advertised in a heads summary.
#[derive(Clone, Copy, PartialEq, Eq, Debug, Hash)]
pub struct AuthorHead {
    /// The author.
    pub author: AuthorPubkey,
    /// Head seq.
    pub seq: u64,
    /// Wire hash at the head seq.
    pub hash: EventHash,
}

/// A request for a contiguous range of one author's events.
#[derive(Clone, Copy, PartialEq, Eq, Debug, Hash)]
pub struct EventRequest {
    /// The author.
    pub author: AuthorPubkey,
    /// First seq requested.
    pub from_seq: u64,
    /// Last seq requested (inclusive).
    pub to_seq: u64,
}

} // verus!
