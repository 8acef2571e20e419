//! Heads summaries: a peer's signed list of the author heads it holds
//! on a topic, how one is built from the DAG, and how a receiver screens
//! one before acting on it.
//!
//! The signature covers the canonical encoding of the author heads, the
//! kernel fuel-table version and the topic: the count of heads (u64 LE),
//! each head (author key, seq as u64 LE, hash), the version (u32 LE) and
//! the 32 topic bytes.
use vstd::prelude::*;

use crate::bytes::{extend_bytes, push_u32_le, push_u64_le, u32_le, u64_le};
use crate::crypto::{ed25519_signature, ed25519_verifies, ed25519_verify_strict};
use crate::dag::EventDag;
use crate::event::AuthorHead;
use crate::identity::PeerKeypair;
use crate::ids::{id_eq, PeerPubkey, Topic};
use crate::runtime::PeerWarning;

verus! {

broadcast use vstd::array::group_array_axioms;

/// What a heads summary signs.
#[derive(Clone, Debug, PartialEq, Eq)]
pub struct HeadsSummarySignedPayload {
    /// The advertised heads.
    pub authors: Vec<AuthorHead>,
    /// The signer's kernel fuel-table version.
    pub kernel_fuel_table_version: u32,
    /// The topic the summary is about.
    pub topic: Topic,
}

/// A heads summary as gossiped on a topic: the payload's fields but the
/// topic, which the receiver supplies, with the signer and signature.
#[derive(Clone, Debug, PartialEq, Eq)]
pub struct HeadsSummary {
    /// The advertised heads.
    pub authors: Vec<AuthorHead>,
    /// The signer's kernel fuel-table version.
    pub kernel_fuel_table_version: u32,
    /// The signing peer.
    pub signed_by_peer: PeerPubkey,
    /// Signature over the payload's encoding.
    pub signature: [u8; 64],
}

/// The encoding of a list of heads (without count).
pub open spec fn heads_bytes(s: Seq<AuthorHead>) -> Seq<u8>
    decreases s.len(),
{
    if s.len() == 0 {
        Seq::empty()
    } else {
        heads_bytes(s.drop_last()) + s.last().author.bytes@ + u64_le(s.last().seq) + s.last().hash.bytes@
    }
}

/// The bytes a heads-summary signature covers.
pub open spec fn heads_payload_bytes(authors: Seq<AuthorHead>, version: u32, topic: Topic) -> Seq<u8> {
    u64_le(authors.len() as u64) + heads_bytes(authors) + u32_le(version) + topic.bytes@
}

/// Append the encoding of `authors`, `version` and `topic`.
fn push_heads_payload(out: &mut Vec<u8>, authors: &[AuthorHead], version: u32, topic: &Topic)
    ensures
        final(out)@ == old(out)@ + heads_payload_bytes(authors@, version, *topic),
{
    push_u64_le(out, authors.len() as u64);
    let ghost base = out@;
    let mut i: usize = 0;
    while i < authors.len()
        invariant
            i <= authors@.len(),
            out@ == base + heads_bytes(authors@.subrange(0, i as int)),
        decreases authors@.len() - i,
    {
        extend_bytes(out, &authors[i].author.bytes);
        push_u64_le(out, authors[i].seq);
        extend_bytes(out, &authors[i].hash.bytes);
        proof {
            let t = authors@.subrange(0, i + 1);
            assert(t.drop_last() =~= authors@.subrange(0, i as int));
            assert(t.last() == authors@[i as int]);
        }
        i = i + 1;
        assert(out@ =~= base + heads_bytes(authors@.subrange(0, i as int)));
    }
    assert(authors@.subrange(0, authors@.len() as int) =~= authors@);
    push_u32_le(out, version);
    extend_bytes(out, &topic.bytes);
    assert(out@ =~= old(out)@ + heads_payload_bytes(authors@, version, *topic));
}

impl HeadsSummarySignedPayload {
    /// The bytes the signature covers.
    pub fn signing_bytes(&self) -> (r: Vec<u8>)
        ensures
            r@ == heads_payload_bytes(self.authors@, self.kernel_fuel_table_version, self.topic),
    {
        let mut out: Vec<u8> = Vec::new();
        push_heads_payload(&mut out, self.authors.as_slice(), self.kernel_fuel_table_version, &self.topic);
        assert(out@ =~= heads_payload_bytes(self.authors@, self.kernel_fuel_table_version, self.topic));
        out
    }
}

impl HeadsSummary {
    /// The bytes the summary's signature should cover on `topic`.
    pub fn signing_bytes(&self, topic: &Topic) -> (r: Vec<u8>)
        ensures
            r@ == heads_payload_bytes(self.authors@, self.kernel_fuel_table_version, *topic),
    {
        let mut out: Vec<u8> = Vec::new();
        push_heads_payload(&mut out, self.authors.as_slice(), self.kernel_fuel_table_version, topic);
        assert(out@ =~= heads_payload_bytes(self.authors@, self.kernel_fuel_table_version, *topic));
        out
    }
}

/// Our heads summary on `topic`: the head of every author in the DAG,
/// our fuel-table version, signed under the peer key.
pub fn build_heads_summary(key: &PeerKeypair, dag: &EventDag, kernel_fuel_table_version: u32, topic: Topic) -> (r:
    HeadsSummary)
    requires
        dag.wf(),
    ensures
        r.authors@.len() == dag.author_order().len(),
        forall|i: int|
            0 <= i < r.authors@.len() ==> #[trigger] r.authors@[i] == (AuthorHead {
                author: dag.author_order()[i],
                seq: dag.chains()[dag.author_order()[i]].head_seq,
                hash: dag.chains()[dag.author_order()[i]].head_hash,
            }),
        r.kernel_fuel_table_version == kernel_fuel_table_version,
        r.signed_by_peer == key.peer_key(),
        r.signature@ == ed25519_signature(key.seed(), heads_payload_bytes(r.authors@, kernel_fuel_table_version, topic)),
{
    let authors = dag.author_heads();
    let mut bytes: Vec<u8> = Vec::new();
    push_heads_payload(&mut bytes, authors.as_slice(), kernel_fuel_table_version, &topic);
    assert(bytes@ =~= heads_payload_bytes(authors@, kernel_fuel_table_version, topic));
    let signature = key.sign(bytes.as_slice());
    HeadsSummary { authors, kernel_fuel_table_version, signed_by_peer: key.public_key(), signature }
}

/// Whether a received heads summary is acted on: our own is skipped (no
/// warning), one whose signature does not verify on `topic` against its
/// claimed signer is reported, anything else proceeds.
pub fn screen_heads_summary(own: PeerPubkey, topic: &Topic, h: &HeadsSummary) -> (r: Result<(), Option<PeerWarning>>)
    ensures
        h.signed_by_peer == own ==> r == Err::<(), Option<PeerWarning>>(None),
        h.signed_by_peer != own && !ed25519_verifies(
            h.signed_by_peer.bytes@,
            heads_payload_bytes(h.authors@, h.kernel_fuel_table_version, *topic),
            h.signature@,
        ) ==> r == Err::<(), Option<PeerWarning>>(
            Some(PeerWarning::SignatureInvalid { peer: Some(h.signed_by_peer) }),
        ),
        h.signed_by_peer != own && ed25519_verifies(
            h.signed_by_peer.bytes@,
            heads_payload_bytes(h.authors@, h.kernel_fuel_table_version, *topic),
            h.signature@,
        ) ==> r is Ok,
{
    if id_eq(&h.signed_by_peer, &own) {
        return Err(None);
    }
    let bytes = h.signing_bytes(topic);
    if !ed25519_verify_strict(&h.signed_by_peer.bytes, bytes.as_slice(), &h.signature) {
        return Err(Some(PeerWarning::SignatureInvalid { peer: Some(h.signed_by_peer) }));
    }
    Ok(())
}

} // verus!
