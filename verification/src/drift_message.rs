//! Drift messages: a peer's signed state digest at an anchor, what it
//! signs, and how a receiver reacts to one.
//!
//! The signature covers the canonical encoding of the anchor, the digest
//! and the digest format directly (no intermediate hash): the anchor's
//! event hash, the count of author entries and each entry (author key,
//! max seq), the 32 digest bytes, then the format string
//! (length-prefixed UTF-8).
use vstd::prelude::*;
use vstd::string::StringSliceAdditionalSpecFns;

use crate::bytes::{extend_bytes, push_u64_le, u64_le};
use crate::crypto::{ed25519_signature, ed25519_verifies, ed25519_verify_strict};
use crate::drift::{elapsed, leading_expired, should_emit, DriftDetected, DriftRateLimit, RateLimitKind};
use crate::event::{byte_string, push_byte_string, AuthorSeq, DriftAnchor};
use crate::identity::PeerKeypair;
use crate::ids::{id_eq, PeerPubkey};
use crate::runtime::PeerWarning;

verus! {

broadcast use vstd::array::group_array_axioms;

/// What a drift message signs.
#[derive(Clone, Debug, PartialEq, Eq)]
pub struct DriftSignedPayload {
    /// The anchor the digest was taken at.
    pub anchor: DriftAnchor,
    /// BLAKE3 of the state digest.
    pub digest: [u8; 32],
    /// Name of the state-digest format.
    pub digest_format: String,
}

/// A drift message as gossiped: the signed payload's fields, the signer
/// and the signature.
#[derive(Clone, Debug, PartialEq, Eq)]
pub struct DriftMessage {
    /// The anchor.
    pub anchor: DriftAnchor,
    /// BLAKE3 of the sender's state digest at the anchor.
    pub digest: [u8; 32],
    /// Name of the state-digest format.
    pub digest_format: String,
    /// The signing peer.
    pub signed_by_peer: PeerPubkey,
    /// Signature over the payload's encoding.
    pub signature: [u8; 64],
}

/// The encoding of a list of author positions (without count).
pub open spec fn author_seqs_bytes(s: Seq<AuthorSeq>) -> Seq<u8>
    decreases s.len(),
{
    if s.len() == 0 {
        Seq::empty()
    } else {
        author_seqs_bytes(s.drop_last()) + s.last().author.bytes@ + u64_le(s.last().max_seq)
    }
}

/// The bytes a drift signature covers.
pub open spec fn drift_payload_bytes(anchor: DriftAnchor, digest: Seq<u8>, format: Seq<char>) -> Seq<u8> {
    anchor.event_hash.bytes@ + u64_le(anchor.author_seq_vec@.len() as u64) + author_seqs_bytes(
        anchor.author_seq_vec@,
    ) + digest + byte_string(vstd::utf8::encode_utf8(format))
}

fn push_anchor(out: &mut Vec<u8>, anchor: &DriftAnchor)
    ensures
        final(out)@ == old(out)@ + anchor.event_hash.bytes@ + u64_le(anchor.author_seq_vec@.len() as u64)
            + author_seqs_bytes(anchor.author_seq_vec@),
{
    extend_bytes(out, &anchor.event_hash.bytes);
    let v = &anchor.author_seq_vec;
    push_u64_le(out, v.len() as u64);
    let ghost base = out@;
    let mut i: usize = 0;
    while i < v.len()
        invariant
            i <= v@.len(),
            out@ == base + author_seqs_bytes(v@.subrange(0, i as int)),
        decreases v@.len() - i,
    {
        extend_bytes(out, &v[i].author.bytes);
        push_u64_le(out, v[i].max_seq);
        proof {
            let t = v@.subrange(0, i + 1);
            assert(t.drop_last() =~= v@.subrange(0, i as int));
            assert(t.last() == v@[i as int]);
        }
        i = i + 1;
        assert(out@ =~= base + author_seqs_bytes(v@.subrange(0, i as int)));
    }
    assert(v@.subrange(0, v@.len() as int) =~= v@);
    assert(out@ =~= old(out)@ + anchor.event_hash.bytes@ + u64_le(anchor.author_seq_vec@.len() as u64)
        + author_seqs_bytes(anchor.author_seq_vec@));
}

impl DriftSignedPayload {
    /// The bytes the signature covers.
    pub fn signing_bytes(&self) -> (r: Vec<u8>)
        ensures
            r@ == drift_payload_bytes(self.anchor, self.digest@, self.digest_format@),
    {
        let mut out: Vec<u8> = Vec::new();
        push_anchor(&mut out, &self.anchor);
        extend_bytes(&mut out, &self.digest);
        push_byte_string(&mut out, self.digest_format.as_str().as_bytes());
        assert(out@ =~= drift_payload_bytes(self.anchor, self.digest@, self.digest_format@));
        out
    }
}

impl DriftMessage {
    /// The bytes the message's signature should cover.
    pub fn signing_bytes(&self) -> (r: Vec<u8>)
        ensures
            r@ == drift_payload_bytes(self.anchor, self.digest@, self.digest_format@),
    {
        let mut out: Vec<u8> = Vec::new();
        push_anchor(&mut out, &self.anchor);
        extend_bytes(&mut out, &self.digest);
        push_byte_string(&mut out, self.digest_format.as_str().as_bytes());
        assert(out@ =~= drift_payload_bytes(self.anchor, self.digest@, self.digest_format@));
        out
    }
}

/// Sign a drift payload under the peer key.
pub fn sign_drift_payload(key: &PeerKeypair, payload: &DriftSignedPayload) -> (r: [u8; 64])
    ensures
        r@ == ed25519_signature(key.seed(), drift_payload_bytes(payload.anchor, payload.digest@, payload.digest_format@)),
{
    let bytes = payload.signing_bytes();
    key.sign(bytes.as_slice())
}

/// What a receiver does with a drift message before comparing digests:
/// its own messages are ignored (no warning), a message whose signature
/// does not verify against its claimed signer is reported, anything
/// else proceeds.
pub fn screen_drift_message(own: PeerPubkey, msg: &DriftMessage) -> (r: Result<(), Option<PeerWarning>>)
    ensures
        msg.signed_by_peer == own ==> r == Err::<(), Option<PeerWarning>>(None),
        msg.signed_by_peer != own && !ed25519_verifies(
            msg.signed_by_peer.bytes@,
            drift_payload_bytes(msg.anchor, msg.digest@, msg.digest_format@),
            msg.signature@,
        ) ==> r == Err::<(), Option<PeerWarning>>(
            Some(PeerWarning::SignatureInvalid { peer: Some(msg.signed_by_peer) }),
        ),
        msg.signed_by_peer != own && ed25519_verifies(
            msg.signed_by_peer.bytes@,
            drift_payload_bytes(msg.anchor, msg.digest@, msg.digest_format@),
            msg.signature@,
        ) ==> r is Ok,
{
    if id_eq(&msg.signed_by_peer, &own) {
        return Err(None);
    }
    let bytes = msg.signing_bytes();
    if !ed25519_verify_strict(&msg.signed_by_peer.bytes, bytes.as_slice(), &msg.signature) {
        return Err(Some(PeerWarning::SignatureInvalid { peer: Some(msg.signed_by_peer) }));
    }
    Ok(())
}

/// The drift to record when our digest at the message's anchor is
/// `local_digest`: none when the digests agree.
pub fn compare_drift(local_digest: [u8; 32], msg: DriftMessage) -> (r: Option<DriftDetected>)
    ensures
        local_digest == msg.digest ==> r is None,
        local_digest != msg.digest ==> r == Some(
            DriftDetected {
                peer: msg.signed_by_peer,
                anchor: msg.anchor,
                local_digest,
                remote_digest: msg.digest,
            },
        ),
{
    if crate::bytes::bytes32_eq(&local_digest, &msg.digest) {
        assert(local_digest@ =~= msg.digest@);
        assert(local_digest == msg.digest);
        None
    } else {
        Some(
            DriftDetected {
                peer: msg.signed_by_peer,
                anchor: msg.anchor,
                local_digest,
                remote_digest: msg.digest,
            },
        )
    }
}

/// Whether to emit a drift message at `topo_index`.
#[derive(Clone, Copy, Debug, PartialEq, Eq)]
pub enum DriftGate {
    /// The index is not a multiple of the interval: nothing to do.
    NotDue,
    /// Emit now (the rate limiter granted the slot).
    Emit,
    /// Due, but the rate limiter refused.
    Limited(RateLimitKind),
}

/// The rate limiter's answer to an emit at `now`: refused when the
/// daily cap is reached within the trailing window, or when the minimum
/// interval since the last granted emit has not elapsed.
pub open spec fn rate_verdict(l: DriftRateLimit, now: u64) -> Result<(), RateLimitKind> {
    let kept = l.recent().skip(leading_expired(l.recent(), now) as int);
    if kept.len() >= l.spec_daily_cap() {
        Err(RateLimitKind::DailyCap)
    } else if l.last() is Some && elapsed(now, l.last().unwrap()) < l.spec_min_interval() {
        Err(RateLimitKind::MinInterval)
    } else {
        Ok(())
    }
}

/// How one emit attempt at `now` leaves the rate limiter: the kept
/// emits lose those that left the window and, when the slot is granted,
/// gain `now`, which becomes the last granted emit; the limits stay and
/// the invariant is kept for nondecreasing times.
pub open spec fn limiter_after_attempt(before: DriftRateLimit, after: DriftRateLimit, now: u64) -> bool {
    let kept = before.recent().skip(leading_expired(before.recent(), now) as int);
    let granted = rate_verdict(before, now) is Ok;
    &&& after.recent() == (if granted {
        kept.push(now)
    } else {
        kept
    })
    &&& after.last() == (if granted {
        Some(now)
    } else {
        before.last()
    })
    &&& after.history() == (if granted {
        before.history().push(now)
    } else {
        before.history()
    })
    &&& after.latest() == Some(now)
    &&& after.spec_min_interval() == before.spec_min_interval()
    &&& after.spec_daily_cap() == before.spec_daily_cap()
    &&& before.inv() && before.monotone(now) ==> after.inv()
}

/// Decide whether to emit a drift message after the event at
/// `topo_index`: only at multiples of `drift_interval` (never at 0 or
/// with a zero interval), and then only if the rate limiter grants a
/// slot at `now`.
pub fn drift_emit_gate(limiter: &mut DriftRateLimit, topo_index: u64, drift_interval: u64, now: u64) -> (r:
    DriftGate)
    ensures
        !(drift_interval > 0 && topo_index > 0 && topo_index % drift_interval == 0) ==> r == DriftGate::NotDue
            && *final(limiter) == *old(limiter),
        (drift_interval > 0 && topo_index > 0 && topo_index % drift_interval == 0) ==> r == match rate_verdict(
            *old(limiter),
            now,
        ) {
            Ok(()) => DriftGate::Emit,
            Err(k) => DriftGate::Limited(k),
        } && limiter_after_attempt(*old(limiter), *final(limiter), now),
{
    if !should_emit(topo_index, drift_interval) {
        return DriftGate::NotDue;
    }
    match limiter.try_emit(now) {
        Ok(()) => DriftGate::Emit,
        Err(kind) => DriftGate::Limited(kind),
    }
}

} // verus!
