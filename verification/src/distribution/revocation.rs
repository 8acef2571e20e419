//! Revocation envelopes and the per-author revocation log.
//!
//! [`RevocationLog::apply`] is a pure function of the prior log, the
//! envelope and the author whose topic it arrived on. It checks, in
//! order: the reason's length, that the seq strictly increases, that
//! the seq does not jump by more than [`MAX_REVOCATION_JUMP`], that the
//! author key decodes, and the signature.
use vstd::prelude::*;
use vstd::string::StringSliceAdditionalSpecFns;

use crate::bytes::{extend_bytes, push_u64_le, u64_le};
use crate::crypto::{ed25519_key_valid, ed25519_verifies};
use crate::distribution::dispatch::DispatchReject;
use crate::distribution::signed_envelope::{verify, SignedEnvelope};
use crate::event::{byte_string, push_byte_string};
use crate::ids::{AuthorPubkey, BlobHash, IdSet};

verus! {

/// Domain separator of revocation signatures.
pub const DOMAIN_SEP_REVOCATION: &'static str = "myrhiza/revocation/v1";

/// Largest accepted step of the revocation seq.
pub const MAX_REVOCATION_JUMP: u64 = 1024;

/// Largest accepted length, in bytes, of a revocation reason.
pub const MAX_REASON_LEN: usize = 256;

/// A signed revocation, gossiped on the author's revocation topic.
#[derive(Debug, PartialEq, Eq)]
pub struct RevocationEvent {
    /// The bundle hash being revoked.
    pub revoked_bundle_hash: BlobHash,
    /// Human-readable reason (at most [`MAX_REASON_LEN`] bytes).
    pub reason: String,
    /// Author-asserted time; informational only.
    pub revoked_at: u64,
    /// Per-author seq; the log accepts only increasing values.
    pub revocation_seq: u64,
    /// Ed25519 signature by the author over the signing target.
    pub signature: [u8; 64],
}

/// The UTF-8 bytes of the reason.
pub open spec fn reason_bytes(e: RevocationEvent) -> Seq<u8> {
    vstd::utf8::encode_utf8(e.reason@)
}

/// The bytes a revocation signature commits to: the domain separator,
/// then the revoked hash, the reason (length-prefixed), the time and the
/// seq.
pub open spec fn revocation_target(e: RevocationEvent) -> Seq<u8> {
    DOMAIN_SEP_REVOCATION.spec_bytes() + e.revoked_bundle_hash.bytes@ + byte_string(reason_bytes(e))
        + u64_le(e.revoked_at) + u64_le(e.revocation_seq)
}

impl Clone for RevocationEvent {
    fn clone(&self) -> (r: Self)
        ensures
            r == *self,
    {
        RevocationEvent {
            revoked_bundle_hash: self.revoked_bundle_hash,
            reason: self.reason.clone(),
            revoked_at: self.revoked_at,
            revocation_seq: self.revocation_seq,
            signature: self.signature,
        }
    }
}

impl RevocationEvent {
    /// The bytes the signature commits to.
    pub fn signing_target(&self) -> (r: Vec<u8>)
        ensures
            r@ == revocation_target(*self),
    {
        let mut out: Vec<u8> = Vec::new();
        extend_bytes(&mut out, DOMAIN_SEP_REVOCATION.as_bytes());
        extend_bytes(&mut out, &self.revoked_bundle_hash.bytes);
        push_byte_string(&mut out, self.reason.as_str().as_bytes());
        push_u64_le(&mut out, self.revoked_at);
        push_u64_le(&mut out, self.revocation_seq);
        assert(out@ =~= revocation_target(*self));
        out
    }
}

impl SignedEnvelope for RevocationEvent {
    open spec fn target_bytes(&self) -> Seq<u8> {
        revocation_target(*self)
    }

    open spec fn signature_bytes(&self) -> Seq<u8> {
        self.signature@
    }

    open spec fn oversized(&self) -> bool {
        reason_bytes(*self).len() > MAX_REASON_LEN
    }

    fn signing_target(&self) -> (r: Vec<u8>) {
        RevocationEvent::signing_target(self)
    }

    fn signature(&self) -> (r: &[u8; 64]) {
        &self.signature
    }

    fn field_too_long(&self) -> (r: bool) {
        self.reason.as_str().as_bytes().len() > MAX_REASON_LEN
    }
}

/// Why [`RevocationLog::apply`] rejected an envelope.
#[derive(Debug, Clone, Copy, PartialEq, Eq)]
pub enum RevocationError {
    /// The signature does not verify.
    SignatureInvalid,
    /// The author key is not an Ed25519 curve point.
    AuthorPubkeyMalformed,
    /// The seq is not greater than the last accepted one.
    SeqNotMonotonic {
        /// The envelope's seq.
        got: u64,
        /// The last accepted seq.
        last_observed: u64,
    },
    /// The seq moves past the last accepted one by more than
    /// [`MAX_REVOCATION_JUMP`].
    SeqJumpTooLarge {
        /// The envelope's seq minus the last accepted one.
        jump: u64,
    },
    /// The reason is longer than [`MAX_REASON_LEN`] bytes.
    ReasonTooLong {
        /// Its length in bytes.
        got: usize,
    },
}

/// The outcome of applying `e` from `author` to a log whose last
/// accepted seq is `last`.
pub open spec fn revocation_check(last: u64, e: RevocationEvent, author: AuthorPubkey) -> Result<
    (),
    RevocationError,
> {
    if reason_bytes(e).len() > MAX_REASON_LEN {
        Err(RevocationError::ReasonTooLong { got: reason_bytes(e).len() as usize })
    } else if e.revocation_seq <= last {
        Err(RevocationError::SeqNotMonotonic { got: e.revocation_seq, last_observed: last })
    } else if e.revocation_seq - last > MAX_REVOCATION_JUMP {
        Err(RevocationError::SeqJumpTooLarge { jump: (e.revocation_seq - last) as u64 })
    } else if !ed25519_key_valid(author.bytes@) {
        Err(RevocationError::AuthorPubkeyMalformed)
    } else if !ed25519_verifies(author.bytes@, revocation_target(e), e.signature@) {
        Err(RevocationError::SignatureInvalid)
    } else {
        Ok(())
    }
}

/// One author's revocation log.
#[derive(Debug, PartialEq, Eq)]
pub struct RevocationLog {
    /// Highest accepted seq (0 before any).
    pub last_observed_seq: u64,
    /// Bundle hashes revoked by the author.
    pub revoked_bundles: IdSet<BlobHash>,
}

impl Clone for RevocationLog {
    fn clone(&self) -> (r: Self)
        ensures
            r.last_observed_seq == self.last_observed_seq,
            r.revoked_bundles.elems() == self.revoked_bundles.elems(),
    {
        RevocationLog {
            last_observed_seq: self.last_observed_seq,
            revoked_bundles: self.revoked_bundles.clone(),
        }
    }
}

impl Default for RevocationLog {
    fn default() -> (r: Self)
        ensures
            r.last_observed_seq == 0,
            r.revoked_bundles.wf(),
            r.revoked_bundles@ == Set::<BlobHash>::empty(),
    {
        RevocationLog { last_observed_seq: 0, revoked_bundles: IdSet::new() }
    }
}

impl RevocationLog {
    /// An empty log.
    pub fn new() -> (r: Self)
        ensures
            r.last_observed_seq == 0,
            r.revoked_bundles.wf(),
            r.revoked_bundles@ == Set::<BlobHash>::empty(),
    {
        Self::default()
    }

    /// Apply a signed revocation from `author`. On success the seq
    /// advances to the envelope's and its bundle joins the revoked set;
    /// on error the log is handed back to no one and nothing changed.
    pub fn apply(self, event: &RevocationEvent, author: &AuthorPubkey) -> (r: Result<Self, RevocationError>)
        requires
            self.revoked_bundles.wf(),
        ensures
            match r {
                Ok(log) => {
                    &&& revocation_check(self.last_observed_seq, *event, *author) is Ok
                    &&& log.last_observed_seq == event.revocation_seq
                    &&& log.last_observed_seq > self.last_observed_seq
                    &&& log.revoked_bundles.wf()
                    &&& log.revoked_bundles@ == self.revoked_bundles@.insert(event.revoked_bundle_hash)
                },
                Err(e) => revocation_check(self.last_observed_seq, *event, *author) == Err::<(), RevocationError>(e),
            },
    {
        let mut log = self;
        let reason_len = event.reason.as_str().as_bytes().len();
        if reason_len > MAX_REASON_LEN {
            return Err(RevocationError::ReasonTooLong { got: reason_len });
        }
        if event.revocation_seq <= log.last_observed_seq {
            return Err(
                RevocationError::SeqNotMonotonic {
                    got: event.revocation_seq,
                    last_observed: log.last_observed_seq,
                },
            );
        }
        let jump = event.revocation_seq - log.last_observed_seq;
        if jump > MAX_REVOCATION_JUMP {
            return Err(RevocationError::SeqJumpTooLarge { jump });
        }
        match verify(event, author) {
            Ok(()) => {},
            Err(DispatchReject::FieldTooLong) => {
                return Err(RevocationError::ReasonTooLong { got: reason_len });
            },
            Err(DispatchReject::AuthorPubkeyMalformed) => {
                return Err(RevocationError::AuthorPubkeyMalformed);
            },
            Err(DispatchReject::SignatureInvalid) => {
                return Err(RevocationError::SignatureInvalid);
            },
        }
        log.revoked_bundles.insert(event.revoked_bundle_hash);
        log.last_observed_seq = event.revocation_seq;
        Ok(log)
    }

    /// Whether `bundle` has been revoked.
    pub fn is_revoked(&self, bundle: &BlobHash) -> (r: bool)
        ensures
            r == self.revoked_bundles@.contains(*bundle),
    {
        self.revoked_bundles.contains(bundle)
    }
}

} // verus!
