//! Verification of revocation and publication envelopes at the gossip
//! receive boundary, before they reach a log. The logs verify again on
//! apply; what a log accepts, this boundary accepts too.
use vstd::prelude::*;

use crate::distribution::publication::{publication_check, version_bytes, PublicationEvent, MAX_VERSION_LEN};
use crate::distribution::revocation::{reason_bytes, revocation_check, RevocationEvent, MAX_REASON_LEN};
use crate::distribution::signed_envelope::{envelope_check, verify, SignedEnvelope};
use crate::ids::AuthorPubkey;

verus! {

/// Why the boundary dropped an envelope.
#[derive(Debug, Clone, Copy, PartialEq, Eq)]
pub enum DispatchReject {
    /// The signature does not verify (forged or corrupted).
    SignatureInvalid,
    /// The author key is not an Ed25519 curve point.
    AuthorPubkeyMalformed,
    /// The reason or version exceeds its envelope's cap.
    FieldTooLong,
}

/// Verify a revocation envelope against `author`.
pub fn verify_revocation(event: &RevocationEvent, author: &AuthorPubkey) -> (r: Result<(), DispatchReject>)
    ensures
        r == envelope_check(
            reason_bytes(*event).len() > MAX_REASON_LEN,
            *author,
            event.target_bytes(),
            event.signature@,
        ),
{
    verify(event, author)
}

/// Verify a publication envelope against `author`.
pub fn verify_publication(event: &PublicationEvent, author: &AuthorPubkey) -> (r: Result<(), DispatchReject>)
    ensures
        r == envelope_check(
            version_bytes(*event).len() > MAX_VERSION_LEN,
            *author,
            event.target_bytes(),
            event.signature@,
        ),
{
    verify(event, author)
}

/// Whatever a revocation log accepts from `author`, the boundary
/// accepts too.
pub proof fn lemma_revocation_accept_passes_boundary(last: u64, e: RevocationEvent, author: AuthorPubkey)
    requires
        revocation_check(last, e, author) is Ok,
    ensures
        envelope_check(reason_bytes(e).len() > MAX_REASON_LEN, author, e.target_bytes(), e.signature@) is Ok,
{
}

/// Whatever a publication log accepts from `author`, the boundary
/// accepts too.
pub proof fn lemma_publication_accept_passes_boundary(last: u64, e: PublicationEvent, author: AuthorPubkey)
    requires
        publication_check(last, e, author) is Ok,
    ensures
        envelope_check(version_bytes(e).len() > MAX_VERSION_LEN, author, e.target_bytes(), e.signature@) is Ok,
{
}

} // verus!
