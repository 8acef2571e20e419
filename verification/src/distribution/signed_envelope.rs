//! Verification shared by the signed distribution envelopes.
//!
//! Each envelope signs its own domain-separated *signing target*; this
//! module only runs the common gate sequence over it: field-length cap,
//! author key decode, strict Ed25519 verification.
use vstd::prelude::*;

use crate::crypto::{ed25519_decode_key, ed25519_key_valid, ed25519_verifies, ed25519_verify_strict};
use crate::distribution::dispatch::DispatchReject;
use crate::ids::AuthorPubkey;

verus! {

/// An event carrying a domain-separated Ed25519 signature and a
/// variable-length text field with an envelope-specific cap.
pub trait SignedEnvelope {
    /// The bytes the signature commits to.
    spec fn target_bytes(&self) -> Seq<u8>;

    /// The signature bytes.
    spec fn signature_bytes(&self) -> Seq<u8>;

    /// Whether the text field exceeds its cap.
    spec fn oversized(&self) -> bool;

    /// The bytes the signature commits to: the envelope's domain
    /// separator followed by the canonical encoding of its signed
    /// fields.
    fn signing_target(&self) -> (r: Vec<u8>)
        ensures
            r@ == self.target_bytes(),
    ;

    /// The 64-byte signature.
    fn signature(&self) -> (r: &[u8; 64])
        ensures
            r@ == self.signature_bytes(),
    ;

    /// Whether the text field exceeds the envelope's cap.
    fn field_too_long(&self) -> (r: bool)
        ensures
            r == self.oversized(),
    ;
}

/// Verdict on an envelope: refused for an oversized text field, else
/// for an invalid author key, else for a bad signature; otherwise
/// accepted.
pub open spec fn envelope_check(
    oversized: bool,
    author: AuthorPubkey,
    target: Seq<u8>,
    sig: Seq<u8>,
) -> Result<(), DispatchReject> {
    if oversized {
        Err(DispatchReject::FieldTooLong)
    } else if !ed25519_key_valid(author.bytes@) {
        Err(DispatchReject::AuthorPubkeyMalformed)
    } else if !ed25519_verifies(author.bytes@, target, sig) {
        Err(DispatchReject::SignatureInvalid)
    } else {
        Ok(())
    }
}

/// Verify a signed envelope against `author` at the receive boundary.
pub fn verify<E: SignedEnvelope>(event: &E, author: &AuthorPubkey) -> (r: Result<(), DispatchReject>)
    ensures
        r == envelope_check(event.oversized(), *author, event.target_bytes(), event.signature_bytes()),
{
    if event.field_too_long() {
        return Err(DispatchReject::FieldTooLong);
    }
    if !ed25519_decode_key(&author.bytes) {
        return Err(DispatchReject::AuthorPubkeyMalformed);
    }
    let target = event.signing_target();
    if !ed25519_verify_strict(&author.bytes, target.as_slice(), event.signature()) {
        return Err(DispatchReject::SignatureInvalid);
    }
    Ok(())
}

} // verus!
