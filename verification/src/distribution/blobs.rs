//! The checks made before a bundle is published: a state-apply component
//! must be declared, and every component handed over must hash to the
//! hash its manifest declares.
use vstd::prelude::*;

use crate::crypto::blake3_digest;
use crate::ids::BlobHash;

verus! {

/// Why a publish was refused.
#[derive(Debug, Clone, PartialEq, Eq)]
pub enum PublishError {
    /// The manifest could not be encoded.
    EncodeManifest(String),
    /// The blob store refused a blob.
    BlobsAdd(String),
    /// The manifest declares no state-apply component.
    MissingStateApply,
    /// Component bytes do not hash to the declared hash.
    ComponentHashMismatch {
        /// The declared hash.
        expected: BlobHash,
        /// The hash of the bytes.
        actual: BlobHash,
    },
}

/// The component slots of a bundle manifest: each component may be
/// declared by path, by hash, or both.
#[derive(Debug, Clone, PartialEq, Eq)]
pub struct ManifestComponents {
    /// Path of the state-apply component.
    pub state_apply: Option<String>,
    /// Hash of the state-apply component.
    pub state_apply_hash: Option<BlobHash>,
    /// Path of the state-propose component.
    pub state_propose: Option<String>,
    /// Hash of the state-propose component.
    pub state_propose_hash: Option<BlobHash>,
    /// Path of the interaction component.
    pub interaction: Option<String>,
    /// Hash of the interaction component.
    pub interaction_hash: Option<BlobHash>,
    /// Path of the behavior component.
    pub behavior: Option<String>,
    /// Hash of the behavior component.
    pub behavior_hash: Option<BlobHash>,
}

/// Whether `r` is the outcome of checking `bytes` against `declared`.
pub open spec fn is_hash_check(r: Result<(), PublishError>, bytes: Seq<u8>, declared: Option<BlobHash>) -> bool {
    match declared {
        None => r is Ok,
        Some(d) => if d.bytes@ == blake3_digest(bytes) {
            r is Ok
        } else {
            r matches Err(PublishError::ComponentHashMismatch { expected, actual }) && expected == d
                && actual.bytes@ == blake3_digest(bytes)
        },
    }
}

/// Check component bytes against the hash the manifest declares.
pub fn check_hash(bytes: &[u8], declared: Option<BlobHash>) -> (r: Result<(), PublishError>)
    ensures
        is_hash_check(r, bytes@, declared),
{
    let actual = BlobHash::blake3(bytes);
    match declared {
        None => Ok(()),
        Some(d) => {
            if crate::bytes::bytes32_eq(&d.bytes, &actual.bytes) {
                Ok(())
            } else {
                Err(PublishError::ComponentHashMismatch { expected: d, actual })
            }
        },
    }
}

/// Check the components handed to a publish against their manifest: a
/// state-apply component must be declared (by path or hash), then the
/// state-apply bytes and each optional component that is present must
/// match its declared hash, in that order.
pub fn check_publish(
    components: &ManifestComponents,
    state_apply_bytes: &[u8],
    state_propose_bytes: Option<&[u8]>,
    interaction_bytes: Option<&[u8]>,
    behavior_bytes: Option<&[u8]>,
) -> (r: Result<(), PublishError>)
    ensures
        components.state_apply is None && components.state_apply_hash is None ==> r
            == Err::<(), PublishError>(PublishError::MissingStateApply),
        !(components.state_apply is None && components.state_apply_hash is None) ==> {
            let c1 = is_hash_check(r, state_apply_bytes@, components.state_apply_hash);
            let ok1 = blake3_ok(state_apply_bytes@, components.state_apply_hash);
            let ok2 = opt_ok(state_propose_bytes, components.state_propose_hash);
            let ok3 = opt_ok(interaction_bytes, components.interaction_hash);
            let ok4 = opt_ok(behavior_bytes, components.behavior_hash);
            if !ok1 {
                c1
            } else if !ok2 {
                is_hash_check(r, state_propose_bytes->0@, components.state_propose_hash)
            } else if !ok3 {
                is_hash_check(r, interaction_bytes->0@, components.interaction_hash)
            } else if !ok4 {
                is_hash_check(r, behavior_bytes->0@, components.behavior_hash)
            } else {
                r is Ok
            }
        },
{
    if components.state_apply.is_none() && components.state_apply_hash.is_none() {
        return Err(PublishError::MissingStateApply);
    }
    let r1 = check_hash(state_apply_bytes, components.state_apply_hash);
    if r1.is_err() {
        return r1;
    }
    if let Some(b) = state_propose_bytes {
        let r2 = check_hash(b, components.state_propose_hash);
        if r2.is_err() {
            return r2;
        }
    }
    if let Some(b) = interaction_bytes {
        let r3 = check_hash(b, components.interaction_hash);
        if r3.is_err() {
            return r3;
        }
    }
    if let Some(b) = behavior_bytes {
        let r4 = check_hash(b, components.behavior_hash);
        if r4.is_err() {
            return r4;
        }
    }
    Ok(())
}

/// Whether `bytes` pass the check against `declared`.
pub open spec fn blake3_ok(bytes: Seq<u8>, declared: Option<BlobHash>) -> bool {
    match declared {
        None => true,
        Some(d) => d.bytes@ == blake3_digest(bytes),
    }
}

/// Whether an optional component passes (an absent one always does).
pub open spec fn opt_ok(bytes: Option<&[u8]>, declared: Option<BlobHash>) -> bool {
    match bytes {
        None => true,
        Some(b) => blake3_ok(b@, declared),
    }
}

} // verus!
