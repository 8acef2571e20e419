//! Publication envelopes and the per-author publication log.
//!
//! Same seq discipline and gate order as the revocation log; the state
//! differs: a publication log keeps only the latest announcement
//! (manifest hash and version), not a set.
use vstd::prelude::*;
use vstd::string::StringSliceAdditionalSpecFns;

use crate::bytes::{extend_bytes, push_u64_le, u64_le};
use crate::crypto::{ed25519_decode_key, ed25519_key_valid, ed25519_verifies, ed25519_verify_strict};
use crate::distribution::signed_envelope::SignedEnvelope;
use crate::event::{byte_string, push_byte_string};
use crate::ids::{AuthorPubkey, BlobHash};

verus! {

/// Domain separator of publication signatures.
pub const DOMAIN_SEP_PUBLICATION: &'static str = "myrhiza/publication/v1";

/// Largest accepted step of the publication seq.
pub const MAX_PUBLICATION_JUMP: u64 = 1024;

/// Largest accepted length, in bytes, of a version string.
pub const MAX_VERSION_LEN: usize = 64;

/// A signed release announcement, gossiped on the author's publication
/// topic.
#[derive(Debug, PartialEq, Eq)]
pub struct PublicationEvent {
    /// Hash of the canonical manifest being announced.
    pub manifest_hash: BlobHash,
    /// Version string (at most [`MAX_VERSION_LEN`] bytes).
    pub version: String,
    /// Per-author seq; the log accepts only increasing values.
    pub publication_seq: u64,
    /// Ed25519 signature by the author over the signing target.
    pub signature: [u8; 64],
}

/// The UTF-8 bytes of the version.
pub open spec fn version_bytes(e: PublicationEvent) -> Seq<u8> {
    vstd::utf8::encode_utf8(e.version@)
}

/// The bytes a publication signature commits to: the domain separator,
/// then the manifest hash, the version (length-prefixed) and the seq.
pub open spec fn publication_target(e: PublicationEvent) -> Seq<u8> {
    DOMAIN_SEP_PUBLICATION.spec_bytes() + e.manifest_hash.bytes@ + byte_string(version_bytes(e))
        + u64_le(e.publication_seq)
}

impl Clone for PublicationEvent {
    fn clone(&self) -> (r: Self)
        ensures
            r == *self,
    {
        PublicationEvent {
            manifest_hash: self.manifest_hash,
            version: self.version.clone(),
            publication_seq: self.publication_seq,
            signature: self.signature,
        }
    }
}

impl PublicationEvent {
    /// The bytes the signature commits to.
    pub fn signing_target(&self) -> (r: Vec<u8>)
        ensures
            r@ == publication_target(*self),
    {
        let mut out: Vec<u8> = Vec::new();
        extend_bytes(&mut out, DOMAIN_SEP_PUBLICATION.as_bytes());
        extend_bytes(&mut out, &self.manifest_hash.bytes);
        push_byte_string(&mut out, self.version.as_str().as_bytes());
        push_u64_le(&mut out, self.publication_seq);
        assert(out@ =~= publication_target(*self));
        out
    }
}

impl SignedEnvelope for PublicationEvent {
    open spec fn target_bytes(&self) -> Seq<u8> {
        publication_target(*self)
    }

    open spec fn signature_bytes(&self) -> Seq<u8> {
        self.signature@
    }

    open spec fn oversized(&self) -> bool {
        version_bytes(*self).len() > MAX_VERSION_LEN
    }

    fn signing_target(&self) -> (r: Vec<u8>) {
        PublicationEvent::signing_target(self)
    }

    fn signature(&self) -> (r: &[u8; 64]) {
        &self.signature
    }

    fn field_too_long(&self) -> (r: bool) {
        self.version.as_str().as_bytes().len() > MAX_VERSION_LEN
    }
}

/// Why [`PublicationLog::apply`] rejected an envelope.
#[derive(Debug, Clone, Copy, PartialEq, Eq)]
pub enum PublicationError {
    /// The signature does not verify.
    SignatureInvalid,
    /// The author key is not an Ed25519 curve point.
    AuthorPubkeyMalformed,
    /// The seq is not greater than the last accepted one.
    SeqNotMonotonic {
        /// The envelope's seq.
        got: u64,
        /// The last accepted seq.
        last_observed: u64,
    },
    /// The seq moves past the last accepted one by more than
    /// [`MAX_PUBLICATION_JUMP`].
    SeqJumpTooLarge {
        /// The envelope's seq minus the last accepted one.
        jump: u64,
    },
    /// The version is longer than [`MAX_VERSION_LEN`] bytes.
    VersionTooLong {
        /// Its length in bytes.
        got: usize,
    },
}

/// The outcome of applying `e` from `author` to a log whose last
/// accepted seq is `last`.
pub open spec fn publication_check(last: u64, e: PublicationEvent, author: AuthorPubkey) -> Result<
    (),
    PublicationError,
> {
    if version_bytes(e).len() > MAX_VERSION_LEN {
        Err(PublicationError::VersionTooLong { got: version_bytes(e).len() as usize })
    } else if e.publication_seq <= last {
        Err(PublicationError::SeqNotMonotonic { got: e.publication_seq, last_observed: last })
    } else if e.publication_seq - last > MAX_PUBLICATION_JUMP {
        Err(PublicationError::SeqJumpTooLarge { jump: (e.publication_seq - last) as u64 })
    } else if !ed25519_key_valid(author.bytes@) {
        Err(PublicationError::AuthorPubkeyMalformed)
    } else if !ed25519_verifies(author.bytes@, publication_target(e), e.signature@) {
        Err(PublicationError::SignatureInvalid)
    } else {
        Ok(())
    }
}

/// One author's publication log: the highest accepted seq and the
/// latest announcement.
#[derive(Debug, PartialEq, Eq)]
pub struct PublicationLog {
    /// Highest accepted seq (0 before any).
    pub last_observed_seq: u64,
    /// The most recently accepted `(manifest_hash, version)`.
    pub latest_announcement: Option<(BlobHash, String)>,
}

impl Clone for PublicationLog {
    fn clone(&self) -> (r: Self)
        ensures
            r == *self,
    {
        let latest_announcement = match &self.latest_announcement {
            None => None,
            Some((h, v)) => Some((*h, v.clone())),
        };
        PublicationLog { last_observed_seq: self.last_observed_seq, latest_announcement }
    }
}

impl Default for PublicationLog {
    fn default() -> (r: Self)
        ensures
            r.last_observed_seq == 0,
            r.latest_announcement is None,
    {
        PublicationLog { last_observed_seq: 0, latest_announcement: None }
    }
}

impl PublicationLog {
    /// An empty log.
    pub fn new() -> (r: Self)
        ensures
            r.last_observed_seq == 0,
            r.latest_announcement is None,
    {
        Self::default()
    }

    /// Apply a signed announcement from `author`. On success the seq
    /// advances to the envelope's and the announcement becomes the
    /// latest.
    pub fn apply(self, event: &PublicationEvent, author: &AuthorPubkey) -> (r: Result<Self, PublicationError>)
        ensures
            match r {
                Ok(log) => {
                    &&& publication_check(self.last_observed_seq, *event, *author) is Ok
                    &&& log.last_observed_seq == event.publication_seq
                    &&& log.last_observed_seq > self.last_observed_seq
                    &&& log.latest_announcement matches Some((h, v)) && h == event.manifest_hash && v@ == event.version@
                },
                Err(e) => publication_check(self.last_observed_seq, *event, *author) == Err::<(), PublicationError>(e),
            },
    {
        let mut log = self;
        let version_len = event.version.as_str().as_bytes().len();
        if version_len > MAX_VERSION_LEN {
            return Err(PublicationError::VersionTooLong { got: version_len });
        }
        if event.publication_seq <= log.last_observed_seq {
            return Err(
                PublicationError::SeqNotMonotonic {
                    got: event.publication_seq,
                    last_observed: log.last_observed_seq,
                },
            );
        }
        let jump = event.publication_seq - log.last_observed_seq;
        if jump > MAX_PUBLICATION_JUMP {
            return Err(PublicationError::SeqJumpTooLarge { jump });
        }
        if !ed25519_decode_key(&author.bytes) {
            return Err(PublicationError::AuthorPubkeyMalformed);
        }
        let target = event.signing_target();
        if !ed25519_verify_strict(&author.bytes, target.as_slice(), &event.signature) {
            return Err(PublicationError::SignatureInvalid);
        }
        log.latest_announcement = Some((event.manifest_hash, event.version.clone()));
        log.last_observed_seq = event.publication_seq;
        Ok(log)
    }
}

} // verus!
