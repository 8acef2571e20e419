//! Backfill messages: a behind peer asks an advertiser for one author's
//! revocation range or latest publication, and receives signed
//! envelopes that go through the normal apply path.
use vstd::prelude::*;

use crate::distribution::publication::PublicationEvent;
use crate::distribution::revocation::RevocationEvent;
use crate::ids::AuthorPubkey;

verus! {

/// Which of an author's distribution logs a request is about.
#[derive(Clone, Copy, Debug, PartialEq, Eq, Structural, PartialOrd, Ord, Hash)]
pub enum DistributionLogKind {
    /// The revocation log.
    Revocation,
    /// The publication log.
    Publication,
}

/// A request for the envelopes of one author's log from a seq on.
#[derive(Clone, Copy, Debug, PartialEq, Eq)]
pub struct DistributionBackfillRequest {
    /// The author.
    pub author: AuthorPubkey,
    /// Which log.
    pub kind: DistributionLogKind,
    /// First seq wanted (revocation) or the requester's current head
    /// (publication, which answers with the latest only).
    pub from_seq: u64,
}

/// One envelope of a backfill response.
#[derive(Clone, Debug, PartialEq, Eq)]
pub enum DistributionEnvelope {
    /// A revocation envelope.
    Revocation(RevocationEvent),
    /// A publication envelope.
    Publication(PublicationEvent),
}

} // verus!
