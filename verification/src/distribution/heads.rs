//! Unsigned head summaries of the distribution logs. A peer that hears
//! a head above its own pulls the missing envelopes from the advertiser
//! and verifies them itself; a summary never injects state.
use vstd::prelude::*;

use crate::ids::{AuthorPubkey, PeerPubkey};

verus! {

/// A peer's highest accepted revocation seq for an author.
#[derive(Clone, Copy, Debug, PartialEq, Eq)]
pub struct RevocationHeads {
    /// The author whose log this describes (lets a receiver detect a
    /// summary on the wrong topic).
    pub author: AuthorPubkey,
    /// The advertising peer (loopback filter, and whom to pull from).
    pub advertiser: PeerPubkey,
    /// Highest accepted seq for `author` (0 if none).
    pub last_observed_seq: u64,
}

/// A peer's highest accepted publication seq for an author.
#[derive(Clone, Copy, Debug, PartialEq, Eq)]
pub struct PublicationHeads {
    /// The author whose log this describes.
    pub author: AuthorPubkey,
    /// The advertising peer.
    pub advertiser: PeerPubkey,
    /// Highest accepted seq for `author` (0 if none).
    pub last_observed_seq: u64,
}

} // verus!
