//! State-digest observations: the BLAKE3 hash of an application's
//! state-digest output, recorded against the topo index of the event
//! whose post-state it digests.
use vstd::prelude::*;

use crate::crypto::blake3_digest;
use crate::ids::EventHash;

verus! {

/// One observation: the post-state digest hash for the event at a
/// canonical topo index.
#[derive(Clone, Copy, PartialEq, Eq, Debug)]
pub struct DigestEvent {
    /// Canonical topo index of the event whose post-state this digests.
    pub event_index: u64,
    /// BLAKE3 of the application's state-digest output bytes.
    pub digest_hash: EventHash,
}

/// Records one digest per observation, in order, until drained.
pub struct DigestEmitter {
    log: Vec<DigestEvent>,
    interval_events: u32,
}

impl DigestEmitter {
    /// The observations recorded since the last drain, oldest first.
    pub closed spec fn pending(&self) -> Seq<DigestEvent> {
        self.log@
    }

    /// The configured cadence.
    pub closed spec fn interval(&self) -> u32 {
        self.interval_events
    }

    /// An emitter with an empty log and the given cadence (the number
    /// of events between drift-detection observations).
    pub fn new(interval_events: u32) -> (r: Self)
        ensures
            r.pending() == Seq::<DigestEvent>::empty(),
            r.interval() == interval_events,
    {
        DigestEmitter { log: Vec::new(), interval_events }
    }

    /// The configured cadence.
    pub fn interval_events(&self) -> (r: u32)
        ensures
            r == self.interval(),
    {
        self.interval_events
    }

    /// Record the digest of `state_digest_bytes` for the event at
    /// `event_index`.
    pub fn observe(&mut self, event_index: u64, state_digest_bytes: &[u8])
        ensures
            final(self).interval() == old(self).interval(),
            final(self).pending().len() == old(self).pending().len() + 1,
            final(self).pending().drop_last() == old(self).pending(),
            final(self).pending().last().event_index == event_index,
            final(self).pending().last().digest_hash.bytes@ == blake3_digest(state_digest_bytes@),
    {
        let digest_hash = EventHash::blake3(state_digest_bytes);
        self.log.push(DigestEvent { event_index, digest_hash });
        assert(self.log@.drop_last() =~= old(self).log@);
    }

    /// Take the recorded observations, leaving the log empty.
    pub fn drain(&mut self) -> (r: Vec<DigestEvent>)
        ensures
            r@ == old(self).pending(),
            final(self).pending() == Seq::<DigestEvent>::empty(),
            final(self).interval() == old(self).interval(),
    {
        let mut out: Vec<DigestEvent> = Vec::new();
        std::mem::swap(&mut out, &mut self.log);
        out
    }
}

} // verus!
