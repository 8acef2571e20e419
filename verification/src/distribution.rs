//! Bundle distribution: per-author revocation and publication logs,
//! their signed envelopes, topics, head summaries and backfill
//! messages, and the checks made before a bundle is published.
pub mod topic;
pub mod signed_envelope;
pub mod dispatch;
pub mod revocation;
pub mod publication;
pub mod heads;
pub mod backfill;
pub mod blobs;
pub mod wire;
