//! Myrhiza kernel library: event DAG, out-of-order buffering, drift
//! detection, signed distribution logs and their supporting codecs.
use vstd::prelude::*;

pub mod bytes;
pub mod ids;
pub mod crypto;
pub mod event;
pub mod identity;
pub mod topo;
pub mod dag;
pub mod drift;
pub mod digest;
pub mod event_builder;
pub mod clock;
pub mod pending;
pub mod distribution;
pub mod backend;
pub mod state_apply;
pub mod state_propose;
pub mod interaction;
pub mod install;
pub mod runtime;
pub mod keystore;
pub mod drift_message;
pub mod ingest;
pub mod replay;
pub mod heads_summary;
pub mod drift_inbox;
pub mod gossip;
pub mod topic_state;

