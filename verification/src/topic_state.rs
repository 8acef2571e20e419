//! One topic's state between events, the step that feeds an inbound
//! event through intake, replay, the stash drain and drift emission, and
//! the same step for an event authored here.
use vstd::prelude::*;

use crate::drift::DriftRateLimit;
use crate::drift::anchor_bound_map;
use crate::drift_inbox::{emit_outcome, maybe_emit_drift, DriftEmission, DriftInbox, DriftStep};
use crate::event::Event;
use crate::identity::PeerKeypair;
use crate::dag::Inserted;
use crate::identity::AuthorKeypair;
use crate::ids::{EventHash, IdSet};
use crate::ingest::{author_outcome, ingest_outcome, EventIngest, IngestAction};
use crate::runtime::RuntimeError;
use crate::replay::{
    calls_since, extends_calls, intake_outcome, lemma_extends_trans, replay_after_intake, replay_or_incremental,
    update_outcome, ApplyCall, ReplayState,
};
use crate::state_apply::{ApplyError, StateApplyHandle};

verus! {

/// Everything kept between inbound events on one topic.
pub struct TopicState {
    /// The DAG, the pending buffer and the intake records.
    pub ingest: EventIngest,
    /// The state replayed through the state-apply component.
    pub replayed: ReplayState,
    /// The state-apply component.
    pub handle: StateApplyHandle,
    /// Incoming drift messages and the cache of our digests.
    pub inbox: DriftInbox,
    /// The limiter on our drift emissions.
    pub limiter: DriftRateLimit,
    /// Emit a drift message every this many applied events.
    pub drift_interval: u64,
}

impl TopicState {
    /// The intake and the inbox are well formed.
    pub open spec fn wf(&self) -> bool {
        &&& self.ingest.wf()
        &&& self.inbox.wf()
    }
}

/// The replay's answer as a result over the replayed state.
pub open spec fn replay_result(r: Result<Option<DriftEmission>, ApplyError>, replayed: ReplayState) -> Result<
    ReplayState,
    ApplyError,
> {
    match r {
        Ok(_) => Ok(replayed),
        Err(e) => Err(e),
    }
}

/// Feed one inbound event: intake (see [`EventIngest::handle_event`]).
/// When events were applied, the replayed state is brought up to date
/// (see [`replay_after_intake`]); then the stashed drift messages whose
/// anchor the DAG now covers are processed (see
/// [`DriftInbox::drain_stash`]); then one drift emission is considered,
/// anchored at the last applied event (see [`maybe_emit_drift`]).
/// Returns the intake's action, the emission (none when nothing was
/// applied) or the error of a failed replay call, and the steps of the
/// drained messages. A failed replay leaves the replayed state, the
/// stash and the limiter as they were.
#[verifier::rlimit(60)]
pub fn intake_event(topic: &mut TopicState, key: &PeerKeypair, event: Event, now: u64) -> (r: (
    IngestAction,
    Result<Option<DriftEmission>, ApplyError>,
    Vec<DriftStep>,
))
    requires
        old(topic).wf(),
        old(topic).ingest.dag_state().size() + old(topic).ingest.buffer_state().items().len() + 1 < u64::MAX,
    ensures
        final(topic).wf(),
        final(topic).drift_interval == old(topic).drift_interval,
        ingest_outcome(old(topic).ingest, event, final(topic).ingest, r.0),
        extends_calls(old(topic).handle.apply_calls(), final(topic).handle.apply_calls()),
        !(r.0 is Applied) ==> {
            &&& r.1 == Ok::<Option<DriftEmission>, ApplyError>(None)
            &&& r.2@.len() == 0
            &&& final(topic).replayed == old(topic).replayed
            &&& final(topic).handle.apply_calls() == old(topic).handle.apply_calls()
            &&& final(topic).handle.digest_calls() == old(topic).handle.digest_calls()
            &&& final(topic).inbox == old(topic).inbox
            &&& final(topic).limiter == old(topic).limiter
        },
        r.1 is Err ==> {
            &&& r.0 is Applied
            &&& r.2@.len() == 0
            &&& final(topic).replayed == old(topic).replayed
            &&& final(topic).handle.digest_calls() == old(topic).handle.digest_calls()
            &&& final(topic).inbox == old(topic).inbox
            &&& final(topic).limiter == old(topic).limiter
        },
        r.0 is Applied ==> exists|mid: Seq<ApplyCall>|
            #![trigger intake_outcome(old(topic).replayed, r.0, &final(topic).ingest.dag_state(), calls_since(old(topic).handle.apply_calls(), mid), replay_result(r.1, final(topic).replayed))]
            extends_calls(old(topic).handle.apply_calls(), mid) && extends_calls(mid, final(topic).handle.apply_calls())
                && intake_outcome(
                old(topic).replayed,
                r.0,
                &final(topic).ingest.dag_state(),
                calls_since(old(topic).handle.apply_calls(), mid),
                replay_result(r.1, final(topic).replayed),
            ),
        r.0 is Applied && r.1 is Ok ==> r.1 matches Ok(Some(_)),
        r.1 matches Ok(Some(em)) ==> {
            &&& r.0 is Applied
            &&& exists|ib: DriftInbox, db: Seq<(Seq<u8>, Result<Seq<u8>, ApplyError>)>|
                #[trigger] emit_outcome(
                    ib,
                    final(topic).inbox,
                    old(topic).limiter,
                    final(topic).limiter,
                    final(topic).handle.apply_calls(),
                    final(topic).handle.apply_calls(),
                    db,
                    final(topic).handle.digest_calls(),
                    final(topic).replayed.state@,
                    *key,
                    &final(topic).ingest.dag_state(),
                    r.0->topo_index,
                    r.0->hash,
                    final(topic).drift_interval,
                    now,
                    em,
                )
        },
{
    let action = topic.ingest.handle_event(event);
    let ghost c0 = topic.handle.apply_calls();
    let replayed = replay_after_intake(&topic.replayed, &action, topic.ingest.dag(), &mut topic.handle);
    let ghost mid = topic.handle.apply_calls();
    proof {
        assert(c0 == old(topic).handle.apply_calls());
        let c = mid;
        assert(c.take(c.len() as int) =~= c);
    }
    match replayed {
        Err(e) => {
            proof {
                assert(intake_outcome(
                    old(topic).replayed,
                    action,
                    &topic.ingest.dag_state(),
                    calls_since(c0, mid),
                    Err::<ReplayState, ApplyError>(e),
                ));
            }
            return (action, Err(e), Vec::new());
        },
        Ok(None) => {
            return (action, Ok(None), Vec::new());
        },
        Ok(Some(s)) => {
            topic.replayed = s;
        },
    }
    proof {
        assert(intake_outcome(
            old(topic).replayed,
            action,
            &topic.ingest.dag_state(),
            calls_since(c0, mid),
            Ok::<ReplayState, ApplyError>(topic.replayed),
        ));
    }
    match action {
        IngestAction::Applied { topo_index, hash, .. } => {
            let positions = topic.ingest.dag().author_seq_vec();
            let current = anchor_bound_map(positions.as_slice());
            let own = key.public_key();
            let steps = topic.inbox.drain_stash(own, &current, topic.ingest.dag(), &mut topic.handle);
            let ghost c2 = topic.handle.apply_calls();
            let ghost ib = topic.inbox;
            let ghost db = topic.handle.digest_calls();
            let em = maybe_emit_drift(
                &mut topic.inbox,
                &mut topic.limiter,
                &mut topic.handle,
                topic.replayed.state.as_slice(),
                key,
                topic.ingest.dag(),
                topo_index,
                hash,
                topic.drift_interval,
                now,
            );
            proof {
                assert(topic.handle.apply_calls() =~= c2);
                lemma_extends_trans(c0, mid, c2);
                assert(emit_outcome(
                    ib,
                    topic.inbox,
                    old(topic).limiter,
                    topic.limiter,
                    topic.handle.apply_calls(),
                    topic.handle.apply_calls(),
                    db,
                    topic.handle.digest_calls(),
                    topic.replayed.state@,
                    *key,
                    &topic.ingest.dag_state(),
                    topo_index,
                    hash,
                    topic.drift_interval,
                    now,
                    em,
                ));
            }
            (action, Ok(Some(em)), steps)
        },
        _ => (action, Ok(None), Vec::new()),
    }
}

/// Author an event on the topic (see [`EventIngest::author`]), dry run
/// on the replayed state. When the event is applied, the replayed state
/// is brought up to date from its tip (see [`replay_or_incremental`]),
/// the stashed drift messages whose anchor the DAG now covers are
/// processed (see [`DriftInbox::drain_stash`]), and one drift emission
/// is considered, anchored at the event (see [`maybe_emit_drift`]).
/// Returns the authoring result, for the caller to publish the event;
/// the emission (none when nothing was applied) or the error of a failed
/// replay call; and the steps of the drained messages.
#[verifier::rlimit(60)]
pub fn author_event(
    topic: &mut TopicState,
    key: Option<&AuthorKeypair>,
    peer: &PeerKeypair,
    payload: Vec<u8>,
    deps: IdSet<EventHash>,
    wall_ms: u64,
    hlc_counter: &mut u32,
    now: u64,
) -> (r: (Result<(Event, Inserted), RuntimeError>, Result<Option<DriftEmission>, ApplyError>, Vec<DriftStep>))
    requires
        old(topic).wf(),
        old(topic).ingest.dag_state().size() < u64::MAX,
    ensures
        final(topic).wf(),
        final(topic).drift_interval == old(topic).drift_interval,
        extends_calls(old(topic).handle.apply_calls(), final(topic).handle.apply_calls()),
        !(r.0 matches Ok((_, Inserted::NewlyApplied { .. }))) ==> {
            &&& author_outcome(
                old(topic).ingest,
                key,
                old(topic).handle.apply_calls(),
                old(topic).handle.digest_calls(),
                old(topic).replayed.state@,
                payload@,
                deps.elems(),
                wall_ms,
                *old(hlc_counter),
                final(topic).ingest,
                final(topic).handle.apply_calls(),
                final(topic).handle.digest_calls(),
                *final(hlc_counter),
                r.0,
            )
            &&& r.1 == Ok::<Option<DriftEmission>, ApplyError>(None)
            &&& r.2@.len() == 0
            &&& final(topic).replayed == old(topic).replayed
            &&& final(topic).inbox == old(topic).inbox
            &&& final(topic).limiter == old(topic).limiter
        },
        r.0 matches Ok((_, Inserted::NewlyApplied { topo_index, hash })) ==> {
            &&& exists|m1: Seq<ApplyCall>, d1: Seq<(Seq<u8>, Result<Seq<u8>, ApplyError>)>, m2: Seq<ApplyCall>|
                #![trigger author_outcome(old(topic).ingest, key, old(topic).handle.apply_calls(), old(topic).handle.digest_calls(), old(topic).replayed.state@, payload@, deps.elems(), wall_ms, *old(hlc_counter), final(topic).ingest, m1, d1, *final(hlc_counter), r.0), calls_since(m1, m2)]
                author_outcome(
                    old(topic).ingest,
                    key,
                    old(topic).handle.apply_calls(),
                    old(topic).handle.digest_calls(),
                    old(topic).replayed.state@,
                    payload@,
                    deps.elems(),
                    wall_ms,
                    *old(hlc_counter),
                    final(topic).ingest,
                    m1,
                    d1,
                    *final(hlc_counter),
                    r.0,
                ) && extends_calls(m1, m2) && extends_calls(m2, final(topic).handle.apply_calls()) && update_outcome(
                    old(topic).replayed,
                    hash,
                    &final(topic).ingest.dag_state(),
                    calls_since(m1, m2),
                    replay_result(r.1, final(topic).replayed),
                )
            &&& (r.1 is Ok ==> (r.1 matches Ok(Some(_))))
            &&& r.1 is Err ==> {
                &&& r.2@.len() == 0
                &&& final(topic).replayed == old(topic).replayed
                &&& final(topic).inbox == old(topic).inbox
                &&& final(topic).limiter == old(topic).limiter
            }
            &&& (r.1 matches Ok(Some(em)) ==> exists|ib: DriftInbox, db: Seq<(Seq<u8>, Result<Seq<u8>, ApplyError>)>|
                #[trigger] emit_outcome(
                    ib,
                    final(topic).inbox,
                    old(topic).limiter,
                    final(topic).limiter,
                    final(topic).handle.apply_calls(),
                    final(topic).handle.apply_calls(),
                    db,
                    final(topic).handle.digest_calls(),
                    final(topic).replayed.state@,
                    *peer,
                    &final(topic).ingest.dag_state(),
                    topo_index,
                    hash,
                    final(topic).drift_interval,
                    now,
                    em,
                ))
        },
{
    let ghost c0 = topic.handle.apply_calls();
    let ghost pl = payload@;
    let ghost ds = deps.elems();
    let res = topic.ingest.author(key, &mut topic.handle, topic.replayed.state.as_slice(), payload, deps, wall_ms, hlc_counter);
    let ghost m1 = topic.handle.apply_calls();
    let ghost d1 = topic.handle.digest_calls();
    let applied = match &res {
        Ok((_, Inserted::NewlyApplied { topo_index, hash })) => Some((*topo_index, *hash)),
        _ => None,
    };
    proof {
        assert(author_outcome(
            old(topic).ingest,
            key,
            old(topic).handle.apply_calls(),
            old(topic).handle.digest_calls(),
            old(topic).replayed.state@,
            pl,
            ds,
            wall_ms,
            *old(hlc_counter),
            topic.ingest,
            m1,
            d1,
            *hlc_counter,
            res,
        ));
        assert(extends_calls(c0, m1)) by {
            if key is None {
                assert(m1.take(c0.len() as int) =~= c0);
            } else {
                assert(m1.take(c0.len() as int) =~= c0);
            }
        }
        assert(m1.take(m1.len() as int) =~= m1);
    }
    let (topo_index, hash) = match applied {
        None => {
            return (res, Ok(None), Vec::new());
        },
        Some(p) => p,
    };
    let replayed = replay_or_incremental(&topic.replayed, hash, topic.ingest.dag(), &mut topic.handle);
    let ghost m2 = topic.handle.apply_calls();
    proof {
        lemma_extends_trans(c0, m1, m2);
        assert(m2.take(m2.len() as int) =~= m2);
    }
    match replayed {
        Err(e) => {
            proof {
                assert(update_outcome(
                    old(topic).replayed,
                    hash,
                    &topic.ingest.dag_state(),
                    calls_since(m1, m2),
                    Err::<ReplayState, ApplyError>(e),
                ));
            }
            return (res, Err(e), Vec::new());
        },
        Ok(s) => {
            topic.replayed = s;
        },
    }
    proof {
        assert(update_outcome(
            old(topic).replayed,
            hash,
            &topic.ingest.dag_state(),
            calls_since(m1, m2),
            Ok::<ReplayState, ApplyError>(topic.replayed),
        ));
    }
    let positions = topic.ingest.dag().author_seq_vec();
    let current = anchor_bound_map(positions.as_slice());
    let own = peer.public_key();
    let steps = topic.inbox.drain_stash(own, &current, topic.ingest.dag(), &mut topic.handle);
    let ghost c3 = topic.handle.apply_calls();
    let ghost ib = topic.inbox;
    let ghost db = topic.handle.digest_calls();
    let em = maybe_emit_drift(
        &mut topic.inbox,
        &mut topic.limiter,
        &mut topic.handle,
        topic.replayed.state.as_slice(),
        peer,
        topic.ingest.dag(),
        topo_index,
        hash,
        topic.drift_interval,
        now,
    );
    proof {
        assert(topic.handle.apply_calls() =~= c3);
        assert(c3.take(c3.len() as int) =~= c3);
        lemma_extends_trans(m2, c3, topic.handle.apply_calls());
        lemma_extends_trans(c0, m2, topic.handle.apply_calls());
        assert(emit_outcome(
            ib,
            topic.inbox,
            old(topic).limiter,
            topic.limiter,
            topic.handle.apply_calls(),
            topic.handle.apply_calls(),
            db,
            topic.handle.digest_calls(),
            topic.replayed.state@,
            *peer,
            &topic.ingest.dag_state(),
            topo_index,
            hash,
            topic.drift_interval,
            now,
            em,
        ));
    }
    (res, Ok(Some(em)), steps)
}

} // verus!
