//! Replaying the event log through the state component. The state is
//! the fold of the component's answers over the events in the DAG's
//! canonical topological order (see [`crate::topo`]), from the empty
//! state: an accepted event advances the state to
//! the one the component gave, a rejected one leaves it and is recorded
//! as dropped with the component's reason, a failed call ends the
//! replay.
use vstd::prelude::*;

use crate::crypto::{blake3_digest, blake3_hash};
use crate::dag::EventDag;
use crate::event::{envelope_bytes, AuthorSeq, DriftAnchor, Event, EventView};
use crate::ids::AuthorPubkey;
use crate::event_builder::canonical_envelope;
use crate::ids::{id_eq, EventHash};
use crate::ingest::IngestAction;
use crate::state_apply::{
    apply_answer, digest_answer, ApplyAnswer, ApplyError, ApplyOutcome, ApplyResult, StateApplyHandle,
};

verus! {

/// One apply call as the handle records it: the prior state and the
/// event bytes handed to the component, and its answer.
pub type ApplyCall = (Seq<u8>, Seq<u8>, ApplyAnswer);

/// The answers of a run of calls.
pub open spec fn answers_of(calls: Seq<ApplyCall>) -> Seq<ApplyAnswer> {
    calls.map_values(|c: ApplyCall| c.2)
}

/// One step of the fold: a failed call or an earlier failure fails, an
/// accepted event gives the component's new state, a rejected one keeps
/// the state.
pub open spec fn state_step(acc: Result<Seq<u8>, ApplyError>, a: ApplyAnswer) -> Result<Seq<u8>, ApplyError> {
    match acc {
        Err(e) => Err(e),
        Ok(s) => match a {
            Err(e) => Err(e),
            Ok((ApplyOutcome::Accepted, ns)) => Ok(ns),
            Ok((ApplyOutcome::Rejected(_), _)) => Ok(s),
        },
    }
}

/// The state folded from `start` over `answers`, or the first failure.
pub open spec fn fold_state(start: Seq<u8>, answers: Seq<ApplyAnswer>) -> Result<Seq<u8>, ApplyError>
    decreases answers.len(),
{
    if answers.len() == 0 {
        Ok(start)
    } else {
        state_step(fold_state(start, answers.drop_last()), answers.last())
    }
}

/// The events dropped by the fold: the hash at each rejected position
/// with the component's reason, in order.
pub open spec fn fold_drops(hashes: Seq<EventHash>, answers: Seq<ApplyAnswer>) -> Seq<(EventHash, Seq<char>)>
    decreases answers.len(),
{
    if answers.len() == 0 {
        Seq::empty()
    } else {
        let d = fold_drops(hashes, answers.drop_last());
        match answers.last() {
            Ok((ApplyOutcome::Rejected(x), _)) => d.push((hashes[answers.len() - 1], x@)),
            _ => d,
        }
    }
}

/// Whether a run of calls replays `inputs` from `start`: the calls take
/// the inputs in order, each handed the state folded from the answers
/// before it, so that no call follows a failed one.
pub open spec fn replays(start: Seq<u8>, inputs: Seq<Seq<u8>>, calls: Seq<ApplyCall>) -> bool {
    &&& calls.len() <= inputs.len()
    &&& forall|i: int|
        0 <= i < calls.len() ==> {
            &&& (#[trigger] calls[i]).1 == inputs[i]
            &&& fold_state(start, answers_of(calls).take(i)) == Ok::<Seq<u8>, ApplyError>(calls[i].0)
        }
}

/// The canonical envelopes of the DAG's events in topological order.
pub open spec fn dag_envelopes(dag: &EventDag) -> Seq<Seq<u8>> {
    dag.topo().map_values(|h: EventHash| envelope_bytes(dag.events()[h]))
}

/// The canonical envelopes of `events`, in order.
pub open spec fn envelopes_of(events: Seq<Event>) -> Seq<Seq<u8>> {
    events.map_values(|e: Event| envelope_bytes(e@))
}

/// Whether `after`'s record of apply calls extends `before`'s.
pub open spec fn extends_calls(before: Seq<ApplyCall>, after: Seq<ApplyCall>) -> bool {
    &&& before.len() <= after.len()
    &&& after.take(before.len() as int) == before
}

/// Extending a record of calls is transitive.
pub proof fn lemma_extends_trans(a: Seq<ApplyCall>, b: Seq<ApplyCall>, c: Seq<ApplyCall>)
    requires
        extends_calls(a, b),
        extends_calls(b, c),
    ensures
        extends_calls(a, c),
{
    assert(c.take(a.len() as int) =~= c.take(b.len() as int).take(a.len() as int));
}

/// The apply calls made between `before` and `after`.
pub open spec fn calls_since(before: Seq<ApplyCall>, after: Seq<ApplyCall>) -> Seq<ApplyCall> {
    after.skip(before.len() as int)
}

/// The replayed state: the topological order it covers, the state, and
/// the events the component rejected on the way, with its reasons.
#[derive(Debug)]
pub struct ReplayState {
    /// The wire hashes replayed, in order.
    pub order: Vec<EventHash>,
    /// The state after them.
    pub state: Vec<u8>,
    /// The rejected events and the component's reasons.
    pub drops: Vec<(EventHash, String)>,
}

/// The drops with their reasons as text.
pub open spec fn drops_view(d: Seq<(EventHash, String)>) -> Seq<(EventHash, Seq<char>)> {
    d.map_values(|p: (EventHash, String)| (p.0, p.1@))
}

/// The drops after one more answer at `label`.
pub open spec fn drops_step(d: Seq<(EventHash, Seq<char>)>, label: EventHash, a: ApplyAnswer) -> Seq<
    (EventHash, Seq<char>),
> {
    match a {
        Ok((ApplyOutcome::Rejected(x), _)) => d.push((label, x@)),
        _ => d,
    }
}

/// A recorded call extends the run since `h0`.
proof fn lemma_record_push(h0: Seq<ApplyCall>, h1: Seq<ApplyCall>, h2: Seq<ApplyCall>, c: ApplyCall)
    requires
        extends_calls(h0, h1),
        h2 == h1.push(c),
    ensures
        extends_calls(h0, h2),
        calls_since(h0, h2) == calls_since(h0, h1).push(c),
{
    let n = h0.len() as int;
    assert(h2.take(n) =~= h1.take(n));
    assert(calls_since(h0, h2) =~= calls_since(h0, h1).push(c));
}

/// One more call, handed the folded state and the next input, extends a
/// replay, and the fold takes one more step.
proof fn lemma_replays_push(start: Seq<u8>, inputs: Seq<Seq<u8>>, calls: Seq<ApplyCall>, c: ApplyCall)
    requires
        replays(start, inputs, calls),
        calls.len() < inputs.len(),
        c.1 == inputs[calls.len() as int],
        fold_state(start, answers_of(calls)) == Ok::<Seq<u8>, ApplyError>(c.0),
    ensures
        replays(start, inputs, calls.push(c)),
        answers_of(calls.push(c)) == answers_of(calls).push(c.2),
{
    let a = answers_of(calls.push(c));
    assert(a =~= answers_of(calls).push(c.2));
    let cs = calls.push(c);
    assert forall|i: int| 0 <= i < cs.len() implies {
        &&& (#[trigger] cs[i]).1 == inputs[i]
        &&& fold_state(start, answers_of(cs).take(i)) == Ok::<Seq<u8>, ApplyError>(cs[i].0)
    } by {
        if i < calls.len() {
            assert(a.take(i) =~= answers_of(calls).take(i));
            assert(cs[i] == calls[i]);
        } else {
            assert(a.take(i) =~= answers_of(calls));
        }
    }
}

/// The fold over one more answer is one more step of it.
proof fn lemma_fold_push(start: Seq<u8>, hashes: Seq<EventHash>, answers: Seq<ApplyAnswer>, a: ApplyAnswer)
    requires
        answers.len() < hashes.len(),
    ensures
        fold_state(start, answers.push(a)) == state_step(fold_state(start, answers), a),
        fold_drops(hashes, answers.push(a)) == drops_step(fold_drops(hashes, answers), hashes[answers.len() as int], a),
{
    assert(answers.push(a).drop_last() =~= answers);
}

/// Once the fold has failed it stays failed with the same error.
proof fn lemma_fold_err_sticks(start: Seq<u8>, answers: Seq<ApplyAnswer>, k: int)
    requires
        0 <= k <= answers.len(),
        fold_state(start, answers.take(k)) is Err,
    ensures
        fold_state(start, answers) == fold_state(start, answers.take(k)),
    decreases answers.len(),
{
    if k < answers.len() {
        assert(answers.drop_last().take(k) =~= answers.take(k));
        lemma_fold_err_sticks(start, answers.drop_last(), k);
    } else {
        assert(answers.take(k) =~= answers);
    }
}

/// The drops of a fold read only the hashes at the folded positions.
proof fn lemma_fold_drops_prefix(hashes: Seq<EventHash>, more: Seq<EventHash>, answers: Seq<ApplyAnswer>)
    requires
        answers.len() <= hashes.len(),
    ensures
        fold_drops(hashes + more, answers) == fold_drops(hashes, answers),
    decreases answers.len(),
{
    if answers.len() > 0 {
        lemma_fold_drops_prefix(hashes, more, answers.drop_last());
        assert((hashes + more)[answers.len() - 1] == hashes[answers.len() - 1]);
    }
}

/// Whether the calls made since `h0` are the first `n` steps of a
/// replay of `inputs` from `start` that has reached `state`.
#[verifier::opaque]
spec fn run_ok(h0: Seq<ApplyCall>, h: Seq<ApplyCall>, start: Seq<u8>, inputs: Seq<Seq<u8>>, state: Seq<u8>, n: int) -> bool {
    &&& extends_calls(h0, h)
    &&& calls_since(h0, h).len() == n
    &&& replays(start, inputs, calls_since(h0, h))
    &&& fold_state(start, answers_of(calls_since(h0, h))) == Ok::<Seq<u8>, ApplyError>(state)
}

/// A run starts with no call.
proof fn lemma_run_start(h0: Seq<ApplyCall>, start: Seq<u8>, inputs: Seq<Seq<u8>>)
    ensures
        run_ok(h0, h0, start, inputs, start, 0),
        answers_of(calls_since(h0, h0)) == Seq::<ApplyAnswer>::empty(),
{
    reveal(run_ok);
    assert(calls_since(h0, h0) =~= Seq::<ApplyCall>::empty());
    assert(answers_of(calls_since(h0, h0)) =~= Seq::<ApplyAnswer>::empty());
    assert(h0.take(h0.len() as int) =~= h0);
}

/// Whether the calls made since `h0` replay `inputs` from `start` up to
/// a failure with error `e`.
#[verifier::opaque]
spec fn run_failed(h0: Seq<ApplyCall>, h: Seq<ApplyCall>, start: Seq<u8>, inputs: Seq<Seq<u8>>, e: ApplyError) -> bool {
    &&& extends_calls(h0, h)
    &&& replays(start, inputs, calls_since(h0, h))
    &&& fold_state(start, answers_of(calls_since(h0, h))) == Err::<Seq<u8>, ApplyError>(e)
}

/// What a failed run says of its calls.
proof fn lemma_run_failed_facts(h0: Seq<ApplyCall>, h: Seq<ApplyCall>, start: Seq<u8>, inputs: Seq<Seq<u8>>, e: ApplyError)
    requires
        run_failed(h0, h, start, inputs, e),
    ensures
        extends_calls(h0, h),
        replays(start, inputs, calls_since(h0, h)),
        fold_state(start, answers_of(calls_since(h0, h))) == Err::<Seq<u8>, ApplyError>(e),
{
    reveal(run_failed);
}

/// Whether `dv` are the drops of the calls made since `h0`, labelled by
/// `hashes`.
#[verifier::opaque]
spec fn drops_ok(h0: Seq<ApplyCall>, h: Seq<ApplyCall>, hashes: Seq<EventHash>, dv: Seq<(EventHash, Seq<char>)>) -> bool {
    dv == fold_drops(hashes, answers_of(calls_since(h0, h)))
}

/// One more step of the run: the next state, or the failure.
proof fn lemma_run_step(
    h0: Seq<ApplyCall>,
    h1: Seq<ApplyCall>,
    h2: Seq<ApplyCall>,
    start: Seq<u8>,
    inputs: Seq<Seq<u8>>,
    s0: Seq<u8>,
    n: int,
    c: ApplyCall,
)
    requires
        run_ok(h0, h1, start, inputs, s0, n),
        n < inputs.len(),
        h2 == h1.push(c),
        c.0 == s0,
        c.1 == inputs[n],
    ensures
        forall|s1: Seq<u8>|
            state_step(Ok::<Seq<u8>, ApplyError>(s0), c.2) == Ok::<Seq<u8>, ApplyError>(s1) ==> #[trigger] run_ok(
                h0,
                h2,
                start,
                inputs,
                s1,
                n + 1,
            ),
        forall|e: ApplyError|
            state_step(Ok::<Seq<u8>, ApplyError>(s0), c.2) == Err::<Seq<u8>, ApplyError>(e) ==> #[trigger] run_failed(
                h0,
                h2,
                start,
                inputs,
                e,
            ),
        forall|hashes: Seq<EventHash>, dv: Seq<(EventHash, Seq<char>)>|
            #![trigger drops_ok(h0, h1, hashes, dv)]
            drops_ok(h0, h1, hashes, dv) && n < hashes.len() ==> drops_ok(
                h0,
                h2,
                hashes,
                drops_step(dv, hashes[n], c.2),
            ),
{
    reveal(run_ok);
    reveal(run_failed);
    reveal(drops_ok);
    lemma_record_push(h0, h1, h2, c);
    lemma_replays_push(start, inputs, calls_since(h0, h1), c);
    assert(answers_of(calls_since(h0, h2)).drop_last() =~= answers_of(calls_since(h0, h1)));
    assert forall|hashes: Seq<EventHash>, dv: Seq<(EventHash, Seq<char>)>|
        #![trigger drops_ok(h0, h1, hashes, dv)]
        drops_ok(h0, h1, hashes, dv) && n < hashes.len() implies drops_ok(
            h0,
            h2,
            hashes,
            drops_step(dv, hashes[n], c.2),
        ) by {
        lemma_fold_push(start, hashes, answers_of(calls_since(h0, h1)), c.2);
    }
}

/// What a run that has made `n` calls says of them.
proof fn lemma_run_facts(h0: Seq<ApplyCall>, h: Seq<ApplyCall>, start: Seq<u8>, inputs: Seq<Seq<u8>>, state: Seq<u8>, n: int)
    requires
        run_ok(h0, h, start, inputs, state, n),
    ensures
        extends_calls(h0, h),
        calls_since(h0, h).len() == n,
        answers_of(calls_since(h0, h)).len() == n,
        replays(start, inputs, calls_since(h0, h)),
        fold_state(start, answers_of(calls_since(h0, h))) == Ok::<Seq<u8>, ApplyError>(state),
{
    reveal(run_ok);
}

/// What `drops_ok` says.
proof fn lemma_drops_facts(h0: Seq<ApplyCall>, h: Seq<ApplyCall>, hashes: Seq<EventHash>, dv: Seq<(EventHash, Seq<char>)>)
    ensures
        drops_ok(h0, h, hashes, dv) <==> dv == fold_drops(hashes, answers_of(calls_since(h0, h))),
{
    reveal(drops_ok);
}

/// Apply `event` to `state` through the component and fold its answer
/// in: accepted gives the new state, rejected records `label` with the
/// reason. The call is handed `state` and the event's canonical
/// envelope.
fn apply_step(
    handle: &mut StateApplyHandle,
    state: &mut Vec<u8>,
    drops: &mut Vec<(EventHash, String)>,
    label: EventHash,
    event: &Event,
) -> (r: Result<(), ApplyError>)
    ensures
        final(handle).apply_calls() == old(handle).apply_calls().push(
            (old(state)@, envelope_bytes(event@), final(handle).apply_calls().last().2),
        ),
        final(handle).digest_calls() == old(handle).digest_calls(),
        state_step(Ok(old(state)@), final(handle).apply_calls().last().2) == match r {
            Ok(_) => Ok::<Seq<u8>, ApplyError>(final(state)@),
            Err(e) => Err(e),
        },
        r is Ok ==> drops_view(final(drops)@) == drops_step(
            drops_view(old(drops)@),
            label,
            final(handle).apply_calls().last().2,
        ),
{
    let bytes = canonical_envelope(event);
    let res = handle.apply(state.as_slice(), bytes.as_slice());
    proof {
        assert(handle.apply_calls().last().2 == apply_answer(res));
    }
    match res {
        Err(e) => Err(e),
        Ok(a) => {
            let ApplyResult { outcome, new_state } = a;
            match outcome {
                ApplyOutcome::Accepted => {
                    *state = new_state;
                },
                ApplyOutcome::Rejected(reason) => {
                    let ghost d0 = drops@;
                    let ghost x = reason@;
                    drops.push((label, reason));
                    proof {
                        assert(drops_view(drops@) =~= drops_view(d0).push((label, x)));
                    }
                },
            }
            Ok(())
        },
    }
}

/// Fold a run of apply results, one per hash of `hashes`, from the empty
/// state: the state and the drops, or the first failure.
pub fn replay_fold(hashes: &[EventHash], results: Vec<Result<ApplyResult, ApplyError>>) -> (r: Result<
    (Vec<u8>, Vec<(EventHash, String)>),
    ApplyError,
>)
    requires
        hashes@.len() == results@.len(),
    ensures
        ({
            let answers = results@.map_values(|x: Result<ApplyResult, ApplyError>| apply_answer(x));
            match r {
                Ok((s, d)) => fold_state(Seq::empty(), answers) == Ok::<Seq<u8>, ApplyError>(s@) && drops_view(d@)
                    == fold_drops(hashes@, answers),
                Err(e) => fold_state(Seq::empty(), answers) == Err::<Seq<u8>, ApplyError>(e),
            }
        }),
{
    let ghost all = results@.map_values(|x: Result<ApplyResult, ApplyError>| apply_answer(x));
    let mut rest = results;
    let mut state: Vec<u8> = Vec::new();
    let mut drops: Vec<(EventHash, String)> = Vec::new();
    let mut i: usize = 0;
    while i < hashes.len()
        invariant
            all == results@.map_values(|x: Result<ApplyResult, ApplyError>| apply_answer(x)),
            i <= hashes@.len(),
            hashes@.len() == all.len(),
            rest@.len() == hashes@.len() - i,
            forall|j: int| 0 <= j < rest@.len() ==> apply_answer(#[trigger] rest@[j]) == all[i + j],
            fold_state(Seq::empty(), all.take(i as int)) == Ok::<Seq<u8>, ApplyError>(state@),
            drops_view(drops@) == fold_drops(hashes@, all.take(i as int)),
        decreases hashes@.len() - i,
    {
        let ghost before = rest@;
        let res = rest.remove(0);
        proof {
            assert(apply_answer(before[0]) == all[i as int]);
            assert forall|j: int| 0 <= j < rest@.len() implies apply_answer(#[trigger] rest@[j]) == all[i + 1 + j] by {
                assert(rest@[j] == before[j + 1]);
            }
            assert(all.take(i + 1) =~= all.take(i as int).push(all[i as int]));
            lemma_fold_push(Seq::empty(), hashes@, all.take(i as int), all[i as int]);
        }
        match res {
            Err(e) => {
                proof {
                    lemma_fold_err_sticks(Seq::empty(), all, i + 1);
                }
                return Err(e);
            },
            Ok(a) => {
                let ApplyResult { outcome, new_state } = a;
                match outcome {
                    ApplyOutcome::Accepted => {
                        state = new_state;
                    },
                    ApplyOutcome::Rejected(reason) => {
                        let ghost d0 = drops@;
                        let ghost x = reason@;
                        drops.push((hashes[i], reason));
                        proof {
                            assert(drops_view(drops@) =~= drops_view(d0).push((hashes@[i as int], x)));
                        }
                    },
                }
            },
        }
        i = i + 1;
    }
    assert(all.take(all.len() as int) =~= all);
    Ok((state, drops))
}

/// Replay the whole DAG: every event, in topological order, goes through
/// the component's apply from the empty state (see [`apply_step`]).
/// The calls made replay the DAG's envelopes; on success they cover the
/// whole order and the result is their fold; a failed call ends the
/// replay with its error.
pub fn replay_full(dag: &EventDag, handle: &mut StateApplyHandle) -> (r: Result<ReplayState, ApplyError>)
    requires
        dag.wf(),
    ensures
        extends_calls(old(handle).apply_calls(), final(handle).apply_calls()),
        final(handle).digest_calls() == old(handle).digest_calls(),
        replays(Seq::empty(), dag_envelopes(dag), calls_since(old(handle).apply_calls(), final(handle).apply_calls())),
        ran_out(Seq::empty(), dag_envelopes(dag), calls_since(old(handle).apply_calls(), final(handle).apply_calls())),
        ({
            let answers = answers_of(calls_since(old(handle).apply_calls(), final(handle).apply_calls()));
            match r {
                Ok(s) => {
                    &&& answers.len() == dag.topo().len()
                    &&& s.order@ == dag.topo()
                    &&& fold_state(Seq::empty(), answers) == Ok::<Seq<u8>, ApplyError>(s.state@)
                    &&& drops_view(s.drops@) == fold_drops(dag.topo(), answers)
                },
                Err(e) => fold_state(Seq::empty(), answers) == Err::<Seq<u8>, ApplyError>(e),
            }
        }),
{
    let order = dag.topo_sort();
    let ghost h0 = handle.apply_calls();
    let ghost d0 = handle.digest_calls();
    let ghost inputs = dag_envelopes(dag);
    let mut state: Vec<u8> = Vec::new();
    let mut drops: Vec<(EventHash, String)> = Vec::new();
    let mut i: usize = 0;
    proof {
        lemma_run_start(h0, Seq::empty(), inputs);
        lemma_drops_facts(h0, h0, dag.topo(), drops_view(drops@));
        assert(drops_view(drops@) =~= Seq::<(EventHash, Seq<char>)>::empty());
    }
    while i < order.len()
        invariant
            dag.wf(),
            order@ == dag.topo(),
            inputs == dag_envelopes(dag),
            inputs.len() == order@.len(),
            i <= order@.len(),
            handle.digest_calls() == d0,
            h0 == old(handle).apply_calls(),
            d0 == old(handle).digest_calls(),
            run_ok(h0, handle.apply_calls(), Seq::empty(), inputs, state@, i as int),
            drops_ok(h0, handle.apply_calls(), dag.topo(), drops_view(drops@)),
        decreases order@.len() - i,
    {
        let h = order[i];
        assert(dag.events().contains_key(h)) by {
            dag.lemma_topo_is_canonical();
            assert(dag.topo()[i as int] == h);
            assert(dag.topo().contains(h));
        }
        let event = dag.get(&h).unwrap();
        let ghost h1 = handle.apply_calls();
        let ghost s0 = state@;
        let res = apply_step(handle, &mut state, &mut drops, h, event);
        proof {
            let c = handle.apply_calls().last();
            assert(inputs[i as int] == envelope_bytes(dag.events()[h]));
            lemma_run_step(h0, h1, handle.apply_calls(), Seq::empty(), inputs, s0, i as int, c);
        }
        match res {
            Err(e) => {
                proof {
                    lemma_run_failed_facts(h0, handle.apply_calls(), Seq::empty(), inputs, e);
                }
                return Err(e);
            },
            Ok(()) => {},
        }
        i = i + 1;
    }
    proof {
        lemma_run_facts(h0, handle.apply_calls(), Seq::empty(), inputs, state@, i as int);
        lemma_drops_facts(h0, handle.apply_calls(), dag.topo(), drops_view(drops@));
    }
    Ok(ReplayState { order, state, drops })
}

/// Whether `order` extends `last` by exactly one hash, `tip`.
pub open spec fn extends_by_tip(last: Seq<EventHash>, order: Seq<EventHash>, tip: EventHash) -> bool {
    &&& order.len() == last.len() + 1
    &&& order.take(last.len() as int) == last
    &&& order.last() == tip
}

/// The fast path after a single insert with wire hash `inserted_hash`:
/// when the DAG's order is the replayed order plus that one hash, only
/// the new event goes through the component, on the replayed state;
/// otherwise `None`, and the caller replays in full. An accepted event
/// advances the state, a rejected one is added to the drops.
pub fn try_tip_incremental(last: &ReplayState, inserted_hash: EventHash, dag: &EventDag, handle: &mut StateApplyHandle)
    -> (r: Result<Option<ReplayState>, ApplyError>)
    requires
        dag.wf(),
    ensures
        extends_calls(old(handle).apply_calls(), final(handle).apply_calls()),
        final(handle).digest_calls() == old(handle).digest_calls(),
        !extends_by_tip(last.order@, dag.topo(), inserted_hash) ==> r == Ok::<Option<ReplayState>, ApplyError>(None)
            && final(handle).apply_calls() == old(handle).apply_calls(),
        extends_by_tip(last.order@, dag.topo(), inserted_hash) ==> {
            let calls = calls_since(old(handle).apply_calls(), final(handle).apply_calls());
            let a = calls[0].2;
            &&& calls.len() == 1
            &&& calls[0].0 == last.state@
            &&& calls[0].1 == envelope_bytes(dag.events()[inserted_hash])
            &&& match r {
                Ok(Some(s)) => {
                    &&& s.order@ == dag.topo()
                    &&& state_step(Ok(last.state@), a) == Ok::<Seq<u8>, ApplyError>(s.state@)
                    &&& drops_view(s.drops@) == drops_step(drops_view(last.drops@), inserted_hash, a)
                },
                Ok(None) => false,
                Err(e) => a == Err::<(ApplyOutcome, Seq<u8>), ApplyError>(e),
            }
        },
{
    proof {
        let c = old(handle).apply_calls();
        assert(c.take(c.len() as int) =~= c);
    }
    let order = dag.topo_sort();
    let n = last.order.len();
    if order.len() == 0 || order.len() - 1 != n {
        return Ok(None);
    }
    if !prefix_matches(&order, &last.order) {
        return Ok(None);
    }
    if !id_eq(&order[n], &inserted_hash) {
        return Ok(None);
    }
    proof {
        dag.lemma_topo_is_canonical();
        assert(dag.topo()[n as int] == inserted_hash);
        assert(dag.topo().contains(inserted_hash));
    }
    let event = dag.get(&inserted_hash).unwrap();
    let ghost h0 = handle.apply_calls();
    let ghost d0 = handle.digest_calls();
    let mut state = copy_bytes(&last.state);
    let mut drops = copy_drops(&last.drops);
    let res = apply_step(handle, &mut state, &mut drops, inserted_hash, event);
    proof {
        lemma_record_push(h0, h0, handle.apply_calls(), handle.apply_calls().last());
        assert(h0.take(h0.len() as int) =~= h0);
        assert(calls_since(h0, h0) =~= Seq::<ApplyCall>::empty());
    }
    match res {
        Err(e) => Err(e),
        Ok(()) => Ok(Some(ReplayState { order, state, drops })),
    }
}

/// Whether `order` starts with `last`.
fn prefix_matches(order: &Vec<EventHash>, last: &Vec<EventHash>) -> (r: bool)
    requires
        order@.len() == last@.len() + 1,
    ensures
        r == (order@.take(last@.len() as int) == last@),
{
    let n = last.len();
    let mut k: usize = 0;
    while k < n
        invariant
            n == last@.len(),
            order@.len() == n + 1,
            k <= n,
            forall|j: int| 0 <= j < k ==> order@[j] == last@[j],
        decreases n - k,
    {
        if !id_eq(&order[k], &last[k]) {
            proof {
                assert(order@.take(n as int)[k as int] != last@[k as int]);
            }
            return false;
        }
        k = k + 1;
    }
    assert(order@.take(n as int) =~= last@);
    true
}

/// A copy of `b`.
fn copy_bytes(b: &Vec<u8>) -> (r: Vec<u8>)
    ensures
        r@ == b@,
{
    let mut out: Vec<u8> = Vec::new();
    let mut i: usize = 0;
    while i < b.len()
        invariant
            i <= b@.len(),
            out@ == b@.take(i as int),
        decreases b@.len() - i,
    {
        out.push(b[i]);
        i = i + 1;
        assert(out@ =~= b@.take(i as int));
    }
    assert(b@.take(b@.len() as int) =~= b@);
    out
}

/// A copy of a list of drops.
fn copy_drops(d: &Vec<(EventHash, String)>) -> (r: Vec<(EventHash, String)>)
    ensures
        drops_view(r@) == drops_view(d@),
{
    let mut out: Vec<(EventHash, String)> = Vec::new();
    let mut i: usize = 0;
    while i < d.len()
        invariant
            i <= d@.len(),
            drops_view(out@) == drops_view(d@).take(i as int),
        decreases d@.len() - i,
    {
        let (h, s) = &d[i];
        let ghost before = out@;
        out.push((*h, s.clone()));
        proof {
            assert(drops_view(out@) =~= drops_view(before).push((*h, s@)));
        }
        i = i + 1;
        assert(drops_view(out@) =~= drops_view(d@).take(i as int));
    }
    assert(drops_view(d@).take(d@.len() as int) =~= drops_view(d@));
    out
}

/// Whether `r` is what a full replay of `dag` gives whose calls were
/// `calls` (see [`replay_full`]).
pub open spec fn full_replay_outcome(dag: &EventDag, calls: Seq<ApplyCall>, r: Result<ReplayState, ApplyError>) -> bool {
    &&& replays(Seq::empty(), dag_envelopes(dag), calls)
    &&& ran_out(Seq::empty(), dag_envelopes(dag), calls)
    &&& match r {
        Ok(s) => {
            &&& s.order@ == dag.topo()
            &&& fold_state(Seq::empty(), answers_of(calls)) == Ok::<Seq<u8>, ApplyError>(s.state@)
            &&& drops_view(s.drops@) == fold_drops(dag.topo(), answers_of(calls))
        },
        Err(e) => fold_state(Seq::empty(), answers_of(calls)) == Err::<Seq<u8>, ApplyError>(e),
    }
}

/// Whether `r` is what the fast path from `last` on the tip `tip` gives
/// whose calls were `calls` (see [`try_tip_incremental`]).
pub open spec fn tip_outcome(
    last: ReplayState,
    tip: EventHash,
    dag: &EventDag,
    calls: Seq<ApplyCall>,
    r: Result<ReplayState, ApplyError>,
) -> bool {
    &&& calls.len() == 1
    &&& calls[0].0 == last.state@
    &&& calls[0].1 == envelope_bytes(dag.events()[tip])
    &&& match r {
        Ok(s) => {
            &&& s.order@ == dag.topo()
            &&& state_step(Ok(last.state@), calls[0].2) == Ok::<Seq<u8>, ApplyError>(s.state@)
            &&& drops_view(s.drops@) == drops_step(drops_view(last.drops@), tip, calls[0].2)
        },
        Err(e) => calls[0].2 == Err::<(ApplyOutcome, Seq<u8>), ApplyError>(e),
    }
}

/// What bringing `last` up to date after the tip `tip` gives: the fast
/// path when the DAG's order is `last`'s plus the tip, a full replay
/// otherwise.
pub open spec fn update_outcome(
    last: ReplayState,
    tip: EventHash,
    dag: &EventDag,
    calls: Seq<ApplyCall>,
    r: Result<ReplayState, ApplyError>,
) -> bool {
    if extends_by_tip(last.order@, dag.topo(), tip) {
        tip_outcome(last, tip, dag, calls, r)
    } else {
        full_replay_outcome(dag, calls, r)
    }
}

/// The fast path or, when it does not apply, a full replay (see
/// [`try_tip_incremental`] and [`replay_full`]).
pub fn replay_or_incremental(last: &ReplayState, inserted_hash: EventHash, dag: &EventDag, handle: &mut StateApplyHandle)
    -> (r: Result<ReplayState, ApplyError>)
    requires
        dag.wf(),
    ensures
        extends_calls(old(handle).apply_calls(), final(handle).apply_calls()),
        final(handle).digest_calls() == old(handle).digest_calls(),
        update_outcome(*last, inserted_hash, dag, calls_since(old(handle).apply_calls(), final(handle).apply_calls()), r),
{
    let ghost c0 = handle.apply_calls();
    match try_tip_incremental(last, inserted_hash, dag, handle) {
        Err(e) => Err(e),
        Ok(Some(s)) => Ok(s),
        Ok(None) => {
            let r = replay_full(dag, handle);
            proof {
                assert(calls_since(c0, handle.apply_calls()) == calls_since(old(handle).apply_calls(), handle.apply_calls()));
            }
            r
        },
    }
}

/// What bringing `last` up to date after an intake that applied events
/// gives: the update from the applied tip when only the inbound event
/// was applied, a full replay otherwise.
pub open spec fn intake_outcome(
    last: ReplayState,
    action: IngestAction,
    dag: &EventDag,
    calls: Seq<ApplyCall>,
    r: Result<ReplayState, ApplyError>,
) -> bool {
    match action {
        IngestAction::Applied { hash, drained, .. } => if drained == 0 {
            update_outcome(last, hash, dag, calls, r)
        } else {
            full_replay_outcome(dag, calls, r)
        },
        _ => false,
    }
}

/// Bring the replayed state up to date after an intake: nothing to do
/// unless events were applied; when only the inbound event was applied,
/// the update from its tip (see [`replay_or_incremental`]), a full
/// replay otherwise.
pub fn replay_after_intake(
    last: &ReplayState,
    action: &IngestAction,
    dag: &EventDag,
    handle: &mut StateApplyHandle,
) -> (r: Result<Option<ReplayState>, ApplyError>)
    requires
        dag.wf(),
    ensures
        extends_calls(old(handle).apply_calls(), final(handle).apply_calls()),
        final(handle).digest_calls() == old(handle).digest_calls(),
        !(*action is Applied) ==> r == Ok::<Option<ReplayState>, ApplyError>(None),
        ({
            let calls = calls_since(old(handle).apply_calls(), final(handle).apply_calls());
            match r {
                Ok(None) => !(*action is Applied) && calls.len() == 0,
                Ok(Some(s)) => intake_outcome(*last, *action, dag, calls, Ok(s)),
                Err(e) => intake_outcome(*last, *action, dag, calls, Err(e)),
            }
        }),
{
    proof {
        let c = old(handle).apply_calls();
        assert(c.take(c.len() as int) =~= c);
        assert(calls_since(c, c) =~= Seq::<ApplyCall>::empty());
    }
    match action {
        IngestAction::Applied { hash, drained, .. } => {
            let r = if *drained == 0 {
                replay_or_incremental(last, *hash, dag, handle)
            } else {
                replay_full(dag, handle)
            };
            match r {
                Ok(s) => Ok(Some(s)),
                Err(e) => Err(e),
            }
        },
        _ => Ok(None),
    }
}

/// A tip step from a full replay's state is the full replay one event
/// longer, when the component answers the new event as it did on the
/// fast path: the state is one more step of the fold and the drops gain
/// the new event when it is rejected.
pub proof fn lemma_tip_step_is_full_replay(
    order: Seq<EventHash>,
    tip: EventHash,
    answers: Seq<ApplyAnswer>,
    a: ApplyAnswer,
)
    requires
        answers.len() == order.len(),
    ensures
        fold_state(Seq::empty(), answers.push(a)) == state_step(fold_state(Seq::empty(), answers), a),
        fold_drops(order.push(tip), answers.push(a)) == drops_step(fold_drops(order, answers), tip, a),
{
    lemma_fold_drops_prefix(order, seq![tip], answers);
    assert(order + seq![tip] =~= order.push(tip));
    lemma_fold_push(Seq::empty(), order.push(tip), answers, a);
}

/// Whether every call was answered as the deterministic `model` answers
/// its state and event.
pub open spec fn follows(model: spec_fn(Seq<u8>, Seq<u8>) -> ApplyAnswer, calls: Seq<ApplyCall>) -> bool {
    forall|i: int| 0 <= i < calls.len() ==> (#[trigger] calls[i]).2 == model(calls[i].0, calls[i].1)
}

/// The state that replaying `inputs` from `start` gives under the
/// deterministic `model`, or its first failure.
pub open spec fn model_replay(model: spec_fn(Seq<u8>, Seq<u8>) -> ApplyAnswer, start: Seq<u8>, inputs: Seq<Seq<u8>>) -> Result<
    Seq<u8>,
    ApplyError,
>
    decreases inputs.len(),
{
    if inputs.len() == 0 {
        Ok(start)
    } else {
        match model_replay(model, start, inputs.drop_last()) {
            Err(e) => Err(e),
            Ok(s) => state_step(Ok(s), model(s, inputs.last())),
        }
    }
}

/// Whether a replay ran to its end: every input was applied, or a call
/// failed.
pub open spec fn ran_out(start: Seq<u8>, inputs: Seq<Seq<u8>>, calls: Seq<ApplyCall>) -> bool {
    calls.len() == inputs.len() || fold_state(start, answers_of(calls)) is Err
}

/// The first `k` calls of a replay that follows `model` fold to the
/// model's replay of the first `k` inputs.
proof fn lemma_follow_prefix(
    model: spec_fn(Seq<u8>, Seq<u8>) -> ApplyAnswer,
    start: Seq<u8>,
    inputs: Seq<Seq<u8>>,
    calls: Seq<ApplyCall>,
    k: int,
)
    requires
        replays(start, inputs, calls),
        follows(model, calls),
        0 <= k <= calls.len(),
    ensures
        fold_state(start, answers_of(calls).take(k)) == model_replay(model, start, inputs.take(k)),
    decreases k,
{
    let a = answers_of(calls);
    if k == 0 {
        assert(a.take(0) =~= Seq::<ApplyAnswer>::empty());
        assert(inputs.take(0) =~= Seq::<Seq<u8>>::empty());
    } else {
        lemma_follow_prefix(model, start, inputs, calls, k - 1);
        assert(a.take(k).drop_last() =~= a.take(k - 1));
        assert(inputs.take(k).drop_last() =~= inputs.take(k - 1));
        let c = calls[k - 1];
        assert(a.take(k).last() == c.2);
        assert(inputs.take(k).last() == inputs[k - 1]);
    }
}

/// Once the model's replay has failed it stays failed.
proof fn lemma_model_err_sticks(
    model: spec_fn(Seq<u8>, Seq<u8>) -> ApplyAnswer,
    start: Seq<u8>,
    inputs: Seq<Seq<u8>>,
    k: int,
)
    requires
        0 <= k <= inputs.len(),
        model_replay(model, start, inputs.take(k)) is Err,
    ensures
        model_replay(model, start, inputs) == model_replay(model, start, inputs.take(k)),
    decreases inputs.len(),
{
    if k < inputs.len() {
        assert(inputs.drop_last().take(k) =~= inputs.take(k));
        lemma_model_err_sticks(model, start, inputs.drop_last(), k);
    } else {
        assert(inputs.take(k) =~= inputs);
    }
}

/// A replay that ran to its end, under a component that answers as a
/// deterministic model, ends in the model's replay: its state, or its
/// failure.
pub proof fn lemma_replay_follows_model(
    model: spec_fn(Seq<u8>, Seq<u8>) -> ApplyAnswer,
    start: Seq<u8>,
    inputs: Seq<Seq<u8>>,
    calls: Seq<ApplyCall>,
)
    requires
        replays(start, inputs, calls),
        ran_out(start, inputs, calls),
        follows(model, calls),
    ensures
        fold_state(start, answers_of(calls)) == model_replay(model, start, inputs),
{
    let n = calls.len() as int;
    lemma_follow_prefix(model, start, inputs, calls, n);
    assert(answers_of(calls).take(n) =~= answers_of(calls));
    if n < inputs.len() {
        lemma_model_err_sticks(model, start, inputs, n);
    } else {
        assert(inputs.take(n) =~= inputs);
    }
}

/// Replay converges: two replays of the same log that ran to their end,
/// under components that answer as the same deterministic model, reach
/// the same state, or fail with the same error.
pub proof fn lemma_replay_converges(
    model: spec_fn(Seq<u8>, Seq<u8>) -> ApplyAnswer,
    inputs: Seq<Seq<u8>>,
    calls1: Seq<ApplyCall>,
    calls2: Seq<ApplyCall>,
)
    requires
        replays(Seq::empty(), inputs, calls1),
        replays(Seq::empty(), inputs, calls2),
        ran_out(Seq::empty(), inputs, calls1),
        ran_out(Seq::empty(), inputs, calls2),
        follows(model, calls1),
        follows(model, calls2),
    ensures
        fold_state(Seq::empty(), answers_of(calls1)) == fold_state(Seq::empty(), answers_of(calls2)),
{
    lemma_replay_follows_model(model, Seq::empty(), inputs, calls1);
    lemma_replay_follows_model(model, Seq::empty(), inputs, calls2);
}

/// Replay converges across peers: two DAGs that hold the same events,
/// in whatever order they arrived, replay the same envelopes in the same
/// order; replayed to their end under components that answer as the
/// same deterministic model, they reach the same state, or fail with the
/// same error.
pub proof fn lemma_equal_logs_converge(
    model: spec_fn(Seq<u8>, Seq<u8>) -> ApplyAnswer,
    d1: &EventDag,
    d2: &EventDag,
    calls1: Seq<ApplyCall>,
    calls2: Seq<ApplyCall>,
)
    requires
        d1.wf(),
        d2.wf(),
        d1.events() == d2.events(),
        replays(Seq::empty(), dag_envelopes(d1), calls1),
        replays(Seq::empty(), dag_envelopes(d2), calls2),
        ran_out(Seq::empty(), dag_envelopes(d1), calls1),
        ran_out(Seq::empty(), dag_envelopes(d2), calls2),
        follows(model, calls1),
        follows(model, calls2),
    ensures
        d1.topo() == d2.topo(),
        dag_envelopes(d1) == dag_envelopes(d2),
        fold_state(Seq::empty(), answers_of(calls1)) == fold_state(Seq::empty(), answers_of(calls2)),
{
    d1.lemma_topo_determined_by_events(d2);
    assert(dag_envelopes(d1) =~= dag_envelopes(d2));
    lemma_replay_converges(model, dag_envelopes(d1), calls1, calls2);
}

/// Our state digest after the events `subset`, in order, from the empty
/// state: each event's canonical envelope goes through the component's
/// apply, accepted events advance the state, rejected ones are skipped;
/// the result is the BLAKE3 of the component's digest bytes of the final
/// state. `None` when any component call fails.
pub fn compute_subset_digest(handle: &mut StateApplyHandle, subset: &[Event]) -> (r: Option<[u8; 32]>)
    ensures
        extends_calls(old(handle).apply_calls(), final(handle).apply_calls()),
        replays(Seq::empty(), envelopes_of(subset@), calls_since(old(handle).apply_calls(), final(handle).apply_calls())),
        ({
            let answers = answers_of(calls_since(old(handle).apply_calls(), final(handle).apply_calls()));
            match fold_state(Seq::empty(), answers) {
                Err(_) => r is None && final(handle).digest_calls() == old(handle).digest_calls(),
                Ok(s) => {
                    let d = final(handle).digest_calls().last().1;
                    &&& answers.len() == subset@.len()
                    &&& final(handle).digest_calls() == old(handle).digest_calls().push((s, d))
                    &&& d is Err ==> r is None
                    &&& d matches Ok(b) ==> r matches Some(x) && x@ == blake3_digest(b)
                },
            }
        }),
{
    let ghost h0 = handle.apply_calls();
    let ghost d0 = handle.digest_calls();
    let ghost inputs = envelopes_of(subset@);
    let mut state: Vec<u8> = Vec::new();
    // The digest reads the state alone: what the steps record of
    // rejected events is not kept.
    let mut scratch: Vec<(EventHash, String)> = Vec::new();
    let label = EventHash { bytes: [0u8; 32] };
    let mut i: usize = 0;
    proof {
        lemma_run_start(h0, Seq::empty(), inputs);
    }
    while i < subset.len()
        invariant
            inputs == envelopes_of(subset@),
            inputs.len() == subset@.len(),
            i <= subset@.len(),
            handle.digest_calls() == d0,
            h0 == old(handle).apply_calls(),
            d0 == old(handle).digest_calls(),
            run_ok(h0, handle.apply_calls(), Seq::empty(), inputs, state@, i as int),
        decreases subset@.len() - i,
    {
        let ghost h1 = handle.apply_calls();
        let ghost s0 = state@;
        let res = apply_step(handle, &mut state, &mut scratch, label, &subset[i]);
        proof {
            let c = handle.apply_calls().last();
            lemma_run_step(h0, h1, handle.apply_calls(), Seq::empty(), inputs, s0, i as int, c);
        }
        match res {
            Err(e) => {
                proof {
                    lemma_run_failed_facts(h0, handle.apply_calls(), Seq::empty(), inputs, e);
                }
                return None;
            },
            Ok(()) => {},
        }
        i = i + 1;
    }
    proof {
        lemma_run_facts(h0, handle.apply_calls(), Seq::empty(), inputs, state@, i as int);
    }
    let ghost h2 = handle.apply_calls();
    let d = handle.state_digest(state.as_slice());
    proof {
        assert(calls_since(h0, handle.apply_calls()) == calls_since(h0, h2));
    }
    match d {
        Err(_) => None,
        Ok(digest_bytes) => Some(blake3_hash(digest_bytes.as_slice())),
    }
}

/// The seq bound an anchor sets for author `a`: the max seq of the last
/// entry naming `a`, or `None` when no entry does.
pub open spec fn bound_of(v: Seq<AuthorSeq>, a: AuthorPubkey) -> Option<u64>
    decreases v.len(),
{
    if v.len() == 0 {
        None
    } else if v.last().author == a {
        Some(v.last().max_seq)
    } else {
        bound_of(v.drop_last(), a)
    }
}

/// Whether an anchor covers an event: its author is in the anchor and
/// its seq is within the author's bound.
pub open spec fn anchor_allows(v: Seq<AuthorSeq>, ev: EventView) -> bool {
    match bound_of(v, ev.author) {
        Some(b) => ev.seq <= b,
        None => false,
    }
}

/// The hashes of the events an anchor covers, in canonical order.
pub open spec fn anchor_hashes(dag: &EventDag, v: Seq<AuthorSeq>) -> Seq<EventHash> {
    dag.topo().filter(|h: EventHash| anchor_allows(v, dag.events()[h]))
}

/// The canonical envelopes of the events an anchor covers, in canonical
/// order.
pub open spec fn anchor_envelopes(dag: &EventDag, v: Seq<AuthorSeq>) -> Seq<Seq<u8>> {
    anchor_hashes(dag, v).map_values(|h: EventHash| envelope_bytes(dag.events()[h]))
}

/// The bound an anchor sets for `a` (see [`bound_of`]).
fn anchor_bound(v: &[AuthorSeq], a: &AuthorPubkey) -> (r: Option<u64>)
    ensures
        r == bound_of(v@, *a),
{
    let mut i: usize = v.len();
    assert(v@.take(i as int) =~= v@);
    while i > 0
        invariant
            i <= v@.len(),
            bound_of(v@, *a) == bound_of(v@.take(i as int), *a),
        decreases i,
    {
        let e = v[i - 1];
        assert(v@.take(i as int).last() == e);
        if id_eq(&e.author, a) {
            return Some(e.max_seq);
        }
        assert(v@.take(i as int).drop_last() =~= v@.take(i - 1));
        i = i - 1;
    }
    None
}

/// The events an anchor covers, in the DAG's canonical order: those
/// whose author is in the anchor with a seq within its bound.
pub fn anchor_subset(dag: &EventDag, anchor: &DriftAnchor) -> (r: Vec<Event>)
    requires
        dag.wf(),
    ensures
        r@.len() == anchor_hashes(dag, anchor.author_seq_vec@).len(),
        forall|i: int|
            0 <= i < r@.len() ==> (#[trigger] r@[i])@ == dag.events()[anchor_hashes(dag, anchor.author_seq_vec@)[i]],
{
    let ghost v = anchor.author_seq_vec@;
    let ghost p = |h: EventHash| anchor_allows(v, dag.events()[h]);
    let order = dag.topo_sort();
    proof {
        dag.lemma_topo_is_canonical();
    }
    let mut out: Vec<Event> = Vec::new();
    let ghost mut hs: Seq<EventHash> = Seq::empty();
    let mut i: usize = 0;
    while i < order.len()
        invariant
            dag.wf(),
            order@ == dag.topo(),
            v == anchor.author_seq_vec@,
            p == (|h: EventHash| anchor_allows(v, dag.events()[h])),
            forall|h: EventHash| #[trigger] dag.topo().contains(h) ==> dag.events().contains_key(h),
            i <= order@.len(),
            hs == order@.take(i as int).filter(p),
            out@.len() == hs.len(),
            forall|j: int| 0 <= j < out@.len() ==> (#[trigger] out@[j])@ == dag.events()[hs[j]],
        decreases order@.len() - i,
    {
        let h = order[i];
        proof {
            assert(dag.topo()[i as int] == h);
            assert(dag.topo().contains(h));
            reveal(Seq::filter);
            assert(order@.take(i + 1).drop_last() =~= order@.take(i as int));
            assert(order@.take(i + 1).last() == h);
        }
        let event = dag.get(&h).unwrap();
        let allowed = match anchor_bound(anchor.author_seq_vec.as_slice(), &event.author) {
            Some(b) => event.seq <= b,
            None => false,
        };
        if allowed {
            out.push(event.clone());
            proof {
                hs = hs.push(h);
            }
        }
        i = i + 1;
    }
    assert(order@.take(order@.len() as int) =~= order@);
    out
}

/// Our state digest at an anchor: the digest of the events the anchor
/// covers, in canonical order, replayed from the empty state (see
/// [`compute_subset_digest`]).
pub fn anchor_digest(dag: &EventDag, handle: &mut StateApplyHandle, anchor: &DriftAnchor) -> (r: Option<[u8; 32]>)
    requires
        dag.wf(),
    ensures
        extends_calls(old(handle).apply_calls(), final(handle).apply_calls()),
        replays(
            Seq::empty(),
            anchor_envelopes(dag, anchor.author_seq_vec@),
            calls_since(old(handle).apply_calls(), final(handle).apply_calls()),
        ),
        ({
            let answers = answers_of(calls_since(old(handle).apply_calls(), final(handle).apply_calls()));
            match fold_state(Seq::empty(), answers) {
                Err(_) => r is None && final(handle).digest_calls() == old(handle).digest_calls(),
                Ok(s) => {
                    let d = final(handle).digest_calls().last().1;
                    &&& answers.len() == anchor_envelopes(dag, anchor.author_seq_vec@).len()
                    &&& final(handle).digest_calls() == old(handle).digest_calls().push((s, d))
                    &&& d is Err ==> r is None
                    &&& d matches Ok(b) ==> r matches Some(x) && x@ == blake3_digest(b)
                },
            }
        }),
{
    let subset = anchor_subset(dag, anchor);
    assert(envelopes_of(subset@) =~= anchor_envelopes(dag, anchor.author_seq_vec@));
    compute_subset_digest(handle, subset.as_slice())
}

} // verus!
