//! The kernel side of a state-apply component: applying an event, the
//! pre-broadcast dry run, and the state digest.
use vstd::prelude::*;

use crate::backend::{BackendError, ComponentInstance, Verdict};

verus! {

/// Failure of a state-apply call.
#[derive(Debug, Clone, PartialEq, Eq)]
pub enum ApplyError {
    /// The backend failed.
    Backend(BackendError),
}

/// The kernel's reading of a verdict.
#[derive(Clone, PartialEq, Eq, Debug)]
pub enum ApplyOutcome {
    /// The event is accepted.
    Accepted,
    /// The event is rejected, with the component's reason.
    Rejected(String),
}

/// Result of applying an event.
#[derive(Clone, Debug)]
pub struct ApplyResult {
    /// The verdict.
    pub outcome: ApplyOutcome,
    /// The state after the event.
    pub new_state: Vec<u8>,
}

/// Result of a dry run: the state that applying the event would give;
/// nothing is committed.
#[derive(Clone, Debug)]
pub struct PreCheckResult {
    /// The verdict.
    pub outcome: ApplyOutcome,
    /// The state the event would produce.
    pub candidate_state: Vec<u8>,
}

/// The outcome that a verdict stands for.
pub open spec fn outcome_of(v: Verdict) -> ApplyOutcome {
    match v {
        Verdict::Accept => ApplyOutcome::Accepted,
        Verdict::Reject(s) => ApplyOutcome::Rejected(s),
    }
}

/// Read a verdict as an outcome.
pub fn lift_verdict(v: Verdict) -> (r: ApplyOutcome)
    ensures
        r == outcome_of(v),
{
    match v {
        Verdict::Accept => ApplyOutcome::Accepted,
        Verdict::Reject(s) => ApplyOutcome::Rejected(s),
    }
}

/// Turn the answer of a component's apply call into an apply result:
/// a backend error is an [`ApplyError`], a verdict and state become
/// the outcome and the new state.
pub fn apply_result_of(call: Result<(Verdict, Vec<u8>), BackendError>) -> (r: Result<ApplyResult, ApplyError>)
    ensures
        match call {
            Err(e) => r == Err::<ApplyResult, ApplyError>(ApplyError::Backend(e)),
            Ok((v, s)) => r matches Ok(a) && a.outcome == outcome_of(v) && a.new_state == s,
        },
{
    match call {
        Err(e) => Err(ApplyError::Backend(e)),
        Ok((v, s)) => Ok(ApplyResult { outcome: lift_verdict(v), new_state: s }),
    }
}

/// Turn the answer of a component's apply call into a dry-run result.
pub fn pre_check_result_of(call: Result<(Verdict, Vec<u8>), BackendError>) -> (r: Result<PreCheckResult, ApplyError>)
    ensures
        match call {
            Err(e) => r == Err::<PreCheckResult, ApplyError>(ApplyError::Backend(e)),
            Ok((v, s)) => r matches Ok(a) && a.outcome == outcome_of(v) && a.candidate_state == s,
        },
{
    match call {
        Err(e) => Err(ApplyError::Backend(e)),
        Ok((v, s)) => Ok(PreCheckResult { outcome: lift_verdict(v), candidate_state: s }),
    }
}

/// How the kernel reads one answer of a component's apply call: the
/// outcome and the state bytes it gave, or the failure.
pub type ApplyAnswer = Result<(ApplyOutcome, Seq<u8>), ApplyError>;

/// The reading of an apply result.
pub open spec fn apply_answer(r: Result<ApplyResult, ApplyError>) -> ApplyAnswer {
    match r {
        Ok(a) => Ok((a.outcome, a.new_state@)),
        Err(e) => Err(e),
    }
}

/// The reading of a dry-run result.
pub open spec fn pre_check_answer(r: Result<PreCheckResult, ApplyError>) -> ApplyAnswer {
    match r {
        Ok(a) => Ok((a.outcome, a.candidate_state@)),
        Err(e) => Err(e),
    }
}

/// The reading of a digest result.
pub open spec fn digest_answer(r: Result<Vec<u8>, ApplyError>) -> Result<Seq<u8>, ApplyError> {
    match r {
        Ok(d) => Ok(d@),
        Err(e) => Err(e),
    }
}

/// A state-apply component held by the kernel, with the record of the
/// calls made through it.
pub struct StateApplyHandle {
    instance: Box<dyn ComponentInstance>,
    apply_log: Ghost<Seq<(Seq<u8>, Seq<u8>, ApplyAnswer)>>,
    digest_log: Ghost<Seq<(Seq<u8>, Result<Seq<u8>, ApplyError>)>>,
}

impl StateApplyHandle {
    /// Every apply call made through this handle, dry runs included, in
    /// order: the prior state and the event bytes handed to the
    /// component, and its answer.
    pub closed spec fn apply_calls(&self) -> Seq<(Seq<u8>, Seq<u8>, ApplyAnswer)> {
        self.apply_log@
    }

    /// Every digest call made through this handle, in order: the state
    /// handed to the component and its answer.
    pub closed spec fn digest_calls(&self) -> Seq<(Seq<u8>, Result<Seq<u8>, ApplyError>)> {
        self.digest_log@
    }

    /// Wrap a live component; no call has been made through it.
    pub fn new(instance: Box<dyn ComponentInstance>) -> (r: Self)
        ensures
            r.apply_calls() == Seq::<(Seq<u8>, Seq<u8>, ApplyAnswer)>::empty(),
            r.digest_calls() == Seq::<(Seq<u8>, Result<Seq<u8>, ApplyError>)>::empty(),
    {
        StateApplyHandle { instance, apply_log: Ghost(Seq::empty()), digest_log: Ghost(Seq::empty()) }
    }

    /// Apply `event` to `prior_state` through the component; see
    /// [`apply_result_of`] for how its answer is read. The call is
    /// recorded with what it was handed and what it answered.
    pub fn apply(&mut self, prior_state: &[u8], event: &[u8]) -> (r: Result<ApplyResult, ApplyError>)
        ensures
            r is Err ==> r matches Err(ApplyError::Backend(_)),
            final(self).apply_calls() == old(self).apply_calls().push((prior_state@, event@, apply_answer(r))),
            final(self).digest_calls() == old(self).digest_calls(),
    {
        let call = self.instance.call_apply(prior_state, event);
        let r = apply_result_of(call);
        proof {
            self.apply_log@ = self.apply_log@.push((prior_state@, event@, apply_answer(r)));
        }
        r
    }

    /// Dry-run `event` on `prior_state`: the same component call as
    /// [`StateApplyHandle::apply`], recorded the same way, read as a
    /// candidate.
    pub fn pre_check(&mut self, prior_state: &[u8], event: &[u8]) -> (r: Result<PreCheckResult, ApplyError>)
        ensures
            r is Err ==> r matches Err(ApplyError::Backend(_)),
            final(self).apply_calls() == old(self).apply_calls().push((prior_state@, event@, pre_check_answer(r))),
            final(self).digest_calls() == old(self).digest_calls(),
    {
        let call = self.instance.call_apply(prior_state, event);
        let r = pre_check_result_of(call);
        proof {
            self.apply_log@ = self.apply_log@.push((prior_state@, event@, pre_check_answer(r)));
        }
        r
    }

    /// The component's digest bytes of `state`; the call is recorded.
    pub fn state_digest(&mut self, state: &[u8]) -> (r: Result<Vec<u8>, ApplyError>)
        ensures
            r is Err ==> r matches Err(ApplyError::Backend(_)),
            final(self).digest_calls() == old(self).digest_calls().push((state@, digest_answer(r))),
            final(self).apply_calls() == old(self).apply_calls(),
    {
        let r = match self.instance.call_state_digest(state) {
            Ok(d) => Ok(d),
            Err(e) => Err(ApplyError::Backend(e)),
        };
        proof {
            self.digest_log@ = self.digest_log@.push((state@, digest_answer(r)));
        }
        r
    }
}

} // verus!
