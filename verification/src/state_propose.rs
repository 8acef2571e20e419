//! The kernel side of a state-propose component: turning an intent
//! into an event payload.
use vstd::prelude::*;

use crate::backend::{BackendError, ProposeInstance};

verus! {

/// Failure of a propose call.
#[derive(Debug, Clone, PartialEq, Eq)]
pub enum ProposeError {
    /// The backend failed.
    Backend(BackendError),
    /// The component declined the intent, with its message.
    Rejected(String),
}

/// Read the answer of a component's propose call: a backend error, a
/// refusal, or the payload.
pub fn propose_result_of(call: Result<Result<Vec<u8>, String>, BackendError>) -> (r: Result<Vec<u8>, ProposeError>)
    ensures
        match call {
            Err(e) => r == Err::<Vec<u8>, ProposeError>(ProposeError::Backend(e)),
            Ok(Err(msg)) => r == Err::<Vec<u8>, ProposeError>(ProposeError::Rejected(msg)),
            Ok(Ok(bytes)) => r == Ok::<Vec<u8>, ProposeError>(bytes),
        },
{
    match call {
        Err(e) => Err(ProposeError::Backend(e)),
        Ok(Err(msg)) => Err(ProposeError::Rejected(msg)),
        Ok(Ok(bytes)) => Ok(bytes),
    }
}

/// A state-propose component held by the kernel.
pub struct StateProposeHandle {
    instance: Box<dyn ProposeInstance>,
}

impl StateProposeHandle {
    /// Wrap a live component.
    pub fn new(instance: Box<dyn ProposeInstance>) -> (r: Self) {
        StateProposeHandle { instance }
    }

    /// Propose a payload for `intent` on `prior_state`; see
    /// [`propose_result_of`] for how the answer is read.
    pub fn propose(&mut self, prior_state: &[u8], intent: &[u8]) -> (r: Result<Vec<u8>, ProposeError>) {
        let call = self.instance.call_propose(prior_state, intent);
        propose_result_of(call)
    }
}

} // verus!
