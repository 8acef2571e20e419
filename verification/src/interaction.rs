//! The kernel side of an interaction component: views and user
//! actions.
use vstd::prelude::*;

use crate::backend::{BackendError, InteractionInstance};

verus! {

/// Failure of an interaction call.
#[derive(Debug, Clone, PartialEq, Eq)]
pub enum InteractionError {
    /// The backend failed.
    Backend(BackendError),
    /// The component refused the action, with its message.
    DispatchRejected(String),
}

/// Read the answer of a component's dispatch call.
pub fn dispatch_result_of(call: Result<Result<Vec<u8>, String>, BackendError>) -> (r: Result<Vec<u8>, InteractionError>)
    ensures
        match call {
            Err(e) => r == Err::<Vec<u8>, InteractionError>(InteractionError::Backend(e)),
            Ok(Err(msg)) => r == Err::<Vec<u8>, InteractionError>(InteractionError::DispatchRejected(msg)),
            Ok(Ok(bytes)) => r == Ok::<Vec<u8>, InteractionError>(bytes),
        },
{
    match call {
        Err(e) => Err(InteractionError::Backend(e)),
        Ok(Err(msg)) => Err(InteractionError::DispatchRejected(msg)),
        Ok(Ok(bytes)) => Ok(bytes),
    }
}

/// An interaction component held by the kernel.
pub struct InteractionHandle {
    instance: Box<dyn InteractionInstance>,
}

impl InteractionHandle {
    /// Wrap a live component.
    pub fn new(instance: Box<dyn InteractionInstance>) -> (r: Self) {
        InteractionHandle { instance }
    }

    /// The component's view of `state` and `peer_state`.
    pub fn view(&mut self, state: &[u8], peer_state: &[u8]) -> (r: Result<Vec<u8>, InteractionError>)
        ensures
            r is Err ==> r matches Err(InteractionError::Backend(_)),
    {
        match self.instance.call_view(state, peer_state) {
            Ok(v) => Ok(v),
            Err(e) => Err(InteractionError::Backend(e)),
        }
    }

    /// Dispatch a user action; see [`dispatch_result_of`].
    pub fn dispatch(&mut self, action: &str) -> (r: Result<Vec<u8>, InteractionError>) {
        let call = self.instance.call_dispatch(action);
        dispatch_result_of(call)
    }
}

} // verus!
