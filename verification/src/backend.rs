//! The interface between the kernel and an application component
//! backend: what a component instance answers, the verdicts it gives
//! and the errors it raises.
use vstd::prelude::*;

verus! {

/// Failures raised by a component backend.
#[derive(Debug, Clone, PartialEq, Eq)]
pub enum BackendError {
    /// The component could not be instantiated.
    Instantiation(String),
    /// The component imports a capability the manifest does not grant.
    UnauthorizedImport(String),
    /// The component imports an unknown capability.
    UnknownImport(String),
    /// The call ran out of fuel.
    FuelExhausted,
    /// The call exceeded its memory cap.
    MemoryExhausted,
    /// The capability is declared but not yet provided.
    DeferredToPlanB(String),
    /// The component contains a banned (floating-point) instruction.
    BannedInstruction(String),
    /// The component trapped.
    Trap(String),
    /// The component rejected through its verdict channel.
    Verdict(String),
    /// The component's profile may not perform the operation.
    ProfileForbidden {
        /// The profile's name.
        profile: &'static str,
        /// The refused operation.
        op: String,
    },
}

/// A state-apply component's judgement of an event.
#[derive(Clone, PartialEq, Eq, Debug)]
pub enum Verdict {
    /// The event is accepted.
    Accept,
    /// The event is rejected, with a reason.
    Reject(String),
}

/// The profile a component runs under.
#[derive(Clone, Copy, PartialEq, Eq, Debug)]
pub enum Profile {
    /// Deterministic state transition.
    StateApply,
    /// Proposes event payloads from intents.
    StatePropose,
    /// Serves the user interface.
    Interaction,
    /// Background behaviour.
    Behavior,
}

/// A live state-apply component. Implemented by backends; the kernel
/// makes no assumption about what an implementation returns.
pub trait ComponentInstance: Send {
    /// Apply `event` to `prior_state`: the verdict and the new state.
    fn call_apply(&mut self, prior_state: &[u8], event: &[u8]) -> Result<(Verdict, Vec<u8>), BackendError>;

    /// The canonical digest bytes of `state`.
    fn call_state_digest(&mut self, state: &[u8]) -> Result<Vec<u8>, BackendError>;
}

/// A live state-propose component.
pub trait ProposeInstance: Send {
    /// Turn an intent into an event payload, or decline with a message.
    fn call_propose(&mut self, prior_state: &[u8], intent: &[u8]) -> Result<Result<Vec<u8>, String>, BackendError>;
}

/// A live interaction component.
pub trait InteractionInstance: Send {
    /// Render a view of the local and peer state.
    fn call_view(&mut self, state: &[u8], peer_state: &[u8]) -> Result<Vec<u8>, BackendError>;

    /// Dispatch a user action: an intent, or a refusal message.
    fn call_dispatch(&mut self, action: &str) -> Result<Result<Vec<u8>, String>, BackendError>;

    /// Completion callback of a broadcast the component requested.
    fn call_on_broadcast_completion(&mut self, token: &[u8], ok: bool, err: &str) -> Result<(), BackendError>;

    /// Completion callback of a blob fetch the component requested.
    fn call_on_blob_fetch_completion(
        &mut self,
        token: &[u8],
        ok: bool,
        payload: &[u8],
        err: &str,
    ) -> Result<(), BackendError>;
}

} // verus!
