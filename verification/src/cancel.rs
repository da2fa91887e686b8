//! The cancellation state machine of the discovery pipeline. One flag is
//! scoped to one in-flight discovery operation; cancellation is cooperative
//! and polled, never preemptive. States: Idle (nothing running), Running,
//! Cancelling (cancellation requested, not yet acknowledged).

use vstd::prelude::*;

verus! {

#[derive(Clone, Copy, PartialEq, Eq, Structural, Debug)]
pub enum CancelState {
    Idle,
    Running,
    Cancelling,
}

/// What a cancellation request decided, and so what the caller does next.
#[derive(Clone, Copy, PartialEq, Eq, Structural, Debug)]
pub enum CancelDecision {
    /// An operation was running: announce the cancellation and wait,
    /// bounded, for the operation to acknowledge it.
    BeginWait,
    /// A cancellation is already under way: do nothing.
    AlreadyCancelling,
    /// Nothing was running: the request is a no-op.
    NothingRunning,
}

/// Request cancellation of the in-flight discovery operation, if any.
pub fn cancel_list_files(state: &mut CancelState) -> (r: CancelDecision)
    ensures
        *old(state) is Running ==> *final(state) is Cancelling && r is BeginWait,
        *old(state) is Cancelling ==> *final(state) is Cancelling && r is AlreadyCancelling,
        *old(state) is Idle ==> *final(state) is Idle && r is NothingRunning,
{
    match state {
        CancelState::Running => {
            *state = CancelState::Cancelling;
            CancelDecision::BeginWait
        },
        CancelState::Cancelling => CancelDecision::AlreadyCancelling,
        CancelState::Idle => {
            *state = CancelState::Idle;
            CancelDecision::NothingRunning
        },
    }
}

/// A new discovery operation takes the flag; any prior request was already
/// forced through `cancel_list_files` and the bounded wait.
pub fn begin_running(state: &mut CancelState)
    ensures
        *final(state) is Running,
{
    *state = CancelState::Running;
}

/// The operation is done (completed or it acknowledged a cancellation):
/// back to Idle.
pub fn settle_idle(state: &mut CancelState)
    ensures
        *final(state) is Idle,
{
    *state = CancelState::Idle;
}

/// The bounded wait ran out: reset the flag only if the cancellation was
/// still unacknowledged, and report whether this reset happened (the caller
/// then tells the presentation layer to discard what it was shown).
pub fn force_reset(state: &mut CancelState) -> (r: bool)
    ensures
        r == (*old(state) is Cancelling),
        r ==> *final(state) is Idle,
        !r ==> *final(state) == *old(state),
{
    match state {
        CancelState::Cancelling => {
            *state = CancelState::Idle;
            true
        },
        _ => false,
    }
}

} // verus!
