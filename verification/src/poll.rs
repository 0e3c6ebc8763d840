//! Looking for something again and again until it is there or the time is up.

use vstd::prelude::*;

verus! {

/// What a wait is about to do.
#[derive(Debug, Clone, Copy, PartialEq, Eq, Structural)]
pub enum PollState {
    /// See whether the time is up.
    CheckTime,
    /// Look.
    Probe,
    /// Let some time pass.
    Pause,
    /// It was there.
    Found,
    /// The time is up.
    TimedOut,
}

/// How a step of a wait went.
#[derive(Debug, Clone, Copy, PartialEq, Eq, Structural)]
pub enum PollEvent {
    /// So much time has passed, of so much that may pass.
    Elapsed { elapsed_ms: u64, timeout_ms: u64 },
    Found,
    NotFound,
    Rested,
}

/// The next step of a wait.  An event that does not answer the pending step changes
/// nothing.
pub open spec fn spec_poll_next(state: PollState, event: PollEvent) -> PollState {
    match (state, event) {
        (PollState::CheckTime, PollEvent::Elapsed { elapsed_ms, timeout_ms }) => if elapsed_ms
            < timeout_ms {
            PollState::Probe
        } else {
            PollState::TimedOut
        },
        (PollState::Probe, PollEvent::Found) => PollState::Found,
        (PollState::Probe, PollEvent::NotFound) => PollState::Pause,
        (PollState::Pause, PollEvent::Rested) => PollState::CheckTime,
        (state, _) => state,
    }
}

/// The next step of a wait.
pub fn poll_next(state: PollState, event: PollEvent) -> (r: PollState)
    ensures
        r == spec_poll_next(state, event),
{
    match (state, event) {
        (PollState::CheckTime, PollEvent::Elapsed { elapsed_ms, timeout_ms }) => {
            if elapsed_ms < timeout_ms {
                PollState::Probe
            } else {
                PollState::TimedOut
            }
        },
        (PollState::Probe, PollEvent::Found) => PollState::Found,
        (PollState::Probe, PollEvent::NotFound) => PollState::Pause,
        (PollState::Pause, PollEvent::Rested) => PollState::CheckTime,
        (state, _) => state,
    }
}

/// Nobody looks once the time is up, and a wait is given up only then.
pub proof fn law_probe_in_time(state: PollState, elapsed_ms: u64, timeout_ms: u64)
    requires
        state is CheckTime,
    ensures
        ({
            let next = spec_poll_next(state, PollEvent::Elapsed { elapsed_ms, timeout_ms });
            &&& next is Probe <==> elapsed_ms < timeout_ms
            &&& next is TimedOut <==> elapsed_ms >= timeout_ms
        }),
{
}

/// A wait that is over stays over.
pub proof fn law_wait_over(state: PollState, event: PollEvent)
    requires
        state is Found || state is TimedOut,
    ensures
        spec_poll_next(state, event) == state,
{
}

/// A wait looks, pauses and sees to the time in turn until it has found something.
pub proof fn law_wait_goes_on(elapsed_ms: u64, timeout_ms: u64)
    ensures
        spec_poll_next(PollState::Probe, PollEvent::Found) is Found,
        spec_poll_next(PollState::Probe, PollEvent::NotFound) is Pause,
        spec_poll_next(PollState::Pause, PollEvent::Rested) is CheckTime,
        spec_poll_next(PollState::Probe, PollEvent::Rested) is Probe,
        spec_poll_next(PollState::Probe, PollEvent::Elapsed { elapsed_ms, timeout_ms }) is Probe,
        spec_poll_next(PollState::Pause, PollEvent::Elapsed { elapsed_ms, timeout_ms }) is Pause,
        spec_poll_next(PollState::Pause, PollEvent::Found) is Pause,
        spec_poll_next(PollState::Pause, PollEvent::NotFound) is Pause,
        spec_poll_next(PollState::CheckTime, PollEvent::Found) is CheckTime,
        spec_poll_next(PollState::CheckTime, PollEvent::NotFound) is CheckTime,
        spec_poll_next(PollState::CheckTime, PollEvent::Rested) is CheckTime,
{
}

} // verus!
