use vstd::prelude::*;

verus! {

/// The directive a subscriber answers with after handling an event; it also
/// acts as a request to the registry that delivered the event.
#[derive(Debug, PartialEq, Eq, Structural, Hash, Clone, Copy)]
pub enum BusRequest {
    NoActionNeeded,
    Unsubscribe,
    DoNotPropagate,
    UnsubscribeAndDoNotPropagate,
    DispatchFailed,
}

/// The aggregate outcome of one dispatch call.
///
/// - `NotNeeded`: no channel was registered for the event's category.
/// - `Stopped`: a subscriber halted propagation before the end of the list.
/// - `Finished`: every subscriber in the list was visited without a failure.
/// - `FinishedWithFailures(n)`: every subscriber was visited, `n` deliveries failed.
#[derive(Debug, PartialEq, Eq, Structural, Hash, Clone, Copy)]
pub enum EventDispatchResult {
    NotNeeded,
    Stopped,
    Finished,
    FinishedWithFailures(u32),
}

impl BusRequest {
    /// Whether the directive removes the subscriber that gave it.
    pub open spec fn removes(self) -> bool {
        self is Unsubscribe || self is UnsubscribeAndDoNotPropagate
    }

    /// Whether the directive halts propagation.
    pub open spec fn halts(self) -> bool {
        self is DoNotPropagate || self is UnsubscribeAndDoNotPropagate
    }
}

/// The result reported when a traversal reaches the end of its list with
/// `failures` failed deliveries.
pub open spec fn finished_with(failures: nat) -> EventDispatchResult {
    if failures == 0 {
        EventDispatchResult::Finished
    } else {
        EventDispatchResult::FinishedWithFailures(failures as u32)
    }
}

} // verus!
