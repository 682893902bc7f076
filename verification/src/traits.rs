//! The interface by which a service turns processed events into the events it
//! applies to its states.

use crate::events::ProcessedEventDto;
use vstd::prelude::*;

verus! {

/// A service that decides which processed events concern it, and what each
/// of them means to it.
pub trait EventProcessor<RelevantEvent> {
    /// The event that `event` is to this service, or `None` where the service
    /// has nothing to do with it.
    fn process_event(&self, event: ProcessedEventDto) -> Option<RelevantEvent>;
}

} // verus!
