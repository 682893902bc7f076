//! The event-sourced state keeping of the alarm service: per reference id, each
//! service folds the events that concern it into a small state value, can take
//! and restore snapshots of all its states, and can rebuild the state of one
//! reference at an earlier instant from a snapshot and the event log.
//!
//! Storage, channels and the HTTP side live outside this crate; what is here
//! is the logic that decides what the state is.

pub mod time;
pub mod events;
pub mod state;
pub mod service_a;
pub mod service_b;
pub mod dto;
pub mod traits;
