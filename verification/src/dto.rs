//! The data objects of the service's HTTP interface.

use vstd::prelude::*;

verus! {

/// An event as a client reports it: its type, the room it concerns, and,
/// optionally, when it happened (as text).
#[derive(Clone, Debug, PartialEq)]
pub struct EventDto {
    pub event_type: String,
    pub room_id: i64,
    pub timestamp: Option<String>,
}

impl EventDto {
    /// An event of `event_type` in room `room_id`, with no time given.
    pub fn new(event_type: String, room_id: i64) -> (r: EventDto)
        ensures
            r.event_type == event_type,
            r.room_id == room_id,
            r.timestamp is None,
    {
        EventDto { event_type, room_id, timestamp: None }
    }
}

impl Default for EventDto {
    /// An event with an empty type, room 0 and no time.
    fn default() -> (r: EventDto)
        ensures
            r.event_type@ == Seq::<char>::empty(),
            r.room_id == 0,
            r.timestamp is None,
    {
        EventDto { event_type: String::new(), room_id: 0, timestamp: None }
    }
}

/// A weekly schedule of a room: the begin and end of its window, the days of
/// the week it applies to as a bit mask, and the room; each part optional.
#[derive(Clone, Debug, PartialEq)]
pub struct ScheduleDto {
    pub begin: Option<i32>,
    pub end: Option<i32>,
    pub days_of_week_mask: Option<i32>,
    pub room_id: Option<i64>,
}

impl ScheduleDto {
    /// A schedule with none of its parts given.
    pub fn new() -> (r: ScheduleDto)
        ensures
            r.begin is None,
            r.end is None,
            r.days_of_week_mask is None,
            r.room_id is None,
    {
        ScheduleDto { begin: None, end: None, days_of_week_mask: None, room_id: None }
    }
}

impl Default for ScheduleDto {
    /// A schedule with none of its parts given.
    fn default() -> (r: ScheduleDto)
        ensures
            r.begin is None,
            r.end is None,
            r.days_of_week_mask is None,
            r.room_id is None,
    {
        ScheduleDto::new()
    }
}

} // verus!
