//! Service A: counts the events of each reference id and remembers when the
//! last one happened. Every processed event is relevant to it.

use crate::events::{
    events_of_ref, in_query, last_time_where, lemma_events_of_ref_concat, lemma_last_time_where_agree,
    lemma_query_concat, lemma_query_members, lemma_query_split, lemma_sorted_concat, log_query, sorted_by_time, processed_from_log,
    processed_from_log_seq, EventLogRecord, ProcessedEventDto, ProcessedEventView,
    ServiceARelevantEvent, ServiceARelevantView,
};
use crate::state::{state_or, InternalState, RefKeyType, ServiceSnapshot, StaleSnapshots, StateValue};
use crate::time::{utc_now, utc_timestamp_in_range, utc_with_ymd_and_hms, Timestamp};
use crate::traits::EventProcessor;
use vstd::prelude::*;
use vstd::string::*;

verus! {

/// The state that service A keeps per reference id.
#[derive(Clone, Copy, PartialEq, Eq, Structural, Debug)]
pub struct ServiceAStateData {
    pub count: i32,
    pub last_updated: Timestamp,
}

impl StateValue for ServiceAStateData {

}

/// The state of a reference id that no event has touched yet.
pub open spec fn a_initial() -> ServiceAStateData {
    ServiceAStateData { count: 0, last_updated: Timestamp::epoch() }
}

impl Default for ServiceAStateData {
    fn default() -> (r: ServiceAStateData)
        ensures
            r == a_initial(),
    {
        ServiceAStateData { count: 0, last_updated: Timestamp::default() }
    }
}

/// The data that service A records for an event of type `event_type`.
pub open spec fn a_event_data(event_type: Seq<char>) -> Seq<char> {
    "Processed data from event type: "@ + event_type
}

/// The relevant event that service A makes of a processed event.
pub open spec fn a_relevant(e: ProcessedEventView) -> ServiceARelevantView {
    ServiceARelevantView {
        timestamp: e.timestamp,
        ref_id: e.ref_id,
        data: a_event_data(e.event_type),
    }
}

/// A state after one more event: one more counted, updated at the event's time.
pub open spec fn a_apply(d: ServiceAStateData, e: ServiceARelevantView) -> ServiceAStateData {
    ServiceAStateData { count: (d.count + 1) as i32, last_updated: e.timestamp }
}

/// One more event can be counted in `d` without overflow.
pub open spec fn a_can_apply(d: ServiceAStateData) -> bool {
    d.count < i32::MAX
}

/// The states after applying `e` to the state of its reference id (the
/// initial state where that id has none yet).
pub open spec fn a_ingest(
    states: Map<Seq<char>, ServiceAStateData>,
    e: ServiceARelevantView,
) -> Map<Seq<char>, ServiceAStateData> {
    states.insert(e.ref_id, a_apply(state_or(states, e.ref_id, a_initial()), e))
}

/// The states after ingesting each of `events` in order.
pub open spec fn a_ingest_all(
    states: Map<Seq<char>, ServiceAStateData>,
    events: Seq<ProcessedEventView>,
) -> Map<Seq<char>, ServiceAStateData>
    decreases events.len(),
{
    if events.len() == 0 {
        states
    } else {
        a_ingest(a_ingest_all(states, events.drop_last()), a_relevant(events.last()))
    }
}

/// The state reached from `init` by applying each of `events` in order.
pub open spec fn a_replay(init: ServiceAStateData, events: Seq<ProcessedEventView>) -> ServiceAStateData
    decreases events.len(),
{
    if events.len() == 0 {
        init
    } else {
        a_apply(a_replay(init, events.drop_last()), a_relevant(events.last()))
    }
}

/// No step of replaying `events` from `init` overflows the count.
pub open spec fn a_replay_fits(init: ServiceAStateData, events: Seq<ProcessedEventView>) -> bool
    decreases events.len(),
{
    if events.len() == 0 {
        true
    } else {
        a_replay_fits(init, events.drop_last()) && a_can_apply(a_replay(init, events.drop_last()))
    }
}

/// `e` is late: its reference id has a state that was updated after `e` happened.
pub open spec fn a_is_late(states: Map<Seq<char>, ServiceAStateData>, e: ProcessedEventView) -> bool {
    states.contains_key(e.ref_id) && e.timestamp.precedes(states[e.ref_id].last_updated)
}

/// Where a rebuild of the state of `ref_id` starts: from the state in the
/// snapshot (the initial state where the snapshot has none) after the
/// snapshot's instant, or from the initial state after the Unix epoch.
pub open spec fn a_replay_origin(
    ref_id: Seq<char>,
    snapshot: Option<(Timestamp, Map<Seq<char>, ServiceAStateData>)>,
) -> (ServiceAStateData, Timestamp) {
    match snapshot {
        Some((t, states)) => (state_or(states, ref_id, a_initial()), t),
        None => (a_initial(), Timestamp::epoch()),
    }
}

/// The snapshot's instant and states, if there is a snapshot.
pub open spec fn a_snapshot_view(snapshot: Option<ServiceSnapshot<ServiceAStateData>>) -> Option<
    (Timestamp, Map<Seq<char>, ServiceAStateData>),
> {
    match snapshot {
        Some(s) => Some((s.timestamp, s.state@)),
        None => None,
    }
}

/// A prefix of a replay that fits fits too, and each of its steps can apply.
proof fn lemma_a_fits_prefix(init: ServiceAStateData, events: Seq<ProcessedEventView>, i: int)
    requires
        a_replay_fits(init, events),
        0 <= i < events.len(),
    ensures
        a_replay_fits(init, events.take(i)),
        a_can_apply(a_replay(init, events.take(i))),
    decreases events.len(),
{
    if i == events.len() - 1 {
        assert(events.take(i) =~= events.drop_last());
    } else {
        lemma_a_fits_prefix(init, events.drop_last(), i);
        assert(events.drop_last().take(i) =~= events.take(i));
    }
}

/// Replaying one more event of a prefix applies that event.
proof fn lemma_a_replay_step(init: ServiceAStateData, events: Seq<ProcessedEventView>, i: int)
    requires
        0 <= i < events.len(),
    ensures
        a_replay(init, events.take(i + 1)) == a_apply(a_replay(init, events.take(i)), a_relevant(events[i])),
{
    assert(events.take(i + 1).drop_last() =~= events.take(i));
}

/// A replay that fits counts one per event, and the replayed state was last
/// updated at the last event's instant.
pub proof fn law_a_replay_counts_events(init: ServiceAStateData, events: Seq<ProcessedEventView>)
    ensures
        a_replay_fits(init, events) <==> init.count + events.len() <= i32::MAX,
        a_replay_fits(init, events) ==> a_replay(init, events).count == init.count + events.len(),
        events.len() > 0 ==> a_replay(init, events).last_updated == events.last().timestamp,
    decreases events.len(),
{
    if events.len() > 0 {
        law_a_replay_counts_events(init, events.drop_last());
    }
}

/// An event is late for service A exactly when its reference has a state
/// last updated after it: at a later second, or in the same second at a later
/// nanosecond, by any amount.
pub proof fn law_a_late_exactly_when_before_last_update(
    states: Map<Seq<char>, ServiceAStateData>,
    e: ProcessedEventView,
)
    ensures
        a_is_late(states, e) <==> (states.contains_key(e.ref_id) && (e.timestamp.secs
            < states[e.ref_id].last_updated.secs || (e.timestamp.secs
            == states[e.ref_id].last_updated.secs && e.timestamp.nanos
            < states[e.ref_id].last_updated.nanos))),
{
}

/// Reading a reference's state after an event was applied gives the event
/// applied to what was read before, for the event's reference, and what was
/// read before, for every other reference.
pub proof fn law_a_read_after_apply(
    before: Map<Seq<char>, ServiceAStateData>,
    event: ServiceARelevantView,
    ref_id: Seq<char>,
)
    ensures
        a_ingest(before, event).contains_key(ref_id) <==> (before.contains_key(ref_id) || ref_id
            == event.ref_id),
        state_or(a_ingest(before, event), ref_id, a_initial()) == (if ref_id == event.ref_id {
            a_apply(state_or(before, ref_id, a_initial()), event)
        } else {
            state_or(before, ref_id, a_initial())
        }),
{
}

/// Replaying `xs` and then `ys` gives the state that replaying `xs + ys` gives.
pub proof fn law_a_replay_concat(
    init: ServiceAStateData,
    xs: Seq<ProcessedEventView>,
    ys: Seq<ProcessedEventView>,
)
    ensures
        a_replay(a_replay(init, xs), ys) == a_replay(init, xs + ys),
    decreases ys.len(),
{
    if ys.len() == 0 {
        assert(xs + ys =~= xs);
    } else {
        law_a_replay_concat(init, xs, ys.drop_last());
        assert((xs + ys).drop_last() =~= xs + ys.drop_last());
        assert((xs + ys).last() == ys.last());
    }
}

/// The state kept live for a reference id, after ingesting a stream of
/// events from no states at all, is the state that replaying that reference's
/// events from the initial state gives; and a reference has a state exactly
/// when some event concerned it.
pub proof fn law_a_live_state_is_replay(events: Seq<ProcessedEventView>, ref_id: Seq<char>)
    ensures
        state_or(a_ingest_all(Map::empty(), events), ref_id, a_initial()) == a_replay(
            a_initial(),
            events_of_ref(events, ref_id),
        ),
        a_ingest_all(Map::empty(), events).contains_key(ref_id) <==> events_of_ref(
            events,
            ref_id,
        ).len() > 0,
    decreases events.len(),
{
    if events.len() > 0 {
        law_a_live_state_is_replay(events.drop_last(), ref_id);
        let sel = events_of_ref(events.drop_last(), ref_id);
        if events.last().ref_id == ref_id {
            assert(sel.push(events.last()).drop_last() =~= sel);
        }
    }
}

/// Rebuilding from a snapshot that holds, for `ref_id`, the replay of the
/// events in the log before position `k`, by replaying the events of `ref_id`
/// from position `k` on, gives the replay of all of the log's events of
/// `ref_id` from the initial state.
pub proof fn law_a_resume_from_snapshot(
    log: Seq<ProcessedEventView>,
    k: int,
    ref_id: Seq<char>,
    snapshot_state: ServiceAStateData,
)
    requires
        0 <= k <= log.len(),
        snapshot_state == a_replay(a_initial(), events_of_ref(log.take(k), ref_id)),
    ensures
        a_replay(snapshot_state, events_of_ref(log.skip(k), ref_id)) == a_replay(
            a_initial(),
            events_of_ref(log, ref_id),
        ),
{
    assert(log.take(k) + log.skip(k) =~= log);
    lemma_events_of_ref_concat(log.take(k), log.skip(k), ref_id);
    law_a_replay_concat(
        a_initial(),
        events_of_ref(log.take(k), ref_id),
        events_of_ref(log.skip(k), ref_id),
    );
}

/// Every event: service A counts them all.
pub open spec fn every_event() -> spec_fn(ProcessedEventView) -> bool {
    |e: ProcessedEventView| true
}

/// A replay that fits has counted each event and was last updated at the
/// time of its last event (the initial one where there is none).
proof fn lemma_a_replay_closed(init: ServiceAStateData, events: Seq<ProcessedEventView>)
    requires
        a_replay_fits(init, events),
    ensures
        a_replay(init, events) == (ServiceAStateData {
            count: (init.count + events.len()) as i32,
            last_updated: match last_time_where(events, every_event()) {
                Some(t) => t,
                None => init.last_updated,
            },
        }),
    decreases events.len(),
{
    law_a_replay_counts_events(init, events);
    if events.len() > 0 {
        lemma_a_replay_closed(init, events.drop_last());
    }
}

/// Two time-sorted sequences of the same events (counted with repetition)
/// replay to the same state, wherever both replays fit.
pub proof fn law_a_replay_ignores_order_of_equal_times(
    init: ServiceAStateData,
    xs: Seq<ProcessedEventView>,
    ys: Seq<ProcessedEventView>,
)
    requires
        sorted_by_time(xs),
        sorted_by_time(ys),
        xs.to_multiset() == ys.to_multiset(),
        a_replay_fits(init, xs),
        a_replay_fits(init, ys),
    ensures
        a_replay(init, xs) == a_replay(init, ys),
{
    broadcast use vstd::seq_lib::group_to_multiset_ensures;

    lemma_a_replay_closed(init, xs);
    lemma_a_replay_closed(init, ys);
    vstd::seq_lib::to_multiset_len(xs);
    vstd::seq_lib::to_multiset_len(ys);
    assert forall|x: ProcessedEventView| every_event()(x) && xs.contains(x) implies ys.contains(x) by {
        assert(xs.to_multiset().count(x) > 0);
    }
    assert forall|x: ProcessedEventView| every_event()(x) && ys.contains(x) implies xs.contains(x) by {
        assert(ys.to_multiset().count(x) > 0);
    }
    lemma_last_time_where_agree(xs, ys, every_event());
}

/// The state of `ref_id` at instant `t` (no earlier than `s`), rebuilt from a
/// snapshot taken at `s` (no earlier than the epoch) that holds the state
/// rebuilt from scratch up to `s`, is the state rebuilt from scratch up to
/// `t`. The event log `log` may be in any order; each query returns the
/// selected rows sorted by time, in any order among equal times:
/// `up_to_snapshot` those in `(epoch, s]`, `after_snapshot` those in `(s, t]`,
/// and `up_to_t` those in `(epoch, t]`. The snapshot thus only changes where
/// the replay starts, never the state found (wherever the replays fit).
pub proof fn law_a_state_at_time_from_snapshot(
    log: Seq<ProcessedEventView>,
    ref_id: Seq<char>,
    s: Timestamp,
    t: Timestamp,
    up_to_snapshot: Seq<ProcessedEventView>,
    after_snapshot: Seq<ProcessedEventView>,
    up_to_t: Seq<ProcessedEventView>,
    snapshot_state: ServiceAStateData,
)
    requires
        !s.precedes(Timestamp::epoch()),
        !t.precedes(s),
        sorted_by_time(up_to_snapshot),
        sorted_by_time(after_snapshot),
        sorted_by_time(up_to_t),
        up_to_snapshot.to_multiset() == log_query(log, ref_id, Timestamp::epoch(), s).to_multiset(),
        after_snapshot.to_multiset() == log_query(log, ref_id, s, t).to_multiset(),
        up_to_t.to_multiset() == log_query(log, ref_id, Timestamp::epoch(), t).to_multiset(),
        snapshot_state == a_replay(a_initial(), up_to_snapshot),
        a_replay_fits(snapshot_state, after_snapshot),
        a_replay_fits(a_initial(), up_to_t),
    ensures
        a_replay(snapshot_state, after_snapshot) == a_replay(a_initial(), up_to_t),
{
    broadcast use vstd::seq_lib::group_to_multiset_ensures, vstd::multiset::group_multiset_axioms;

    let both = up_to_snapshot + after_snapshot;
    lemma_query_split(log, ref_id, Timestamp::epoch(), s, t);
    vstd::seq_lib::lemma_multiset_commutative(up_to_snapshot, after_snapshot);
    assert(both.to_multiset() =~= up_to_t.to_multiset());
    assert forall|i: int, j: int|
        0 <= i < up_to_snapshot.len() && 0 <= j < after_snapshot.len() implies !(
        #[trigger] after_snapshot[j]).timestamp.precedes((#[trigger] up_to_snapshot[i]).timestamp) by {
        let x = up_to_snapshot[i];
        let y = after_snapshot[j];
        assert(up_to_snapshot.to_multiset().count(x) > 0);
        assert(log_query(log, ref_id, Timestamp::epoch(), s).contains(x));
        lemma_query_members(log, ref_id, Timestamp::epoch(), s, x);
        assert(after_snapshot.to_multiset().count(y) > 0);
        assert(log_query(log, ref_id, s, t).contains(y));
        lemma_query_members(log, ref_id, s, t, y);
    }
    lemma_sorted_concat(up_to_snapshot, after_snapshot);
    law_a_replay_concat(a_initial(), up_to_snapshot, after_snapshot);
    vstd::seq_lib::to_multiset_len(both);
    vstd::seq_lib::to_multiset_len(up_to_t);
    law_a_replay_counts_events(a_initial(), both);
    law_a_replay_counts_events(a_initial(), up_to_t);
    law_a_replay_ignores_order_of_equal_times(a_initial(), both, up_to_t);
}

/// Rows that concern another reference or that lie outside the queried
/// window `(after, up_to]` never change the state that a replay of the query
/// finds: adding any such rows `extra` to the log leaves the replay as it was
/// (wherever both replays fit). `selected` and `selected_with_extra` are what
/// the query returns, sorted by time, from the log without and with the extra
/// rows. (Service A finds every event relevant, so no row is left aside for
/// its type.)
pub proof fn law_a_replay_ignores_other_rows(
    log: Seq<ProcessedEventView>,
    extra: Seq<ProcessedEventView>,
    ref_id: Seq<char>,
    after: Timestamp,
    up_to: Timestamp,
    selected: Seq<ProcessedEventView>,
    selected_with_extra: Seq<ProcessedEventView>,
    init: ServiceAStateData,
)
    requires
        forall|i: int|
            0 <= i < extra.len() ==> (#[trigger] extra[i]).ref_id != ref_id || !after.precedes(
                extra[i].timestamp,
            ) || up_to.precedes(extra[i].timestamp),
        sorted_by_time(selected),
        sorted_by_time(selected_with_extra),
        selected.to_multiset() == log_query(log, ref_id, after, up_to).to_multiset(),
        selected_with_extra.to_multiset() == log_query(log + extra, ref_id, after, up_to).to_multiset(),
        a_replay_fits(init, selected),
        a_replay_fits(init, selected_with_extra),
    ensures
        a_replay(init, selected_with_extra) == a_replay(init, selected),
{
    let chosen_extra = log_query(extra, ref_id, after, up_to);
    lemma_query_concat(log, extra, ref_id, after, up_to);
    if chosen_extra.len() > 0 {
        let x = chosen_extra[0];
        assert(chosen_extra.contains(x));
        lemma_query_members(extra, ref_id, after, up_to, x);
        let k = choose|k: int| 0 <= k < extra.len() && extra[k] == x;
        assert(extra[k] == x);
    }
    assert(log_query(log, ref_id, after, up_to) + chosen_extra =~= log_query(log, ref_id, after, up_to));
    law_a_replay_ignores_order_of_equal_times(init, selected_with_extra, selected);
}

/// Service A: the state of each reference id.
pub struct ServiceA {
    state: InternalState<ServiceAStateData>,
}

impl View for ServiceA {
    type V = Map<Seq<char>, ServiceAStateData>;

    closed spec fn view(&self) -> Map<Seq<char>, ServiceAStateData> {
        self.state@
    }
}

impl ServiceA {
    /// The service's states are well formed.
    pub closed spec fn wf(&self) -> bool {
        self.state.wf()
    }

    /// A service with no states.
    pub fn new() -> (s: ServiceA)
        ensures
            s.wf(),
            s@ == Map::<Seq<char>, ServiceAStateData>::empty(),
    {
        ServiceA { state: InternalState::new() }
    }

    /// The state after applying `relevant_event` to `current_data`.
    pub fn apply_relevant_event_to_state_value(
        &self,
        current_data: ServiceAStateData,
        relevant_event: &ServiceARelevantEvent,
    ) -> (r: ServiceAStateData)
        requires
            a_can_apply(current_data),
        ensures
            r == a_apply(current_data, relevant_event@),
    {
        let mut data = current_data;
        data.count = data.count + 1;
        data.last_updated = relevant_event.timestamp;
        data
    }

    /// Whether `event` can be applied without overflowing its reference's count.
    pub fn can_apply_event(&self, event: &ServiceARelevantEvent) -> (r: bool)
        ensures
            r == a_can_apply(state_or(self@, event.ref_id@, a_initial())),
    {
        let current = match self.state.get(event.ref_id.as_str()) {
            Some(d) => d,
            None => ServiceAStateData::default(),
        };
        current.count < i32::MAX
    }

    /// Applies `event` to the state of its reference id, starting from the
    /// initial state where that id has none.
    pub fn apply_event(&mut self, event: ServiceARelevantEvent)
        requires
            old(self).wf(),
            a_can_apply(state_or(old(self)@, event.ref_id@, a_initial())),
        ensures
            final(self).wf(),
            final(self)@ == a_ingest(old(self)@, event@),
    {
        let current = match self.state.get(event.ref_id.as_str()) {
            Some(d) => d,
            None => ServiceAStateData::default(),
        };
        let updated = self.apply_relevant_event_to_state_value(current, &event);
        self.state.insert(event.ref_id, updated);
    }

    /// The state of `ref_id`, if it has one.
    pub fn get_current_state_for_ref_id(&self, ref_id: &RefKeyType) -> (r: Option<ServiceAStateData>)
        ensures
            r == (if self@.contains_key(ref_id@) {
                Some(self@[ref_id@])
            } else {
                None
            }),
    {
        self.state.get(ref_id.as_str())
    }

    /// Whether `event` is late: the state of its reference id was updated
    /// after the event happened, so stored snapshots after it are stale.
    pub fn is_late_event(&self, event: &ProcessedEventDto) -> (r: bool)
        ensures
            r == a_is_late(self@, event@),
    {
        match self.state.get(event.ref_id.as_str()) {
            Some(d) => event.timestamp.is_before(&d.last_updated),
            None => false,
        }
    }

    /// Whether `event` can be handled without overflowing its reference's count.
    pub fn can_handle_event(&self, event: &ProcessedEventDto) -> (r: bool)
        ensures
            r == a_can_apply(state_or(self@, event.ref_id@, a_initial())),
    {
        let current = match self.state.get(event.ref_id.as_str()) {
            Some(d) => d,
            None => ServiceAStateData::default(),
        };
        current.count < i32::MAX
    }

    /// Handles an event that arrives on the service's queue: applies it to the
    /// state of its reference id and, where the event is late, asks for the
    /// stored snapshots of that id after the event to be deleted.
    pub fn handle_incoming_event(&mut self, event: ProcessedEventDto) -> (r: Option<StaleSnapshots>)
        requires
            old(self).wf(),
            a_can_apply(state_or(old(self)@, event.ref_id@, a_initial())),
        ensures
            final(self).wf(),
            final(self)@ == a_ingest(old(self)@, a_relevant(event@)),
            match r {
                Some(stale) => a_is_late(old(self)@, event@) && stale.ref_id@ == event@.ref_id
                    && stale.after == event@.timestamp,
                None => !a_is_late(old(self)@, event@),
            },
    {
        let stale = if self.is_late_event(&event) {
            Some(StaleSnapshots { ref_id: event.ref_id.clone(), after: event.timestamp })
        } else {
            None
        };
        match self.process_event(event) {
            Some(relevant) => self.apply_event(relevant),
            None => {},
        }
        stale
    }

    /// A snapshot of all states, taken at `timestamp`.
    pub fn snapshot_at(&self, timestamp: Timestamp) -> (s: ServiceSnapshot<ServiceAStateData>)
        requires
            self.wf(),
        ensures
            s.wf(),
            s.timestamp == timestamp,
            s.state@ == self@,
    {
        ServiceSnapshot { timestamp, state: self.state.duplicate() }
    }

    /// A snapshot of all states, taken now; `None` where the system clock
    /// cannot be read as a UTC instant (it reads a time before the Unix epoch,
    /// or one out of range).
    pub fn create_snapshot(&self) -> (r: Option<ServiceSnapshot<ServiceAStateData>>)
        requires
            self.wf(),
        ensures
            r matches Some(s) ==> s.wf() && s.state@ == self@ && s.timestamp.secs >= 0
                && s.timestamp.nanos < 1_000_000_000 && utc_timestamp_in_range(
                s.timestamp.secs,
                s.timestamp.nanos,
            ),
    {
        match utc_now() {
            Some(now) => Some(self.snapshot_at(now)),
            None => None,
        }
    }

    /// Replaces all states by those of `snapshot`.
    pub fn restore_from_snapshot(&mut self, snapshot: ServiceSnapshot<ServiceAStateData>)
        requires
            snapshot.wf(),
        ensures
            final(self).wf(),
            final(self)@ == snapshot.state@,
    {
        self.state = snapshot.state;
    }

    /// Where a rebuild of the state of `ref_id` starts, given the latest stored
    /// snapshot of it, if any: the state to start from, and the instant after
    /// which the log's events are to be replayed.
    pub fn replay_origin(
        &self,
        ref_id: &RefKeyType,
        latest_snapshot: Option<ServiceSnapshot<ServiceAStateData>>,
    ) -> (r: (ServiceAStateData, Timestamp))
        ensures
            r == a_replay_origin(ref_id@, a_snapshot_view(latest_snapshot)),
    {
        match latest_snapshot {
            Some(snapshot) => {
                let data = match snapshot.state.get(ref_id.as_str()) {
                    Some(d) => d,
                    None => ServiceAStateData::default(),
                };
                (data, snapshot.timestamp)
            },
            None => {
                let epoch = match utc_with_ymd_and_hms(1970, 1, 1, 0, 0, 0) {
                    Some(t) => t,
                    None => Timestamp::default(),
                };
                (ServiceAStateData::default(), epoch)
            },
        }
    }

    /// Whether replaying `events` from `initial` stays free of overflow.
    pub fn replay_fits(&self, initial: ServiceAStateData, events: &Vec<EventLogRecord>) -> (r: bool)
        ensures
            r == a_replay_fits(initial, processed_from_log_seq(events@)),
    {
        proof {
            law_a_replay_counts_events(initial, processed_from_log_seq(events@));
        }
        (initial.count as i128) + (events.len() as i128) <= (i32::MAX as i128)
    }

    /// The state that replaying the log records `events` in order, from
    /// `initial`, gives.
    pub fn replay_events(&self, initial: ServiceAStateData, events: &Vec<EventLogRecord>) -> (r:
        ServiceAStateData)
        requires
            a_replay_fits(initial, processed_from_log_seq(events@)),
        ensures
            r == a_replay(initial, processed_from_log_seq(events@)),
    {
        let ghost evs = processed_from_log_seq(events@);
        let mut current = initial;
        let n = events.len();
        assert(evs.take(0) =~= Seq::<ProcessedEventView>::empty());
        for i in 0..n
            invariant
                n == events.len(),
                evs == processed_from_log_seq(events@),
                a_replay_fits(initial, evs),
                current == a_replay(initial, evs.take(i as int)),
        {
            let processed = events[i].to_processed_event();
            proof {
                lemma_a_fits_prefix(initial, evs, i as int);
                lemma_a_replay_step(initial, evs, i as int);
                assert(evs[i as int] == processed_from_log(events@[i as int]@));
            }
            match self.process_event(processed) {
                Some(relevant) => {
                    current = self.apply_relevant_event_to_state_value(current, &relevant);
                },
                None => {},
            }
        }
        assert(evs.take(n as int) =~= evs);
        current
    }
}

impl EventProcessor<ServiceARelevantEvent> for ServiceA {
    /// The relevant event that service A makes of `event`: every event is
    /// relevant, and its data names the event's type.
    fn process_event(&self, event: ProcessedEventDto) -> (r: Option<ServiceARelevantEvent>)
        ensures
            r matches Some(rel) && rel@ == a_relevant(event@),
    {
        let mut data = String::from_str("Processed data from event type: ");
        data.append(event.event_type.as_str());
        Some(ServiceARelevantEvent { timestamp: event.timestamp, ref_id: event.ref_id, data })
    }
}

} // verus!
