//! Service B: sums, per reference id, the values carried by events of type
//! `SERVICE_B_RELEVANT_EVENT`, and remembers when the last one happened.

use crate::events::{
    events_of_ref, in_query, lemma_payload_get_absent, lemma_payload_get_first, last_time_where, lemma_events_of_ref_concat, lemma_last_time_where_agree,
    lemma_query_concat, lemma_query_members, lemma_query_split, lemma_sorted_concat, log_query, sorted_by_time, payload_int, processed_from_log,
    processed_from_log_seq, EventLogRecord, ProcessedEventDto, ProcessedEventView,
    ServiceBRelevantEvent, ServiceBRelevantView,
};
use crate::state::{state_or, InternalState, RefKeyType, ServiceSnapshot, StaleSnapshots, StateValue};
use crate::time::{utc_now, utc_timestamp_in_range, utc_with_ymd_and_hms, Timestamp};
use crate::traits::EventProcessor;
use vstd::prelude::*;
use vstd::string::*;

verus! {

/// The state that service B keeps per reference id.
#[derive(Clone, Copy, PartialEq, Eq, Structural, Debug)]
pub struct ServiceBStateData {
    pub value_sum: i64,
    pub last_event_time: Option<Timestamp>,
}

impl StateValue for ServiceBStateData {

}

/// The state of a reference id that no relevant event has touched yet.
pub open spec fn b_initial() -> ServiceBStateData {
    ServiceBStateData { value_sum: 0, last_event_time: None }
}

impl Default for ServiceBStateData {
    fn default() -> (r: ServiceBStateData)
        ensures
            r == b_initial(),
    {
        ServiceBStateData { value_sum: 0, last_event_time: None }
    }
}

/// The event type that service B attends to.
pub open spec fn b_event_type() -> Seq<char> {
    "SERVICE_B_RELEVANT_EVENT"@
}

/// The payload member that carries the value of an event for service B.
pub open spec fn b_value_key() -> Seq<char> {
    "value_field"@
}

/// The value that service B reads from a payload: the member `value_field` as
/// an `i64`, cut to its low 32 bits, or 0 where the payload has no such member.
pub open spec fn b_payload_value(payload: Seq<(Seq<char>, Option<i64>)>) -> i32 {
    match payload_int(payload, b_value_key()) {
        Some(v) => v as i32,
        None => 0,
    }
}

/// The relevant event that service B makes of a processed event, if the
/// event is of its type.
pub open spec fn b_relevant(e: ProcessedEventView) -> Option<ServiceBRelevantView> {
    if e.event_type == b_event_type() {
        Some(
            ServiceBRelevantView {
                timestamp: e.timestamp,
                ref_id: e.ref_id,
                value: b_payload_value(e.payload),
            },
        )
    } else {
        None
    }
}

/// A state after one more event: its value added, updated at its time.
pub open spec fn b_apply(d: ServiceBStateData, e: ServiceBRelevantView) -> ServiceBStateData {
    ServiceBStateData {
        value_sum: (d.value_sum + e.value) as i64,
        last_event_time: Some(e.timestamp),
    }
}

/// `e`'s value can be added to `d`'s sum without overflow.
pub open spec fn b_can_apply(d: ServiceBStateData, e: ServiceBRelevantView) -> bool {
    i64::MIN <= d.value_sum + e.value <= i64::MAX
}

/// The states after applying `e` to the state of its reference id (the
/// initial state where that id has none yet).
pub open spec fn b_ingest(
    states: Map<Seq<char>, ServiceBStateData>,
    e: ServiceBRelevantView,
) -> Map<Seq<char>, ServiceBStateData> {
    states.insert(e.ref_id, b_apply(state_or(states, e.ref_id, b_initial()), e))
}

/// The states after processing each of `events` in order, applying those
/// that are relevant.
pub open spec fn b_ingest_all(
    states: Map<Seq<char>, ServiceBStateData>,
    events: Seq<ProcessedEventView>,
) -> Map<Seq<char>, ServiceBStateData>
    decreases events.len(),
{
    if events.len() == 0 {
        states
    } else {
        let prev = b_ingest_all(states, events.drop_last());
        match b_relevant(events.last()) {
            Some(rel) => b_ingest(prev, rel),
            None => prev,
        }
    }
}

/// The state reached from `init` by applying the relevant ones of `events`
/// in order.
pub open spec fn b_replay(init: ServiceBStateData, events: Seq<ProcessedEventView>) -> ServiceBStateData
    decreases events.len(),
{
    if events.len() == 0 {
        init
    } else {
        let prev = b_replay(init, events.drop_last());
        match b_relevant(events.last()) {
            Some(rel) => b_apply(prev, rel),
            None => prev,
        }
    }
}

/// No step of replaying `events` from `init` overflows the sum.
pub open spec fn b_replay_fits(init: ServiceBStateData, events: Seq<ProcessedEventView>) -> bool
    decreases events.len(),
{
    if events.len() == 0 {
        true
    } else {
        &&& b_replay_fits(init, events.drop_last())
        &&& match b_relevant(events.last()) {
            Some(rel) => b_can_apply(b_replay(init, events.drop_last()), rel),
            None => true,
        }
    }
}

/// The value that an event adds to service B's sum: its value where it is
/// relevant, nothing where it is not.
pub open spec fn b_event_value(e: ProcessedEventView) -> int {
    match b_relevant(e) {
        Some(rel) => rel.value as int,
        None => 0,
    }
}

/// The sum of the values of the relevant ones of `events`.
pub open spec fn b_value_total(events: Seq<ProcessedEventView>) -> int
    decreases events.len(),
{
    if events.len() == 0 {
        0
    } else {
        b_value_total(events.drop_last()) + b_event_value(events.last())
    }
}

/// `e` is late: its reference id has a state whose last event happened
/// after `e` did.
pub open spec fn b_is_late(states: Map<Seq<char>, ServiceBStateData>, e: ProcessedEventView) -> bool {
    states.contains_key(e.ref_id) && match states[e.ref_id].last_event_time {
        Some(t) => e.timestamp.precedes(t),
        None => false,
    }
}

/// Where a rebuild of the state of `ref_id` starts: from the state in the
/// snapshot (the initial state where the snapshot has none) after the
/// snapshot's instant, or from the initial state after the Unix epoch.
pub open spec fn b_replay_origin(
    ref_id: Seq<char>,
    snapshot: Option<(Timestamp, Map<Seq<char>, ServiceBStateData>)>,
) -> (ServiceBStateData, Timestamp) {
    match snapshot {
        Some((t, states)) => (state_or(states, ref_id, b_initial()), t),
        None => (b_initial(), Timestamp::epoch()),
    }
}

/// The snapshot's instant and states, if there is a snapshot.
pub open spec fn b_snapshot_view(snapshot: Option<ServiceSnapshot<ServiceBStateData>>) -> Option<
    (Timestamp, Map<Seq<char>, ServiceBStateData>),
> {
    match snapshot {
        Some(s) => Some((s.timestamp, s.state@)),
        None => None,
    }
}

/// A prefix of a replay that fits fits too, and its next step can apply.
proof fn lemma_b_fits_prefix(init: ServiceBStateData, events: Seq<ProcessedEventView>, i: int)
    requires
        b_replay_fits(init, events),
        0 <= i < events.len(),
    ensures
        b_replay_fits(init, events.take(i + 1)),
        b_relevant(events[i]) matches Some(rel) ==> b_can_apply(b_replay(init, events.take(i)), rel),
    decreases events.len(),
{
    if i == events.len() - 1 {
        assert(events.take(i) =~= events.drop_last());
        assert(events.take(i + 1) =~= events);
    } else {
        lemma_b_fits_prefix(init, events.drop_last(), i);
        assert(events.drop_last().take(i) =~= events.take(i));
        assert(events.drop_last().take(i + 1) =~= events.take(i + 1));
    }
}

/// Replaying one more event of a prefix processes that event.
proof fn lemma_b_replay_step(init: ServiceBStateData, events: Seq<ProcessedEventView>, i: int)
    requires
        0 <= i < events.len(),
    ensures
        b_replay(init, events.take(i + 1)) == (match b_relevant(events[i]) {
            Some(rel) => b_apply(b_replay(init, events.take(i)), rel),
            None => b_replay(init, events.take(i)),
        }),
        b_replay_fits(init, events.take(i + 1)) == (b_replay_fits(init, events.take(i)) && match b_relevant(events[i]) {
            Some(rel) => b_can_apply(b_replay(init, events.take(i)), rel),
            None => true,
        }),
{
    assert(events.take(i + 1).drop_last() =~= events.take(i));
}

/// A replay that fits adds exactly the values of the relevant events, and
/// the replayed state's last event time is that of the last relevant event.
pub proof fn law_b_replay_sums_values(init: ServiceBStateData, events: Seq<ProcessedEventView>)
    ensures
        b_replay_fits(init, events) ==> b_replay(init, events).value_sum == init.value_sum
            + b_value_total(events),
        events.len() > 0 && b_relevant(events.last()) is Some ==> b_replay(
            init,
            events,
        ).last_event_time == Some(events.last().timestamp),
    decreases events.len(),
{
    if events.len() > 0 {
        law_b_replay_sums_values(init, events.drop_last());
    }
}

/// An event can be applied exactly when the new sum, the old sum plus the
/// event's value, stays within the range of `i64`, whatever the signs.
pub proof fn law_b_can_apply_exactly_when_sum_in_range(d: ServiceBStateData, e: ServiceBRelevantView)
    ensures
        b_can_apply(d, e) <==> (-0x8000_0000_0000_0000 <= d.value_sum + e.value
            <= 0x7fff_ffff_ffff_ffff),
{
}

/// A replay fits exactly when every running sum, the initial sum plus the
/// values of the relevant events of a prefix, stays within the range of
/// `i64`, whatever the signs of the values.
pub proof fn law_b_replay_fits_exactly_when_running_sums_in_range(
    init: ServiceBStateData,
    events: Seq<ProcessedEventView>,
)
    ensures
        b_replay_fits(init, events) <==> forall|k: int|
            0 <= k <= events.len() ==> -0x8000_0000_0000_0000 <= init.value_sum + b_value_total(
                #[trigger] events.take(k),
            ) <= 0x7fff_ffff_ffff_ffff,
    decreases events.len(),
{
    let n = events.len() as int;
    if n == 0 {
        assert(events.take(0) =~= events);
    } else {
        let prefix = events.drop_last();
        law_b_replay_fits_exactly_when_running_sums_in_range(init, prefix);
        law_b_replay_sums_values(init, prefix);
        assert(events.take(n) =~= events);
        assert(events.take(n).drop_last() =~= prefix);
        assert forall|k: int| 0 <= k <= n - 1 implies #[trigger] events.take(k) == prefix.take(k) by {
            assert(events.take(k) =~= prefix.take(k));
        }
        if b_replay_fits(init, events) {
            assert forall|k: int| 0 <= k <= n implies -0x8000_0000_0000_0000 <= init.value_sum
                + b_value_total(#[trigger] events.take(k)) <= 0x7fff_ffff_ffff_ffff by {
                if k < n {
                    assert(events.take(k) == prefix.take(k));
                }
            }
        }
        if forall|k: int|
            0 <= k <= n ==> -0x8000_0000_0000_0000 <= init.value_sum + b_value_total(
                #[trigger] events.take(k),
            ) <= 0x7fff_ffff_ffff_ffff {
            assert forall|k: int| 0 <= k <= n - 1 implies -0x8000_0000_0000_0000 <= init.value_sum
                + b_value_total(#[trigger] prefix.take(k)) <= 0x7fff_ffff_ffff_ffff by {
                assert(events.take(k) == prefix.take(k));
            }
            assert(-0x8000_0000_0000_0000 <= init.value_sum + b_value_total(events.take(n))
                <= 0x7fff_ffff_ffff_ffff);
        }
    }
}

/// The value that service B reads from a payload is that of its member
/// `value_field`, wherever that member stands among the members (the first
/// such member, where a key repeats), as an `i64` cut to its low 32 bits, or
/// 0 where that member is not such an integer.
pub proof fn law_b_reads_value_field_wherever_it_stands(
    payload: Seq<(Seq<char>, Option<i64>)>,
    i: int,
)
    requires
        0 <= i < payload.len(),
        payload[i].0 == "value_field"@,
        forall|j: int| 0 <= j < i ==> (#[trigger] payload[j]).0 != "value_field"@,
    ensures
        b_payload_value(payload) == (match payload[i].1 {
            Some(v) => v as i32,
            None => 0,
        }),
{
    lemma_payload_get_first(payload, "value_field"@, i);
}

/// A payload without a member `value_field` gives service B the value 0.
pub proof fn law_b_value_zero_without_value_field(payload: Seq<(Seq<char>, Option<i64>)>)
    requires
        forall|j: int| 0 <= j < payload.len() ==> (#[trigger] payload[j]).0 != "value_field"@,
    ensures
        b_payload_value(payload) == 0,
{
    lemma_payload_get_absent(payload, "value_field"@);
}

/// An event is late for service B exactly when its reference has a state
/// whose last event happened after it: at a later second, or in the same
/// second at a later nanosecond, by any amount.
pub proof fn law_b_late_exactly_when_before_last_event(
    states: Map<Seq<char>, ServiceBStateData>,
    e: ProcessedEventView,
)
    ensures
        b_is_late(states, e) <==> (states.contains_key(e.ref_id) && match states[e.ref_id].last_event_time {
            Some(t) => e.timestamp.secs < t.secs || (e.timestamp.secs == t.secs && e.timestamp.nanos
                < t.nanos),
            None => false,
        }),
{
}

/// Reading a reference's state after an event was applied gives the event
/// applied to what was read before, for the event's reference, and what was
/// read before, for every other reference.
pub proof fn law_b_read_after_apply(
    before: Map<Seq<char>, ServiceBStateData>,
    event: ServiceBRelevantView,
    ref_id: Seq<char>,
)
    ensures
        b_ingest(before, event).contains_key(ref_id) <==> (before.contains_key(ref_id) || ref_id
            == event.ref_id),
        state_or(b_ingest(before, event), ref_id, b_initial()) == (if ref_id == event.ref_id {
            b_apply(state_or(before, ref_id, b_initial()), event)
        } else {
            state_or(before, ref_id, b_initial())
        }),
{
}

/// Replaying `xs` and then `ys` gives the state that replaying `xs + ys` gives.
pub proof fn law_b_replay_concat(
    init: ServiceBStateData,
    xs: Seq<ProcessedEventView>,
    ys: Seq<ProcessedEventView>,
)
    ensures
        b_replay(b_replay(init, xs), ys) == b_replay(init, xs + ys),
    decreases ys.len(),
{
    if ys.len() == 0 {
        assert(xs + ys =~= xs);
    } else {
        law_b_replay_concat(init, xs, ys.drop_last());
        assert((xs + ys).drop_last() =~= xs + ys.drop_last());
        assert((xs + ys).last() == ys.last());
    }
}

/// The state kept live for a reference id, after processing a stream of
/// events from no states at all, is the state that replaying that reference's
/// events from the initial state gives; and a reference has a state exactly
/// when some relevant event concerned it.
pub proof fn law_b_live_state_is_replay(events: Seq<ProcessedEventView>, ref_id: Seq<char>)
    ensures
        state_or(b_ingest_all(Map::empty(), events), ref_id, b_initial()) == b_replay(
            b_initial(),
            events_of_ref(events, ref_id),
        ),
        b_ingest_all(Map::empty(), events).contains_key(ref_id) <==> exists|i: int|
            0 <= i < events.len() && (#[trigger] events[i]).ref_id == ref_id && b_relevant(
                events[i],
            ) is Some,
    decreases events.len(),
{
    if events.len() > 0 {
        let prefix = events.drop_last();
        law_b_live_state_is_replay(prefix, ref_id);
        let sel = events_of_ref(prefix, ref_id);
        if events.last().ref_id == ref_id {
            assert(sel.push(events.last()).drop_last() =~= sel);
        }
        if b_ingest_all(Map::empty(), events).contains_key(ref_id) {
            if b_ingest_all(Map::empty(), prefix).contains_key(ref_id) {
                let i = choose|i: int|
                    0 <= i < prefix.len() && (#[trigger] prefix[i]).ref_id == ref_id && b_relevant(
                        prefix[i],
                    ) is Some;
                assert(events[i] == prefix[i]);
            } else {
                assert(events[events.len() - 1] == events.last());
            }
        }
        if exists|i: int|
            0 <= i < events.len() && (#[trigger] events[i]).ref_id == ref_id && b_relevant(
                events[i],
            ) is Some {
            let i = choose|i: int|
                0 <= i < events.len() && (#[trigger] events[i]).ref_id == ref_id && b_relevant(
                    events[i],
                ) is Some;
            if i < events.len() - 1 {
                assert(prefix[i] == events[i]);
            }
        }
    }
}

/// Rebuilding from a snapshot that holds, for `ref_id`, the replay of the
/// events in the log before position `k`, by replaying the events of `ref_id`
/// from position `k` on, gives the replay of all of the log's events of
/// `ref_id` from the initial state.
pub proof fn law_b_resume_from_snapshot(
    log: Seq<ProcessedEventView>,
    k: int,
    ref_id: Seq<char>,
    snapshot_state: ServiceBStateData,
)
    requires
        0 <= k <= log.len(),
        snapshot_state == b_replay(b_initial(), events_of_ref(log.take(k), ref_id)),
    ensures
        b_replay(snapshot_state, events_of_ref(log.skip(k), ref_id)) == b_replay(
            b_initial(),
            events_of_ref(log, ref_id),
        ),
{
    assert(log.take(k) + log.skip(k) =~= log);
    lemma_events_of_ref_concat(log.take(k), log.skip(k), ref_id);
    law_b_replay_concat(
        b_initial(),
        events_of_ref(log.take(k), ref_id),
        events_of_ref(log.skip(k), ref_id),
    );
}

/// The events that service B finds relevant.
pub open spec fn b_relevant_event() -> spec_fn(ProcessedEventView) -> bool {
    |e: ProcessedEventView| b_relevant(e) is Some
}

/// Leaving out one event leaves out its value from the total.
proof fn lemma_b_total_remove(events: Seq<ProcessedEventView>, k: int)
    requires
        0 <= k < events.len(),
    ensures
        b_value_total(events) == b_value_total(events.remove(k)) + b_event_value(events[k]),
    decreases events.len(),
{
    if k == events.len() - 1 {
        assert(events.remove(k) =~= events.drop_last());
    } else {
        lemma_b_total_remove(events.drop_last(), k);
        assert(events.remove(k).drop_last() =~= events.drop_last().remove(k));
        assert(events.remove(k).last() == events.last());
    }
}

/// Sequences of the same events (counted with repetition) have the same total.
proof fn lemma_b_total_same_events(xs: Seq<ProcessedEventView>, ys: Seq<ProcessedEventView>)
    requires
        xs.to_multiset() == ys.to_multiset(),
    ensures
        b_value_total(xs) == b_value_total(ys),
    decreases xs.len(),
{
    broadcast use vstd::seq_lib::group_to_multiset_ensures, vstd::multiset::group_multiset_axioms;

    vstd::seq_lib::to_multiset_len(xs);
    vstd::seq_lib::to_multiset_len(ys);
    if xs.len() > 0 {
        let x = xs.last();
        assert(xs =~= xs.drop_last().push(x));
        assert(xs.to_multiset().count(x) > 0);
        assert(ys.contains(x));
        let k = choose|k: int| 0 <= k < ys.len() && ys[k] == x;
        assert(ys.remove(k).to_multiset() =~= xs.drop_last().to_multiset());
        lemma_b_total_same_events(xs.drop_last(), ys.remove(k));
        lemma_b_total_remove(ys, k);
    }
}

/// The total of two sequences one after the other is the sum of their totals.
proof fn lemma_b_total_concat(xs: Seq<ProcessedEventView>, ys: Seq<ProcessedEventView>)
    ensures
        b_value_total(xs + ys) == b_value_total(xs) + b_value_total(ys),
    decreases ys.len(),
{
    if ys.len() == 0 {
        assert(xs + ys =~= xs);
    } else {
        lemma_b_total_concat(xs, ys.drop_last());
        assert((xs + ys).drop_last() =~= xs + ys.drop_last());
        assert((xs + ys).last() == ys.last());
    }
}

/// A sequence of irrelevant events adds nothing.
proof fn lemma_b_total_irrelevant(events: Seq<ProcessedEventView>)
    requires
        forall|i: int| 0 <= i < events.len() ==> b_relevant(#[trigger] events[i]) is None,
    ensures
        b_value_total(events) == 0,
    decreases events.len(),
{
    if events.len() > 0 {
        assert(events[events.len() - 1] == events.last());
        assert forall|i: int| 0 <= i < events.drop_last().len() implies b_relevant(
            #[trigger] events.drop_last()[i],
        ) is None by {
            assert(events.drop_last()[i] == events[i]);
        }
        lemma_b_total_irrelevant(events.drop_last());
    }
}

/// A replay that fits, followed by one from its end that fits, fits.
proof fn lemma_b_fits_concat(
    init: ServiceBStateData,
    xs: Seq<ProcessedEventView>,
    ys: Seq<ProcessedEventView>,
)
    requires
        b_replay_fits(init, xs),
        b_replay_fits(b_replay(init, xs), ys),
    ensures
        b_replay_fits(init, xs + ys),
    decreases ys.len(),
{
    if ys.len() == 0 {
        assert(xs + ys =~= xs);
    } else {
        lemma_b_fits_concat(init, xs, ys.drop_last());
        law_b_replay_concat(init, xs, ys.drop_last());
        assert((xs + ys).drop_last() =~= xs + ys.drop_last());
        assert((xs + ys).last() == ys.last());
    }
}

/// A replay that fits has added the values of its relevant events and was
/// last updated at the time of its last relevant event (the initial time
/// where there is none).
proof fn lemma_b_replay_closed(init: ServiceBStateData, events: Seq<ProcessedEventView>)
    requires
        b_replay_fits(init, events),
    ensures
        b_replay(init, events) == (ServiceBStateData {
            value_sum: (init.value_sum + b_value_total(events)) as i64,
            last_event_time: match last_time_where(events, b_relevant_event()) {
                Some(t) => Some(t),
                None => init.last_event_time,
            },
        }),
    decreases events.len(),
{
    law_b_replay_sums_values(init, events);
    if events.len() > 0 {
        lemma_b_replay_closed(init, events.drop_last());
    }
}

/// Two time-sorted sequences of the same events (counted with repetition)
/// replay to the same state, wherever both replays fit.
pub proof fn law_b_replay_ignores_order_of_equal_times(
    init: ServiceBStateData,
    xs: Seq<ProcessedEventView>,
    ys: Seq<ProcessedEventView>,
)
    requires
        sorted_by_time(xs),
        sorted_by_time(ys),
        xs.to_multiset() == ys.to_multiset(),
        b_replay_fits(init, xs),
        b_replay_fits(init, ys),
    ensures
        b_replay(init, xs) == b_replay(init, ys),
{
    broadcast use vstd::seq_lib::group_to_multiset_ensures;

    lemma_b_replay_closed(init, xs);
    lemma_b_replay_closed(init, ys);
    lemma_b_total_same_events(xs, ys);
    assert forall|x: ProcessedEventView| b_relevant_event()(x) && xs.contains(x) implies ys.contains(x) by {
        assert(xs.to_multiset().count(x) > 0);
    }
    assert forall|x: ProcessedEventView| b_relevant_event()(x) && ys.contains(x) implies xs.contains(x) by {
        assert(ys.to_multiset().count(x) > 0);
    }
    lemma_last_time_where_agree(xs, ys, b_relevant_event());
}

/// The state of `ref_id` at instant `t` (no earlier than `s`), rebuilt from a
/// snapshot taken at `s` (no earlier than the epoch) that holds the state
/// rebuilt from scratch up to `s`, is the state rebuilt from scratch up to
/// `t`. The event log `log` may be in any order; each query returns the
/// selected rows sorted by time, in any order among equal times:
/// `up_to_snapshot` those in `(epoch, s]`, `after_snapshot` those in `(s, t]`,
/// and `up_to_t` those in `(epoch, t]`. The snapshot thus only changes where
/// the replay starts, never the state found (wherever the replays fit).
pub proof fn law_b_state_at_time_from_snapshot(
    log: Seq<ProcessedEventView>,
    ref_id: Seq<char>,
    s: Timestamp,
    t: Timestamp,
    up_to_snapshot: Seq<ProcessedEventView>,
    after_snapshot: Seq<ProcessedEventView>,
    up_to_t: Seq<ProcessedEventView>,
    snapshot_state: ServiceBStateData,
)
    requires
        !s.precedes(Timestamp::epoch()),
        !t.precedes(s),
        sorted_by_time(up_to_snapshot),
        sorted_by_time(after_snapshot),
        sorted_by_time(up_to_t),
        up_to_snapshot.to_multiset() == log_query(log, ref_id, Timestamp::epoch(), s).to_multiset(),
        after_snapshot.to_multiset() == log_query(log, ref_id, s, t).to_multiset(),
        up_to_t.to_multiset() == log_query(log, ref_id, Timestamp::epoch(), t).to_multiset(),
        snapshot_state == b_replay(b_initial(), up_to_snapshot),
        b_replay_fits(b_initial(), up_to_snapshot),
        b_replay_fits(snapshot_state, after_snapshot),
        b_replay_fits(b_initial(), up_to_t),
    ensures
        b_replay(snapshot_state, after_snapshot) == b_replay(b_initial(), up_to_t),
{
    broadcast use vstd::seq_lib::group_to_multiset_ensures, vstd::multiset::group_multiset_axioms;

    let both = up_to_snapshot + after_snapshot;
    lemma_query_split(log, ref_id, Timestamp::epoch(), s, t);
    vstd::seq_lib::lemma_multiset_commutative(up_to_snapshot, after_snapshot);
    assert(both.to_multiset() =~= up_to_t.to_multiset());
    assert forall|i: int, j: int|
        0 <= i < up_to_snapshot.len() && 0 <= j < after_snapshot.len() implies !(
        #[trigger] after_snapshot[j]).timestamp.precedes((#[trigger] up_to_snapshot[i]).timestamp) by {
        let x = up_to_snapshot[i];
        let y = after_snapshot[j];
        assert(up_to_snapshot.to_multiset().count(x) > 0);
        assert(log_query(log, ref_id, Timestamp::epoch(), s).contains(x));
        lemma_query_members(log, ref_id, Timestamp::epoch(), s, x);
        assert(after_snapshot.to_multiset().count(y) > 0);
        assert(log_query(log, ref_id, s, t).contains(y));
        lemma_query_members(log, ref_id, s, t, y);
    }
    lemma_sorted_concat(up_to_snapshot, after_snapshot);
    law_b_replay_concat(b_initial(), up_to_snapshot, after_snapshot);
    lemma_b_fits_concat(b_initial(), up_to_snapshot, after_snapshot);
    law_b_replay_ignores_order_of_equal_times(b_initial(), both, up_to_t);
}

/// Rows that concern another reference, that lie outside the queried window
/// `(after, up_to]`, or that service B finds irrelevant never change the state
/// that a replay of the query finds: adding any such rows `extra` to the log
/// leaves the replay as it was (wherever both replays fit). `selected` and
/// `selected_with_extra` are what the query returns, sorted by time, from the
/// log without and with the extra rows.
pub proof fn law_b_replay_ignores_other_rows(
    log: Seq<ProcessedEventView>,
    extra: Seq<ProcessedEventView>,
    ref_id: Seq<char>,
    after: Timestamp,
    up_to: Timestamp,
    selected: Seq<ProcessedEventView>,
    selected_with_extra: Seq<ProcessedEventView>,
    init: ServiceBStateData,
)
    requires
        forall|i: int|
            0 <= i < extra.len() ==> (#[trigger] extra[i]).ref_id != ref_id || !after.precedes(
                extra[i].timestamp,
            ) || up_to.precedes(extra[i].timestamp) || b_relevant(extra[i]) is None,
        sorted_by_time(selected),
        sorted_by_time(selected_with_extra),
        selected.to_multiset() == log_query(log, ref_id, after, up_to).to_multiset(),
        selected_with_extra.to_multiset() == log_query(log + extra, ref_id, after, up_to).to_multiset(),
        b_replay_fits(init, selected),
        b_replay_fits(init, selected_with_extra),
    ensures
        b_replay(init, selected_with_extra) == b_replay(init, selected),
{
    broadcast use vstd::seq_lib::group_to_multiset_ensures, vstd::multiset::group_multiset_axioms;

    let chosen_extra = log_query(extra, ref_id, after, up_to);
    lemma_query_concat(log, extra, ref_id, after, up_to);
    vstd::seq_lib::lemma_multiset_commutative(log_query(log, ref_id, after, up_to), chosen_extra);
    vstd::seq_lib::lemma_multiset_commutative(selected, chosen_extra);
    assert forall|i: int| 0 <= i < chosen_extra.len() implies b_relevant(#[trigger] chosen_extra[i]) is None by {
        let x = chosen_extra[i];
        assert(chosen_extra.contains(x));
        lemma_query_members(extra, ref_id, after, up_to, x);
        let k = choose|k: int| 0 <= k < extra.len() && extra[k] == x;
        assert(extra[k] == x);
    }
    assert((selected + chosen_extra).to_multiset() =~= selected_with_extra.to_multiset());
    lemma_b_total_same_events(selected + chosen_extra, selected_with_extra);
    lemma_b_total_concat(selected, chosen_extra);
    lemma_b_total_irrelevant(chosen_extra);
    lemma_b_replay_closed(init, selected);
    lemma_b_replay_closed(init, selected_with_extra);
    assert forall|x: ProcessedEventView| b_relevant_event()(x) && selected.contains(x) implies selected_with_extra.contains(x) by {
        assert(selected.to_multiset().count(x) > 0);
        assert(selected_with_extra.to_multiset().count(x) > 0);
    }
    assert forall|x: ProcessedEventView| b_relevant_event()(x) && selected_with_extra.contains(x) implies selected.contains(x) by {
        assert(selected_with_extra.to_multiset().count(x) > 0);
        if selected.to_multiset().count(x) == 0 {
            assert(chosen_extra.to_multiset().count(x) > 0);
            assert(chosen_extra.contains(x));
            let i = choose|i: int| 0 <= i < chosen_extra.len() && chosen_extra[i] == x;
            assert(b_relevant(chosen_extra[i]) is None);
        }
    }
    lemma_last_time_where_agree(selected, selected_with_extra, b_relevant_event());
}

/// Service B: the state of each reference id.
pub struct ServiceB {
    state: InternalState<ServiceBStateData>,
}

impl View for ServiceB {
    type V = Map<Seq<char>, ServiceBStateData>;

    closed spec fn view(&self) -> Map<Seq<char>, ServiceBStateData> {
        self.state@
    }
}

impl ServiceB {
    /// The service's states are well formed.
    pub closed spec fn wf(&self) -> bool {
        self.state.wf()
    }

    /// A service with no states.
    pub fn new() -> (s: ServiceB)
        ensures
            s.wf(),
            s@ == Map::<Seq<char>, ServiceBStateData>::empty(),
    {
        ServiceB { state: InternalState::new() }
    }

    /// The state after applying `relevant_event` to `current_data`.
    pub fn apply_relevant_event_to_state_value(
        &self,
        current_data: ServiceBStateData,
        relevant_event: &ServiceBRelevantEvent,
    ) -> (r: ServiceBStateData)
        requires
            b_can_apply(current_data, relevant_event@),
        ensures
            r == b_apply(current_data, relevant_event@),
    {
        let mut data = current_data;
        data.value_sum = data.value_sum + relevant_event.value as i64;
        data.last_event_time = Some(relevant_event.timestamp);
        data
    }

    /// Whether `event` can be applied without overflowing its reference's sum.
    pub fn can_apply_event(&self, event: &ServiceBRelevantEvent) -> (r: bool)
        ensures
            r == b_can_apply(state_or(self@, event.ref_id@, b_initial()), event@),
    {
        let current = match self.state.get(event.ref_id.as_str()) {
            Some(d) => d,
            None => ServiceBStateData::default(),
        };
        current.value_sum.checked_add(event.value as i64).is_some()
    }

    /// Applies `event` to the state of its reference id, starting from the
    /// initial state where that id has none.
    pub fn apply_event(&mut self, event: ServiceBRelevantEvent)
        requires
            old(self).wf(),
            b_can_apply(state_or(old(self)@, event.ref_id@, b_initial()), event@),
        ensures
            final(self).wf(),
            final(self)@ == b_ingest(old(self)@, event@),
    {
        let current = match self.state.get(event.ref_id.as_str()) {
            Some(d) => d,
            None => ServiceBStateData::default(),
        };
        let updated = self.apply_relevant_event_to_state_value(current, &event);
        self.state.insert(event.ref_id, updated);
    }

    /// The state of `ref_id`, if it has one.
    pub fn get_current_state_for_ref_id(&self, ref_id: &RefKeyType) -> (r: Option<ServiceBStateData>)
        ensures
            r == (if self@.contains_key(ref_id@) {
                Some(self@[ref_id@])
            } else {
                None
            }),
    {
        self.state.get(ref_id.as_str())
    }

    /// Whether `event` is late: the last event applied to its reference id
    /// happened after it, so stored snapshots after it are stale.
    pub fn is_late_event(&self, event: &ProcessedEventDto) -> (r: bool)
        ensures
            r == b_is_late(self@, event@),
    {
        match self.state.get(event.ref_id.as_str()) {
            Some(d) => match d.last_event_time {
                Some(t) => event.timestamp.is_before(&t),
                None => false,
            },
            None => false,
        }
    }

    /// Whether `event` can be handled without overflowing its reference's sum.
    pub fn can_handle_event(&self, event: &ProcessedEventDto) -> (r: bool)
        ensures
            r == (b_relevant(event@) matches Some(rel) ==> b_can_apply(
                state_or(self@, rel.ref_id, b_initial()),
                rel,
            )),
    {
        match self.process_event(event.clone()) {
            Some(relevant) => self.can_apply_event(&relevant),
            None => true,
        }
    }

    /// Handles an event that arrives on the service's queue: applies it, if it
    /// is relevant, to the state of its reference id and, where the event is
    /// late, asks for the stored snapshots of that id after the event to be
    /// deleted.
    pub fn handle_incoming_event(&mut self, event: ProcessedEventDto) -> (r: Option<StaleSnapshots>)
        requires
            old(self).wf(),
            b_relevant(event@) matches Some(rel) ==> b_can_apply(
                state_or(old(self)@, rel.ref_id, b_initial()),
                rel,
            ),
        ensures
            final(self).wf(),
            final(self)@ == (match b_relevant(event@) {
                Some(rel) => b_ingest(old(self)@, rel),
                None => old(self)@,
            }),
            match r {
                Some(stale) => b_is_late(old(self)@, event@) && stale.ref_id@ == event@.ref_id
                    && stale.after == event@.timestamp,
                None => !b_is_late(old(self)@, event@),
            },
    {
        let stale = if self.is_late_event(&event) {
            Some(StaleSnapshots { ref_id: event.ref_id.clone(), after: event.timestamp })
        } else {
            None
        };
        match self.process_event(event) {
            Some(relevant) => self.apply_event(relevant),
            None => {},
        }
        stale
    }

    /// A snapshot of all states, taken at `timestamp`.
    pub fn snapshot_at(&self, timestamp: Timestamp) -> (s: ServiceSnapshot<ServiceBStateData>)
        requires
            self.wf(),
        ensures
            s.wf(),
            s.timestamp == timestamp,
            s.state@ == self@,
    {
        ServiceSnapshot { timestamp, state: self.state.duplicate() }
    }

    /// A snapshot of all states, taken now; `None` where the system clock
    /// cannot be read as a UTC instant (it reads a time before the Unix epoch,
    /// or one out of range).
    pub fn create_snapshot(&self) -> (r: Option<ServiceSnapshot<ServiceBStateData>>)
        requires
            self.wf(),
        ensures
            r matches Some(s) ==> s.wf() && s.state@ == self@ && s.timestamp.secs >= 0
                && s.timestamp.nanos < 1_000_000_000 && utc_timestamp_in_range(
                s.timestamp.secs,
                s.timestamp.nanos,
            ),
    {
        match utc_now() {
            Some(now) => Some(self.snapshot_at(now)),
            None => None,
        }
    }

    /// Replaces all states by those of `snapshot`.
    pub fn restore_from_snapshot(&mut self, snapshot: ServiceSnapshot<ServiceBStateData>)
        requires
            snapshot.wf(),
        ensures
            final(self).wf(),
            final(self)@ == snapshot.state@,
    {
        self.state = snapshot.state;
    }

    /// Where a rebuild of the state of `ref_id` starts, given the latest stored
    /// snapshot of it, if any: the state to start from, and the instant after
    /// which the log's events are to be replayed.
    pub fn replay_origin(
        &self,
        ref_id: &RefKeyType,
        latest_snapshot: Option<ServiceSnapshot<ServiceBStateData>>,
    ) -> (r: (ServiceBStateData, Timestamp))
        ensures
            r == b_replay_origin(ref_id@, b_snapshot_view(latest_snapshot)),
    {
        match latest_snapshot {
            Some(snapshot) => {
                let data = match snapshot.state.get(ref_id.as_str()) {
                    Some(d) => d,
                    None => ServiceBStateData::default(),
                };
                (data, snapshot.timestamp)
            },
            None => {
                let epoch = match utc_with_ymd_and_hms(1970, 1, 1, 0, 0, 0) {
                    Some(t) => t,
                    None => Timestamp::default(),
                };
                (ServiceBStateData::default(), epoch)
            },
        }
    }

    /// Whether replaying `events` from `initial` stays free of overflow.
    pub fn replay_fits(&self, initial: ServiceBStateData, events: &Vec<EventLogRecord>) -> (r: bool)
        ensures
            r == b_replay_fits(initial, processed_from_log_seq(events@)),
    {
        let ghost evs = processed_from_log_seq(events@);
        let mut current = initial;
        let n = events.len();
        assert(evs.take(0) =~= Seq::<ProcessedEventView>::empty());
        for i in 0..n
            invariant
                n == events.len(),
                evs == processed_from_log_seq(events@),
                b_replay_fits(initial, evs.take(i as int)),
                current == b_replay(initial, evs.take(i as int)),
        {
            let processed = events[i].to_processed_event();
            proof {
                lemma_b_replay_step(initial, evs, i as int);
                assert(evs[i as int] == processed_from_log(events@[i as int]@));
            }
            match self.process_event(processed) {
                Some(relevant) => {
                    if current.value_sum.checked_add(relevant.value as i64).is_none() {
                        proof {
                            if b_replay_fits(initial, evs) {
                                assert(evs.take(n as int) =~= evs);
                                lemma_b_fits_prefix(initial, evs, i as int);
                            }
                        }
                        return false;
                    }
                    current = self.apply_relevant_event_to_state_value(current, &relevant);
                },
                None => {},
            }
        }
        assert(evs.take(n as int) =~= evs);
        true
    }

    /// The state that replaying the log records `events` in order, from
    /// `initial`, gives.
    pub fn replay_events(&self, initial: ServiceBStateData, events: &Vec<EventLogRecord>) -> (r:
        ServiceBStateData)
        requires
            b_replay_fits(initial, processed_from_log_seq(events@)),
        ensures
            r == b_replay(initial, processed_from_log_seq(events@)),
    {
        let ghost evs = processed_from_log_seq(events@);
        let mut current = initial;
        let n = events.len();
        assert(evs.take(0) =~= Seq::<ProcessedEventView>::empty());
        for i in 0..n
            invariant
                n == events.len(),
                evs == processed_from_log_seq(events@),
                b_replay_fits(initial, evs),
                current == b_replay(initial, evs.take(i as int)),
        {
            let processed = events[i].to_processed_event();
            proof {
                lemma_b_fits_prefix(initial, evs, i as int);
                lemma_b_replay_step(initial, evs, i as int);
                assert(evs[i as int] == processed_from_log(events@[i as int]@));
            }
            match self.process_event(processed) {
                Some(relevant) => {
                    current = self.apply_relevant_event_to_state_value(current, &relevant);
                },
                None => {},
            }
        }
        assert(evs.take(n as int) =~= evs);
        current
    }
}

impl EventProcessor<ServiceBRelevantEvent> for ServiceB {
    /// The relevant event that service B makes of `event`: one exactly when
    /// the event has service B's type, carrying the payload's value.
    fn process_event(&self, event: ProcessedEventDto) -> (r: Option<ServiceBRelevantEvent>)
        ensures
            match b_relevant(event@) {
                Some(rel) => r matches Some(e) && e@ == rel,
                None => r is None,
            },
    {
        let relevant_type = String::from_str("SERVICE_B_RELEVANT_EVENT");
        if event.event_type == relevant_type {
            let key = String::from_str("value_field");
            let value_from_payload = match event.original_payload.int_member(&key) {
                Some(v) => v,
                None => 0,
            };
            Some(
                ServiceBRelevantEvent {
                    timestamp: event.timestamp,
                    ref_id: event.ref_id,
                    value: value_from_payload as i32,
                },
            )
        } else {
            None
        }
    }
}

} // verus!
