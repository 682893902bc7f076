//! Events as the services see them: the log record that storage keeps, the
//! processed event handed to a service, its JSON payload (as far as the
//! services read it), and the events that each service finds relevant.

use crate::time::Timestamp;
use vstd::multiset::Multiset;
use vstd::prelude::*;
use vstd::string::*;

verus! {

/// One member of a JSON payload object: its key, and its value as an `i64`
/// where the value is an integer that fits in one (`None` for any other value).
pub struct PayloadMember {
    pub key: String,
    pub int_value: Option<i64>,
}

/// The members of an event's JSON payload object, in the object's order (no
/// members when the payload is not an object).
pub struct EventPayload {
    pub members: Vec<PayloadMember>,
}

impl View for PayloadMember {
    type V = (Seq<char>, Option<i64>);

    open spec fn view(&self) -> (Seq<char>, Option<i64>) {
        (self.key@, self.int_value)
    }
}

impl View for EventPayload {
    type V = Seq<(Seq<char>, Option<i64>)>;

    open spec fn view(&self) -> Seq<(Seq<char>, Option<i64>)> {
        self.members@.map_values(|m: PayloadMember| m@)
    }
}

/// The member that a lookup by `key` finds: `Some(value)` for the first member
/// with that key, `None` when no member has it.
pub open spec fn payload_get(members: Seq<(Seq<char>, Option<i64>)>, key: Seq<char>) -> Option<
    Option<i64>,
>
    decreases members.len(),
{
    if members.len() == 0 {
        None
    } else if members[0].0 == key {
        Some(members[0].1)
    } else {
        payload_get(members.drop_first(), key)
    }
}

/// The payload's member `key` read as an `i64`: `None` where there is no such
/// member or its value is not such an integer.
pub open spec fn payload_int(members: Seq<(Seq<char>, Option<i64>)>, key: Seq<char>) -> Option<i64> {
    match payload_get(members, key) {
        Some(Some(i)) => Some(i),
        _ => None,
    }
}

/// A lookup by `key` finds the first member with that key, wherever it stands.
pub proof fn lemma_payload_get_first(members: Seq<(Seq<char>, Option<i64>)>, key: Seq<char>, i: int)
    requires
        0 <= i < members.len(),
        members[i].0 == key,
        forall|j: int| 0 <= j < i ==> (#[trigger] members[j]).0 != key,
    ensures
        payload_get(members, key) == Some(members[i].1),
        payload_int(members, key) == (match members[i].1 {
            Some(v) => Some(v),
            None => None,
        }),
    decreases i,
{
    if i > 0 {
        assert(members[0].0 != key);
        let rest = members.drop_first();
        assert forall|j: int| 0 <= j < i - 1 implies (#[trigger] rest[j]).0 != key by {
            assert(rest[j] == members[j + 1]);
        }
        assert(rest[i - 1] == members[i]);
        lemma_payload_get_first(rest, key, i - 1);
    }
}

/// A lookup by a key that no member has finds nothing.
pub proof fn lemma_payload_get_absent(members: Seq<(Seq<char>, Option<i64>)>, key: Seq<char>)
    requires
        forall|j: int| 0 <= j < members.len() ==> (#[trigger] members[j]).0 != key,
    ensures
        payload_get(members, key) is None,
        payload_int(members, key) is None,
    decreases members.len(),
{
    if members.len() > 0 {
        assert(members[0].0 != key);
        let rest = members.drop_first();
        assert forall|j: int| 0 <= j < rest.len() implies (#[trigger] rest[j]).0 != key by {
            assert(rest[j] == members[j + 1]);
        }
        lemma_payload_get_absent(rest, key);
    }
}

impl Clone for PayloadMember {
    fn clone(&self) -> (r: PayloadMember)
        ensures
            r@ == self@,
    {
        PayloadMember { key: self.key.clone(), int_value: self.int_value }
    }
}

impl Clone for EventPayload {
    fn clone(&self) -> (r: EventPayload)
        ensures
            r@ == self@,
    {
        let mut members: Vec<PayloadMember> = Vec::new();
        let n = self.members.len();
        for i in 0..n
            invariant
                n == self.members.len(),
                members.len() == i,
                forall|j: int| 0 <= j < i ==> (#[trigger] members@[j])@ == self.members@[j]@,
        {
            members.push(self.members[i].clone());
        }
        let r = EventPayload { members };
        assert(r@ =~= self@);
        r
    }
}

impl EventPayload {
    /// A payload with no members.
    pub fn empty() -> (r: EventPayload)
        ensures
            r@ == Seq::<(Seq<char>, Option<i64>)>::empty(),
    {
        let r = EventPayload { members: Vec::new() };
        assert(r@ =~= Seq::<(Seq<char>, Option<i64>)>::empty());
        r
    }

    /// The member `key` as an `i64`, as `payload.get(key).and_then(as_i64)`.
    pub fn int_member(&self, key: &String) -> (r: Option<i64>)
        ensures
            r == payload_int(self@, key@),
    {
        let n = self.members.len();
        let mut i: usize = 0;
        assert(self@.skip(0) =~= self@);
        while i < n
            invariant
                n == self.members.len(),
                i <= n,
                payload_get(self@, key@) == payload_get(self@.skip(i as int), key@),
            decreases n - i,
        {
            let ghost rest = self@.skip(i as int);
            assert(rest[0] == self.members@[i as int]@);
            if self.members[i].key == *key {
                return self.members[i].int_value;
            }
            assert(rest.drop_first() =~= self@.skip(i + 1));
            i = i + 1;
        }
        None
    }
}

/// A processed event in the view of the specifications.
pub struct ProcessedEventView {
    pub event_type: Seq<char>,
    pub room_id: Option<i64>,
    pub timestamp: Timestamp,
    pub ref_id: Seq<char>,
    pub payload: Seq<(Seq<char>, Option<i64>)>,
}

/// An event on its way to the services: its type, the room it concerns if any,
/// when it happened, the reference id whose state it changes, and its payload.
pub struct ProcessedEventDto {
    pub event_type: String,
    pub room_id: Option<i64>,
    pub timestamp: Timestamp,
    pub ref_id: String,
    pub original_payload: EventPayload,
}

impl View for ProcessedEventDto {
    type V = ProcessedEventView;

    open spec fn view(&self) -> ProcessedEventView {
        ProcessedEventView {
            event_type: self.event_type@,
            room_id: self.room_id,
            timestamp: self.timestamp,
            ref_id: self.ref_id@,
            payload: self.original_payload@,
        }
    }
}

impl Clone for ProcessedEventDto {
    fn clone(&self) -> (r: ProcessedEventDto)
        ensures
            r@ == self@,
    {
        ProcessedEventDto {
            event_type: self.event_type.clone(),
            room_id: self.room_id,
            timestamp: self.timestamp,
            ref_id: self.ref_id.clone(),
            original_payload: self.original_payload.clone(),
        }
    }
}

/// A record of the event log in the view of the specifications.
pub struct EventLogView {
    pub id: i32,
    pub event_type: Seq<char>,
    pub room_id: Option<i64>,
    pub timestamp: Timestamp,
    pub ref_id: Seq<char>,
    pub raw_event: Seq<(Seq<char>, Option<i64>)>,
}

/// A row of the event log, as storage gives it back.
pub struct EventLogRecord {
    pub id: i32,
    pub event_type: String,
    pub room_id: Option<i64>,
    pub timestamp: Timestamp,
    pub ref_id: String,
    pub raw_event: EventPayload,
}

impl View for EventLogRecord {
    type V = EventLogView;

    open spec fn view(&self) -> EventLogView {
        EventLogView {
            id: self.id,
            event_type: self.event_type@,
            room_id: self.room_id,
            timestamp: self.timestamp,
            ref_id: self.ref_id@,
            raw_event: self.raw_event@,
        }
    }
}

/// The processed event that a log record stands for: every field but the
/// record's id, the raw event becoming the payload.
pub open spec fn processed_from_log(r: EventLogView) -> ProcessedEventView {
    ProcessedEventView {
        event_type: r.event_type,
        room_id: r.room_id,
        timestamp: r.timestamp,
        ref_id: r.ref_id,
        payload: r.raw_event,
    }
}

/// The processed events that a sequence of log records stands for, in order.
pub open spec fn processed_from_log_seq(records: Seq<EventLogRecord>) -> Seq<ProcessedEventView> {
    records.map_values(|r: EventLogRecord| processed_from_log(r@))
}

impl Clone for EventLogRecord {
    fn clone(&self) -> (r: EventLogRecord)
        ensures
            r@ == self@,
    {
        EventLogRecord {
            id: self.id,
            event_type: self.event_type.clone(),
            room_id: self.room_id,
            timestamp: self.timestamp,
            ref_id: self.ref_id.clone(),
            raw_event: self.raw_event.clone(),
        }
    }
}

impl EventLogRecord {
    /// The processed event that this record stands for.
    pub fn to_processed_event(&self) -> (e: ProcessedEventDto)
        ensures
            e@ == processed_from_log(self@),
    {
        ProcessedEventDto {
            event_type: self.event_type.clone(),
            room_id: self.room_id,
            timestamp: self.timestamp,
            ref_id: self.ref_id.clone(),
            original_payload: self.raw_event.clone(),
        }
    }
}

/// The events of `events` that concern reference `ref_id`, in order.
pub open spec fn events_of_ref(events: Seq<ProcessedEventView>, ref_id: Seq<char>) -> Seq<
    ProcessedEventView,
>
    decreases events.len(),
{
    if events.len() == 0 {
        events
    } else if events.last().ref_id == ref_id {
        events_of_ref(events.drop_last(), ref_id).push(events.last())
    } else {
        events_of_ref(events.drop_last(), ref_id)
    }
}

/// Selecting the events of a reference from a concatenation selects from each
/// part.
pub proof fn lemma_events_of_ref_concat(
    xs: Seq<ProcessedEventView>,
    ys: Seq<ProcessedEventView>,
    ref_id: Seq<char>,
)
    ensures
        events_of_ref(xs + ys, ref_id) == events_of_ref(xs, ref_id) + events_of_ref(ys, ref_id),
    decreases ys.len(),
{
    if ys.len() == 0 {
        assert(xs + ys =~= xs);
        assert(events_of_ref(xs, ref_id) + events_of_ref(ys, ref_id) =~= events_of_ref(xs, ref_id));
    } else {
        assert((xs + ys).drop_last() =~= xs + ys.drop_last());
        assert((xs + ys).last() == ys.last());
        lemma_events_of_ref_concat(xs, ys.drop_last(), ref_id);
        if ys.last().ref_id == ref_id {
            assert(events_of_ref(xs, ref_id) + events_of_ref(ys.drop_last(), ref_id).push(ys.last())
                =~= (events_of_ref(xs, ref_id) + events_of_ref(ys.drop_last(), ref_id)).push(
                ys.last(),
            ));
        }
    }
}

/// The events of `log` that concern `ref_id` and happened after `after` and
/// no later than `up_to`, in the log's order: the rows that a query of the
/// event log for that reference and window selects.
pub open spec fn log_query(
    log: Seq<ProcessedEventView>,
    ref_id: Seq<char>,
    after: Timestamp,
    up_to: Timestamp,
) -> Seq<ProcessedEventView>
    decreases log.len(),
{
    if log.len() == 0 {
        log
    } else if in_query(log.last(), ref_id, after, up_to) {
        log_query(log.drop_last(), ref_id, after, up_to).push(log.last())
    } else {
        log_query(log.drop_last(), ref_id, after, up_to)
    }
}

/// `e` concerns `ref_id` and happened after `after` and no later than `up_to`.
pub open spec fn in_query(e: ProcessedEventView, ref_id: Seq<char>, after: Timestamp, up_to: Timestamp) -> bool {
    e.ref_id == ref_id && after.precedes(e.timestamp) && !up_to.precedes(e.timestamp)
}

/// No event of `log` happened before an earlier one of it.
pub open spec fn sorted_by_time(log: Seq<ProcessedEventView>) -> bool {
    forall|i: int, j: int|
        0 <= i < j < log.len() ==> !(#[trigger] log[j]).timestamp.precedes((#[trigger] log[i]).timestamp)
}

/// What a query selects are events of the log that meet the query.
pub proof fn lemma_query_members(
    log: Seq<ProcessedEventView>,
    ref_id: Seq<char>,
    after: Timestamp,
    up_to: Timestamp,
    x: ProcessedEventView,
)
    requires
        log_query(log, ref_id, after, up_to).contains(x),
    ensures
        log.contains(x),
        in_query(x, ref_id, after, up_to),
    decreases log.len(),
{
    let prefix = log.drop_last();
    let q = log_query(prefix, ref_id, after, up_to);
    if in_query(log.last(), ref_id, after, up_to) && x == log.last() {
        assert(log[log.len() - 1] == x);
    } else {
        if in_query(log.last(), ref_id, after, up_to) {
            let i = choose|i: int| 0 <= i < q.push(log.last()).len() && q.push(log.last())[i] == x;
            assert(q[i] == x);
        }
        lemma_query_members(prefix, ref_id, after, up_to, x);
        let j = choose|j: int| 0 <= j < prefix.len() && prefix[j] == x;
        assert(log[j] == x);
    }
}

/// Querying a log made of two parts queries each part.
pub proof fn lemma_query_concat(
    xs: Seq<ProcessedEventView>,
    ys: Seq<ProcessedEventView>,
    ref_id: Seq<char>,
    after: Timestamp,
    up_to: Timestamp,
)
    ensures
        log_query(xs + ys, ref_id, after, up_to) == log_query(xs, ref_id, after, up_to) + log_query(
            ys,
            ref_id,
            after,
            up_to,
        ),
    decreases ys.len(),
{
    if ys.len() == 0 {
        assert(xs + ys =~= xs);
        assert(log_query(xs, ref_id, after, up_to) + log_query(ys, ref_id, after, up_to)
            =~= log_query(xs, ref_id, after, up_to));
    } else {
        assert((xs + ys).drop_last() =~= xs + ys.drop_last());
        assert((xs + ys).last() == ys.last());
        lemma_query_concat(xs, ys.drop_last(), ref_id, after, up_to);
        if in_query(ys.last(), ref_id, after, up_to) {
            assert(log_query(xs, ref_id, after, up_to) + log_query(ys.drop_last(), ref_id, after, up_to).push(
                ys.last(),
            ) =~= (log_query(xs, ref_id, after, up_to) + log_query(
                ys.drop_last(),
                ref_id,
                after,
                up_to,
            )).push(ys.last()));
        }
    }
}

/// For `a <= s <= t`, the window `(a, t]` holds, counting repetitions, the
/// events of the windows `(a, s]` and `(s, t]` together, whatever the order
/// of the log.
pub proof fn lemma_query_split(
    log: Seq<ProcessedEventView>,
    ref_id: Seq<char>,
    a: Timestamp,
    s: Timestamp,
    t: Timestamp,
)
    requires
        !s.precedes(a),
        !t.precedes(s),
    ensures
        log_query(log, ref_id, a, t).to_multiset() =~= log_query(log, ref_id, a, s).to_multiset().add(
            log_query(log, ref_id, s, t).to_multiset(),
        ),
    decreases log.len(),
{
    broadcast use vstd::seq_lib::group_to_multiset_ensures, vstd::multiset::group_multiset_axioms;

    if log.len() == 0 {
        assert(log_query(log, ref_id, a, t).to_multiset() =~= Multiset::empty());
        assert(log_query(log, ref_id, a, s).to_multiset() =~= Multiset::empty());
        assert(log_query(log, ref_id, s, t).to_multiset() =~= Multiset::empty());
    } else {
        lemma_query_split(log.drop_last(), ref_id, a, s, t);
    }
}

/// Two time-sorted sequences, each event of the second no earlier than each
/// of the first, make a time-sorted sequence.
pub proof fn lemma_sorted_concat(xs: Seq<ProcessedEventView>, ys: Seq<ProcessedEventView>)
    requires
        sorted_by_time(xs),
        sorted_by_time(ys),
        forall|i: int, j: int|
            0 <= i < xs.len() && 0 <= j < ys.len() ==> !(#[trigger] ys[j]).timestamp.precedes(
                (#[trigger] xs[i]).timestamp,
            ),
    ensures
        sorted_by_time(xs + ys),
{
    assert forall|i: int, j: int| 0 <= i < j < (xs + ys).len() implies !(#[trigger] (xs + ys)[j]).timestamp.precedes(
        (#[trigger] (xs + ys)[i]).timestamp,
    ) by {
        if j < xs.len() {
            assert((xs + ys)[i] == xs[i] && (xs + ys)[j] == xs[j]);
        } else if i < xs.len() {
            assert((xs + ys)[i] == xs[i] && (xs + ys)[j] == ys[j - xs.len()]);
        } else {
            assert((xs + ys)[i] == ys[i - xs.len()] && (xs + ys)[j] == ys[j - xs.len()]);
        }
    }
}

/// The time of the last event of `events` that meets `p`, if any does.
pub open spec fn last_time_where(events: Seq<ProcessedEventView>, p: spec_fn(ProcessedEventView) -> bool) -> Option<
    Timestamp,
>
    decreases events.len(),
{
    if events.len() == 0 {
        None
    } else if p(events.last()) {
        Some(events.last().timestamp)
    } else {
        last_time_where(events.drop_last(), p)
    }
}

/// `last_time_where` finds an event exactly when one meets `p`; in a
/// time-sorted sequence, no event that meets `p` is later than it.
pub proof fn lemma_last_time_where(events: Seq<ProcessedEventView>, p: spec_fn(ProcessedEventView) -> bool)
    ensures
        last_time_where(events, p) is None <==> forall|i: int| 0 <= i < events.len() ==> !p(#[trigger] events[i]),
        last_time_where(events, p) matches Some(t) ==> exists|i: int|
            0 <= i < events.len() && p(#[trigger] events[i]) && events[i].timestamp == t,
        sorted_by_time(events) ==> (last_time_where(events, p) matches Some(t) ==> forall|i: int|
            0 <= i < events.len() && p(#[trigger] events[i]) ==> !t.precedes(events[i].timestamp)),
    decreases events.len(),
{
    if events.len() > 0 {
        let prefix = events.drop_last();
        lemma_last_time_where(prefix, p);
        let n = events.len() - 1;
        assert(events[n] == events.last());
        assert forall|i: int| 0 <= i < prefix.len() implies prefix[i] == events[i] by {}
        if !p(events.last()) {
            if last_time_where(prefix, p) is None {
                assert forall|i: int| 0 <= i < events.len() implies !p(#[trigger] events[i]) by {
                    if i < n {
                        assert(prefix[i] == events[i]);
                    }
                }
            } else {
                let t = last_time_where(prefix, p)->0;
                let k = choose|k: int| 0 <= k < prefix.len() && p(#[trigger] prefix[k]) && prefix[k].timestamp == t;
                assert(events[k] == prefix[k]);
                if sorted_by_time(events) {
                    assert forall|i, j| 0 <= i < j < prefix.len() implies !(#[trigger] prefix[j]).timestamp.precedes(
                        (#[trigger] prefix[i]).timestamp,
                    ) by {
                        assert(prefix[i] == events[i] && prefix[j] == events[j]);
                    }
                    assert forall|i: int| 0 <= i < events.len() && p(#[trigger] events[i]) implies !t.precedes(
                        events[i].timestamp,
                    ) by {
                        if i < n {
                            assert(prefix[i] == events[i]);
                        }
                    }
                }
            }
        } else {
            if sorted_by_time(events) {
                assert forall|i: int| 0 <= i < events.len() && p(#[trigger] events[i]) implies !events.last().timestamp.precedes(
                    events[i].timestamp,
                ) by {
                    if i < n {
                        assert(!events[n].timestamp.precedes(events[i].timestamp));
                    }
                }
            }
        }
    }
}

/// Two time-sorted sequences whose events that meet `p` are the same (each
/// such event of one occurs in the other) agree on the time of their last
/// event that meets `p`.
pub proof fn lemma_last_time_where_agree(
    xs: Seq<ProcessedEventView>,
    ys: Seq<ProcessedEventView>,
    p: spec_fn(ProcessedEventView) -> bool,
)
    requires
        sorted_by_time(xs),
        sorted_by_time(ys),
        forall|x: ProcessedEventView| p(x) && xs.contains(x) ==> ys.contains(x),
        forall|x: ProcessedEventView| p(x) && ys.contains(x) ==> xs.contains(x),
    ensures
        last_time_where(xs, p) == last_time_where(ys, p),
{
    lemma_last_time_where(xs, p);
    lemma_last_time_where(ys, p);
    if last_time_where(xs, p) is Some {
        let tx = last_time_where(xs, p)->0;
        let i = choose|i: int| 0 <= i < xs.len() && p(#[trigger] xs[i]) && xs[i].timestamp == tx;
        assert(xs.contains(xs[i]));
        assert(ys.contains(xs[i]));
        let k = choose|k: int| 0 <= k < ys.len() && ys[k] == xs[i];
        assert(p(ys[k]));
        let ty = last_time_where(ys, p)->0;
        let j = choose|j: int| 0 <= j < ys.len() && p(#[trigger] ys[j]) && ys[j].timestamp == ty;
        assert(ys.contains(ys[j]));
        assert(xs.contains(ys[j]));
        let l = choose|l: int| 0 <= l < xs.len() && xs[l] == ys[j];
        assert(p(xs[l]));
        assert(!ty.precedes(tx));
        assert(!tx.precedes(ty));
        assert(tx == ty);
    } else if last_time_where(ys, p) is Some {
        let ty = last_time_where(ys, p)->0;
        let j = choose|j: int| 0 <= j < ys.len() && p(#[trigger] ys[j]) && ys[j].timestamp == ty;
        assert(ys.contains(ys[j]));
        assert(xs.contains(ys[j]));
        let l = choose|l: int| 0 <= l < xs.len() && xs[l] == ys[j];
        assert(p(xs[l]));
    }
}

/// An event relevant to service A, in the view of the specifications.
pub struct ServiceARelevantView {
    pub timestamp: Timestamp,
    pub ref_id: Seq<char>,
    pub data: Seq<char>,
}

/// An event that service A applies to the state of `ref_id`.
pub struct ServiceARelevantEvent {
    pub timestamp: Timestamp,
    pub ref_id: String,
    pub data: String,
}

impl View for ServiceARelevantEvent {
    type V = ServiceARelevantView;

    open spec fn view(&self) -> ServiceARelevantView {
        ServiceARelevantView { timestamp: self.timestamp, ref_id: self.ref_id@, data: self.data@ }
    }
}

/// An event relevant to service B, in the view of the specifications.
pub struct ServiceBRelevantView {
    pub timestamp: Timestamp,
    pub ref_id: Seq<char>,
    pub value: i32,
}

/// An event that service B applies to the state of `ref_id`.
pub struct ServiceBRelevantEvent {
    pub timestamp: Timestamp,
    pub ref_id: String,
    pub value: i32,
}

impl View for ServiceBRelevantEvent {
    type V = ServiceBRelevantView;

    open spec fn view(&self) -> ServiceBRelevantView {
        ServiceBRelevantView { timestamp: self.timestamp, ref_id: self.ref_id@, value: self.value }
    }
}

} // verus!
