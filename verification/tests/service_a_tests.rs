use alarmservice::events::{
    EventLogRecord, EventPayload, ProcessedEventDto, ServiceARelevantEvent,
};
use alarmservice::service_a::{ServiceA, ServiceAStateData};
use alarmservice::state::ServiceSnapshot;
use alarmservice::time::Timestamp;
use alarmservice::traits::EventProcessor;

fn ts(secs: i64, nanos: u32) -> Timestamp {
    Timestamp { secs, nanos }
}

fn processed(event_type: &str, ref_id: &str, at: Timestamp) -> ProcessedEventDto {
    ProcessedEventDto {
        event_type: event_type.to_string(),
        room_id: Some(1),
        timestamp: at,
        ref_id: ref_id.to_string(),
        original_payload: EventPayload::empty(),
    }
}

fn record(id: i32, event_type: &str, ref_id: &str, at: Timestamp) -> EventLogRecord {
    EventLogRecord {
        id,
        event_type: event_type.to_string(),
        room_id: None,
        timestamp: at,
        ref_id: ref_id.to_string(),
        raw_event: EventPayload::empty(),
    }
}

fn ingest(s: &mut ServiceA, e: ProcessedEventDto) {
    let rel = s.process_event(e).expect("service A finds every event relevant");
    assert!(s.can_apply_event(&rel));
    s.apply_event(rel);
}

#[test]
fn a_every_event_is_relevant_and_names_its_type() {
    let s = ServiceA::new();
    let rel = s.process_event(processed("WINDOW_OPEN", "r1", ts(100, 7))).unwrap();
    assert_eq!(rel.data, "Processed data from event type: WINDOW_OPEN");
    assert_eq!(rel.ref_id, "r1");
    assert_eq!(rel.timestamp, ts(100, 7));
}

#[test]
fn a_apply_relevant_event_counts_and_stamps() {
    let s = ServiceA::new();
    let ev = ServiceARelevantEvent { timestamp: ts(50, 1), ref_id: "r".to_string(), data: String::new() };
    let d = s.apply_relevant_event_to_state_value(ServiceAStateData { count: 4, last_updated: ts(60, 0) }, &ev);
    assert_eq!(d, ServiceAStateData { count: 5, last_updated: ts(50, 1) });
}

#[test]
fn a_apply_event_then_get() {
    let mut s = ServiceA::new();
    assert_eq!(s.get_current_state_for_ref_id(&"r1".to_string()), None);
    ingest(&mut s, processed("X", "r1", ts(10, 0)));
    ingest(&mut s, processed("Y", "r1", ts(20, 0)));
    ingest(&mut s, processed("Z", "r2", ts(15, 0)));
    assert_eq!(
        s.get_current_state_for_ref_id(&"r1".to_string()),
        Some(ServiceAStateData { count: 2, last_updated: ts(20, 0) })
    );
    assert_eq!(
        s.get_current_state_for_ref_id(&"r2".to_string()),
        Some(ServiceAStateData { count: 1, last_updated: ts(15, 0) })
    );
    assert_eq!(s.get_current_state_for_ref_id(&"r3".to_string()), None);
}

#[test]
fn a_default_state_is_zero_at_epoch() {
    assert_eq!(ServiceAStateData::default(), ServiceAStateData { count: 0, last_updated: ts(0, 0) });
}

#[test]
fn a_late_events() {
    let mut s = ServiceA::new();
    assert!(!s.is_late_event(&processed("X", "r1", ts(5, 0))));
    ingest(&mut s, processed("X", "r1", ts(10, 0)));
    assert!(s.is_late_event(&processed("X", "r1", ts(9, 999))));
    assert!(!s.is_late_event(&processed("X", "r1", ts(10, 0))));
    assert!(!s.is_late_event(&processed("X", "r1", ts(11, 0))));
    assert!(!s.is_late_event(&processed("X", "r2", ts(1, 0))));
}

#[test]
fn a_count_at_maximum_cannot_take_more() {
    let mut s = ServiceA::new();
    let snap = ServiceSnapshot::single(
        ts(1, 0),
        "r".to_string(),
        ServiceAStateData { count: i32::MAX, last_updated: ts(1, 0) },
    );
    s.restore_from_snapshot(snap);
    let rel = s.process_event(processed("X", "r", ts(2, 0))).unwrap();
    assert!(!s.can_apply_event(&rel));
    let other = s.process_event(processed("X", "q", ts(2, 0))).unwrap();
    assert!(s.can_apply_event(&other));
}

#[test]
fn a_snapshot_round_trip() {
    let mut s = ServiceA::new();
    ingest(&mut s, processed("X", "r1", ts(10, 0)));
    ingest(&mut s, processed("X", "r2", ts(11, 0)));
    let snap = s.snapshot_at(ts(12, 0));
    assert_eq!(snap.timestamp, ts(12, 0));
    assert_eq!(snap.state.len(), 2);
    ingest(&mut s, processed("X", "r1", ts(13, 0)));
    ingest(&mut s, processed("X", "r3", ts(14, 0)));
    s.restore_from_snapshot(snap);
    assert_eq!(
        s.get_current_state_for_ref_id(&"r1".to_string()),
        Some(ServiceAStateData { count: 1, last_updated: ts(10, 0) })
    );
    assert_eq!(s.get_current_state_for_ref_id(&"r3".to_string()), None);
}

#[test]
fn a_create_snapshot_is_taken_now() {
    let mut s = ServiceA::new();
    ingest(&mut s, processed("X", "r1", ts(10, 0)));
    let snap = s.create_snapshot().expect("the clock reads a time after 1970");
    assert!(snap.timestamp.secs > 1_577_836_800);
    assert!(snap.timestamp.nanos < 1_000_000_000);
    assert_eq!(snap.state.get("r1"), Some(ServiceAStateData { count: 1, last_updated: ts(10, 0) }));
}

#[test]
fn a_replay_origin_without_snapshot_is_the_epoch() {
    let s = ServiceA::new();
    let (data, start) = s.replay_origin(&"r".to_string(), None);
    assert_eq!(data, ServiceAStateData::default());
    assert_eq!(start, ts(0, 0));
}

#[test]
fn a_replay_origin_from_snapshot() {
    let s = ServiceA::new();
    let v = ServiceAStateData { count: 7, last_updated: ts(30, 0) };
    let (data, start) = s.replay_origin(&"r".to_string(), Some(ServiceSnapshot::single(ts(31, 5), "r".to_string(), v)));
    assert_eq!(data, v);
    assert_eq!(start, ts(31, 5));
    let (data, start) = s.replay_origin(&"q".to_string(), Some(ServiceSnapshot::single(ts(31, 5), "r".to_string(), v)));
    assert_eq!(data, ServiceAStateData::default());
    assert_eq!(start, ts(31, 5));
}

#[test]
fn a_replay_counts_every_record() {
    let s = ServiceA::new();
    let log = vec![record(1, "X", "r", ts(1, 0)), record(2, "Y", "r", ts(2, 0)), record(3, "Z", "r", ts(3, 0))];
    let init = ServiceAStateData { count: 10, last_updated: ts(0, 5) };
    assert!(s.replay_fits(init, &log));
    assert_eq!(s.replay_events(init, &log), ServiceAStateData { count: 13, last_updated: ts(3, 0) });
    assert_eq!(s.replay_events(init, &Vec::new()), init);
}

#[test]
fn a_replay_fits_only_below_the_maximum() {
    let s = ServiceA::new();
    let log = vec![record(1, "X", "r", ts(1, 0)), record(2, "Y", "r", ts(2, 0))];
    assert!(s.replay_fits(ServiceAStateData { count: i32::MAX - 2, last_updated: ts(0, 0) }, &log));
    assert!(!s.replay_fits(ServiceAStateData { count: i32::MAX - 1, last_updated: ts(0, 0) }, &log));
}

#[test]
fn a_live_state_equals_replay_of_its_events() {
    let mut s = ServiceA::new();
    let log = vec![
        record(1, "X", "r1", ts(1, 0)),
        record(2, "X", "r2", ts(2, 0)),
        record(3, "X", "r1", ts(3, 0)),
    ];
    for rec in &log {
        ingest(&mut s, rec.to_processed_event());
    }
    let mine: Vec<EventLogRecord> = log.into_iter().filter(|r| r.ref_id == "r1").collect();
    let replayed = s.replay_events(ServiceAStateData::default(), &mine);
    assert_eq!(s.get_current_state_for_ref_id(&"r1".to_string()), Some(replayed));
}

#[test]
fn a_resume_from_snapshot_equals_full_replay() {
    let s = ServiceA::new();
    let early = vec![record(1, "X", "r", ts(1, 0)), record(2, "X", "r", ts(2, 0))];
    let late = vec![record(3, "X", "r", ts(3, 0))];
    let at_snapshot = s.replay_events(ServiceAStateData::default(), &early);
    let snap = ServiceSnapshot::single(ts(2, 0), "r".to_string(), at_snapshot);
    let (start_state, start) = s.replay_origin(&"r".to_string(), Some(snap));
    assert_eq!(start, ts(2, 0));
    let resumed = s.replay_events(start_state, &late);
    let mut all = early;
    all.extend(late);
    assert_eq!(resumed, s.replay_events(ServiceAStateData::default(), &all));
}

#[test]
fn a_handle_incoming_event_applies_and_flags_late_events() {
    let mut s = ServiceA::new();
    let e1 = processed("X", "r", ts(10, 0));
    assert!(s.can_handle_event(&e1));
    assert!(s.handle_incoming_event(e1).is_none());
    let late = s.handle_incoming_event(processed("X", "r", ts(5, 0))).expect("late event");
    assert_eq!(late.ref_id, "r");
    assert_eq!(late.after, ts(5, 0));
    assert_eq!(
        s.get_current_state_for_ref_id(&"r".to_string()),
        Some(ServiceAStateData { count: 2, last_updated: ts(5, 0) })
    );
    assert!(s.handle_incoming_event(processed("X", "r", ts(6, 0))).is_none());
}

#[test]
fn a_cannot_handle_event_at_maximum_count() {
    let mut s = ServiceA::new();
    s.restore_from_snapshot(ServiceSnapshot::single(
        ts(1, 0),
        "r".to_string(),
        ServiceAStateData { count: i32::MAX, last_updated: ts(1, 0) },
    ));
    assert!(!s.can_handle_event(&processed("X", "r", ts(2, 0))));
    assert!(s.can_handle_event(&processed("X", "other", ts(2, 0))));
}

#[test]
fn a_replay_of_equal_times_in_any_order_agrees() {
    let s = ServiceA::new();
    let one = vec![record(1, "X", "r", ts(1, 0)), record(2, "Y", "r", ts(1, 0)), record(3, "Z", "r", ts(2, 0))];
    let other = vec![record(2, "Y", "r", ts(1, 0)), record(1, "X", "r", ts(1, 0)), record(3, "Z", "r", ts(2, 0))];
    let init = ServiceAStateData::default();
    assert_eq!(s.replay_events(init, &one), s.replay_events(init, &other));
}

#[test]
fn a_replay_ignores_foreign_and_out_of_window_rows() {
    let s = ServiceA::new();
    let query = |rows: &Vec<EventLogRecord>, after: Timestamp, up_to: Timestamp| -> Vec<EventLogRecord> {
        let mut selected: Vec<EventLogRecord> = rows
            .iter()
            .filter(|r| r.ref_id == "r" && after.is_before(&r.timestamp) && !up_to.is_before(&r.timestamp))
            .cloned()
            .collect();
        selected.sort_by_key(|r| (r.timestamp.secs, r.timestamp.nanos));
        selected
    };
    let log = vec![record(1, "X", "r", ts(4, 0)), record(2, "Y", "r", ts(2, 0))];
    let mut with_extra = log.clone();
    with_extra.push(record(3, "X", "other", ts(3, 0)));
    with_extra.push(record(4, "X", "r", ts(50, 0)));
    with_extra.push(record(5, "X", "r", ts(0, 0)));
    let init = ServiceAStateData::default();
    let plain = s.replay_events(init, &query(&log, ts(0, 0), ts(10, 0)));
    let more = s.replay_events(init, &query(&with_extra, ts(0, 0), ts(10, 0)));
    assert_eq!(plain, more);
    assert_eq!(plain, ServiceAStateData { count: 2, last_updated: ts(4, 0) });
}
