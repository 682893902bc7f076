use alarmservice::events::{
    EventLogRecord, EventPayload, PayloadMember, ProcessedEventDto, ServiceBRelevantEvent,
};
use alarmservice::service_b::{ServiceB, ServiceBStateData};
use alarmservice::state::ServiceSnapshot;
use alarmservice::time::Timestamp;
use alarmservice::traits::EventProcessor;

const RELEVANT: &str = "SERVICE_B_RELEVANT_EVENT";

fn ts(secs: i64, nanos: u32) -> Timestamp {
    Timestamp { secs, nanos }
}

fn with_value(value: Option<i64>) -> EventPayload {
    EventPayload {
        members: vec![PayloadMember { key: "value_field".to_string(), int_value: value }],
    }
}

fn processed(event_type: &str, ref_id: &str, at: Timestamp, value: Option<i64>) -> ProcessedEventDto {
    ProcessedEventDto {
        event_type: event_type.to_string(),
        room_id: None,
        timestamp: at,
        ref_id: ref_id.to_string(),
        original_payload: with_value(value),
    }
}

fn record(id: i32, event_type: &str, ref_id: &str, at: Timestamp, value: Option<i64>) -> EventLogRecord {
    EventLogRecord {
        id,
        event_type: event_type.to_string(),
        room_id: Some(3),
        timestamp: at,
        ref_id: ref_id.to_string(),
        raw_event: with_value(value),
    }
}

fn ingest(s: &mut ServiceB, e: ProcessedEventDto) {
    if let Some(rel) = s.process_event(e) {
        assert!(s.can_apply_event(&rel));
        s.apply_event(rel);
    }
}

#[test]
fn b_only_its_event_type_is_relevant() {
    let s = ServiceB::new();
    assert!(s.process_event(processed("OTHER", "r", ts(1, 0), Some(5))).is_none());
    assert!(s.process_event(processed("service_b_relevant_event", "r", ts(1, 0), Some(5))).is_none());
    let rel = s.process_event(processed(RELEVANT, "r", ts(1, 2), Some(5))).unwrap();
    assert_eq!(rel.value, 5);
    assert_eq!(rel.ref_id, "r");
    assert_eq!(rel.timestamp, ts(1, 2));
}

#[test]
fn b_value_defaults_to_zero() {
    let s = ServiceB::new();
    assert_eq!(s.process_event(processed(RELEVANT, "r", ts(1, 0), None)).unwrap().value, 0);
    let mut e = processed(RELEVANT, "r", ts(1, 0), Some(9));
    e.original_payload = EventPayload::empty();
    assert_eq!(s.process_event(e).unwrap().value, 0);
}

#[test]
fn b_value_keeps_the_low_32_bits() {
    let s = ServiceB::new();
    let v = |x: i64| s.process_event(processed(RELEVANT, "r", ts(1, 0), Some(x))).unwrap().value;
    assert_eq!(v(-1), -1);
    assert_eq!(v((1i64 << 32) + 5), 5);
    assert_eq!(v(1i64 << 31), i32::MIN);
    assert_eq!(v(i64::MAX), -1);
}

#[test]
fn b_apply_relevant_event_sums_and_stamps() {
    let s = ServiceB::new();
    let ev = ServiceBRelevantEvent { timestamp: ts(8, 0), ref_id: "r".to_string(), value: -4 };
    let d = s.apply_relevant_event_to_state_value(ServiceBStateData { value_sum: 10, last_event_time: None }, &ev);
    assert_eq!(d, ServiceBStateData { value_sum: 6, last_event_time: Some(ts(8, 0)) });
}

#[test]
fn b_apply_event_then_get() {
    let mut s = ServiceB::new();
    ingest(&mut s, processed(RELEVANT, "r1", ts(1, 0), Some(5)));
    ingest(&mut s, processed("OTHER", "r1", ts(2, 0), Some(100)));
    ingest(&mut s, processed(RELEVANT, "r1", ts(3, 0), Some(7)));
    ingest(&mut s, processed("OTHER", "r2", ts(4, 0), Some(1)));
    assert_eq!(
        s.get_current_state_for_ref_id(&"r1".to_string()),
        Some(ServiceBStateData { value_sum: 12, last_event_time: Some(ts(3, 0)) })
    );
    assert_eq!(s.get_current_state_for_ref_id(&"r2".to_string()), None);
}

#[test]
fn b_default_state_is_empty() {
    assert_eq!(ServiceBStateData::default(), ServiceBStateData { value_sum: 0, last_event_time: None });
}

#[test]
fn b_late_events() {
    let mut s = ServiceB::new();
    assert!(!s.is_late_event(&processed(RELEVANT, "r", ts(1, 0), None)));
    ingest(&mut s, processed(RELEVANT, "r", ts(10, 0), Some(1)));
    assert!(s.is_late_event(&processed("OTHER", "r", ts(9, 0), None)));
    assert!(!s.is_late_event(&processed(RELEVANT, "r", ts(10, 0), None)));
    let mut t = ServiceB::new();
    t.restore_from_snapshot(ServiceSnapshot::single(
        ts(1, 0),
        "r".to_string(),
        ServiceBStateData { value_sum: 3, last_event_time: None },
    ));
    assert!(!t.is_late_event(&processed(RELEVANT, "r", ts(-5, 0), None)));
}

#[test]
fn b_overflowing_sum_cannot_be_applied() {
    let mut s = ServiceB::new();
    s.restore_from_snapshot(ServiceSnapshot::single(
        ts(1, 0),
        "r".to_string(),
        ServiceBStateData { value_sum: i64::MAX - 1, last_event_time: None },
    ));
    let one = s.process_event(processed(RELEVANT, "r", ts(2, 0), Some(1))).unwrap();
    assert!(s.can_apply_event(&one));
    let two = s.process_event(processed(RELEVANT, "r", ts(2, 0), Some(2))).unwrap();
    assert!(!s.can_apply_event(&two));
    let minus = s.process_event(processed(RELEVANT, "r", ts(2, 0), Some(-7))).unwrap();
    assert!(s.can_apply_event(&minus));
}

#[test]
fn b_snapshot_round_trip() {
    let mut s = ServiceB::new();
    ingest(&mut s, processed(RELEVANT, "r1", ts(1, 0), Some(2)));
    let snap = s.create_snapshot().expect("the clock reads a time after 1970");
    assert!(snap.timestamp.nanos < 1_000_000_000);
    ingest(&mut s, processed(RELEVANT, "r1", ts(2, 0), Some(3)));
    assert_eq!(s.get_current_state_for_ref_id(&"r1".to_string()).unwrap().value_sum, 5);
    s.restore_from_snapshot(snap);
    assert_eq!(
        s.get_current_state_for_ref_id(&"r1".to_string()),
        Some(ServiceBStateData { value_sum: 2, last_event_time: Some(ts(1, 0)) })
    );
}

#[test]
fn b_replay_origin() {
    let s = ServiceB::new();
    assert_eq!(s.replay_origin(&"r".to_string(), None), (ServiceBStateData::default(), ts(0, 0)));
    let v = ServiceBStateData { value_sum: 9, last_event_time: Some(ts(3, 0)) };
    assert_eq!(
        s.replay_origin(&"r".to_string(), Some(ServiceSnapshot::single(ts(4, 0), "r".to_string(), v))),
        (v, ts(4, 0))
    );
}

#[test]
fn b_replay_adds_relevant_values_only() {
    let s = ServiceB::new();
    let log = vec![
        record(1, RELEVANT, "r", ts(1, 0), Some(4)),
        record(2, "OTHER", "r", ts(2, 0), Some(50)),
        record(3, RELEVANT, "r", ts(3, 0), None),
        record(4, RELEVANT, "r", ts(4, 0), Some(-1)),
        record(5, "OTHER", "r", ts(5, 0), Some(8)),
    ];
    let init = ServiceBStateData::default();
    assert!(s.replay_fits(init, &log));
    assert_eq!(s.replay_events(init, &log), ServiceBStateData { value_sum: 3, last_event_time: Some(ts(4, 0)) });
}

#[test]
fn b_replay_fits_detects_overflow() {
    let s = ServiceB::new();
    let log = vec![
        record(1, RELEVANT, "r", ts(1, 0), Some(i32::MAX as i64)),
        record(2, RELEVANT, "r", ts(2, 0), Some(i32::MAX as i64)),
    ];
    let near = ServiceBStateData { value_sum: i64::MAX - (i32::MAX as i64) - 1, last_event_time: None };
    assert!(!s.replay_fits(near, &log));
    assert!(s.replay_fits(near, &log[..1].to_vec()));
    let ignored = vec![record(1, "OTHER", "r", ts(1, 0), Some(i32::MAX as i64))];
    let full = ServiceBStateData { value_sum: i64::MAX, last_event_time: None };
    assert!(s.replay_fits(full, &ignored));
}

#[test]
fn b_live_state_equals_replay_of_its_events() {
    let mut s = ServiceB::new();
    let log = vec![
        record(1, RELEVANT, "r1", ts(1, 0), Some(3)),
        record(2, RELEVANT, "r2", ts(2, 0), Some(30)),
        record(3, "OTHER", "r1", ts(3, 0), Some(300)),
        record(4, RELEVANT, "r1", ts(4, 0), Some(-1)),
    ];
    for rec in &log {
        ingest(&mut s, rec.to_processed_event());
    }
    let mine: Vec<EventLogRecord> = log.into_iter().filter(|r| r.ref_id == "r1").collect();
    let replayed = s.replay_events(ServiceBStateData::default(), &mine);
    assert_eq!(replayed, ServiceBStateData { value_sum: 2, last_event_time: Some(ts(4, 0)) });
    assert_eq!(s.get_current_state_for_ref_id(&"r1".to_string()), Some(replayed));
}

#[test]
fn b_resume_from_snapshot_equals_full_replay() {
    let s = ServiceB::new();
    let early = vec![record(1, RELEVANT, "r", ts(1, 0), Some(6))];
    let late = vec![record(2, "OTHER", "r", ts(2, 0), Some(1)), record(3, RELEVANT, "r", ts(3, 0), Some(2))];
    let at_snapshot = s.replay_events(ServiceBStateData::default(), &early);
    let (start_state, _) = s.replay_origin(&"r".to_string(), Some(ServiceSnapshot::single(ts(1, 0), "r".to_string(), at_snapshot)));
    let resumed = s.replay_events(start_state, &late);
    let mut all = early;
    all.extend(late);
    assert_eq!(resumed, s.replay_events(ServiceBStateData::default(), &all));
    assert_eq!(resumed.value_sum, 8);
}

#[test]
fn b_handle_incoming_event_applies_relevant_and_flags_late_events() {
    let mut s = ServiceB::new();
    assert!(s.handle_incoming_event(processed(RELEVANT, "r", ts(10, 0), Some(4))).is_none());
    let late = s.handle_incoming_event(processed("OTHER", "r", ts(3, 0), Some(100))).expect("late event");
    assert_eq!(late.ref_id, "r");
    assert_eq!(late.after, ts(3, 0));
    assert_eq!(
        s.get_current_state_for_ref_id(&"r".to_string()),
        Some(ServiceBStateData { value_sum: 4, last_event_time: Some(ts(10, 0)) })
    );
    assert!(s.handle_incoming_event(processed(RELEVANT, "r", ts(9, 0), Some(1))).is_some());
    assert_eq!(
        s.get_current_state_for_ref_id(&"r".to_string()),
        Some(ServiceBStateData { value_sum: 5, last_event_time: Some(ts(9, 0)) })
    );
    assert!(s.handle_incoming_event(processed("OTHER", "q", ts(1, 0), Some(1))).is_none());
    assert_eq!(s.get_current_state_for_ref_id(&"q".to_string()), None);
}

#[test]
fn b_can_handle_event_checks_only_relevant_events() {
    let mut s = ServiceB::new();
    s.restore_from_snapshot(ServiceSnapshot::single(
        ts(1, 0),
        "r".to_string(),
        ServiceBStateData { value_sum: i64::MAX, last_event_time: None },
    ));
    assert!(!s.can_handle_event(&processed(RELEVANT, "r", ts(2, 0), Some(1))));
    assert!(s.can_handle_event(&processed(RELEVANT, "r", ts(2, 0), Some(0))));
    assert!(s.can_handle_event(&processed("OTHER", "r", ts(2, 0), Some(1))));
}

#[test]
fn b_state_at_time_from_snapshot_equals_rebuild_from_scratch() {
    let s = ServiceB::new();
    let log = vec![
        record(1, RELEVANT, "r", ts(1, 0), Some(1)),
        record(2, RELEVANT, "q", ts(2, 0), Some(10)),
        record(3, RELEVANT, "r", ts(3, 0), Some(100)),
        record(4, RELEVANT, "r", ts(5, 0), Some(1000)),
        record(5, RELEVANT, "r", ts(9, 0), Some(10000)),
    ];
    let window = |after: Timestamp, up_to: Timestamp| -> Vec<EventLogRecord> {
        log.iter()
            .filter(|r| r.ref_id == "r" && after.is_before(&r.timestamp) && !up_to.is_before(&r.timestamp))
            .cloned()
            .collect()
    };
    let (origin, epoch) = s.replay_origin(&"r".to_string(), None);
    let at_snapshot = s.replay_events(origin, &window(epoch, ts(3, 0)));
    assert_eq!(at_snapshot.value_sum, 101);
    let snap = ServiceSnapshot::single(ts(3, 0), "r".to_string(), at_snapshot);
    let (start_state, start) = s.replay_origin(&"r".to_string(), Some(snap));
    let from_snapshot = s.replay_events(start_state, &window(start, ts(6, 0)));
    let from_scratch = s.replay_events(ServiceBStateData::default(), &window(ts(0, 0), ts(6, 0)));
    assert_eq!(from_snapshot, from_scratch);
    assert_eq!(from_scratch, ServiceBStateData { value_sum: 1101, last_event_time: Some(ts(5, 0)) });
}

#[test]
fn b_replay_ignores_foreign_later_and_irrelevant_rows() {
    let s = ServiceB::new();
    let query = |rows: &Vec<EventLogRecord>, after: Timestamp, up_to: Timestamp| -> Vec<EventLogRecord> {
        let mut selected: Vec<EventLogRecord> = rows
            .iter()
            .filter(|r| r.ref_id == "r" && after.is_before(&r.timestamp) && !up_to.is_before(&r.timestamp))
            .cloned()
            .collect();
        selected.sort_by_key(|r| (r.timestamp.secs, r.timestamp.nanos));
        selected
    };
    let log = vec![
        record(1, RELEVANT, "r", ts(4, 0), Some(2)),
        record(2, RELEVANT, "r", ts(2, 0), Some(5)),
    ];
    let mut with_extra = log.clone();
    with_extra.push(record(3, RELEVANT, "other", ts(3, 0), Some(100)));
    with_extra.push(record(4, RELEVANT, "r", ts(50, 0), Some(1000)));
    with_extra.push(record(5, "OTHER", "r", ts(6, 0), Some(10000)));
    let plain = s.replay_events(ServiceBStateData::default(), &query(&log, ts(0, 0), ts(10, 0)));
    let more = s.replay_events(ServiceBStateData::default(), &query(&with_extra, ts(0, 0), ts(10, 0)));
    assert_eq!(plain, more);
    assert_eq!(plain, ServiceBStateData { value_sum: 7, last_event_time: Some(ts(4, 0)) });
}
