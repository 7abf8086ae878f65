use cpm_planner::audit::{
    make_acquired_event, make_circuit_broken_event, make_expired_event, make_force_released_event, make_released_event,
    AuditEvent, AuditPayload, AuditSink, MemoryAuditSink, NullAuditSink,
};
use cpm_planner::plan::{CallerId, LockInfo, PlanId};

fn lock() -> LockInfo {
    LockInfo {
        plan_id: PlanId("p".to_string()),
        deliverable_id: "d".to_string(),
        caller_id: CallerId("c".to_string()),
        acquired_at: 10,
        expires_at: 20,
    }
}

fn token(id: &str, prefix: &str) -> String {
    let token = id.strip_prefix(prefix).expect("prefix");
    assert_eq!(token.len(), 32);
    assert!(token.chars().all(|c| c.is_ascii_digit() || ('a'..='f').contains(&c)));
    token.to_string()
}

#[test]
fn new_events_have_a_fresh_identity() {
    let before = chrono::Utc::now().timestamp_micros();
    let one = AuditEvent::new("x");
    let two = AuditEvent::new("x");
    let after = chrono::Utc::now().timestamp_micros();
    assert_ne!(token(&one.id, "evt_"), token(&two.id, "evt_"));
    assert_ne!(token(&one.correlation_id, "cor_"), token(&two.correlation_id, "cor_"));
    assert!(before <= one.timestamp && one.timestamp <= after);
    assert_eq!(one.event_type, "x");
    assert_eq!(one.payload, AuditPayload::Empty);
    assert!(one.actor.is_none() && one.workflow_id.is_none() && one.trace_id.is_none() && one.run_id.is_none());
}

#[test]
fn builders_set_one_field_each() {
    let event = AuditEvent::assemble("t", "1", "2", 7)
        .with_workflow("w")
        .with_correlation("cor")
        .with_actor("a")
        .with_payload(AuditPayload::Released {
            plan_id: "p".to_string(),
            deliverable_id: "d".to_string(),
            caller_id: "c".to_string(),
            reason: "r".to_string(),
        })
        .with_trace_id("tr")
        .with_run_id("run");
    assert_eq!(event.id, "evt_1");
    assert_eq!(event.timestamp, 7);
    assert_eq!(event.workflow_id.as_deref(), Some("w"));
    assert_eq!(event.correlation_id, "cor");
    assert_eq!(event.actor.as_deref(), Some("a"));
    assert!(matches!(event.payload, AuditPayload::Released { .. }));
    assert_eq!(event.trace_id.as_deref(), Some("tr"));
    assert_eq!(event.run_id.as_deref(), Some("run"));
}

#[test]
fn records_name_their_lock() {
    let r = make_acquired_event(&lock(), &vec!["f".to_string()]);
    assert_eq!(r.event_type, "plan.lock.acquired");
    assert_eq!(r.actor.as_deref(), Some("c"));
    assert_eq!(
        r.payload,
        AuditPayload::Acquired {
            plan_id: "p".to_string(),
            deliverable_id: "d".to_string(),
            caller_id: "c".to_string(),
            acquired_at: 10,
            expires_at: 20,
            owned_files: vec!["f".to_string()],
        }
    );
    let r = make_released_event(&lock(), "completed");
    assert_eq!(r.event_type, "plan.lock.released");
    assert!(matches!(&r.payload, AuditPayload::Released { reason, .. } if reason == "completed"));
    let r = make_expired_event(&lock(), 30);
    assert_eq!(r.event_type, "plan.lock.expired");
    assert!(matches!(&r.payload, AuditPayload::Expired { expired_at: 30, last_caller_id, .. } if last_caller_id == "c"));
    let r = make_force_released_event(&lock(), "why");
    assert_eq!(r.event_type, "plan.lock.force_released");
    assert!(matches!(&r.payload, AuditPayload::ForceReleased { reason, .. } if reason == "why"));
    let r = make_circuit_broken_event("p", "d", 3, 3);
    assert_eq!(r.event_type, "plan.deliverable.circuit_broken");
    assert!(matches!(r.payload, AuditPayload::CircuitBroken { failure_count: 3, max_attempts: 3, .. }));
}

#[test]
fn stamping_keeps_the_record() {
    let record = make_released_event(&lock(), "failed");
    let payload = record.payload.clone();
    let event = AuditEvent::from_record(record);
    assert_eq!(event.event_type, "plan.lock.released");
    assert_eq!(event.payload, payload);
    assert_eq!(event.actor.as_deref(), Some("c"));
    token(&event.id, "evt_");
}

#[test]
fn memory_keeps_events_in_order() {
    let mut sink = MemoryAuditSink::default();
    assert_eq!(sink.record(AuditEvent::new("one")), Ok(()));
    assert_eq!(sink.record(AuditEvent::new("two")), Ok(()));
    assert_eq!(sink.event_types(), vec!["one", "two"]);
    assert_eq!(sink.snapshot(), sink.list_events().expect("a sink that lists"));
    sink.clear();
    assert!(sink.snapshot().is_empty());
}

#[test]
fn the_null_sink_keeps_nothing() {
    let mut sink = NullAuditSink;
    assert_eq!(sink.record(AuditEvent::new("one")), Ok(()));
    assert!(sink.list_events().is_none());
}
