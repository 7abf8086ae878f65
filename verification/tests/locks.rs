use std::collections::HashSet;

use chrono::{Duration, TimeZone, Utc};
use cpm_planner::audit::{AuditEvent, AuditPayload, AuditSink, MemoryAuditSink};
use cpm_planner::plan::{CallerId, Deliverable, DeliverableStatus, PlanGraph, PlannerError};
use cpm_planner::ports::Planner;
use cpm_planner::{BasicCpmPlanner, MAX_ATTEMPTS, MAX_LAPSES};

const MINUTE: u64 = 60_000_000;

fn deliverable(id: &str, files: &[&str], prereqs: &[&str], effort: Option<f32>) -> Deliverable {
    Deliverable {
        id: id.to_string(),
        owned_files: files.iter().map(|f| f.to_string()).collect(),
        prerequisites: prereqs.iter().map(|s| s.to_string()).collect(),
        estimated_effort_hours: effort.map(|e| (f64::from(e) * 1_000_000.0) as i64),
        metadata: "null".to_string(),
    }
}

fn caller(id: &str) -> CallerId {
    CallerId(id.to_string())
}

fn start() -> i64 {
    Utc.with_ymd_and_hms(2026, 1, 1, 0, 0, 0).unwrap().timestamp_micros()
}

fn minutes(n: i64) -> i64 {
    Duration::minutes(n).num_microseconds().unwrap()
}

/// Moves what the planner has to record into the sink.
fn flush(planner: &mut BasicCpmPlanner, audit: &mut MemoryAuditSink) {
    for record in planner.take_records() {
        audit.record(AuditEvent::from_record(record)).unwrap();
    }
}

#[test]
fn ttl_expiry_test() {
    let mut audit = MemoryAuditSink::new();
    let mut planner = BasicCpmPlanner::new().with_ttl(MINUTE);

    let graph = PlanGraph {
        deliverables: vec![deliverable("a", &["src/a.rs"], &[], Some(1.0))],
        max_chained_dispatch: None,
    };
    let plan_id = planner.submit_plan(graph).unwrap();
    let cohort = planner.acquire_cohort(&plan_id, &caller("c1"), 1, start()).unwrap();
    assert_eq!(cohort.rows[0].deliverable.id, "a");

    let later = Utc.with_ymd_and_hms(2026, 1, 1, 0, 5, 0).unwrap().timestamp_micros();
    let cohort2 = planner.acquire_cohort(&plan_id, &caller("c2"), 1, later).unwrap();
    assert_eq!(cohort2.rows.len(), 1);
    assert_eq!(cohort2.rows[0].deliverable.id, "a");
    assert_eq!(cohort2.rows[0].lock.caller_id, caller("c2"));

    flush(&mut planner, &mut audit);
    let events = audit.snapshot();
    let expiry = events.iter().find(|e| e.event_type == "plan.lock.expired").expect("plan.lock.expired emitted");
    match &expiry.payload {
        AuditPayload::Expired { deliverable_id, last_caller_id, expired_at, .. } => {
            assert_eq!(deliverable_id, "a");
            assert_eq!(last_caller_id, "c1");
            assert_eq!(*expired_at, later);
        }
        other => panic!("unexpected payload {other:?}"),
    }
}

#[test]
fn environmental_lapses_do_not_trip_the_failure_circuit_breaker() {
    let t0 = start();
    let mut now = t0;
    let mut planner = BasicCpmPlanner::new().with_ttl(MINUTE);

    let graph = PlanGraph {
        deliverables: vec![deliverable("healthy", &["src/healthy.rs"], &[], Some(1.0))],
        max_chained_dispatch: None,
    };
    let plan_id = planner.submit_plan(graph).unwrap();

    for lapse in 1..=MAX_ATTEMPTS {
        let cohort = planner.acquire_cohort(&plan_id, &caller(&format!("killed-{lapse}")), 1, now).unwrap();
        assert_eq!(cohort.rows.len(), 1, "lease {lapse} must be granted");
        now = t0 + minutes(5 * i64::from(lapse));
    }

    let cohort = planner.acquire_cohort(&plan_id, &caller("fresh"), 1, now).unwrap();
    assert_eq!(cohort.rows.len(), 1, "a healthy deliverable was circuit-broken by environmental lapses");
    assert_eq!(cohort.rows[0].deliverable.id, "healthy");

    let status = planner.status(&plan_id).unwrap();
    let (_, d_status, attempts, failures, lapses) = &status.deliverables[0];
    assert_eq!(*d_status, DeliverableStatus::InProgress);
    assert_eq!(*attempts, MAX_ATTEMPTS + 1, "all leases counted");
    assert_eq!(*failures, 0, "a lapse is not an implementation failure");
    assert_eq!(*lapses, MAX_ATTEMPTS, "every TTL lapse counted");
}

#[test]
fn poison_deliverable_circuit_breaks_after_max_failed_attempts() {
    let mut audit = MemoryAuditSink::new();
    let mut planner = BasicCpmPlanner::new();
    let now = start();

    let graph = PlanGraph {
        deliverables: vec![
            deliverable("poison", &["src/poison.rs"], &[], Some(1.0)),
            deliverable("dependent", &["src/dep.rs"], &["poison"], Some(1.0)),
        ],
        max_chained_dispatch: None,
    };
    let plan_id = planner.submit_plan(graph).unwrap();

    for attempt in 1..=MAX_ATTEMPTS {
        let who = caller(&format!("builder-{attempt}"));
        let cohort = planner.acquire_cohort(&plan_id, &who, 1, now).unwrap();
        assert_eq!(cohort.rows.len(), 1, "attempt {attempt} must lease");
        assert_eq!(cohort.rows[0].deliverable.id, "poison");
        planner
            .mark_status(
                &plan_id,
                "poison",
                &who,
                DeliverableStatus::Failed { reason: format!("build attempt {attempt} broke") },
            )
            .unwrap();
        if attempt < MAX_ATTEMPTS {
            planner.mark_status(&plan_id, "poison", &who, DeliverableStatus::Ready).unwrap();
        }
    }
    planner.mark_status(&plan_id, "poison", &caller("orchestrator"), DeliverableStatus::Ready).unwrap();

    let cohort = planner.acquire_cohort(&plan_id, &caller("fresh"), 10, now).unwrap();
    assert!(
        cohort.rows.is_empty(),
        "circuit-broken deliverable was re-leased: {:?}",
        cohort.rows.iter().map(|r| r.deliverable.id.clone()).collect::<Vec<_>>()
    );

    let status = planner.status(&plan_id).unwrap();
    let (_, poison_status, poison_attempts, poison_failures, poison_lapses) =
        status.deliverables.iter().find(|(id, _, _, _, _)| id == "poison").expect("poison entry present");
    match poison_status {
        DeliverableStatus::Failed { reason } => assert_eq!(
            reason,
            &format!("circuit-break: exceeded {MAX_ATTEMPTS} failed attempts"),
            "auto-fail reason must carry the circuit-break marker"
        ),
        other => panic!("expected Failed after circuit-break, got {other:?}"),
    }
    assert_eq!(*poison_attempts, MAX_ATTEMPTS);
    assert_eq!(*poison_failures, MAX_ATTEMPTS);
    assert_eq!(*poison_lapses, 0, "no lease ever lapsed in this scenario");
    assert!(status.locks_held.is_empty(), "auto-failed deliverable must hold no lock");

    let (_, dep_status, dep_attempts, _, _) =
        status.deliverables.iter().find(|(id, _, _, _, _)| id == "dependent").expect("dependent entry present");
    assert_eq!(*dep_status, DeliverableStatus::Pending);
    assert_eq!(*dep_attempts, 0);

    flush(&mut planner, &mut audit);
    let evt = audit
        .snapshot()
        .into_iter()
        .find(|e| e.event_type == "plan.deliverable.circuit_broken")
        .expect("circuit_broken event present");
    match &evt.payload {
        AuditPayload::CircuitBroken { deliverable_id, failure_count, max_attempts, .. } => {
            assert_eq!(deliverable_id, "poison");
            assert_eq!(*failure_count, MAX_ATTEMPTS);
            assert_eq!(*max_attempts, MAX_ATTEMPTS);
        }
        other => panic!("unexpected payload {other:?}"),
    }

    let again = planner.acquire_cohort(&plan_id, &caller("much-later"), 10, now).unwrap();
    assert!(again.rows.is_empty(), "failed deliverable re-leased later");
}

#[test]
fn lapse_limit_stops_releasing_with_stable_prefix_error() {
    let t0 = start();
    let mut now = t0;
    let mut planner = BasicCpmPlanner::new().with_ttl(MINUTE);

    let graph = PlanGraph {
        deliverables: vec![deliverable("doomed-env", &["src/d.rs"], &[], Some(1.0))],
        max_chained_dispatch: None,
    };
    let plan_id = planner.submit_plan(graph).unwrap();

    for lapse in 1..=MAX_LAPSES {
        let cohort = planner.acquire_cohort(&plan_id, &caller(&format!("killed-{lapse}")), 1, now).unwrap();
        assert_eq!(cohort.rows.len(), 1, "lease {lapse} must be granted");
        now = t0 + minutes(5 * i64::from(lapse));
    }

    let err = planner
        .acquire_cohort(&plan_id, &caller("fresh"), 1, now)
        .expect_err("lapse limit must stop the re-lease loop");
    assert!(
        matches!(&err, PlannerError::LapseLimit { deliverable_id, lapse_count, max_lapses }
            if deliverable_id == "doomed-env"
                && *lapse_count == MAX_LAPSES
                && *max_lapses == MAX_LAPSES),
        "expected LapseLimit, got {err:?}"
    );
    let msg = err.to_string();
    assert!(msg.starts_with("LAPSE_LIMIT:"), "stable prefix missing: {msg}");
    assert!(msg.contains("environmental"), "message must name the environmental cause: {msg}");

    let status = planner.status(&plan_id).unwrap();
    let (_, d_status, _, failures, lapses) = &status.deliverables[0];
    assert!(
        !matches!(d_status, DeliverableStatus::Failed { .. }),
        "lapse limit must not auto-fail; got {d_status:?}"
    );
    assert_eq!(*failures, 0);
    assert_eq!(*lapses, MAX_LAPSES - 1, "final reap rolled back with Err");

    let err2 = planner.acquire_cohort(&plan_id, &caller("again"), 1, now).expect_err("still lapse-limited");
    assert!(err2.to_string().starts_with("LAPSE_LIMIT:"));

    planner.force_release(&plan_id, "doomed-env", "operator: environment unrecoverable").unwrap();
    planner
        .mark_status(
            &plan_id,
            "doomed-env",
            &caller("operator"),
            DeliverableStatus::Failed { reason: "operator: environment unrecoverable".to_string() },
        )
        .unwrap();
    let cohort = planner
        .acquire_cohort(&plan_id, &caller("after-triage"), 1, now)
        .expect("plan proceeds after operator triage");
    assert!(cohort.rows.is_empty(), "nothing else to lease");
}

#[test]
fn completed_deliverable_attempt_count_stops_at_one() {
    let mut planner = BasicCpmPlanner::new();
    let now = start();
    let graph = PlanGraph {
        deliverables: vec![deliverable("a", &["src/a.rs"], &[], Some(1.0))],
        max_chained_dispatch: None,
    };
    let plan_id = planner.submit_plan(graph).unwrap();

    planner.acquire_cohort(&plan_id, &caller("c1"), 1, now).unwrap();
    planner.mark_status(&plan_id, "a", &caller("c1"), DeliverableStatus::Complete).unwrap();

    let status = planner.status(&plan_id).unwrap();
    assert_eq!(status.deliverables, vec![("a".to_string(), DeliverableStatus::Complete, 1, 0, 0)]);

    let cohort = planner.acquire_cohort(&plan_id, &caller("c2"), 1, now).unwrap();
    assert!(cohort.rows.is_empty());
    let status = planner.status(&plan_id).unwrap();
    assert_eq!(status.deliverables[0].2, 1);
}

#[test]
fn unleased_candidate_is_not_charged_an_attempt() {
    let mut planner = BasicCpmPlanner::new();
    let graph = PlanGraph {
        deliverables: vec![
            deliverable("first", &["src/first.rs"], &[], Some(4.0)),
            deliverable("second", &["src/second.rs"], &[], Some(1.0)),
        ],
        max_chained_dispatch: None,
    };
    let plan_id = planner.submit_plan(graph).unwrap();

    let cohort = planner.acquire_cohort(&plan_id, &caller("c1"), 1, start()).unwrap();
    assert_eq!(cohort.rows.len(), 1);
    let leased = cohort.rows[0].deliverable.id.clone();

    let status = planner.status(&plan_id).unwrap();
    for (id, deliverable_status, attempts, _, _) in &status.deliverables {
        if *id == leased {
            assert_eq!(*attempts, 1, "leased deliverable counts one attempt");
        } else {
            assert_eq!(*attempts, 0, "unleased candidate must not be charged");
            assert_eq!(*deliverable_status, DeliverableStatus::Ready);
        }
    }
}

/// Requests are served one at a time, so a race is some order of them.
#[test]
fn concurrent_acquire_race_test() {
    for iteration in 0..10usize {
        let mut planner = BasicCpmPlanner::new();
        let graph = PlanGraph {
            deliverables: (0..6)
                .map(|i| deliverable(&format!("d{i}"), &[&format!("src/d{i}.rs")], &[], Some(1.0)))
                .collect(),
            max_chained_dispatch: None,
        };
        let plan_id = planner.submit_plan(graph).unwrap();

        let mut all_files: Vec<String> = Vec::new();
        let mut all_ids: Vec<String> = Vec::new();
        let mut total_returned = 0usize;
        for c in 0..4usize {
            let turn = (c * (1 + 2 * (iteration % 2)) + iteration) % 4;
            let cohort = planner
                .acquire_cohort(&plan_id, &caller(&format!("c{turn}")), 2, start())
                .expect("acquire_cohort should not error");
            total_returned += cohort.rows.len();
            for row in &cohort.rows {
                let d = &row.deliverable;
                all_ids.push(d.id.clone());
                for f in &d.owned_files {
                    all_files.push(f.clone());
                }
                assert_eq!(row.lock.deliverable_id, d.id, "iter {iteration}: row.lock did not match row.deliverable");
            }
        }

        let mut seen = HashSet::new();
        for f in &all_files {
            assert!(seen.insert(f.clone()), "iter {iteration}: file {f:?} appeared in two cohorts");
        }

        let mut seen_ids = HashSet::new();
        for id in &all_ids {
            assert!(seen_ids.insert(id.clone()), "iter {iteration}: deliverable {id} appeared in two cohorts");
        }

        assert!(total_returned <= 6, "iter {iteration}: over-allocation {total_returned} > 6");
        assert_eq!(total_returned, 6);
    }
}

#[test]
fn audit_emission_on_lock_lifecycle() {
    let mut audit = MemoryAuditSink::new();
    let mut planner = BasicCpmPlanner::new();
    let graph = PlanGraph {
        deliverables: vec![deliverable("a", &["src/a.rs"], &[], Some(1.0))],
        max_chained_dispatch: None,
    };
    let plan_id = planner.submit_plan(graph).unwrap();

    planner.acquire_cohort(&plan_id, &caller("c1"), 1, start()).unwrap();
    planner.mark_status(&plan_id, "a", &caller("c1"), DeliverableStatus::Complete).unwrap();

    flush(&mut planner, &mut audit);
    let types: Vec<String> = audit.snapshot().iter().map(|e| e.event_type.clone()).collect();
    assert!(types.contains(&"plan.lock.acquired".to_string()));
    assert!(types.contains(&"plan.lock.released".to_string()));

    let released =
        audit.snapshot().into_iter().find(|e| e.event_type == "plan.lock.released").expect("released event present");
    match &released.payload {
        AuditPayload::Released { reason, .. } => assert_eq!(reason, "completed"),
        other => panic!("unexpected payload {other:?}"),
    }
}

#[test]
fn failed_status_emits_released_with_reason_failed() {
    let mut audit = MemoryAuditSink::new();
    let mut planner = BasicCpmPlanner::new();
    let graph = PlanGraph {
        deliverables: vec![deliverable("a", &["src/a.rs"], &[], Some(1.0))],
        max_chained_dispatch: None,
    };
    let plan_id = planner.submit_plan(graph).unwrap();
    planner.acquire_cohort(&plan_id, &caller("c1"), 1, start()).unwrap();

    planner
        .mark_status(
            &plan_id,
            "a",
            &caller("c1"),
            DeliverableStatus::Failed { reason: "compilation broke".to_string() },
        )
        .unwrap();

    flush(&mut planner, &mut audit);
    let released =
        audit.snapshot().into_iter().find(|e| e.event_type == "plan.lock.released").expect("released event present");
    match &released.payload {
        AuditPayload::Released { reason, .. } => assert_eq!(reason, "failed"),
        other => panic!("unexpected payload {other:?}"),
    }
}

#[test]
fn force_release_audit_includes_reason() {
    let mut audit = MemoryAuditSink::new();
    let mut planner = BasicCpmPlanner::new();
    let graph = PlanGraph {
        deliverables: vec![deliverable("a", &["src/a.rs"], &[], Some(1.0))],
        max_chained_dispatch: None,
    };
    let plan_id = planner.submit_plan(graph).unwrap();
    planner.acquire_cohort(&plan_id, &caller("c1"), 1, start()).unwrap();

    let reason = "operator escape: caller wedged";
    planner.force_release(&plan_id, "a", reason).unwrap();

    flush(&mut planner, &mut audit);
    let evt = audit
        .snapshot()
        .into_iter()
        .find(|e| e.event_type == "plan.lock.force_released")
        .expect("force_released event present");
    match &evt.payload {
        AuditPayload::ForceReleased { reason: given, deliverable_id, last_caller_id, .. } => {
            assert_eq!(given, reason);
            assert_eq!(deliverable_id, "a");
            assert_eq!(last_caller_id, "c1");
        }
        other => panic!("unexpected payload {other:?}"),
    }
}

#[test]
fn a_lease_lasts_through_its_last_instant() {
    let mut planner = BasicCpmPlanner::new().with_ttl(MINUTE);
    let graph = PlanGraph { deliverables: vec![deliverable("a", &[], &[], None)], max_chained_dispatch: None };
    let id = planner.submit_plan(graph).unwrap();
    let t0 = start();
    planner.acquire_cohort(&id, &caller("c1"), 1, t0).unwrap();
    let end = t0 + MINUTE as i64;
    assert!(planner.acquire_cohort(&id, &caller("c2"), 1, end).unwrap().rows.is_empty());
    assert_eq!(planner.acquire_cohort(&id, &caller("c2"), 1, end + 1).unwrap().rows.len(), 1);
}

#[test]
fn completion_waits_for_every_prerequisite() {
    let mut planner = BasicCpmPlanner::new();
    let graph = PlanGraph {
        deliverables: vec![
            deliverable("a", &["a"], &[], None),
            deliverable("b", &["b"], &[], None),
            deliverable("c", &["c"], &["a", "b"], None),
        ],
        max_chained_dispatch: None,
    };
    let id = planner.submit_plan(graph).unwrap();
    let who = caller("c1");
    assert_eq!(planner.acquire_cohort(&id, &who, 10, start()).unwrap().rows.len(), 2);
    planner.mark_status(&id, "b", &who, DeliverableStatus::Complete).unwrap();
    assert!(planner.acquire_cohort(&id, &who, 10, start()).unwrap().exhausted());
    planner.mark_status(&id, "a", &who, DeliverableStatus::Complete).unwrap();
    let cohort = planner.acquire_cohort(&id, &who, 10, start()).unwrap();
    assert_eq!(cohort.rows[0].deliverable.id, "c");
}

#[test]
fn readiness_by_hand_does_not_skip_prerequisites() {
    let mut planner = BasicCpmPlanner::new();
    let graph = PlanGraph {
        deliverables: vec![deliverable("a", &["a"], &[], None), deliverable("b", &["b"], &["a"], None)],
        max_chained_dispatch: None,
    };
    let id = planner.submit_plan(graph).unwrap();
    planner.mark_status(&id, "b", &caller("x"), DeliverableStatus::Ready).unwrap();
    let cohort = planner.acquire_cohort(&id, &caller("x"), 10, start()).unwrap();
    assert_eq!(cohort.rows.len(), 1);
    assert_eq!(cohort.rows[0].deliverable.id, "a");
}

#[test]
fn every_lock_change_is_recorded() {
    let mut planner = BasicCpmPlanner::new().with_ttl(MINUTE);
    let graph = PlanGraph {
        deliverables: vec![deliverable("a", &["a"], &[], None), deliverable("b", &["b"], &[], None)],
        max_chained_dispatch: None,
    };
    let id = planner.submit_plan(graph).unwrap();
    assert!(planner.take_records().is_empty());
    let kinds = |planner: &mut BasicCpmPlanner| -> Vec<String> {
        planner.take_records().into_iter().map(|r| r.event_type).collect()
    };
    let t0 = start();
    planner.acquire_cohort(&id, &caller("c1"), 2, t0).unwrap();
    assert_eq!(kinds(&mut planner), vec!["plan.lock.acquired", "plan.lock.acquired"]);
    planner.heartbeat(&id, "a", &caller("c1"), t0 + minutes(1)).unwrap();
    assert!(kinds(&mut planner).is_empty());
    planner.acquire_cohort(&id, &caller("c2"), 2, t0 + minutes(1) + 1).unwrap();
    assert_eq!(kinds(&mut planner), vec!["plan.lock.expired", "plan.lock.acquired"]);
    planner.mark_status(&id, "a", &caller("c1"), DeliverableStatus::InProgress).unwrap();
    assert!(kinds(&mut planner).is_empty());
    planner.mark_status(&id, "a", &caller("c1"), DeliverableStatus::Complete).unwrap();
    planner.force_release(&id, "b", "why").unwrap();
    planner.force_release(&id, "b", "why").unwrap();
    assert_eq!(kinds(&mut planner), vec!["plan.lock.released", "plan.lock.force_released"]);
}

#[test]
fn only_who_holds_a_lease_marks_in_progress() {
    let mut planner = BasicCpmPlanner::new();
    let graph = PlanGraph { deliverables: vec![deliverable("a", &["a"], &[], None)], max_chained_dispatch: None };
    let id = planner.submit_plan(graph).unwrap();
    assert_eq!(
        planner.mark_status(&id, "a", &caller("c1"), DeliverableStatus::InProgress),
        Err(PlannerError::LockNotHeld { caller_id: "c1".to_string(), deliverable_id: "a".to_string() })
    );
    assert_eq!(planner.status(&id).unwrap().deliverables[0].1, DeliverableStatus::Ready);
    planner.acquire_cohort(&id, &caller("c1"), 1, start()).unwrap();
    planner.mark_status(&id, "a", &caller("c1"), DeliverableStatus::InProgress).unwrap();
    assert_eq!(planner.status(&id).unwrap().locks_held.len(), 1);
}

#[test]
fn any_other_mark_gives_the_lease_back() {
    let statuses = vec![
        (DeliverableStatus::Pending, "returned"),
        (DeliverableStatus::Ready, "returned"),
        (DeliverableStatus::Complete, "completed"),
        (DeliverableStatus::Failed { reason: "r".to_string() }, "failed"),
    ];
    for (status, reason) in statuses {
        let mut planner = BasicCpmPlanner::new();
        let graph = PlanGraph { deliverables: vec![deliverable("a", &["a"], &[], None)], max_chained_dispatch: None };
        let id = planner.submit_plan(graph).unwrap();
        planner.acquire_cohort(&id, &caller("c1"), 1, start()).unwrap();
        planner.take_records();
        planner.mark_status(&id, "a", &caller("c1"), status.clone()).unwrap();
        let now = planner.status(&id).unwrap();
        assert_eq!(now.deliverables[0].1, status);
        assert!(now.locks_held.is_empty());
        let records = planner.take_records();
        assert_eq!(records.len(), 1);
        assert_eq!(records[0].event_type, "plan.lock.released");
        match &records[0].payload {
            AuditPayload::Released { reason: given, .. } => assert_eq!(given, reason),
            other => panic!("expected a release, got {other:?}"),
        }
    }
}

#[test]
fn a_live_lease_outlasts_later_requests() {
    let mut planner = BasicCpmPlanner::new().with_ttl(MINUTE);
    let graph = PlanGraph {
        deliverables: vec![deliverable("a", &["a"], &[], None), deliverable("b", &["b"], &[], None)],
        max_chained_dispatch: None,
    };
    let id = planner.submit_plan(graph).unwrap();
    let t0 = start();
    planner.acquire_cohort(&id, &caller("c1"), 1, t0).unwrap();
    planner.acquire_cohort(&id, &caller("c2"), 1, t0 + 1).unwrap();
    planner.mark_status(&id, "b", &caller("c2"), DeliverableStatus::Ready).unwrap();
    planner.heartbeat(&id, "a", &caller("c1"), t0 + 2).unwrap();
    let cohort = planner.acquire_cohort(&id, &caller("c3"), 5, t0 + 2 + minutes(1)).unwrap();
    let ids: Vec<String> = cohort.rows.iter().map(|r| r.deliverable.id.clone()).collect();
    assert_eq!(ids, vec!["b"]);
}
