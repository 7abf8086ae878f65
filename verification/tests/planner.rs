use cpm_planner::audit::{AuditEvent, AuditPayload, AuditSink, MemoryAuditSink};
use cpm_planner::bridge::JsonMember;
use cpm_planner::cohort::priority_key;
use cpm_planner::plan::{CallerId, Deliverable, DeliverableStatus, PlanGraph, PlanId, PlannerError};
use cpm_planner::ports::Planner;
use cpm_planner::ranking::Ranked;
use cpm_planner::ratio::Ratio;
use cpm_planner::server::{required_arguments, required_in_deliverable, required_in_graph, PlanTool};
use cpm_planner::submit::{deliverable_to_task, task_with_hints};
use cpm_planner::{BasicCpmPlanner, EffortEstimator, TaskKind, DEFAULT_EFFORT_HOURS};

const HOUR: i64 = 1_000_000;
const NOW: i64 = 1_767_225_600_000_000;

fn ticks(effort: f32) -> i64 {
    (f64::from(effort) * HOUR as f64).round() as i64
}

fn deliverable(id: &str, files: &[&str], prereqs: &[&str], effort: Option<f32>) -> Deliverable {
    Deliverable {
        id: id.to_string(),
        owned_files: files.iter().map(|f| f.to_string()).collect(),
        prerequisites: prereqs.iter().map(|s| s.to_string()).collect(),
        estimated_effort_hours: effort.map(ticks),
        metadata: "null".to_string(),
    }
}

fn described(id: &str, effort: Option<f32>, metadata: &str) -> Deliverable {
    Deliverable { metadata: metadata.to_string(), ..deliverable(id, &[], &[], effort) }
}

fn caller(id: &str) -> CallerId {
    CallerId(id.to_string())
}

#[test]
fn submit_plan_idempotent_on_identical_graph() {
    let mut planner = BasicCpmPlanner::new();
    let graph = PlanGraph {
        deliverables: vec![
            deliverable("a", &["src/a.rs"], &[], Some(1.0)),
            deliverable("b", &["src/b.rs"], &["a"], Some(2.0)),
        ],
        max_chained_dispatch: None,
    };
    let id1 = planner.submit_plan(graph.clone()).unwrap();
    let id2 = planner.submit_plan(graph).unwrap();
    assert_eq!(id1, id2);
}

#[test]
fn submit_plan_dedup_ignores_deliverable_order() {
    let mut planner = BasicCpmPlanner::new();
    let a = deliverable("a", &["src/a.rs"], &[], Some(1.0));
    let b = deliverable("b", &["src/b.rs"], &["a"], Some(2.0));
    let g1 = PlanGraph { deliverables: vec![a.clone(), b.clone()], max_chained_dispatch: None };
    let g2 = PlanGraph { deliverables: vec![b, a], max_chained_dispatch: None };
    let id1 = planner.submit_plan(g1).unwrap();
    let id2 = planner.submit_plan(g2).unwrap();
    assert_eq!(id1, id2);
}

#[test]
fn submit_plan_rejects_invalid_graph_cycles_in_prerequisites() {
    let mut planner = BasicCpmPlanner::new();
    let graph = PlanGraph {
        deliverables: vec![
            deliverable("a", &["src/a.rs"], &["b"], Some(1.0)),
            deliverable("b", &["src/b.rs"], &["a"], Some(1.0)),
        ],
        max_chained_dispatch: None,
    };
    let err = planner.submit_plan(graph).unwrap_err();
    match err {
        PlannerError::InvalidGraph { reason } => {
            assert!(reason.to_lowercase().contains("cycle"), "got: {reason}");
        }
        other => panic!("expected InvalidGraph(cycle), got {other:?}"),
    }
}

#[test]
fn submit_plan_rejects_invalid_graph_duplicate_file_ownership() {
    let mut planner = BasicCpmPlanner::new();
    let graph = PlanGraph {
        deliverables: vec![
            deliverable("a", &["src/shared.rs"], &[], Some(1.0)),
            deliverable("b", &["src/shared.rs"], &[], Some(1.0)),
        ],
        max_chained_dispatch: None,
    };
    let err = planner.submit_plan(graph).unwrap_err();
    match err {
        PlannerError::InvalidGraph { reason } => {
            assert!(reason.contains("src/shared.rs"), "got: {reason}");
        }
        other => panic!("expected InvalidGraph(duplicate file), got {other:?}"),
    }
}

#[test]
fn submit_plan_rejects_unknown_prerequisite() {
    let mut planner = BasicCpmPlanner::new();
    let graph = PlanGraph {
        deliverables: vec![deliverable("a", &["src/a.rs"], &["nope"], Some(1.0))],
        max_chained_dispatch: None,
    };
    let err = planner.submit_plan(graph).unwrap_err();
    assert!(
        matches!(err, PlannerError::InvalidGraph { .. }),
        "expected InvalidGraph (unknown prerequisite), got {err:?}"
    );
}

#[test]
fn acquire_cohort_returns_critical_path_first() {
    let mut planner = BasicCpmPlanner::new();
    let graph = PlanGraph {
        deliverables: vec![
            deliverable("long", &["src/long.rs"], &[], Some(4.0)),
            deliverable("short", &["src/short.rs"], &[], Some(2.0)),
            deliverable("tail", &["src/tail.rs"], &["long"], Some(1.0)),
        ],
        max_chained_dispatch: None,
    };
    let plan_id = planner.submit_plan(graph).unwrap();
    let cohort = planner.acquire_cohort(&plan_id, &caller("c1"), 1, NOW).unwrap();
    assert_eq!(cohort.rows.len(), 1);
    assert_eq!(cohort.rows[0].deliverable.id, "long");
    assert_eq!(cohort.rows[0].lock.deliverable_id, "long");
}

#[test]
fn acquire_cohort_skips_deliverables_with_unmet_prerequisites() {
    let mut planner = BasicCpmPlanner::new();
    let graph = PlanGraph {
        deliverables: vec![
            deliverable("root", &["src/root.rs"], &[], Some(1.0)),
            deliverable("leaf", &["src/leaf.rs"], &["root"], Some(1.0)),
        ],
        max_chained_dispatch: None,
    };
    let plan_id = planner.submit_plan(graph).unwrap();
    let cohort = planner.acquire_cohort(&plan_id, &caller("c1"), 10, NOW).unwrap();
    assert_eq!(cohort.rows.len(), 1);
    assert_eq!(cohort.rows[0].deliverable.id, "root");
}

#[test]
fn acquire_cohort_filters_overlapping_files_within_cohort() {
    let mut planner = BasicCpmPlanner::new();
    let graph = PlanGraph {
        deliverables: vec![
            deliverable("a", &["src/a.rs"], &[], Some(1.0)),
            deliverable("b", &["src/b.rs"], &[], Some(1.0)),
            deliverable("c", &["src/c.rs"], &[], Some(1.0)),
        ],
        max_chained_dispatch: None,
    };
    let plan_id = planner.submit_plan(graph).unwrap();
    let cohort = planner.acquire_cohort(&plan_id, &caller("c1"), 5, NOW).unwrap();
    assert_eq!(cohort.rows.len(), 3);
    let ids: Vec<&str> = cohort.rows.iter().map(|r| r.deliverable.id.as_str()).collect();
    assert!(ids.contains(&"a"));
    assert!(ids.contains(&"b"));
    assert!(ids.contains(&"c"));
    for row in &cohort.rows {
        assert_eq!(row.lock.deliverable_id, row.deliverable.id);
    }
}

#[test]
fn acquire_cohort_excludes_files_locked_by_other_callers() {
    let mut planner = BasicCpmPlanner::new();
    let graph = PlanGraph {
        deliverables: vec![
            deliverable("a", &["src/a.rs"], &[], Some(1.0)),
            deliverable("b", &["src/b.rs"], &[], Some(1.0)),
        ],
        max_chained_dispatch: None,
    };
    let plan_id = planner.submit_plan(graph).unwrap();
    let c1 = planner.acquire_cohort(&plan_id, &caller("c1"), 1, NOW).unwrap();
    assert_eq!(c1.rows.len(), 1);
    let first_id = c1.rows[0].deliverable.id.clone();

    let c2 = planner.acquire_cohort(&plan_id, &caller("c2"), 10, NOW).unwrap();
    for row in &c2.rows {
        let d = &row.deliverable;
        assert_ne!(d.id, first_id, "second caller saw an already-locked deliverable");
    }
}

#[test]
fn mark_status_complete_releases_lock_and_advances_dependents() {
    let mut planner = BasicCpmPlanner::new();
    let graph = PlanGraph {
        deliverables: vec![
            deliverable("root", &["src/root.rs"], &[], Some(1.0)),
            deliverable("leaf", &["src/leaf.rs"], &["root"], Some(1.0)),
        ],
        max_chained_dispatch: None,
    };
    let plan_id = planner.submit_plan(graph).unwrap();
    let cohort = planner.acquire_cohort(&plan_id, &caller("c1"), 1, NOW).unwrap();
    assert_eq!(cohort.rows[0].deliverable.id, "root");

    planner.mark_status(&plan_id, "root", &caller("c1"), DeliverableStatus::Complete).unwrap();

    let status = planner.status(&plan_id).unwrap();
    let leaf_status = status
        .deliverables
        .iter()
        .find(|(id, _, _, _, _)| id == "leaf")
        .map(|(_, s, _, _, _)| s.clone())
        .unwrap();
    assert_eq!(leaf_status, DeliverableStatus::Ready);

    let next = planner.acquire_cohort(&plan_id, &caller("c1"), 1, NOW).unwrap();
    assert_eq!(next.rows.len(), 1);
    assert_eq!(next.rows[0].deliverable.id, "leaf");
}

#[test]
fn mark_status_with_wrong_caller_id_fails_with_lock_not_held() {
    let mut planner = BasicCpmPlanner::new();
    let graph = PlanGraph {
        deliverables: vec![deliverable("a", &["src/a.rs"], &[], Some(1.0))],
        max_chained_dispatch: None,
    };
    let plan_id = planner.submit_plan(graph).unwrap();
    planner.acquire_cohort(&plan_id, &caller("c1"), 1, NOW).unwrap();

    let err = planner.mark_status(&plan_id, "a", &caller("c2"), DeliverableStatus::Complete).unwrap_err();
    match err {
        PlannerError::LockNotHeld { caller_id, deliverable_id } => {
            assert_eq!(caller_id, "c2");
            assert_eq!(deliverable_id, "a");
        }
        other => panic!("expected LockNotHeld, got {other:?}"),
    }
}

#[test]
fn heartbeat_extends_ttl() {
    let mut planner = BasicCpmPlanner::new();
    let graph = PlanGraph {
        deliverables: vec![deliverable("a", &["src/a.rs"], &[], Some(1.0))],
        max_chained_dispatch: None,
    };
    let plan_id = planner.submit_plan(graph).unwrap();
    let cohort = planner.acquire_cohort(&plan_id, &caller("c1"), 1, NOW).unwrap();
    let original_expiry = cohort.rows[0].lock.expires_at;

    planner.heartbeat(&plan_id, "a", &caller("c1"), NOW + 1).unwrap();

    let status = planner.status(&plan_id).unwrap();
    let new_expiry = status.locks_held[0].expires_at;
    assert!(new_expiry >= original_expiry, "expiry did not advance: {new_expiry} < {original_expiry}");
    assert_eq!(new_expiry, original_expiry + 1);
}

#[test]
fn heartbeat_with_wrong_caller_fails() {
    let mut planner = BasicCpmPlanner::new();
    let graph = PlanGraph {
        deliverables: vec![deliverable("a", &["src/a.rs"], &[], Some(1.0))],
        max_chained_dispatch: None,
    };
    let plan_id = planner.submit_plan(graph).unwrap();
    planner.acquire_cohort(&plan_id, &caller("c1"), 1, NOW).unwrap();
    let err = planner.heartbeat(&plan_id, "a", &caller("c2"), NOW).unwrap_err();
    assert!(matches!(err, PlannerError::LockNotHeld { .. }));
}

#[test]
fn status_reflects_cached_critical_path() {
    let mut planner = BasicCpmPlanner::new();
    let graph = PlanGraph {
        deliverables: vec![
            deliverable("a", &["src/a.rs"], &[], Some(1.0)),
            deliverable("b", &["src/b.rs"], &["a"], Some(2.0)),
            deliverable("c", &["src/c.rs"], &["b"], Some(3.0)),
        ],
        max_chained_dispatch: None,
    };
    let plan_id = planner.submit_plan(graph).unwrap();
    let status = planner.status(&plan_id).unwrap();
    assert_eq!(status.critical_path, vec!["a", "b", "c"]);
    assert_eq!(status.critical_path_hours, 6 * HOUR as i128);
    assert!(status.locks_held.is_empty());
}

#[test]
fn force_release_reverts_to_ready_and_audits_reason() {
    let mut audit = MemoryAuditSink::new();
    let mut planner = BasicCpmPlanner::new();
    let graph = PlanGraph {
        deliverables: vec![deliverable("a", &["src/a.rs"], &[], Some(1.0))],
        max_chained_dispatch: None,
    };
    let plan_id = planner.submit_plan(graph).unwrap();
    planner.acquire_cohort(&plan_id, &caller("c1"), 1, NOW).unwrap();

    planner.force_release(&plan_id, "a", "operator override: caller offline").unwrap();

    let status = planner.status(&plan_id).unwrap();
    let a_status = status
        .deliverables
        .iter()
        .find(|(id, _, _, _, _)| id == "a")
        .map(|(_, s, _, _, _)| s.clone())
        .unwrap();
    assert_eq!(a_status, DeliverableStatus::Ready);
    assert!(status.locks_held.is_empty());

    for record in planner.take_records() {
        audit.record(AuditEvent::from_record(record)).unwrap();
    }
    let events = audit.snapshot();
    let force_evt =
        events.iter().find(|e| e.event_type == "plan.lock.force_released").expect("force_released event present");
    match &force_evt.payload {
        AuditPayload::ForceReleased { reason, .. } => assert_eq!(reason, "operator override: caller offline"),
        other => panic!("unexpected payload {other:?}"),
    }
}

#[test]
fn explicit_effort_wins_over_estimator() {
    let estimator = EffortEstimator::new();
    let d = described("D1", Some(2.5), "{}");
    let task = deliverable_to_task(&d, &estimator);
    assert_eq!(task.effort_hours, ticks(2.5));
}

#[test]
fn missing_effort_uses_estimator_not_flat_default() {
    let estimator = EffortEstimator::new();
    let d = described("D1", None, "{}");
    let task = deliverable_to_task(&d, &estimator);
    let expected = estimator.estimate(&TaskKind::Custom { description: String::new() }, false);
    assert_eq!(Ratio { num: i128::from(task.effort_hours), den: 1 }, expected);
    assert_ne!(task.effort_hours, DEFAULT_EFFORT_HOURS);
}

#[test]
fn complexity_metadata_hint_raises_estimate() {
    let estimator = EffortEstimator::new();
    let simple = deliverable_to_task(&described("S", None, "{}"), &estimator);
    let complex = deliverable_to_task(&described("C", None, "{\"complexity\": true}"), &estimator);
    assert!(complex.effort_hours > simple.effort_hours);
}

#[test]
fn priority_key_critical_tier_orders_by_position() {
    let ka = priority_key("A", Some(0), None);
    let kb = priority_key("B", Some(1), None);
    assert!(ka.comes_before(&kb));
    assert!(!kb.comes_before(&ka));
}

#[test]
fn priority_key_noncritical_uses_es() {
    let kx = priority_key("X", None, Some(HOUR as i128));
    let ky = priority_key("Y", None, Some(3 * HOUR as i128));
    assert_eq!(kx.tier, 1);
    assert!(kx.comes_before(&ky));
}

#[test]
fn priority_key_breaks_ties_by_id() {
    let start = Some(2 * HOUR as i128);
    let kx = priority_key("X", None, start);
    let ky = priority_key("Y", None, start);
    assert!(kx.comes_before(&ky));
    assert!(!ky.comes_before(&kx));
    assert!(priority_key("Z", Some(9), None).comes_before(&kx));
}

#[test]
fn metadata_hints_are_read() {
    let estimator = EffortEstimator::new();
    let flagged = deliverable_to_task(&described("C", None, "{\"is_complex\": true}"), &estimator);
    assert_eq!(flagged.effort_hours, 6 * HOUR);
    let plain = deliverable_to_task(&described("C", None, "{\"complexity\": \"yes\"}"), &estimator);
    assert_eq!(plain.effort_hours, 4 * HOUR);
    let named = deliverable_to_task(&described("C", None, "{\"description\": \"a \\\"b\\\"\"}"), &estimator);
    assert_eq!(named.kind.to_string(), deliverable_to_task(&described("C", None, "{\"description\": \"a \\u0022b\\u0022\"}"), &estimator).kind.to_string());
    match named.kind {
        TaskKind::Custom { description } => assert_eq!(description, "a \"b\""),
        other => panic!("unexpected kind {other:?}"),
    }
    match deliverable_to_task(&described("C", None, "not json"), &estimator).kind {
        TaskKind::Custom { description } => assert_eq!(description, ""),
        other => panic!("unexpected kind {other:?}"),
    }
}

#[test]
fn hints_decide_the_task() {
    let estimator = EffortEstimator::new();
    let d = described("D", None, "{}");
    let task = task_with_hints(
        &d,
        JsonMember::Text("what to do".to_string()),
        JsonMember::Flag(false),
        JsonMember::Flag(true),
        &estimator,
    );
    let other = task_with_hints(&d, JsonMember::Flag(true), JsonMember::Absent, JsonMember::Flag(true), &estimator);
    assert_eq!(other.effort_hours, 6 * HOUR);
    assert_eq!(task.id, "D");
    match task.kind {
        TaskKind::Custom { description } => assert_eq!(description, "what to do"),
        kind => panic!("unexpected kind {kind:?}"),
    }
}

#[test]
fn unknown_plans_and_deliverables_are_refused() {
    let mut planner = BasicCpmPlanner::default();
    let missing = PlanId("plan_missing".to_string());
    assert!(matches!(planner.status(&missing), Err(PlannerError::PlanNotFound { .. })));
    assert!(matches!(planner.acquire_cohort(&missing, &caller("c"), 1, NOW), Err(PlannerError::PlanNotFound { .. })));
    assert!(matches!(planner.heartbeat(&missing, "a", &caller("c"), NOW), Err(PlannerError::PlanNotFound { .. })));
    assert!(matches!(planner.force_release(&missing, "a", "r"), Err(PlannerError::PlanNotFound { .. })));
    assert!(matches!(
        planner.mark_status(&missing, "a", &caller("c"), DeliverableStatus::Ready),
        Err(PlannerError::PlanNotFound { .. })
    ));

    let graph = PlanGraph { deliverables: vec![deliverable("a", &[], &[], None)], max_chained_dispatch: None };
    let id = planner.submit_plan(graph).unwrap();
    let gone = PlannerError::DeliverableNotFound { plan_id: id.0.clone(), deliverable_id: "b".to_string() };
    assert_eq!(planner.mark_status(&id, "b", &caller("c"), DeliverableStatus::Ready), Err(gone));
    let gone = PlannerError::DeliverableNotFound { plan_id: id.0.clone(), deliverable_id: "b".to_string() };
    assert_eq!(planner.force_release(&id, "b", "r"), Err(gone));
    assert!(planner.force_release(&id, "a", "nobody holds it").is_ok());
    assert!(planner.take_records().is_empty());
}

#[test]
fn a_lapsed_lease_cannot_be_extended() {
    let mut planner = BasicCpmPlanner::new().with_ttl(60_000_000);
    let graph = PlanGraph { deliverables: vec![deliverable("a", &[], &[], None)], max_chained_dispatch: None };
    let id = planner.submit_plan(graph).unwrap();
    planner.acquire_cohort(&id, &caller("c1"), 1, NOW).unwrap();
    let end = NOW + 60_000_000;
    assert!(planner.heartbeat(&id, "a", &caller("c1"), end).is_ok());
    let end = end + 60_000_000;
    assert_eq!(
        planner.heartbeat(&id, "a", &caller("c1"), end + 1),
        Err(PlannerError::LockExpired { deliverable_id: "a".to_string(), expired_at: end })
    );
}

#[test]
fn asking_for_nothing_leases_nothing() {
    let mut planner = BasicCpmPlanner::new();
    let graph = PlanGraph { deliverables: vec![deliverable("a", &[], &[], None)], max_chained_dispatch: None };
    let id = planner.submit_plan(graph).unwrap();
    let cohort = planner.acquire_cohort(&id, &caller("c1"), 0, NOW).unwrap();
    assert!(cohort.exhausted());
    assert_eq!(planner.status(&id).unwrap().deliverables[0].2, 0);
}

#[test]
fn fresh_plan_ids_are_told_apart() {
    let mut planner = BasicCpmPlanner::new();
    let one = planner
        .submit_plan(PlanGraph { deliverables: vec![deliverable("a", &[], &[], None)], max_chained_dispatch: None })
        .unwrap();
    let two = planner
        .submit_plan(PlanGraph { deliverables: vec![deliverable("a", &[], &[], None)], max_chained_dispatch: Some(2) })
        .unwrap();
    assert_ne!(one, two);
    for id in [&one, &two] {
        let token = id.as_str().strip_prefix("plan_").expect("prefix");
        assert_eq!(token.len(), 32);
        assert!(token.chars().all(|c| c.is_ascii_digit() || ('a'..='f').contains(&c)));
    }
}

#[test]
fn a_taken_plan_id_goes_to_the_later_plan() {
    let mut planner = BasicCpmPlanner::new();
    let first = PlanGraph { deliverables: vec![deliverable("a", &[], &[], None)], max_chained_dispatch: None };
    let second = PlanGraph { deliverables: vec![deliverable("b", &[], &[], None)], max_chained_dispatch: None };
    let id = PlanId("plan_x".to_string());
    assert_eq!(planner.submit_as(first, id.clone()), Ok(id.clone()));
    assert_eq!(planner.submit_as(second, id.clone()), Ok(id.clone()));
    assert_eq!(planner.status(&id).unwrap().deliverables[0].0, "b");
}

#[test]
fn a_prerequisite_listed_twice_counts_once() {
    let graph = PlanGraph {
        deliverables: vec![deliverable("a", &[], &[], None), deliverable("b", &[], &["a", "a"], None)],
        max_chained_dispatch: None,
    };
    let mut planner = BasicCpmPlanner::new();
    let id = planner.submit_plan(graph).unwrap();
    planner.acquire_cohort(&id, &caller("c"), 2, NOW).unwrap();
    planner.mark_status(&id, "a", &caller("c"), DeliverableStatus::Complete).unwrap();
    assert_eq!(planner.status(&id).unwrap().deliverables[1].1, DeliverableStatus::Ready);
}

#[test]
fn refused_operations_leave_the_plan_alone() {
    let mut planner = BasicCpmPlanner::new();
    let graph = PlanGraph { deliverables: vec![deliverable("a", &[], &[], None)], max_chained_dispatch: None };
    let id = planner.submit_plan(graph).unwrap();
    planner.acquire_cohort(&id, &caller("c1"), 1, NOW).unwrap();
    let before = planner.status(&id).unwrap();
    planner.mark_status(&id, "a", &caller("c2"), DeliverableStatus::Complete).unwrap_err();
    planner.heartbeat(&id, "a", &caller("c2"), NOW).unwrap_err();
    assert_eq!(planner.status(&id).unwrap(), before);
}

#[test]
fn fresh_plan_ids_have_the_prefix() {
    let id = cpm_planner::planner::fresh_plan_id();
    let token = id.0.strip_prefix("plan_").expect("prefix");
    assert_eq!(token.len(), 32);
    assert!(token.chars().all(|c| c.is_ascii_digit() || ('a'..='f').contains(&c)));
}

#[test]
fn every_tool_names_its_arguments() {
    assert_eq!(required_arguments(PlanTool::Submit), vec!["graph"]);
    assert_eq!(required_arguments(PlanTool::AcquireCohort), vec!["plan_id", "caller_id", "max_count"]);
    assert_eq!(required_arguments(PlanTool::Heartbeat), vec!["plan_id", "deliverable_id", "caller_id"]);
    assert_eq!(required_arguments(PlanTool::MarkStatus), vec!["plan_id", "deliverable_id", "caller_id", "status"]);
    assert_eq!(required_arguments(PlanTool::Status), vec!["plan_id"]);
    assert_eq!(required_arguments(PlanTool::ForceRelease), vec!["plan_id", "deliverable_id", "reason"]);
    assert_eq!(required_in_graph(), vec!["deliverables"]);
    assert_eq!(required_in_deliverable(), vec!["id", "owned_files", "prerequisites"]);
}

#[test]
fn other_graphs_make_other_plans() {
    let graph = |metadata: &str| {
        let mut d = deliverable("a", &["f"], &[], None);
        d.metadata = metadata.to_string();
        PlanGraph { deliverables: vec![d], max_chained_dispatch: None }
    };
    let mut planner = BasicCpmPlanner::new();
    let first = planner.submit_plan(graph("{}")).unwrap();
    let second = planner.submit_plan(graph("[]")).unwrap();
    assert_ne!(first, second);
    assert_eq!(planner.submit_plan(graph("{}")), Ok(first));
}

#[test]
fn priority_key_orders_close_starts() {
    let kx = priority_key("Y", None, Some(1));
    let ky = priority_key("X", None, Some(2));
    assert!(kx.comes_before(&ky));
    assert!(!ky.comes_before(&kx));
}

#[test]
fn one_file_under_two_spellings_is_leased_once() {
    let mut planner = BasicCpmPlanner::new();
    let twice = PlanGraph {
        deliverables: vec![deliverable("a", &["src//x.rs"], &[], None), deliverable("b", &["src/./x.rs/"], &[], None)],
        max_chained_dispatch: None,
    };
    match planner.submit_plan(twice) {
        Err(PlannerError::InvalidGraph { reason }) => {
            assert_eq!(reason, "file 'src/./x.rs/' is owned by both 'a' and 'b'");
        }
        other => panic!("expected InvalidGraph, got {other:?}"),
    }
}
