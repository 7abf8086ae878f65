use cpm_planner::plan::{CallerId, Cohort, Deliverable, DeliverableStatus, PlanGraph, PlanId, PlanStatus, PlannerError};
use cpm_planner::server::{
    dispatch_call, find_tool, instructions, plan_tool_names, OkResponse, PlanRequest, PlanResponse, PlanTool,
};
use cpm_planner::{
    BasicCpmPlanner, TOOL_ACQUIRE_COHORT, TOOL_FORCE_RELEASE, TOOL_HEARTBEAT, TOOL_MARK_STATUS, TOOL_STATUS, TOOL_SUBMIT,
};

const NOW: i64 = 1_767_225_600_000_000;

fn sample_graph() -> PlanGraph {
    PlanGraph {
        deliverables: vec![
            Deliverable {
                id: "d1".to_string(),
                owned_files: vec!["src/a.rs".to_string()],
                prerequisites: vec![],
                estimated_effort_hours: Some(1_000_000),
                metadata: "{\"description\":\"first\"}".to_string(),
            },
            Deliverable {
                id: "d2".to_string(),
                owned_files: vec!["src/b.rs".to_string()],
                prerequisites: vec!["d1".to_string()],
                estimated_effort_hours: Some(2_000_000),
                metadata: "{\"description\":\"second\"}".to_string(),
            },
        ],
        max_chained_dispatch: None,
    }
}

fn submit_plan(server: &mut BasicCpmPlanner) -> PlanId {
    match dispatch_call(server, PlanRequest::Submit { graph: sample_graph() }, NOW).expect("plan.submit returns Ok") {
        PlanResponse::Submitted { plan_id } => plan_id,
        other => panic!("unexpected response {other:?}"),
    }
}

fn acquire(server: &mut BasicCpmPlanner, plan_id: &PlanId, caller: &str) -> (Cohort, bool) {
    let request = PlanRequest::AcquireCohort {
        plan_id: plan_id.clone(),
        caller_id: CallerId(caller.to_string()),
        max_count: 4,
    };
    match dispatch_call(server, request, NOW).expect("acquire ok") {
        PlanResponse::Acquired { cohort, exhausted } => (cohort, exhausted),
        other => panic!("unexpected response {other:?}"),
    }
}

fn mark(
    server: &mut BasicCpmPlanner,
    plan_id: &PlanId,
    caller: &str,
    status: DeliverableStatus,
) -> Result<PlanResponse, PlannerError> {
    let request = PlanRequest::MarkStatus {
        plan_id: plan_id.clone(),
        deliverable_id: "d1".to_string(),
        caller_id: CallerId(caller.to_string()),
        status,
    };
    dispatch_call(server, request, NOW)
}

fn status(server: &mut BasicCpmPlanner, plan_id: &PlanId) -> PlanStatus {
    match dispatch_call(server, PlanRequest::Status { plan_id: plan_id.clone() }, NOW).expect("plan.status returns Ok") {
        PlanResponse::Snapshot(s) => s,
        other => panic!("unexpected response {other:?}"),
    }
}

fn expect_ok(response: PlanResponse) {
    match response {
        PlanResponse::Done(r) => assert_eq!(r, OkResponse::new()),
        other => panic!("unexpected response {other:?}"),
    }
}

#[test]
fn plan_submit_roundtrip() {
    let mut server = BasicCpmPlanner::new();
    let plan_id = submit_plan(&mut server).0;
    assert!(!plan_id.is_empty(), "plan_id must be non-empty");
    assert!(
        plan_id.starts_with("plan_"),
        "plan_id should carry the BasicCpmPlanner `plan_<uuid>` prefix; got {plan_id}"
    );
}

#[test]
fn plan_acquire_cohort_roundtrip() {
    let mut server = BasicCpmPlanner::new();
    let plan_id = submit_plan(&mut server);

    let (cohort, exhausted) = acquire(&mut server, &plan_id, "orchestrator-001");

    assert_eq!(cohort.plan_id, plan_id);
    assert_eq!(cohort.rows.len(), 1, "only d1 should be ready in the initial cohort");
    assert_eq!(cohort.rows[0].deliverable.id, "d1");
    assert_eq!(cohort.rows[0].lock.deliverable_id, "d1");
    assert_eq!(cohort.rows[0].lock.caller_id, CallerId("orchestrator-001".to_string()));
    assert!(!exhausted, "a cohort with a ready deliverable is not exhausted");
}

#[test]
fn plan_acquire_cohort_reports_exhausted_when_nothing_ready() {
    let mut server = BasicCpmPlanner::new();
    let plan_id = submit_plan(&mut server);

    let (_, exhausted) = acquire(&mut server, &plan_id, "orch-1");
    assert!(!exhausted);

    let (cohort, exhausted) = acquire(&mut server, &plan_id, "orch-1");
    assert_eq!(cohort.rows.len(), 0, "no deliverable is ready on the second acquire");
    assert!(exhausted, "a drained acquire must report exhausted");
}

#[test]
fn plan_heartbeat_roundtrip() {
    let mut server = BasicCpmPlanner::new();
    let plan_id = submit_plan(&mut server);
    acquire(&mut server, &plan_id, "orchestrator-001");

    let request = PlanRequest::Heartbeat {
        plan_id,
        deliverable_id: "d1".to_string(),
        caller_id: CallerId("orchestrator-001".to_string()),
    };
    expect_ok(dispatch_call(&mut server, request, NOW).expect("plan.heartbeat returns Ok"));
}

#[test]
fn plan_mark_status_complete_roundtrip() {
    let mut server = BasicCpmPlanner::new();
    let plan_id = submit_plan(&mut server);
    acquire(&mut server, &plan_id, "orchestrator-001");

    let resp = mark(&mut server, &plan_id, "orchestrator-001", DeliverableStatus::Complete);
    expect_ok(resp.expect("plan.mark_status returns Ok"));

    let locks = status(&mut server, &plan_id).locks_held;
    assert!(locks.is_empty(), "completing d1 should have released its lock; got {locks:?}");
}

#[test]
fn plan_status_roundtrip() {
    let mut server = BasicCpmPlanner::new();
    let plan_id = submit_plan(&mut server);

    let resp = status(&mut server, &plan_id);

    assert_eq!(resp.plan_id, plan_id);
    assert_eq!(resp.deliverables.len(), 2, "graph has two deliverables");
    let first = &resp.deliverables[0];
    assert_eq!(first.0, "d1");
    assert_eq!(first.1, DeliverableStatus::Ready);

    assert!(!resp.critical_path.is_empty(), "critical_path must be populated for a non-empty graph");
    assert_eq!(resp.critical_path, vec!["d1", "d2"]);
    assert_eq!(resp.critical_path_hours, 3_000_000);
}

#[test]
fn plan_force_release_roundtrip() {
    let mut server = BasicCpmPlanner::new();
    let plan_id = submit_plan(&mut server);
    acquire(&mut server, &plan_id, "orchestrator-001");

    let request = PlanRequest::ForceRelease {
        plan_id: plan_id.clone(),
        deliverable_id: "d1".to_string(),
        reason: "orchestrator crashed; releasing manually".to_string(),
    };
    expect_ok(dispatch_call(&mut server, request, NOW).expect("plan.force_release returns Ok"));

    let locks = status(&mut server, &plan_id).locks_held;
    assert!(locks.is_empty(), "force_release should have removed the lock; got {locks:?}");
}

#[test]
fn plan_invalid_graph_returns_error() {
    let mut server = BasicCpmPlanner::new();
    let part = |id: &str, file: &str, needs: &str| Deliverable {
        id: id.to_string(),
        owned_files: vec![file.to_string()],
        prerequisites: vec![needs.to_string()],
        estimated_effort_hours: None,
        metadata: "null".to_string(),
    };
    let cyclic = PlanGraph {
        deliverables: vec![part("a", "src/a.rs", "b"), part("b", "src/b.rs", "a")],
        max_chained_dispatch: None,
    };
    let err = dispatch_call(&mut server, PlanRequest::Submit { graph: cyclic }, NOW)
        .expect_err("cyclic graph must be rejected");
    assert!(
        err.to_string().contains("INVALID_GRAPH"),
        "MCP error must carry the INVALID_GRAPH prefix; got: {}",
        err.to_string()
    );
}

#[test]
fn plan_wrong_caller_returns_lock_not_held() {
    let mut server = BasicCpmPlanner::new();
    let plan_id = submit_plan(&mut server);
    acquire(&mut server, &plan_id, "owner-001");

    let err = mark(&mut server, &plan_id, "imposter-002", DeliverableStatus::Complete)
        .expect_err("wrong caller must be rejected");
    assert!(
        err.to_string().contains("LOCK_NOT_HELD"),
        "MCP error must carry the LOCK_NOT_HELD prefix; got: {}",
        err.to_string()
    );
}

#[test]
fn plan_mark_status_failed_carries_reason() {
    let mut server = BasicCpmPlanner::new();
    let plan_id = submit_plan(&mut server);
    acquire(&mut server, &plan_id, "orchestrator-001");

    let resp = mark(
        &mut server,
        &plan_id,
        "orchestrator-001",
        DeliverableStatus::Failed { reason: "intentional test failure".to_string() },
    );
    expect_ok(resp.expect("mark_status failed must succeed when caller holds the lock"));

    let snapshot = status(&mut server, &plan_id);
    let d1 = snapshot.deliverables.iter().find(|row| row.0 == "d1").expect("d1 entry present");
    assert_eq!(d1.1, DeliverableStatus::Failed { reason: "intentional test failure".to_string() });
    assert_eq!(d1.2, 1);
}

#[test]
fn tools_are_found_by_name() {
    let names = plan_tool_names();
    assert_eq!(
        names,
        vec![
            TOOL_SUBMIT,
            TOOL_ACQUIRE_COHORT,
            TOOL_HEARTBEAT,
            TOOL_MARK_STATUS,
            TOOL_STATUS,
            TOOL_FORCE_RELEASE
        ]
    );
    assert_eq!(find_tool("plan.submit"), Ok(PlanTool::Submit));
    assert_eq!(find_tool("plan.acquire_cohort"), Ok(PlanTool::AcquireCohort));
    assert_eq!(find_tool("plan.heartbeat"), Ok(PlanTool::Heartbeat));
    assert_eq!(find_tool("plan.mark_status"), Ok(PlanTool::MarkStatus));
    assert_eq!(find_tool("plan.status"), Ok(PlanTool::Status));
    assert_eq!(find_tool("plan.force_release"), Ok(PlanTool::ForceRelease));
    let message = find_tool("plan.nope").unwrap_err();
    assert!(message.contains("plan.nope"), "got: {message}");
    for name in &names {
        assert!(message.contains(name.as_str()), "got: {message}");
    }
    assert!(instructions().contains("plan.submit"));
}

#[test]
fn unknown_plan_is_refused_by_the_server() {
    let mut server = BasicCpmPlanner::new();
    let plan_id = PlanId("plan_x".to_string());
    let err = dispatch_call(&mut server, PlanRequest::Status { plan_id }, NOW).unwrap_err();
    assert_eq!(err.to_string(), PlannerError::PlanNotFound { plan_id: "plan_x".to_string() }.to_string());
    assert!(err.to_string().starts_with("PLAN_NOT_FOUND:"));
}
