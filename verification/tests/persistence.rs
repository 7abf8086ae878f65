//! Plans that are kept as rows and read back for every operation.

use std::collections::HashSet;

use chrono::{Duration, TimeZone, Utc};
use cpm_planner::hash::hash_graph;
use cpm_planner::locks::{bump, PlanState, Slot};
use cpm_planner::plan::{
    CallerId, Cohort, Deliverable, DeliverableStatus, LockInfo, PlanGraph, PlanId, PlanStatus, PlannerError,
};
use cpm_planner::plan_store::{dt_from_micros, LockRow, StatusRow};
use cpm_planner::server::{dispatch_call, PlanRequest, PlanResponse};
use cpm_planner::stored_calls::{plan_or_refusal, request_target, stored_call, stored_submission, submission_key};
use cpm_planner::stored_plan::{sweep_row, StoredPlan, Sweep};
use cpm_planner::submit::build_plan;
use cpm_planner::{BasicCpmPlanner, CriticalPathResult, MAX_ATTEMPTS};

const TTL: i64 = 60_000_000;
const DEFAULT_LEASE: i64 = 300_000_000;

struct Saved {
    hash: String,
    plan_id: PlanId,
    graph: PlanGraph,
    result: CriticalPathResult,
    statuses: Vec<StatusRow>,
    locks: Vec<LockRow>,
}

/// What is on disk: rows, and nothing else.
struct Db {
    plans: Vec<Saved>,
}

impl Db {
    fn new() -> Self {
        Db { plans: Vec::new() }
    }

    fn read(&self, plan_id: &PlanId) -> Result<StoredPlan, PlannerError> {
        let found = match self.plans.iter().find(|p| p.plan_id == *plan_id) {
            Some(p) => Some(StoredPlan::restore(&p.plan_id, p.graph.clone(), p.result.clone(), &p.statuses, &p.locks)?),
            None => None,
        };
        plan_or_refusal(plan_id, found)
    }

    /// Reads the plan, carries the request out, and writes the plan back.
    fn call(&mut self, plan_id: &PlanId, request: PlanRequest, now: i64, ttl: i64) -> Result<PlanResponse, PlannerError> {
        let mut stored = self.read(plan_id)?;
        let (response, _) = stored_call(&mut stored, request, now, now + ttl)?;
        for p in &mut self.plans {
            if p.plan_id == *plan_id {
                p.statuses = stored.to_status_rows();
                p.locks = stored.to_lock_rows();
            }
        }
        Ok(response)
    }

    /// What every start does first.
    fn reopen(&mut self, wall: i64) {
        for p in &mut self.plans {
            for row in &mut p.statuses {
                let end = p.locks.iter().find(|l| l.deliverable_id == row.deliverable_id).map(|l| l.expires_at_us);
                match sweep_row(row.status == DeliverableStatus::InProgress, end, wall) {
                    Sweep::Keep => continue,
                    Sweep::Lapsed => row.lapse_count = bump(row.lapse_count),
                    Sweep::Orphaned => {}
                }
                row.status = DeliverableStatus::Ready;
            }
            p.locks.retain(|l| sweep_row(true, Some(l.expires_at_us), wall) != Sweep::Lapsed);
        }
    }

    fn submit_plan(&mut self, graph: PlanGraph) -> Result<PlanId, PlannerError> {
        let hash = submission_key(&graph)?;
        let known = self.plans.iter().find(|p| p.hash == hash).map(|p| p.plan_id.clone());
        let fresh = PlanId(format!("plan_{}", self.plans.len()));
        let (plan_id, made) = stored_submission(known, graph, fresh)?;
        if let Some(state) = made {
            let stored = StoredPlan::new(state);
            self.plans.push(Saved {
                hash,
                plan_id: plan_id.clone(),
                statuses: stored.to_status_rows(),
                locks: stored.to_lock_rows(),
                graph: stored.state.graph,
                result: stored.state.cached_result,
            });
        }
        Ok(plan_id)
    }

    fn acquire(&mut self, id: &PlanId, who: &str, max_count: usize, now: i64, ttl: i64) -> Result<Cohort, PlannerError> {
        let request = PlanRequest::AcquireCohort { plan_id: id.clone(), caller_id: caller(who), max_count };
        match self.call(id, request, now, ttl)? {
            PlanResponse::Acquired { cohort, .. } => Ok(cohort),
            other => panic!("unexpected answer {other:?}"),
        }
    }

    fn mark(&mut self, id: &PlanId, d: &str, who: &str, status: DeliverableStatus) -> Result<(), PlannerError> {
        let request = PlanRequest::MarkStatus {
            plan_id: id.clone(),
            deliverable_id: d.to_string(),
            caller_id: caller(who),
            status,
        };
        self.call(id, request, 0, 0).map(|_| ())
    }

    fn heartbeat(&mut self, id: &PlanId, d: &str, who: &str, now: i64, ttl: i64) -> Result<(), PlannerError> {
        let request =
            PlanRequest::Heartbeat { plan_id: id.clone(), deliverable_id: d.to_string(), caller_id: caller(who) };
        self.call(id, request, now, ttl).map(|_| ())
    }

    fn release(&mut self, id: &PlanId, d: &str, reason: &str) -> Result<(), PlannerError> {
        let request = PlanRequest::ForceRelease {
            plan_id: id.clone(),
            deliverable_id: d.to_string(),
            reason: reason.to_string(),
        };
        self.call(id, request, 0, 0).map(|_| ())
    }

    fn status(&mut self, id: &PlanId) -> Result<PlanStatus, PlannerError> {
        match self.call(id, PlanRequest::Status { plan_id: id.clone() }, 0, 0)? {
            PlanResponse::Snapshot(status) => Ok(status),
            other => panic!("unexpected answer {other:?}"),
        }
    }
}

fn deliverable(id: &str, files: &[&str], prereqs: &[&str]) -> Deliverable {
    Deliverable {
        id: id.to_string(),
        owned_files: files.iter().map(|f| f.to_string()).collect(),
        prerequisites: prereqs.iter().map(|s| s.to_string()).collect(),
        estimated_effort_hours: Some(1_000_000),
        metadata: "null".to_string(),
    }
}

/// d1 (ready) -> d2 (pending until d1 completes).
fn chain_graph() -> PlanGraph {
    PlanGraph {
        deliverables: vec![deliverable("d1", &["src/a.rs"], &[]), deliverable("d2", &["src/b.rs"], &["d1"])],
        max_chained_dispatch: None,
    }
}

fn caller(id: &str) -> CallerId {
    CallerId(id.to_string())
}

fn wall() -> i64 {
    Utc.with_ymd_and_hms(2026, 6, 1, 0, 0, 0).single().expect("valid time").timestamp_micros()
}

fn far_future() -> i64 {
    Utc.with_ymd_and_hms(2100, 1, 1, 0, 0, 0).single().expect("valid t0").timestamp_micros()
}

fn seconds(n: i64) -> i64 {
    Duration::seconds(n).num_microseconds().expect("small")
}

#[test]
fn plan_and_statuses_survive_reopen() {
    let mut db = Db::new();
    let plan_id = db.submit_plan(chain_graph()).expect("submit");

    db.reopen(wall());
    let status = db.status(&plan_id).expect("plan visible after reopen");
    assert_eq!(status.plan_id, plan_id);
    assert_eq!(
        status.deliverables,
        vec![
            ("d1".to_string(), DeliverableStatus::Ready, 0, 0, 0),
            ("d2".to_string(), DeliverableStatus::Pending, 0, 0, 0),
        ]
    );
    assert!(status.locks_held.is_empty());
    assert_eq!(status.critical_path, vec!["d1".to_string(), "d2".to_string()]);
}

#[test]
fn idempotent_resubmit_survives_reopen() {
    let mut db = Db::new();
    let first = db.submit_plan(chain_graph()).expect("submit");

    db.reopen(wall());
    let second = db.submit_plan(chain_graph()).expect("resubmit after reopen");
    assert_eq!(first, second, "identical graph resubmitted after restart must dedup to the same plan_id");
}

#[test]
fn two_connections_cannot_double_acquire_the_same_deliverable() {
    let mut db = Db::new();
    let plan_id = db.submit_plan(chain_graph()).expect("submit");

    let cohort_a = db.acquire(&plan_id, "proc-a", 10, wall(), DEFAULT_LEASE).expect("first acquire");
    assert_eq!(cohort_a.rows.len(), 1);
    assert_eq!(cohort_a.rows[0].deliverable.id, "d1");

    let cohort_b = db.acquire(&plan_id, "proc-b", 10, wall(), DEFAULT_LEASE).expect("second acquire");
    assert!(
        cohort_b.rows.is_empty(),
        "connection B double-acquired: {:?}",
        cohort_b.rows.iter().map(|r| r.deliverable.id.clone()).collect::<Vec<_>>()
    );
}

#[test]
fn concurrent_acquires_across_connections_never_overlap() {
    let mut db = Db::new();
    let graph = PlanGraph {
        deliverables: (0..6).map(|i| deliverable(&format!("d{i}"), &[&format!("src/d{i}.rs")], &[])).collect(),
        max_chained_dispatch: None,
    };
    let plan_id = db.submit_plan(graph).expect("submit");

    let mut seen_ids = HashSet::new();
    let mut seen_files = HashSet::new();
    let mut total = 0usize;
    for c in 0..4 {
        db.reopen(wall());
        let cohort = db
            .acquire(&plan_id, &format!("proc-{c}"), 2, wall(), DEFAULT_LEASE)
            .expect("acquire_cohort should not error");
        total += cohort.rows.len();
        for row in &cohort.rows {
            assert!(
                seen_ids.insert(row.deliverable.id.clone()),
                "deliverable {} granted to two connections",
                row.deliverable.id
            );
            for f in &row.deliverable.owned_files {
                assert!(seen_files.insert(f.clone()), "file {f:?} granted to two connections");
            }
        }
    }
    assert!(total <= 6, "over-allocation: {total} > 6");
}

#[test]
fn nonholder_rejected_and_holder_release_unblocks_dependent() {
    let mut db = Db::new();
    let plan_id = db.submit_plan(chain_graph()).expect("submit");
    db.acquire(&plan_id, "holder", 1, wall(), DEFAULT_LEASE).expect("acquire d1");

    let err = db
        .mark(&plan_id, "d1", "intruder", DeliverableStatus::Complete)
        .expect_err("non-holder must be rejected");
    assert!(matches!(err, PlannerError::LockNotHeld { .. }), "expected LockNotHeld, got {err:?}");

    db.mark(&plan_id, "d1", "holder", DeliverableStatus::Complete).expect("holder completes d1");

    let cohort = db.acquire(&plan_id, "proc-b", 1, wall(), DEFAULT_LEASE).expect("acquire dependent");
    assert_eq!(cohort.rows.len(), 1);
    assert_eq!(cohort.rows[0].deliverable.id, "d2");
}

#[test]
fn expired_lock_is_reclaimable_by_another_connection() {
    let mut db = Db::new();
    let t0 = far_future();
    let plan_id = db.submit_plan(chain_graph()).expect("submit");
    db.acquire(&plan_id, "stale-holder", 1, t0, TTL).expect("acquire d1");

    db.reopen(wall());
    let late = t0 + seconds(600);
    let cohort = db.acquire(&plan_id, "reclaimer", 1, late, TTL).expect("acquire after expiry");
    assert_eq!(cohort.rows.len(), 1);
    assert_eq!(cohort.rows[0].deliverable.id, "d1");
    assert_eq!(cohort.rows[0].lock.caller_id, caller("reclaimer"));
}

#[test]
fn expired_lock_is_quarantined_on_reopen() {
    let mut db = Db::new();
    let ancient = Utc.with_ymd_and_hms(2020, 1, 1, 0, 0, 0).single().expect("valid t0").timestamp_micros();
    let plan_id = db.submit_plan(chain_graph()).expect("submit");
    db.acquire(&plan_id, "crashed-proc", 1, ancient, TTL).expect("acquire d1");

    db.reopen(wall());
    let status = db.status(&plan_id).expect("status after reopen");
    assert!(status.locks_held.is_empty(), "expired lock must be cleared at startup");
    assert_eq!(
        status.deliverables[0],
        ("d1".to_string(), DeliverableStatus::Ready, 1, 0, 1),
        "quarantined deliverable goes back to ready with its lease still counted \
         and the environmental loss recorded as a lapse (never a failure)"
    );

    let cohort = db.acquire(&plan_id, "fresh-proc", 1, wall(), DEFAULT_LEASE).expect("reacquire");
    assert_eq!(cohort.rows.len(), 1);
    assert_eq!(cohort.rows[0].deliverable.id, "d1");
}

#[test]
fn heartbeat_ttl_refresh_is_persisted_across_connections() {
    let mut db = Db::new();
    let t0 = far_future();
    let plan_id = db.submit_plan(chain_graph()).expect("submit");
    db.acquire(&plan_id, "worker", 1, t0, TTL).expect("acquire d1");

    db.heartbeat(&plan_id, "d1", "worker", t0 + seconds(30), TTL).expect("heartbeat");

    db.reopen(wall());
    let cohort = db.acquire(&plan_id, "poacher", 1, t0 + seconds(70), TTL).expect("acquire attempt");
    assert!(cohort.rows.is_empty(), "heartbeat-refreshed lock was reclaimed before its new expiry");

    db.reopen(wall());
    let cohort = db.acquire(&plan_id, "reclaimer", 1, t0 + seconds(120), TTL).expect("acquire after refreshed expiry");
    assert_eq!(cohort.rows.len(), 1);
    assert_eq!(cohort.rows[0].deliverable.id, "d1");
}

#[test]
fn lapse_count_survives_reopen_and_never_trips_the_failure_breaker() {
    let mut db = Db::new();
    let t0 = far_future();

    let mut plan_id = None;
    for lease in 1..=MAX_ATTEMPTS {
        db.reopen(wall());
        let now = t0 + seconds(600 * i64::from(lease));
        let id = db.submit_plan(chain_graph()).expect("submit");
        let cohort = db.acquire(&id, &format!("killed-{lease}"), 1, now, TTL).expect("acquire");
        assert_eq!(cohort.rows.len(), 1, "lease {lease} must be granted");
        assert_eq!(cohort.rows[0].deliverable.id, "d1");

        let status = db.status(&id).expect("status");
        let (_, _, attempts, failures, lapses) = &status.deliverables[0];
        assert_eq!(*attempts, lease, "attempt_count accumulates durably");
        assert_eq!(*failures, 0, "no driver ever reported failure");
        assert_eq!(*lapses, lease - 1, "each lost lease recorded as a lapse");
        plan_id = Some(id);
    }
    let plan_id = plan_id.expect("plan submitted");

    db.reopen(wall());
    let cohort = db.acquire(&plan_id, "fresh", 10, t0 + seconds(36_000), TTL).expect("acquire after lapses");
    assert_eq!(cohort.rows.len(), 1, "healthy deliverable was circuit-broken by environmental lapses");
    assert_eq!(cohort.rows[0].deliverable.id, "d1");
}

#[test]
fn failure_count_survives_reopen_and_circuit_breaks_across_processes() {
    let mut db = Db::new();

    let mut plan_id = None;
    for attempt in 1..=MAX_ATTEMPTS {
        db.reopen(wall());
        let id = db.submit_plan(chain_graph()).expect("submit");
        let who = format!("builder-{attempt}");
        let cohort = db.acquire(&id, &who, 1, wall(), DEFAULT_LEASE).expect("acquire");
        assert_eq!(cohort.rows.len(), 1, "attempt {attempt} must lease d1");
        assert_eq!(cohort.rows[0].deliverable.id, "d1");
        db.mark(&id, "d1", &who, DeliverableStatus::Failed { reason: format!("build attempt {attempt} broke") })
            .expect("mark failed");
        db.mark(&id, "d1", &who, DeliverableStatus::Ready).expect("re-mark ready");

        let status = db.status(&id).expect("status");
        let (_, _, _, failures, lapses) = &status.deliverables[0];
        assert_eq!(*failures, attempt, "failure_count accumulates durably");
        assert_eq!(*lapses, 0, "no lease ever lapsed in this scenario");
        plan_id = Some(id);
    }
    let plan_id = plan_id.expect("plan submitted");

    db.reopen(wall());
    let cohort = db.acquire(&plan_id, "fresh", 10, wall(), DEFAULT_LEASE).expect("acquire after circuit-break");
    assert!(
        cohort.rows.is_empty(),
        "poison deliverable re-leased after {} failed attempts",
        MAX_ATTEMPTS
    );

    let status = db.status(&plan_id).expect("status");
    let (_, d1_status, _, d1_failures, _) = &status.deliverables[0];
    assert!(
        matches!(d1_status, DeliverableStatus::Failed { reason } if reason.contains("circuit-break")),
        "expected circuit-broken Failed, got {d1_status:?}"
    );
    assert_eq!(*d1_failures, MAX_ATTEMPTS);
    assert!(status.locks_held.is_empty());
    assert_eq!(status.deliverables[1].1, DeliverableStatus::Pending);
}

#[test]
fn force_release_from_another_connection_frees_the_lock() {
    let mut db = Db::new();
    let plan_id = db.submit_plan(chain_graph()).expect("submit");
    db.acquire(&plan_id, "wedged", 1, wall(), DEFAULT_LEASE).expect("acquire d1");

    db.release(&plan_id, "d1", "operator: wedged process").expect("force release");

    let cohort = db.acquire(&plan_id, "fresh", 1, wall(), DEFAULT_LEASE).expect("reacquire");
    assert_eq!(cohort.rows.len(), 1);
    assert_eq!(cohort.rows[0].deliverable.id, "d1");
}

fn plan_state_with_one_ready() -> PlanState {
    let graph = PlanGraph { deliverables: vec![deliverable("d1", &["src/a.rs"], &[])], max_chained_dispatch: None };
    let slot = Slot { status: DeliverableStatus::Ready, attempts: 0, failures: 0, lapses: 0, lock: None };
    PlanState::new(graph, vec![slot], CriticalPathResult::default())
}

#[test]
fn submit_or_get_is_idempotent_within_one_store() {
    let graph = || plan_state_with_one_ready().graph;
    let (first, made) = stored_submission(None, graph(), PlanId("plan_a".into())).unwrap();
    assert_eq!(first, PlanId("plan_a".into()));
    assert_eq!(made.expect("a plan to store").graph, graph());
    let (second, made) = stored_submission(Some(first.clone()), graph(), PlanId("plan_b".into())).unwrap();
    assert_eq!(first, second);
    assert!(made.is_none(), "nothing is built for a known plan");
    let cyclic = PlanGraph { deliverables: vec![deliverable("a", &[], &["a"])], max_chained_dispatch: None };
    assert!(matches!(
        stored_submission(None, cyclic, PlanId("plan_c".into())),
        Err(PlannerError::InvalidGraph { .. })
    ));
}

#[test]
fn mutate_plan_persists_statuses_and_locks() {
    let now = wall();
    let plan_id = PlanId("plan_a".into());
    let mut stored = StoredPlan::new(plan_state_with_one_ready());
    stored.state.slots[0].status = DeliverableStatus::InProgress;
    stored.state.slots[0].lock = Some(LockInfo {
        plan_id: plan_id.clone(),
        deliverable_id: "d1".to_string(),
        caller_id: CallerId("c1".to_string()),
        acquired_at: now,
        expires_at: now + seconds(60),
    });

    let back = StoredPlan::restore(
        &plan_id,
        stored.state.graph.clone(),
        stored.state.cached_result.clone(),
        &stored.to_status_rows(),
        &stored.to_lock_rows(),
    )
    .unwrap();
    assert_eq!(back.state.slots[0].status, DeliverableStatus::InProgress);
    let lock = back.state.slots[0].lock.as_ref().expect("lock persisted");
    assert_eq!(lock.caller_id, CallerId("c1".to_string()));
    assert_eq!(lock.expires_at, now + seconds(60));
    assert_eq!(back.state.graph.deliverables[0].owned_files, vec!["src/a.rs".to_string()]);
    assert!(back.stray_ids.is_empty());
}

#[test]
fn mutate_plan_error_rolls_back() {
    let plan_id = PlanId("plan_a".into());
    let mut stored = StoredPlan::new(plan_state_with_one_ready());
    let lease = PlanRequest::AcquireCohort { plan_id: plan_id.clone(), caller_id: caller("c0"), max_count: 1 };
    stored_call(&mut stored, lease, 0, 10).unwrap();
    let rows = format!("{:?} {:?}", stored.to_status_rows(), stored.to_lock_rows());
    let mark = PlanRequest::MarkStatus {
        plan_id,
        deliverable_id: "d1".to_string(),
        caller_id: caller("c1"),
        status: DeliverableStatus::Complete,
    };
    assert!(matches!(stored_call(&mut stored, mark, 0, 10), Err(PlannerError::LockNotHeld { .. })));
    assert_eq!(format!("{:?} {:?}", stored.to_status_rows(), stored.to_lock_rows()), rows);
}

#[test]
fn unknown_plan_is_plan_not_found() {
    let missing = PlanId("plan_missing".into());
    let err = plan_or_refusal(&missing, None);
    assert!(matches!(err, Err(PlannerError::PlanNotFound { .. })));
    assert!(plan_or_refusal(&missing, Some(StoredPlan::new(plan_state_with_one_ready()))).is_ok());
}

fn lock_row(id: &str, who: &str, end: i64) -> LockRow {
    LockRow { deliverable_id: id.to_string(), caller_id: who.to_string(), acquired_at_us: 0, expires_at_us: end }
}

#[test]
fn leases_on_unknown_deliverables_are_kept() {
    let state = plan_state_with_one_ready();
    let id = PlanId("p".to_string());
    let mut statuses = state.to_status_rows();
    statuses.push(StatusRow {
        deliverable_id: "gone".to_string(),
        status: DeliverableStatus::InProgress,
        attempt_count: 2,
        failure_count: 0,
        lapse_count: 0,
    });
    let locks = vec![lock_row("gone", "c", 10), lock_row("lost", "c", 30)];
    let mut stored =
        StoredPlan::restore(&id, state.graph.clone(), state.cached_result.clone(), &statuses, &locks).unwrap();
    assert_eq!(stored.stray_ids, vec!["gone", "lost"]);

    let snapshot = |stored: &mut StoredPlan| match stored_call(stored, PlanRequest::Status { plan_id: id.clone() }, 0, 0) {
        Ok((PlanResponse::Snapshot(status), _)) => status,
        other => panic!("unexpected answer {other:?}"),
    };
    let status = snapshot(&mut stored);
    assert_eq!(status.deliverables.len(), 1);
    assert_eq!(status.locks_held.len(), 2);

    let beat = |who: &str, d: &str| PlanRequest::Heartbeat {
        plan_id: id.clone(),
        deliverable_id: d.to_string(),
        caller_id: caller(who),
    };
    assert!(stored_call(&mut stored, beat("c", "lost"), 5, 40).is_ok());
    assert!(matches!(stored_call(&mut stored, beat("x", "lost"), 5, 40), Err(PlannerError::LockNotHeld { .. })));
    assert!(matches!(stored_call(&mut stored, beat("c", "gone"), 11, 40), Err(PlannerError::LockExpired { .. })));
    assert!(matches!(stored_call(&mut stored, beat("c", "none"), 5, 40), Err(PlannerError::LockNotHeld { .. })));
    let release =
        PlanRequest::ForceRelease { plan_id: id.clone(), deliverable_id: "lost".to_string(), reason: "r".to_string() };
    assert!(matches!(stored_call(&mut stored, release, 5, 40), Err(PlannerError::DeliverableNotFound { .. })));

    let lease = PlanRequest::AcquireCohort { plan_id: id.clone(), caller_id: caller("c"), max_count: 5 };
    let (answer, records) = stored_call(&mut stored, lease, 20, 50).unwrap();
    assert!(matches!(answer, PlanResponse::Acquired { exhausted: false, .. }));
    let types: Vec<&str> = records.iter().map(|r| r.event_type.as_str()).collect();
    assert_eq!(types, vec!["plan.lock.expired", "plan.lock.acquired"]);
    let held = snapshot(&mut stored).locks_held;
    assert_eq!(held.iter().map(|l| l.deliverable_id.as_str()).collect::<Vec<_>>(), vec!["d1", "lost"]);
    assert_eq!(held[1].expires_at, 40);

    let rows = stored.to_status_rows();
    assert_eq!(rows[1].deliverable_id, "gone");
    assert_eq!((rows[1].status.clone(), rows[1].attempt_count, rows[1].lapse_count), (DeliverableStatus::Ready, 2, 1));
    assert_eq!(stored.to_lock_rows().len(), 2);
    let back = StoredPlan::restore(&id, state.graph, state.cached_result, &rows, &stored.to_lock_rows()).unwrap();
    assert_eq!(format!("{back:?}"), format!("{stored:?}"));
}

#[test]
fn stored_counters_and_reasons_come_back() {
    let mut state = plan_state_with_one_ready();
    state.slots[0].status = DeliverableStatus::Failed { reason: "broke".to_string() };
    state.slots[0].attempts = 4;
    state.slots[0].failures = 2;
    state.slots[0].lapses = 1;
    let (statuses, locks) = (state.to_status_rows(), state.to_lock_rows());
    let id = PlanId("p".to_string());
    let back = PlanState::restore(&id, state.graph.clone(), state.cached_result.clone(), &statuses, &locks).unwrap();
    assert_eq!(back.slots[0].status, DeliverableStatus::Failed { reason: "broke".to_string() });
    assert_eq!((back.attempt_count("d1"), back.failure_count("d1"), back.lapse_count("d1")), (4, 2, 1));
    assert_eq!((back.attempt_count("x"), back.failure_count("x"), back.lapse_count("x")), (0, 0, 0));
}

#[test]
fn damaged_rows_are_refused() {
    let state = plan_state_with_one_ready();
    let id = PlanId("p".to_string());
    let read = |graph: PlanGraph, result: CriticalPathResult, statuses: Vec<StatusRow>, locks: Vec<LockRow>| {
        PlanState::restore(&id, graph, result, &statuses, &locks)
    };
    let graph = || state.graph.clone();
    let result = || state.cached_result.clone();

    assert!(read(graph(), result(), state.to_status_rows(), vec![]).is_ok());

    let mut twice = graph();
    twice.deliverables.push(deliverable("d1", &[], &[]));
    assert!(matches!(read(twice, result(), state.to_status_rows(), vec![]), Err(PlannerError::BackendError(_))));

    let late = LockRow {
        deliverable_id: "d1".to_string(),
        caller_id: "c".to_string(),
        acquired_at_us: 0,
        expires_at_us: i64::MAX,
    };
    match read(graph(), result(), state.to_status_rows(), vec![late]) {
        Err(PlannerError::BackendError(reason)) => assert!(reason.contains("expires_at_us"), "got: {reason}"),
        other => panic!("expected BackendError, got {other:?}"),
    }
}

#[test]
fn only_a_choice_needs_an_analysis() {
    let id = PlanId("p".to_string());
    let lease = |max_count| PlanRequest::AcquireCohort { plan_id: id.clone(), caller_id: caller("c"), max_count };
    let bare = |ids: &[&str]| {
        let graph = PlanGraph {
            deliverables: ids.iter().map(|d| deliverable(d, &[d], &[])).collect(),
            max_chained_dispatch: None,
        };
        let slot = Slot { status: DeliverableStatus::Ready, attempts: 0, failures: 0, lapses: 0, lock: None };
        StoredPlan::new(PlanState::new(graph, vec![slot; ids.len()], CriticalPathResult::default()))
    };
    let mut stored = bare(&["d1", "d2"]);
    match stored_call(&mut stored, lease(1), 0, 1) {
        Err(PlannerError::BackendError(reason)) => assert!(reason.contains("does not rank"), "got: {reason}"),
        other => panic!("expected BackendError, got {other:?}"),
    }
    assert_eq!(stored.state.slots[0].status, DeliverableStatus::Ready);

    // One that is ready needs no rank, and nothing ready needs none either.
    let mut stored = bare(&["d1"]);
    assert!(matches!(stored_call(&mut stored, lease(1), 0, 9), Ok((PlanResponse::Acquired { exhausted: false, .. }, _))));
    assert!(matches!(stored_call(&mut stored, lease(1), 0, 9), Ok((PlanResponse::Acquired { exhausted: true, .. }, _))));

    let mut stored = StoredPlan::new(build_plan(bare(&["d1", "d2"]).state.graph).unwrap());
    assert!(matches!(stored_call(&mut stored, lease(1), 0, 1), Ok((PlanResponse::Acquired { exhausted: false, .. }, _))));
}

#[test]
fn times_outside_the_calendar_are_refused() {
    let last: i64 = 8_210_266_876_799_999_999;
    let first: i64 = -8_334_601_228_800_000_000;
    assert_eq!(dt_from_micros(last, "c"), Ok(last));
    assert_eq!(dt_from_micros(first, "c"), Ok(first));
    assert!(matches!(dt_from_micros(last + 1, "c"), Err(PlannerError::BackendError(_))));
    assert!(matches!(dt_from_micros(first - 1, "c"), Err(PlannerError::BackendError(_))));
    assert!(chrono::DateTime::from_timestamp_micros(last).is_some());
    assert!(chrono::DateTime::from_timestamp_micros(last + 1).is_none());
    assert!(chrono::DateTime::from_timestamp_micros(first - 1).is_none());
}

#[test]
fn quarantine_frees_work_that_nobody_holds() {
    let mut state = plan_state_with_one_ready();
    state.slots[0].status = DeliverableStatus::InProgress;
    assert_eq!(state.quarantine_expired(wall()), 0);
    assert_eq!(state.slots[0].status, DeliverableStatus::Ready);
    assert_eq!(state.slots[0].lapses, 0);
}

#[test]
fn reaping_twice_changes_nothing_more() {
    let mut state = build_plan(plan_state_with_one_ready().graph).unwrap();
    let id = PlanId("p".to_string());
    state.acquire_cohort(&id, &caller("c"), 1, 0, 10).unwrap();
    assert_eq!(state.reap_expired(10).len(), 0);
    assert_eq!(state.reap_expired(11).len(), 1);
    assert_eq!(state.reap_expired(11).len(), 0);
    assert_eq!(state.slots[0].lapses, 1);
}

fn requests(id: &PlanId) -> Vec<PlanRequest> {
    let d1 = || "d1".to_string();
    vec![
        PlanRequest::AcquireCohort { plan_id: id.clone(), caller_id: caller("c"), max_count: 3 },
        PlanRequest::Heartbeat { plan_id: id.clone(), deliverable_id: d1(), caller_id: caller("c") },
        PlanRequest::Heartbeat { plan_id: id.clone(), deliverable_id: d1(), caller_id: caller("x") },
        PlanRequest::ForceRelease { plan_id: id.clone(), deliverable_id: d1(), reason: "r".to_string() },
        PlanRequest::MarkStatus {
            plan_id: id.clone(),
            deliverable_id: d1(),
            caller_id: caller("c"),
            status: DeliverableStatus::Complete,
        },
        PlanRequest::Status { plan_id: id.clone() },
    ]
}

#[test]
fn stored_plans_answer_like_plans_in_memory() {
    let now = wall();
    let mut planner = BasicCpmPlanner::new();
    let id = PlanId("plan_1".to_string());
    planner.submit_as(chain_graph(), id.clone()).unwrap();
    let mut stored = StoredPlan::new(build_plan(chain_graph()).unwrap());
    for (a, b) in requests(&id).into_iter().zip(requests(&id)) {
        assert_eq!(request_target(&a), Some(id.clone()));
        let in_memory = dispatch_call(&mut planner, a, now);
        let records = planner.take_records();
        match (in_memory, stored_call(&mut stored, b, now, now + DEFAULT_LEASE)) {
            (Ok(x), Ok((y, written))) => {
                assert_eq!(format!("{x:?}"), format!("{y:?}"));
                assert_eq!(records, written);
            }
            (Err(x), Err(y)) => assert_eq!(x, y),
            (x, y) => panic!("{x:?} differs from {y:?}"),
        }
    }
    assert_eq!(stored.state.slots[0].status, DeliverableStatus::Complete);
    assert_eq!(stored.state.slots[1].status, DeliverableStatus::Ready);
}

#[test]
fn submissions_are_keyed_by_their_hash() {
    assert_eq!(submission_key(&chain_graph()), Ok(hash_graph(&chain_graph())));
    let cyclic = PlanGraph { deliverables: vec![deliverable("a", &[], &["a"])], max_chained_dispatch: None };
    assert!(matches!(submission_key(&cyclic), Err(PlannerError::InvalidGraph { .. })));
    let submit = PlanRequest::Submit { graph: chain_graph() };
    assert_eq!(request_target(&submit), None);
    let mut stored = StoredPlan::new(plan_state_with_one_ready());
    assert!(matches!(stored_call(&mut stored, submit, 0, 1), Err(PlannerError::BackendError(_))));
    let other = PlanRequest::Status { plan_id: PlanId("p".to_string()) };
    assert!(matches!(stored_call(&mut stored, other, 0, 1), Ok((PlanResponse::Snapshot(_), _))));
}

#[test]
fn rows_are_swept_as_slots_are() {
    let lock = |end: i64| LockInfo {
        plan_id: PlanId("p".to_string()),
        deliverable_id: "d1".to_string(),
        caller_id: caller("c"),
        acquired_at: 0,
        expires_at: end,
    };
    assert_eq!(sweep_row(true, None, 5), Sweep::Orphaned);
    assert_eq!(sweep_row(false, None, 5), Sweep::Keep);
    assert_eq!(sweep_row(true, Some(4), 5), Sweep::Lapsed);
    assert_eq!(sweep_row(false, Some(5), 5), Sweep::Keep);
    let mut state = plan_state_with_one_ready();
    state.slots[0].status = DeliverableStatus::InProgress;
    state.slots[0].lock = Some(lock(4));
    assert_eq!(state.quarantine_expired(5), 1);
    assert_eq!((state.slots[0].status.clone(), state.slots[0].lapses), (DeliverableStatus::Ready, 1));
    state.slots[0].lock = Some(lock(5));
    assert_eq!(state.quarantine_expired(5), 0);
    assert!(state.slots[0].lock.is_some());
}
