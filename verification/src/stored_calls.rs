//! Requests on a plan that was read from a store.

use vstd::prelude::*;
use vstd::string::*;

use crate::audit::{AuditRecord, RecordView};
use crate::cohort::{acquire_outcome, acquire_records, append_records, selection};
use crate::hash::{graph_hash, hash_graph};
use crate::index::{lemma_position, position};
use crate::lifecycle::{
    beat_slot, extend_lease, heartbeat_outcome, held_locks, list_held, mark_outcome, mark_records, release_outcome,
    release_records, snapshot_of,
};
use crate::locks::{
    expired_records, lapsed_locks, plan_ok, reap_slots, reaped, record_expired, PlanState, SlotView,
};
use crate::plan::{
    deliverable_ids, find_deliverable, CallerId, ErrorView, GraphView, PlanGraph, PlanId, PlannerError, SnapshotView,
    StatusView,
};
use crate::plan_laws::plan_sound;
use crate::plan_store::{requests_keep_plans_storable, valid_stamp};
use crate::planner::{submit_outcome, PlannerView};
use crate::server::{request_outcome, OkResponse, PlanRequest, PlanResponse, ResponseView};
use crate::stored_plan::{bare, stored_ok, whole_storable, StoredPlan, StoredView};
use crate::submit::{build_plan, submission};
use crate::text::same_text;
use crate::validate::{rejection, validate_graph};

verus! {

/// The key under which a store knows the plan of a graph: the graph's hash. A
/// graph that is rejected has none.
pub fn submission_key(graph: &PlanGraph) -> (r: Result<String, PlannerError>)
    ensures
        match rejection(graph.deep_view()) {
            Some(reason) => r matches Err(e) && e.deep_view() == (ErrorView::InvalidGraph { reason }),
            None => r matches Ok(key) && key@ == graph_hash(graph.deep_view()),
        },
{
    match validate_graph(graph) {
        Ok(_) => Ok(hash_graph(graph)),
        Err(e) => Err(e),
    }
}

/// The plan that a request is about.
pub open spec fn target_of(request: PlanRequest) -> Option<Seq<char>> {
    match request {
        PlanRequest::Submit { .. } => None,
        PlanRequest::AcquireCohort { plan_id, .. } => Some(plan_id.0@),
        PlanRequest::Heartbeat { plan_id, .. } => Some(plan_id.0@),
        PlanRequest::MarkStatus { plan_id, .. } => Some(plan_id.0@),
        PlanRequest::Status { plan_id } => Some(plan_id.0@),
        PlanRequest::ForceRelease { plan_id, .. } => Some(plan_id.0@),
    }
}

/// The plan that a request is about. A submission is about none yet.
pub fn request_target(request: &PlanRequest) -> (r: Option<PlanId>)
    ensures
        match target_of(*request) {
            Some(id) => r matches Some(x) && x.0@ == id,
            None => r is None,
        },
{
    match request {
        PlanRequest::Submit { .. } => None,
        PlanRequest::AcquireCohort { plan_id, .. } => Some(plan_id.clone()),
        PlanRequest::Heartbeat { plan_id, .. } => Some(plan_id.clone()),
        PlanRequest::MarkStatus { plan_id, .. } => Some(plan_id.clone()),
        PlanRequest::Status { plan_id } => Some(plan_id.clone()),
        PlanRequest::ForceRelease { plan_id, .. } => Some(plan_id.clone()),
    }
}

/// What a heartbeat on a deliverable that is not in the graph changes, or the
/// refusal, which changes nothing.
pub open spec fn stray_heartbeat(v: StoredView, id: Seq<char>, caller_id: Seq<char>, now: i64, expires_at: i64) -> Result<StoredView, ErrorView> {
    let k = position(v.stray_ids, id);
    if k >= v.stray_slots.len() {
        Err(ErrorView::LockNotHeld { caller_id, deliverable_id: id })
    } else {
        match beat_slot(v.stray_slots[k], id, caller_id, now, expires_at) {
            Ok(slot) => Ok(StoredView { stray_slots: v.stray_slots.update(k, slot), ..v }),
            Err(e) => Err(e),
        }
    }
}

/// The snapshot of a stored plan. All leases are listed.
pub open spec fn stored_snapshot(v: StoredView, plan_id: Seq<char>) -> SnapshotView {
    let snapshot = snapshot_of(v.plan, plan_id);
    SnapshotView { locks_held: snapshot.locks_held + held_locks(v.stray_slots, v.stray_slots.len()), ..snapshot }
}

/// What a request makes of the plan it is about: the plan afterwards, the
/// answer and what to record, or the refusal, which changes nothing.
pub open spec fn stored_outcome(v: StoredView, request: PlanRequest, now: i64, expires_at: i64) -> Result<(StoredView, ResponseView, Seq<RecordView>), ErrorView> {
    let plan = v.plan;
    let ids = deliverable_ids(plan.graph);
    match request {
        PlanRequest::Submit { .. } => Err(not_about_a_plan()),
        PlanRequest::AcquireCohort { plan_id, caller_id, max_count } => match acquire_outcome(
            plan,
            plan_id.0@,
            caller_id.0@,
            max_count as nat,
            now,
            expires_at,
        ) {
            Ok((after, cohort)) => Ok(
                (
                    StoredView { plan: after, stray_slots: reaped(v.stray_slots, now), ..v },
                    ResponseView::Acquired { cohort, exhausted: cohort.rows.len() == 0 },
                    expired_records(lapsed_locks(v.stray_slots, now, v.stray_slots.len()), now) + acquire_records(
                        plan,
                        selection(plan, now, max_count as nat),
                        plan_id.0@,
                        caller_id.0@,
                        now,
                        expires_at,
                    ),
                ),
            ),
            Err(e) => Err(e),
        },
        PlanRequest::Heartbeat { plan_id, deliverable_id, caller_id } => if ids.contains(deliverable_id@) {
            match heartbeat_outcome(plan, deliverable_id@, caller_id.0@, now, expires_at) {
                Ok(after) => Ok((StoredView { plan: after, ..v }, ResponseView::Done { ok: true }, Seq::empty())),
                Err(e) => Err(e),
            }
        } else {
            match stray_heartbeat(v, deliverable_id@, caller_id.0@, now, expires_at) {
                Ok(after) => Ok((after, ResponseView::Done { ok: true }, Seq::empty())),
                Err(e) => Err(e),
            }
        },
        PlanRequest::MarkStatus { plan_id, deliverable_id, caller_id, status } => match mark_outcome(
            plan,
            plan_id.0@,
            deliverable_id@,
            caller_id.0@,
            status.deep_view(),
        ) {
            Ok(after) => Ok(
                (
                    StoredView { plan: after, ..v },
                    ResponseView::Done { ok: true },
                    mark_records(plan.slots[position(ids, deliverable_id@)], status.deep_view()),
                ),
            ),
            Err(e) => Err(e),
        },
        PlanRequest::Status { plan_id } => Ok(
            (v, ResponseView::Snapshot { status: stored_snapshot(v, plan_id.0@) }, Seq::empty()),
        ),
        PlanRequest::ForceRelease { plan_id, deliverable_id, reason } => match release_outcome(
            plan,
            plan_id.0@,
            deliverable_id@,
        ) {
            Ok(after) => Ok(
                (
                    StoredView { plan: after, ..v },
                    ResponseView::Done { ok: true },
                    release_records(plan.slots[position(ids, deliverable_id@)], reason@),
                ),
            ),
            Err(e) => Err(e),
        },
    }
}

/// The refusal for a request that is not about a plan.
pub open spec fn not_about_a_plan() -> ErrorView {
    ErrorView::BackendError { reason: "a submission is not a request on a stored plan"@ }
}

/// Extends a lease on a deliverable that is not in the graph.
fn beat_stray(stored: &mut StoredPlan, deliverable_id: &str, caller_id: &CallerId, now: i64, expires_at: i64) -> (r: Result<(), PlannerError>)
    requires
        stored_ok(old(stored).deep_view()),
    ensures
        stored_ok(final(stored).deep_view()),
        match stray_heartbeat(old(stored).deep_view(), deliverable_id@, caller_id.0@, now, expires_at) {
            Ok(after) => r is Ok && final(stored).deep_view() == after,
            Err(e) => {
                &&& r matches Err(x)
                &&& x.deep_view() == e
                &&& final(stored).deep_view() == old(stored).deep_view()
            },
        },
{
    let ghost v = stored.deep_view();
    let ghost ids = v.stray_ids;
    assert(ids.len() == stored.stray_ids.len());
    assert(v.stray_slots.len() == stored.stray_slots.len());
    proof {
        let known = deliverable_ids(v.plan.graph);
        let all = known + ids;
        assert forall|a: int, b: int| 0 <= a < ids.len() && 0 <= b < ids.len() && a != b implies ids[a] != ids[b] by {
            assert(all[known.len() + a] == ids[a] && all[known.len() + b] == ids[b]);
        }
    }
    let n: usize = stored.stray_ids.len();
    for k in 0..n
        invariant
            n == stored.stray_ids.len(),
            *stored == *old(stored),
            v == stored.deep_view(),
            ids == v.stray_ids,
            ids.no_duplicates(),
            stored_ok(v),
            stored.stray_ids.len() == stored.stray_slots.len(),
            forall|a: int| 0 <= a < k ==> #[trigger] ids[a] != deliverable_id@,
    {
        assert(ids[k as int] == stored.stray_ids[k as int]@);
        if same_text(stored.stray_ids[k].as_str(), deliverable_id) {
            assert(v.stray_slots[k as int] == stored.stray_slots[k as int].deep_view());
            proof {
                lemma_position(ids, k as int);
            }
            return match extend_lease(&stored.stray_slots[k], deliverable_id, caller_id, now, expires_at) {
                Ok(slot) => {
                    let ghost held = slot.deep_view();
                    stored.stray_slots.set(k, slot);
                    assert(stored.stray_slots.deep_view() =~= v.stray_slots.update(k as int, held));
                    Ok(())
                },
                Err(e) => Err(e),
            };
        }
    }
    Err(
        PlannerError::LockNotHeld {
            caller_id: caller_id.0.clone(),
            deliverable_id: String::from_str(deliverable_id),
        },
    )
}

/// Carries out a request on the plan it is about, with leases that last until
/// `expires_at`. Returns the answer and what to record.
pub fn stored_call(stored: &mut StoredPlan, request: PlanRequest, now: i64, expires_at: i64) -> (r: Result<(PlanResponse, Vec<AuditRecord>), PlannerError>)
    requires
        stored_ok(old(stored).deep_view()),
    ensures
        stored_ok(final(stored).deep_view()),
        match stored_outcome(old(stored).deep_view(), request, now, expires_at) {
            Ok((after, response, records)) => {
                &&& r matches Ok((x, y))
                &&& final(stored).deep_view() == after
                &&& x.deep_view() == response
                &&& y.deep_view() == records
            },
            Err(e) => {
                &&& r matches Err(x)
                &&& x.deep_view() == e
                &&& final(stored).deep_view() == old(stored).deep_view()
            },
        },
{
    let ghost v = stored.deep_view();
    match request {
        PlanRequest::Submit { .. } => Err(
            PlannerError::BackendError(String::from_str("a submission is not a request on a stored plan")),
        ),
        PlanRequest::AcquireCohort { plan_id, caller_id, max_count } => match stored.state.acquire_cohort(
            &plan_id,
            &caller_id,
            max_count,
            now,
            expires_at,
        ) {
            Ok((cohort, leases)) => {
                let (kept, gone) = reap_slots(&stored.stray_slots, now);
                let mut records = record_expired(&gone, now);
                append_records(&mut records, leases);
                stored.stray_slots = kept;
                let exhausted = cohort.exhausted();
                Ok((PlanResponse::Acquired { cohort, exhausted }, records))
            },
            Err(e) => Err(e),
        },
        PlanRequest::Heartbeat { plan_id: _, deliverable_id, caller_id } => {
            assert(deliverable_ids(v.plan.graph).len() == stored.state.graph.deliverables.len());
            let found: usize = find_deliverable(&stored.state.graph, deliverable_id.as_str());
            let beat = if found < stored.state.graph.deliverables.len() {
                stored.state.heartbeat(deliverable_id.as_str(), &caller_id, now, expires_at)
            } else {
                beat_stray(stored, deliverable_id.as_str(), &caller_id, now, expires_at)
            };
            match beat {
                Ok(_) => {
                    let records: Vec<AuditRecord> = Vec::new();
                    assert(records.deep_view() =~= Seq::empty());
                    Ok((PlanResponse::Done(OkResponse::new()), records))
                },
                Err(e) => Err(e),
            }
        },
        PlanRequest::MarkStatus { plan_id, deliverable_id, caller_id, status } => match stored.state.mark_status(
            &plan_id,
            deliverable_id.as_str(),
            &caller_id,
            status,
        ) {
            Ok(records) => Ok((PlanResponse::Done(OkResponse::new()), records)),
            Err(e) => Err(e),
        },
        PlanRequest::Status { plan_id } => {
            let mut status = stored.state.status(&plan_id);
            let ghost held = status.locks_held.deep_view();
            let mut more = list_held(&stored.stray_slots);
            let ghost strays = more.deep_view();
            status.locks_held.append(&mut more);
            assert(status.locks_held.deep_view() =~= held + strays);
            let records: Vec<AuditRecord> = Vec::new();
            assert(records.deep_view() =~= Seq::empty());
            Ok((PlanResponse::Snapshot(status), records))
        },
        PlanRequest::ForceRelease { plan_id, deliverable_id, reason } => match stored.state.force_release(
            &plan_id,
            deliverable_id.as_str(),
            reason.as_str(),
        ) {
            Ok(records) => Ok((PlanResponse::Done(OkResponse::new()), records)),
            Err(e) => Err(e),
        },
    }
}

/// The plan that a store found for a request, or the refusal where it found
/// none.
pub fn plan_or_refusal(plan_id: &PlanId, found: Option<StoredPlan>) -> (r: Result<StoredPlan, PlannerError>)
    ensures
        match found {
            Some(stored) => r == Ok::<StoredPlan, PlannerError>(stored),
            None => r matches Err(e) && e.deep_view() == (ErrorView::PlanNotFound { plan_id: plan_id.0@ }),
        },
{
    match found {
        Some(stored) => Ok(stored),
        None => Err(PlannerError::PlanNotFound { plan_id: plan_id.0.clone() }),
    }
}

/// What submitting a graph to a store makes: the id of the plan, and the plan
/// to store where it is new.
pub fn stored_submission(known: Option<PlanId>, graph: PlanGraph, fresh: PlanId) -> (r: Result<(PlanId, Option<PlanState>), PlannerError>)
    requires
        graph.deliverables.len() <= isize::MAX,
    ensures
        match known {
            Some(id) => r matches Ok((x, y)) && x.0@ == id.0@ && y is None,
            None => match submission(graph.deep_view()) {
                Ok(plan) => {
                    &&& r matches Ok((x, y))
                    &&& x.0@ == fresh.0@
                    &&& y matches Some(state)
                    &&& state.deep_view() == plan
                    &&& plan_ok(plan)
                },
                Err(e) => r matches Err(x) && x.deep_view() == e,
            },
        },
{
    match known {
        Some(id) => Ok((id, None)),
        None => match build_plan(graph) {
            Ok(state) => Ok((fresh, Some(state))),
            Err(e) => Err(e),
        },
    }
}

/// A store that remembers each plan by its key answers a submission as a
/// planner does that keeps its plans in memory.
pub proof fn stored_submissions_answer_alike(v: PlannerView, graph: GraphView, fresh: Seq<char>)
    ensures
        rejection(graph) is None ==> submit_outcome(v, graph, fresh) == (if v.dedup.contains_key(graph_hash(graph)) {
            (v, Ok::<Seq<char>, ErrorView>(v.dedup[graph_hash(graph)]))
        } else {
            (
                PlannerView {
                    plans: v.plans.insert(fresh, submission(graph)->Ok_0),
                    dedup: v.dedup.insert(graph_hash(graph), fresh),
                    ..v
                },
                Ok::<Seq<char>, ErrorView>(fresh),
            )
        }),
        rejection(graph) matches Some(reason) ==> submit_outcome(v, graph, fresh) == (v, Err::<Seq<char>, ErrorView>(
            ErrorView::InvalidGraph { reason },
        )),
{
}

/// Every request on a plan that can be stored leaves a plan that can, where its
/// times can be stored.
pub proof fn stored_requests_keep_plans_storable(v: StoredView, request: PlanRequest, now: i64, expires_at: i64, plan_id: Seq<char>)
    requires
        stored_ok(v),
        whole_storable(v, plan_id),
        target_of(request) == Some(plan_id),
        valid_stamp(now),
        valid_stamp(expires_at),
    ensures
        stored_outcome(v, request, now, expires_at) matches Ok((after, response, records)) ==> whole_storable(after, plan_id),
{
    let plan = v.plan;
    match request {
        PlanRequest::AcquireCohort { plan_id: p, caller_id, max_count } => {
            requests_keep_plans_storable(plan, plan_id, Seq::empty(), caller_id.0@, max_count as nat, now, expires_at, StatusView::Ready);
        },
        PlanRequest::Heartbeat { plan_id: p, deliverable_id, caller_id } => {
            requests_keep_plans_storable(plan, plan_id, deliverable_id@, caller_id.0@, 0, now, expires_at, StatusView::Ready);
        },
        PlanRequest::MarkStatus { plan_id: p, deliverable_id, caller_id, status } => {
            requests_keep_plans_storable(plan, plan_id, deliverable_id@, caller_id.0@, 0, now, expires_at, status.deep_view());
        },
        PlanRequest::ForceRelease { plan_id: p, deliverable_id, reason } => {
            requests_keep_plans_storable(plan, plan_id, deliverable_id@, Seq::empty(), 0, now, expires_at, StatusView::Ready);
        },
        _ => {},
    }
    if let Ok((after, response, records)) = stored_outcome(v, request, now, expires_at) {
        assert forall|i: int| 0 <= i < after.stray_slots.len() implies ((#[trigger] after.stray_slots[i]).lock matches Some(l) ==> {
            &&& l.plan_id == plan_id
            &&& valid_stamp(l.acquired_at)
            &&& valid_stamp(l.expires_at)
        }) by {
            assert(v.stray_slots[i].lock matches Some(l) ==> l.plan_id == plan_id);
        }
    }
}

/// A plan in a store answers every request as it would in memory, and becomes
/// the same plan.
pub proof fn stored_plans_answer_alike(v: PlannerView, request: PlanRequest, now: i64, fresh: Seq<char>, id: Seq<char>)
    requires
        target_of(request) == Some(id),
        v.plans.contains_key(id),
        plan_sound(v.plans[id]),
        now + v.ttl <= i64::MAX,
    ensures
        match stored_outcome(bare(v.plans[id]), request, now, (now + v.ttl) as i64) {
            Ok((after, response, records)) => {
                &&& request_outcome(v, request, now, fresh).1 == Ok::<ResponseView, ErrorView>(response)
                &&& request_outcome(v, request, now, fresh).0 == (PlannerView {
                    plans: v.plans.insert(id, after.plan),
                    outbox: v.outbox + records,
                    ..v
                })
                &&& after == bare(after.plan)
            },
            Err(e) => request_outcome(v, request, now, fresh) == (v, Err::<ResponseView, ErrorView>(e)),
        },
{
    let none = Seq::<SlotView>::empty();
    let plan = v.plans[id];
    assert(v.outbox + Seq::<RecordView>::empty() =~= v.outbox);
    assert(v.plans.insert(id, v.plans[id]) =~= v.plans);
    assert(reaped(none, now) =~= none);
    assert(lapsed_locks(none, now, 0) =~= Seq::empty());
    assert(expired_records(lapsed_locks(none, now, 0), now) =~= Seq::empty());
    assert(held_locks(none, 0) =~= Seq::empty());
    let held = snapshot_of(plan, id).locks_held;
    assert(held + held_locks(none, 0) =~= held);
    if let PlanRequest::AcquireCohort { plan_id, caller_id, max_count } = request {
        let records = acquire_records(
            plan,
            selection(plan, now, max_count as nat),
            plan_id.0@,
            caller_id.0@,
            now,
            (now + v.ttl) as i64,
        );
        assert(expired_records(lapsed_locks(none, now, 0), now) + records =~= records);
    }
}

} // verus!
