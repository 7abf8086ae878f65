//! What a request does to a planner, in terms of its plans.

use vstd::prelude::*;

use crate::analysis_laws::how_many;
use crate::audit::{PayloadView, RecordView};
use crate::cohort::{acquire_outcome, broken_records, lease_records, selection, tripped};
use crate::index::lemma_position;
use crate::lease_laws::{lemma_available_waiting, new_lease, ran_out, rows_are_new_leases, waiting};
use crate::lifecycle::{heartbeat_outcome, mark_outcome, release_outcome, snapshot_of};
use crate::locks::{expired_records, lapsed, lapsed_locks, plan_ok, reaped, PlanView, SlotView};
use crate::plan::{deliverable_ids, CallerId, DeliverableStatus, ErrorView, LockView, PlanGraph, PlanId, RowView};
use crate::planner::PlannerView;
use crate::progress_laws::{
    forced_releases_free_the_work, has_work, heartbeats_extend_live_leases, marks_are_taken_from_the_holder,
};
use crate::server::{request_outcome, PlanRequest, ResponseView};
use crate::stored_calls::target_of;

verus! {

/// A request on a plan that does not exist is refused as such.
pub proof fn unknown_plans_are_refused(v: PlannerView, request: PlanRequest, now: i64, fresh: Seq<char>, id: Seq<char>)
    requires
        !v.plans.contains_key(id),
        target_of(request) == Some(id),
    ensures
        request_outcome(v, request, now, fresh) == (v, Err::<ResponseView, ErrorView>(ErrorView::PlanNotFound { plan_id: id })),
{
}

/// A refused request changes nothing.
pub proof fn refusals_change_nothing(v: PlannerView, request: PlanRequest, now: i64, fresh: Seq<char>)
    ensures
        request_outcome(v, request, now, fresh).1 is Err ==> request_outcome(v, request, now, fresh).0 == v,
{
}

/// Asking for the status changes nothing and is answered with the snapshot.
pub proof fn status_changes_nothing(v: PlannerView, plan_id: PlanId, now: i64, fresh: Seq<char>)
    requires
        v.plans.contains_key(plan_id.0@),
    ensures
        request_outcome(v, PlanRequest::Status { plan_id }, now, fresh) == (v, Ok::<ResponseView, ErrorView>(
            ResponseView::Snapshot { status: snapshot_of(v.plans[plan_id.0@], plan_id.0@) },
        )),
{
}

/// A request on a plan leaves every other plan, what was submitted and the
/// time to live as they were. What was recorded before stays recorded.
pub proof fn requests_touch_one_plan(v: PlannerView, request: PlanRequest, now: i64, fresh: Seq<char>, id: Seq<char>, other: Seq<char>)
    requires
        target_of(request) == Some(id),
        other != id,
    ensures
        ({
            let after = request_outcome(v, request, now, fresh).0;
            &&& after.ttl == v.ttl
            &&& after.dedup == v.dedup
            &&& after.plans.contains_key(other) == v.plans.contains_key(other)
            &&& v.plans.contains_key(other) ==> after.plans[other] == v.plans[other]
            &&& after.plans.contains_key(id) == v.plans.contains_key(id)
            &&& v.outbox.len() <= after.outbox.len()
            &&& after.outbox.take(v.outbox.len() as int) == v.outbox
        }),
{
    let after = request_outcome(v, request, now, fresh).0;
    assert(after.outbox.take(v.outbox.len() as int) =~= v.outbox);
}

/// A submission leaves the plans there are, the time to live and what was
/// recorded as they were.
pub proof fn submissions_keep_the_plans(v: PlannerView, graph: PlanGraph, now: i64, fresh: Seq<char>, id: Seq<char>)
    requires
        v.plans.contains_key(id),
        id != fresh,
    ensures
        ({
            let after = request_outcome(v, PlanRequest::Submit { graph }, now, fresh).0;
            &&& after.ttl == v.ttl
            &&& after.outbox == v.outbox
            &&& after.plans.contains_key(id)
            &&& after.plans[id] == v.plans[id]
        }),
{
}

/// A graph that makes a plan is answered with the id of a plan that is there
/// afterwards. Either the plan is new and under the new id, and nothing else
/// changes, or it was known before, and nothing changes. A graph that makes
/// none is refused for what is wrong with it.
pub proof fn submissions_lead_to_a_plan(v: PlannerView, graph: PlanGraph, now: i64, fresh: Seq<char>)
    requires
        crate::planner::hashes_lead_to_plans(v),
    ensures
        ({
            let (after, answer) = request_outcome(v, PlanRequest::Submit { graph }, now, fresh);
            match crate::submit::submission(graph.deep_view()) {
                Ok(plan) => answer matches Ok(ResponseView::Submitted { plan_id }) && {
                    &&& after.plans.contains_key(plan_id)
                    &&& after == v || (plan_id == fresh && after.plans == v.plans.insert(fresh, plan) && after.ttl == v.ttl && after.outbox == v.outbox)
                    &&& forall|h: Seq<char>| #[trigger] v.dedup.contains_key(h) ==> after.dedup.contains_key(h) && after.dedup[h] == v.dedup[h]
                },
                Err(e) => after == v && answer == Err::<ResponseView, ErrorView>(e),
            }
        }),
{
}

/// The record says that the lease on deliverable `i` ran out.
pub open spec fn tells_expiry(r: RecordView, plan: PlanView, now: i64, i: int) -> bool {
    plan.slots[i].lock matches Some(l) && {
        &&& r.event_type == "plan.lock.expired"@
        &&& r.actor == Some(l.caller_id)
        &&& (r.payload matches PayloadView::Expired { plan_id, deliverable_id, last_caller_id, expired_at } && plan_id == l.plan_id && deliverable_id == l.deliverable_id
            && last_caller_id == l.caller_id && expired_at == now)
    }
}

/// The record says that deliverable `i` was given up.
pub open spec fn tells_giving_up(r: RecordView, plan: PlanView, id: Seq<char>, i: int) -> bool {
    &&& r.event_type == "plan.deliverable.circuit_broken"@
    &&& r.actor is None
    &&& (r.payload matches PayloadView::CircuitBroken { plan_id, deliverable_id, failure_count, max_attempts } && plan_id == id
        && deliverable_id == plan.graph.deliverables[i].id && failure_count == plan.slots[i].failures && max_attempts == 3)
}

/// The record says that the row was leased.
pub open spec fn tells_lease(r: RecordView, row: RowView) -> bool {
    &&& r.event_type == "plan.lock.acquired"@
    &&& r.actor == Some(row.lock.caller_id)
    &&& (r.payload matches PayloadView::Acquired { plan_id, deliverable_id, caller_id, acquired_at, expires_at, owned_files } && plan_id == row.lock.plan_id
        && deliverable_id == row.lock.deliverable_id && caller_id == row.lock.caller_id && acquired_at == row.lock.acquired_at && expires_at == row.lock.expires_at
        && owned_files == row.deliverable.owned_files)
}

/// Deliverable `i` is given up when a cohort is asked for.
pub open spec fn given_up(plan: PlanView, now: i64, i: int) -> bool {
    waiting(plan, now, i) && plan.slots[i].failures >= 3
}

/// The records of lapsed leases are one for each.
proof fn lemma_expiries(plan: PlanView, now: i64, n: nat)
    requires
        n <= plan.slots.len(),
    ensures
        ({
            let list = expired_records(lapsed_locks(plan.slots, now, n), now);
            let p = |i: int| ran_out(plan, now, i);
            &&& list.len() == how_many(n, p)
            &&& forall|i: int| 0 <= i < n && #[trigger] ran_out(plan, now, i) ==> exists|k: int| 0 <= k < list.len() && tells_expiry(#[trigger] list[k], plan, now, i)
            &&& forall|k: int| 0 <= k < list.len() ==> expiry_told(#[trigger] list[k], plan, now, n as int)
        }),
    decreases n,
{
    if n > 0 {
        let m = (n - 1) as nat;
        lemma_expiries(plan, now, m);
        let rest = expired_records(lapsed_locks(plan.slots, now, m), now);
        let list = expired_records(lapsed_locks(plan.slots, now, n), now);
        assert(lapsed(plan.slots[n - 1], now) == ran_out(plan, now, n - 1));
        assert forall|k: int| 0 <= k < rest.len() implies list[k] == #[trigger] rest[k] by {}
        assert forall|i: int| 0 <= i < n && #[trigger] ran_out(plan, now, i) implies exists|k: int| 0 <= k < list.len() && tells_expiry(#[trigger] list[k], plan, now, i) by {
            if i < m {
                let k = choose|k: int| 0 <= k < rest.len() && tells_expiry(#[trigger] rest[k], plan, now, i);
                assert(tells_expiry(list[k], plan, now, i));
            } else {
                assert(tells_expiry(list[rest.len() as int], plan, now, i));
            }
        }
        assert forall|k: int| 0 <= k < list.len() implies expiry_told(#[trigger] list[k], plan, now, n as int) by {
            if k < rest.len() {
                assert(expiry_told(rest[k], plan, now, m as int));
                let i = choose|i: int| 0 <= i < m && #[trigger] ran_out(plan, now, i) && tells_expiry(rest[k], plan, now, i);
                assert(ran_out(plan, now, i) && tells_expiry(list[k], plan, now, i));
            } else {
                assert(ran_out(plan, now, n - 1) && tells_expiry(list[k], plan, now, n - 1));
            }
        }
    }
}

/// The record says that a lease among the first `n` ran out.
pub open spec fn expiry_told(r: RecordView, plan: PlanView, now: i64, n: int) -> bool {
    exists|i: int| 0 <= i < n && #[trigger] ran_out(plan, now, i) && tells_expiry(r, plan, now, i)
}

/// The record says that a deliverable among the first `n` was given up.
pub open spec fn giving_up_told(r: RecordView, plan: PlanView, id: Seq<char>, now: i64, n: int) -> bool {
    exists|i: int| 0 <= i < n && #[trigger] given_up(plan, now, i) && tells_giving_up(r, plan, id, i)
}

/// The records of deliverables given up are one for each.
proof fn lemma_giving_up(plan: PlanView, id: Seq<char>, now: i64, n: nat)
    requires
        plan_ok(plan),
        plan.slots.len() <= usize::MAX,
        n <= plan.slots.len(),
    ensures
        ({
            let list = broken_records(plan.graph, reaped(plan.slots, now), id, n);
            let p = |i: int| given_up(plan, now, i);
            &&& list.len() == how_many(n, p)
            &&& forall|i: int| 0 <= i < n && #[trigger] given_up(plan, now, i) ==> exists|k: int| 0 <= k < list.len() && tells_giving_up(#[trigger] list[k], plan, id, i)
            &&& forall|k: int| 0 <= k < list.len() ==> giving_up_told(#[trigger] list[k], plan, id, now, n as int)
        }),
    decreases n,
{
    if n > 0 {
        let m = (n - 1) as nat;
        let cleared = reaped(plan.slots, now);
        lemma_giving_up(plan, id, now, m);
        lemma_available_waiting(plan, now, n - 1);
        let rest = broken_records(plan.graph, cleared, id, m);
        let list = broken_records(plan.graph, cleared, id, n);
        assert(tripped(plan.graph, cleared, n - 1) == given_up(plan, now, n - 1));
        assert forall|k: int| 0 <= k < rest.len() implies list[k] == #[trigger] rest[k] by {}
        assert forall|i: int| 0 <= i < n && #[trigger] given_up(plan, now, i) implies exists|k: int| 0 <= k < list.len() && tells_giving_up(#[trigger] list[k], plan, id, i) by {
            if i < m {
                let k = choose|k: int| 0 <= k < rest.len() && tells_giving_up(#[trigger] rest[k], plan, id, i);
                assert(tells_giving_up(list[k], plan, id, i));
            } else {
                assert(tells_giving_up(list[rest.len() as int], plan, id, i));
            }
        }
        assert forall|k: int| 0 <= k < list.len() implies giving_up_told(#[trigger] list[k], plan, id, now, n as int) by {
            if k < rest.len() {
                assert(giving_up_told(rest[k], plan, id, now, m as int));
                let i = choose|i: int| 0 <= i < m && #[trigger] given_up(plan, now, i) && tells_giving_up(rest[k], plan, id, i);
                assert(given_up(plan, now, i) && tells_giving_up(list[k], plan, id, i));
            } else {
                assert(given_up(plan, now, n - 1) && tells_giving_up(list[k], plan, id, n - 1));
            }
        }
    }
}

/// Asking for a cohort leases it for the time to live: every row is a new
/// lease for the caller from now on. The answer says that nothing is left
/// exactly when it has no rows.
pub proof fn cohorts_are_leased_for_the_time_to_live(v: PlannerView, plan_id: PlanId, caller_id: CallerId, max_count: usize, now: i64, fresh: Seq<char>)
    requires
        v.plans.contains_key(plan_id.0@),
        plan_ok(v.plans[plan_id.0@]),
        v.plans[plan_id.0@].slots.len() <= usize::MAX,
        now + v.ttl <= i64::MAX,
    ensures
        ({
            let plan = v.plans[plan_id.0@];
            let outcome = request_outcome(v, PlanRequest::AcquireCohort { plan_id, caller_id, max_count }, now, fresh);
            match acquire_outcome(plan, plan_id.0@, caller_id.0@, max_count as nat, now, (now + v.ttl) as i64) {
                Ok((after, cohort)) => {
                    &&& outcome.1 == Ok::<ResponseView, ErrorView>(ResponseView::Acquired { cohort, exhausted: cohort.rows.len() == 0 })
                    &&& outcome.0.plans == v.plans.insert(plan_id.0@, after)
                    &&& cohort.rows.len() <= max_count
                    &&& forall|k: int| 0 <= k < cohort.rows.len() ==> {
                        &&& (#[trigger] cohort.rows[k]).lock.acquired_at == now
                        &&& cohort.rows[k].lock.expires_at == now + v.ttl
                        &&& cohort.rows[k].lock.caller_id == caller_id.0@
                        &&& cohort.rows[k].lock.plan_id == plan_id.0@
                    }
                },
                Err(e) => outcome.1 == Err::<ResponseView, ErrorView>(e),
            }
        }),
{
    let plan = v.plans[plan_id.0@];
    rows_are_new_leases(plan, plan_id.0@, caller_id.0@, max_count as nat, now, (now + v.ttl) as i64);
    if let Ok((after, cohort)) = acquire_outcome(plan, plan_id.0@, caller_id.0@, max_count as nat, now, (now + v.ttl) as i64) {
        assert forall|k: int| 0 <= k < cohort.rows.len() implies {
            &&& (#[trigger] cohort.rows[k]).lock.acquired_at == now
            &&& cohort.rows[k].lock.expires_at == now + v.ttl
            &&& cohort.rows[k].lock.caller_id == caller_id.0@
            &&& cohort.rows[k].lock.plan_id == plan_id.0@
        } by {
            assert(new_lease(plan, after, plan_id.0@, caller_id.0@, now, (now + v.ttl) as i64, cohort.rows[k]));
        }
    }
}

/// What is recorded when a cohort is leased: one record for every lease that
/// ran out, one for every deliverable given up, and then one for every row in
/// order. Nothing else is recorded.
pub proof fn every_lease_is_recorded_once(v: PlannerView, plan_id: PlanId, caller_id: CallerId, max_count: usize, now: i64, fresh: Seq<char>)
    requires
        v.plans.contains_key(plan_id.0@),
        plan_ok(v.plans[plan_id.0@]),
        v.plans[plan_id.0@].slots.len() <= usize::MAX,
    ensures
        request_outcome(v, PlanRequest::AcquireCohort { plan_id, caller_id, max_count }, now, fresh).1 matches Ok(ResponseView::Acquired { cohort, exhausted }) ==> {
            let plan = v.plans[plan_id.0@];
            let n = plan.slots.len();
            let outbox = request_outcome(v, PlanRequest::AcquireCohort { plan_id, caller_id, max_count }, now, fresh).0.outbox;
            let added = outbox.skip(v.outbox.len() as int);
            let others = added.len() - cohort.rows.len();
            &&& outbox.len() >= v.outbox.len()
            &&& others == how_many(n, |i: int| ran_out(plan, now, i)) + how_many(n, |i: int| given_up(plan, now, i))
            &&& forall|k: int| 0 <= k < cohort.rows.len() ==> tells_lease(added[others + k], #[trigger] cohort.rows[k])
            &&& forall|k: int| 0 <= k < others ==> expiry_told(#[trigger] added[k], plan, now, n as int) || giving_up_told(added[k], plan, plan_id.0@, now, n as int)
            &&& forall|i: int| 0 <= i < n && #[trigger] ran_out(plan, now, i) ==> exists|k: int| 0 <= k < others && tells_expiry(#[trigger] added[k], plan, now, i)
            &&& forall|i: int| 0 <= i < n && #[trigger] given_up(plan, now, i) ==> exists|k: int| 0 <= k < others && tells_giving_up(#[trigger] added[k], plan, plan_id.0@, i)
        },
{
    let id = plan_id.0@;
    let plan = v.plans[id];
    let n = plan.slots.len();
    let outcome = request_outcome(v, PlanRequest::AcquireCohort { plan_id, caller_id, max_count }, now, fresh);
    lemma_expiries(plan, now, n);
    lemma_giving_up(plan, id, now, n);
    if let Ok(ResponseView::Acquired { cohort, exhausted }) = outcome.1 {
        let expires_at = (now + v.ttl) as i64;
        let chosen = selection(plan, now, max_count as nat);
        let a = expired_records(lapsed_locks(plan.slots, now, n), now);
        let b = broken_records(plan.graph, reaped(plan.slots, now), id, n);
        let c = lease_records(plan.graph, chosen, id, caller_id.0@, now, expires_at);
        let added = outcome.0.outbox.skip(v.outbox.len() as int);
        assert(added =~= a + b + c);
        let others = added.len() - cohort.rows.len();
        assert(others == a.len() + b.len());
        assert forall|k: int| 0 <= k < cohort.rows.len() implies tells_lease(added[others + k], #[trigger] cohort.rows[k]) by {
            assert(added[others + k] == c[k]);
        }
        assert forall|k: int| 0 <= k < others implies expiry_told(#[trigger] added[k], plan, now, n as int) || giving_up_told(added[k], plan, id, now, n as int) by {
            if k < a.len() {
                assert(added[k] == a[k]);
            } else {
                assert(added[k] == b[k - a.len()]);
            }
        }
        assert forall|i: int| 0 <= i < n && #[trigger] ran_out(plan, now, i) implies exists|k: int| 0 <= k < others && tells_expiry(#[trigger] added[k], plan, now, i) by {
            let k = choose|k: int| 0 <= k < a.len() && tells_expiry(#[trigger] a[k], plan, now, i);
            assert(added[k] == a[k]);
        }
        assert forall|i: int| 0 <= i < n && #[trigger] given_up(plan, now, i) implies exists|k: int| 0 <= k < others && tells_giving_up(#[trigger] added[k], plan, id, i) by {
            let k = choose|k: int| 0 <= k < b.len() && tells_giving_up(#[trigger] b[k], plan, id, i);
            assert(added[a.len() + k] == b[k]);
        }
    }
}

/// A heartbeat gives the lease the time to live from now, and is not recorded.
pub proof fn heartbeats_renew_the_time_to_live(v: PlannerView, plan_id: PlanId, deliverable_id: String, caller_id: CallerId, now: i64, fresh: Seq<char>, i: int)
    requires
        v.plans.contains_key(plan_id.0@),
        plan_ok(v.plans[plan_id.0@]),
        0 <= i < v.plans[plan_id.0@].slots.len(),
        v.plans[plan_id.0@].graph.deliverables[i].id == deliverable_id@,
        now + v.ttl <= i64::MAX,
    ensures
        ({
            let slot = v.plans[plan_id.0@].slots[i];
            let outcome = request_outcome(v, PlanRequest::Heartbeat { plan_id, deliverable_id, caller_id }, now, fresh);
            &&& outcome.0.outbox == v.outbox
            &&& match slot.lock {
                Some(l) => if l.caller_id == caller_id.0@ && now <= l.expires_at {
                    &&& outcome.1 == Ok::<ResponseView, ErrorView>(ResponseView::Done { ok: true })
                    &&& outcome.0.plans[plan_id.0@].graph == v.plans[plan_id.0@].graph
                    &&& outcome.0.plans[plan_id.0@].result == v.plans[plan_id.0@].result
                    &&& outcome.0.plans[plan_id.0@].slots == v.plans[plan_id.0@].slots.update(
                        i,
                        SlotView { lock: Some(LockView { expires_at: (now + v.ttl) as i64, ..l }), ..slot },
                    )
                } else if l.caller_id == caller_id.0@ {
                    outcome.1 == Err::<ResponseView, ErrorView>(ErrorView::LockExpired { deliverable_id: deliverable_id@, expired_at: l.expires_at })
                } else {
                    outcome.1 == Err::<ResponseView, ErrorView>(ErrorView::LockNotHeld { caller_id: caller_id.0@, deliverable_id: deliverable_id@ })
                },
                None => outcome.1 == Err::<ResponseView, ErrorView>(ErrorView::LockNotHeld { caller_id: caller_id.0@, deliverable_id: deliverable_id@ }),
            }
        }),
{
    let plan = v.plans[plan_id.0@];
    let expires_at = (now + v.ttl) as i64;
    heartbeats_extend_live_leases(plan, deliverable_id@, caller_id.0@, now, expires_at, i);
    if let Ok(after) = heartbeat_outcome(plan, deliverable_id@, caller_id.0@, now, expires_at) {
        let l = plan.slots[i].lock->0;
        assert(after.slots =~= plan.slots.update(i, SlotView { lock: Some(LockView { expires_at, ..l }), ..plan.slots[i] }));
    }
}

/// What is recorded when work is marked: that the lease was given back, and
/// whether because the work is complete, failed or returned, where there was a
/// lease that does not go on; otherwise nothing.
pub proof fn marks_record_the_end_of_a_lease(v: PlannerView, plan_id: PlanId, deliverable_id: String, caller_id: CallerId, status: DeliverableStatus, now: i64, fresh: Seq<char>, i: int)
    requires
        v.plans.contains_key(plan_id.0@),
        plan_ok(v.plans[plan_id.0@]),
        0 <= i < v.plans[plan_id.0@].slots.len(),
        v.plans[plan_id.0@].graph.deliverables[i].id == deliverable_id@,
    ensures
        ({
            let plan = v.plans[plan_id.0@];
            let outcome = request_outcome(v, PlanRequest::MarkStatus { plan_id, deliverable_id, caller_id, status }, now, fresh);
            match mark_outcome(plan, plan_id.0@, deliverable_id@, caller_id.0@, status.deep_view()) {
                Err(e) => outcome.1 == Err::<ResponseView, ErrorView>(e),
                Ok(after) => {
                    &&& outcome.1 == Ok::<ResponseView, ErrorView>(ResponseView::Done { ok: true })
                    &&& outcome.0.plans == v.plans.insert(plan_id.0@, after)
                    &&& plan.slots[i].lock is None || status is InProgress ==> outcome.0.outbox == v.outbox
                    &&& plan.slots[i].lock is Some && !(status is InProgress) ==> {
                        let l = plan.slots[i].lock->0;
                        let r = outcome.0.outbox.last();
                        &&& outcome.0.outbox == v.outbox.push(r)
                        &&& r.event_type == "plan.lock.released"@
                        &&& r.actor == Some(l.caller_id)
                        &&& (r.payload matches PayloadView::Released { plan_id: p, deliverable_id: d, caller_id: c, reason } && p == l.plan_id && d == l.deliverable_id
                            && c == l.caller_id && (status is Complete ==> reason == "completed"@) && (status is Failed ==> reason == "failed"@)
                            && (status is Pending || status is Ready ==> reason == "returned"@))
                    }
                },
            }
        }),
{
    let plan = v.plans[plan_id.0@];
    lemma_position(deliverable_ids(plan.graph), i);
    let outcome = request_outcome(v, PlanRequest::MarkStatus { plan_id, deliverable_id, caller_id, status }, now, fresh);
    assert(deliverable_ids(plan.graph)[i] == deliverable_id@);
    if mark_outcome(plan, plan_id.0@, deliverable_id@, caller_id.0@, status.deep_view()) is Ok {
        if plan.slots[i].lock is Some && !(status is InProgress) {
            assert(outcome.0.outbox =~= v.outbox.push(outcome.0.outbox.last()));
        } else {
            assert(outcome.0.outbox =~= v.outbox);
        }
    }
}

/// What is recorded when work is released by force: that the lease of whoever
/// held it was ended, and why; nothing where nobody held one.
pub proof fn forced_releases_record_who_lost_the_lease(v: PlannerView, plan_id: PlanId, deliverable_id: String, reason: String, now: i64, fresh: Seq<char>, i: int)
    requires
        v.plans.contains_key(plan_id.0@),
        plan_ok(v.plans[plan_id.0@]),
        0 <= i < v.plans[plan_id.0@].slots.len(),
        v.plans[plan_id.0@].graph.deliverables[i].id == deliverable_id@,
    ensures
        ({
            let plan = v.plans[plan_id.0@];
            let outcome = request_outcome(v, PlanRequest::ForceRelease { plan_id, deliverable_id, reason }, now, fresh);
            &&& outcome.1 == Ok::<ResponseView, ErrorView>(ResponseView::Done { ok: true })
            &&& (release_outcome(plan, plan_id.0@, deliverable_id@) matches Ok(after) && outcome.0.plans == v.plans.insert(plan_id.0@, after))
            &&& plan.slots[i].lock is None ==> outcome.0.outbox == v.outbox
            &&& plan.slots[i].lock is Some ==> {
                let l = plan.slots[i].lock->0;
                let r = outcome.0.outbox.last();
                &&& outcome.0.outbox == v.outbox.push(r)
                &&& r.event_type == "plan.lock.force_released"@
                &&& r.actor == Some(l.caller_id)
                &&& (r.payload matches PayloadView::ForceReleased { plan_id: p, deliverable_id: d, last_caller_id: c, reason: why } && p == l.plan_id && d == l.deliverable_id
                    && c == l.caller_id && why == reason@)
            }
        }),
{
    let plan = v.plans[plan_id.0@];
    lemma_position(deliverable_ids(plan.graph), i);
    assert(deliverable_ids(plan.graph)[i] == deliverable_id@);
    forced_releases_free_the_work(plan, plan_id.0@, deliverable_id@, i);
    let outcome = request_outcome(v, PlanRequest::ForceRelease { plan_id, deliverable_id, reason }, now, fresh);
    if plan.slots[i].lock is Some {
        assert(outcome.0.outbox =~= v.outbox.push(outcome.0.outbox.last()));
    } else {
        assert(outcome.0.outbox =~= v.outbox);
    }
}

/// Marks and forced releases of work that is not in the plan are refused as
/// such, and so is a heartbeat for it, as one for a lease that is not held.
pub proof fn unknown_work_is_refused(v: PlannerView, plan_id: PlanId, deliverable_id: String, caller_id: CallerId, status: DeliverableStatus, reason: String, now: i64, fresh: Seq<char>)
    requires
        v.plans.contains_key(plan_id.0@),
        plan_ok(v.plans[plan_id.0@]),
        !has_work(v.plans[plan_id.0@], deliverable_id@),
    ensures
        request_outcome(v, PlanRequest::MarkStatus { plan_id, deliverable_id, caller_id, status }, now, fresh).1 == Err::<ResponseView, ErrorView>(
            ErrorView::DeliverableNotFound { plan_id: plan_id.0@, deliverable_id: deliverable_id@ },
        ),
        request_outcome(v, PlanRequest::ForceRelease { plan_id, deliverable_id, reason }, now, fresh).1 == Err::<ResponseView, ErrorView>(
            ErrorView::DeliverableNotFound { plan_id: plan_id.0@, deliverable_id: deliverable_id@ },
        ),
        request_outcome(v, PlanRequest::Heartbeat { plan_id, deliverable_id, caller_id }, now, fresh).1 == Err::<ResponseView, ErrorView>(
            ErrorView::LockNotHeld { caller_id: caller_id.0@, deliverable_id: deliverable_id@ },
        ),
{
    let plan = v.plans[plan_id.0@];
    marks_are_taken_from_the_holder(plan, plan_id.0@, deliverable_id@, caller_id.0@, status.deep_view(), 0);
    forced_releases_free_the_work(plan, plan_id.0@, deliverable_id@, 0);
    heartbeats_extend_live_leases(plan, deliverable_id@, caller_id.0@, now, (now + v.ttl) as i64, 0);
}

/// Leases last five minutes where nothing else is said.
pub proof fn leases_last_five_minutes()
    ensures
        crate::planner::DEFAULT_TTL == 5 * 60 * 1_000_000,
{
}

/// Every request but a submission is about the plan it names.
pub proof fn requests_name_their_plan(graph: PlanGraph, plan_id: PlanId, deliverable_id: String, caller_id: CallerId, status: DeliverableStatus, reason: String, max_count: usize)
    ensures
        target_of(PlanRequest::Submit { graph }) is None,
        target_of(PlanRequest::AcquireCohort { plan_id, caller_id, max_count }) == Some(plan_id.0@),
        target_of(PlanRequest::Heartbeat { plan_id, deliverable_id, caller_id }) == Some(plan_id.0@),
        target_of(PlanRequest::MarkStatus { plan_id, deliverable_id, caller_id, status }) == Some(plan_id.0@),
        target_of(PlanRequest::Status { plan_id }) == Some(plan_id.0@),
        target_of(PlanRequest::ForceRelease { plan_id, deliverable_id, reason }) == Some(plan_id.0@),
{
}

} // verus!
