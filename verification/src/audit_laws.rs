//! Everything that happens to a lease is recorded.

use vstd::prelude::*;

use crate::audit::{
    acquired_record, bare_event, circuit_broken_record, expired_record, force_released_record, released_record, PayloadView,
    RecordView,
};
use crate::cohort::{
    acquire_outcome, acquire_records, available, broken_records, lease_records, lemma_picks_available, lemma_ready_list,
    ready_list, selection, swept, tripped,
};
use crate::index::lemma_position;
use crate::lifecycle::{
    mark_outcome, mark_records, release_outcome, release_reason, release_records,
};
use crate::locks::{expired_records, lapsed, lapsed_locks, plan_ok, reaped, PlanView, SlotView, MAX_ATTEMPTS};
use crate::plan::{deliverable_ids, GraphView, LockView, StatusView};

verus! {

/// Every lapsed lease is listed.
proof fn lemma_lapsed_listed(slots: Seq<SlotView>, now: i64, n: nat, i: int)
    requires
        n <= slots.len(),
        0 <= i < n,
        lapsed(slots[i], now),
    ensures
        lapsed_locks(slots, now, n).contains(slots[i].lock->0),
    decreases n,
{
    let rest = lapsed_locks(slots, now, (n - 1) as nat);
    let all = lapsed_locks(slots, now, n);
    if i == n - 1 {
        assert(all.last() == slots[i].lock->0);
    } else {
        lemma_lapsed_listed(slots, now, (n - 1) as nat, i);
        let k = choose|k: int| 0 <= k < rest.len() && rest[k] == slots[i].lock->0;
        assert(all[k] == rest[k]);
    }
}

/// Every deliverable given up is recorded.
proof fn lemma_broken_recorded(graph: GraphView, slots: Seq<SlotView>, plan_id: Seq<char>, n: nat, i: int)
    requires
        0 <= i < n,
        tripped(graph, slots, i),
    ensures
        broken_records(graph, slots, plan_id, n).contains(
            circuit_broken_record(plan_id, graph.deliverables[i].id, slots[i].failures, MAX_ATTEMPTS),
        ),
    decreases n,
{
    let record = circuit_broken_record(plan_id, graph.deliverables[i].id, slots[i].failures, MAX_ATTEMPTS);
    let rest = broken_records(graph, slots, plan_id, (n - 1) as nat);
    let all = broken_records(graph, slots, plan_id, n);
    if i == n - 1 {
        assert(all.last() == record);
    } else {
        lemma_broken_recorded(graph, slots, plan_id, (n - 1) as nat, i);
        let k = choose|k: int| 0 <= k < rest.len() && rest[k] == record;
        assert(all[k] == record);
    }
}

/// What is in one of three lists is in their concatenation.
proof fn lemma_in_concatenation(a: Seq<RecordView>, b: Seq<RecordView>, c: Seq<RecordView>, x: RecordView)
    requires
        a.contains(x) || b.contains(x) || c.contains(x),
    ensures
        (a + b + c).contains(x),
{
    let all = a + b + c;
    if a.contains(x) {
        let k = choose|k: int| 0 <= k < a.len() && a[k] == x;
        assert(all[k] == x);
    } else if b.contains(x) {
        let k = choose|k: int| 0 <= k < b.len() && b[k] == x;
        assert(all[a.len() + k] == x);
    } else {
        let k = choose|k: int| 0 <= k < c.len() && c[k] == x;
        assert(all[a.len() + b.len() + k] == x);
    }
}

/// When a cohort is leased, every lease that lapsed, every deliverable given
/// up and every lease taken is recorded. A lease that has not lapsed stays as
/// it is.
pub proof fn leasing_is_recorded(plan: PlanView, plan_id: Seq<char>, caller_id: Seq<char>, max: nat, now: i64, expires_at: i64, i: int)
    requires
        plan_ok(plan),
        0 <= i < plan.slots.len(),
    ensures
        acquire_outcome(plan, plan_id, caller_id, max, now, expires_at) matches Ok((after, cohort)) ==> {
            let records = acquire_records(plan, selection(plan, now, max), plan_id, caller_id, now, expires_at);
            let cleared = reaped(plan.slots, now);
            &&& lapsed(plan.slots[i], now) ==> records.contains(expired_record(plan.slots[i].lock->0, now))
            &&& tripped(plan.graph, cleared, i) ==> records.contains(
                circuit_broken_record(plan_id, plan.graph.deliverables[i].id, cleared[i].failures, MAX_ATTEMPTS),
            )
            &&& plan.slots[i].lock is Some && !lapsed(plan.slots[i], now) ==> after.slots[i].lock == plan.slots[i].lock
            &&& after.slots[i].lock is Some && (plan.slots[i].lock is None || lapsed(plan.slots[i], now)) ==> records.contains(
                acquired_record(after.slots[i].lock->0, plan.graph.deliverables[i].owned_files),
            )
        },
{
    if let Ok((after, cohort)) = acquire_outcome(plan, plan_id, caller_id, max, now, expires_at) {
        let slots = swept(plan, now);
        let chosen = selection(plan, now, max);
        let cleared = reaped(plan.slots, now);
        lemma_ready_list(plan, slots);
        lemma_picks_available(plan, slots, ready_list(plan, slots), max);
        let gone = lapsed_locks(plan.slots, now, plan.slots.len());
        let a = expired_records(gone, now);
        let b = broken_records(plan.graph, cleared, plan_id, plan.slots.len());
        let c = lease_records(plan.graph, chosen, plan_id, caller_id, now, expires_at);
        if lapsed(plan.slots[i], now) {
            lemma_lapsed_listed(plan.slots, now, plan.slots.len(), i);
            let k = choose|k: int| 0 <= k < gone.len() && gone[k] == plan.slots[i].lock->0;
            assert(a[k] == expired_record(plan.slots[i].lock->0, now));
            lemma_in_concatenation(a, b, c, a[k]);
        }
        if tripped(plan.graph, cleared, i) {
            lemma_broken_recorded(plan.graph, cleared, plan_id, plan.slots.len(), i);
            let record = circuit_broken_record(plan_id, plan.graph.deliverables[i].id, cleared[i].failures, MAX_ATTEMPTS);
            lemma_in_concatenation(a, b, c, record);
        }
        if chosen.contains(i) {
            let k = choose|k: int| 0 <= k < chosen.len() && chosen[k] == i;
            assert(available(plan.graph, slots, chosen[k]));
            assert(c[k] == acquired_record(after.slots[i].lock->0, plan.graph.deliverables[i].owned_files));
            lemma_in_concatenation(a, b, c, c[k]);
        }
    }
}

/// A mark that ends a lease is recorded with its reason, and changes no other
/// lease. Any other mark records nothing and changes no lease.
pub proof fn releases_are_recorded(plan: PlanView, plan_id: Seq<char>, caller_id: Seq<char>, status: StatusView, i: int, j: int)
    requires
        plan_ok(plan),
        0 <= i < plan.slots.len(),
        0 <= j < plan.slots.len(),
    ensures
        mark_outcome(plan, plan_id, plan.graph.deliverables[i].id, caller_id, status) matches Ok(after) ==> {
            &&& !(status is InProgress) && plan.slots[i].lock is Some ==> {
                &&& after.slots[i].lock is None
                &&& mark_records(plan.slots[i], status) == seq![released_record(plan.slots[i].lock->0, release_reason(status))]
            }
            &&& status is InProgress || plan.slots[i].lock is None ==> {
                &&& after.slots[i].lock == plan.slots[i].lock
                &&& mark_records(plan.slots[i], status).len() == 0
            }
            &&& i != j ==> after.slots[j].lock == plan.slots[j].lock
        },
{
    lemma_position(deliverable_ids(plan.graph), i);
    assert(deliverable_ids(plan.graph)[i] == plan.graph.deliverables[i].id);
}

/// A lease ended by force is recorded with the operator's reason. Nothing is
/// recorded where nobody held a lease, and no other lease changes.
pub proof fn forced_releases_are_recorded(plan: PlanView, plan_id: Seq<char>, reason: Seq<char>, i: int, j: int)
    requires
        plan_ok(plan),
        0 <= i < plan.slots.len(),
        0 <= j < plan.slots.len(),
    ensures
        release_outcome(plan, plan_id, plan.graph.deliverables[i].id) matches Ok(after) && {
            &&& after.slots[i].lock is None
            &&& plan.slots[i].lock is Some ==> release_records(plan.slots[i], reason) == seq![force_released_record(plan.slots[i].lock->0, reason)]
            &&& plan.slots[i].lock is None ==> after == plan && release_records(plan.slots[i], reason).len() == 0
            &&& i != j ==> after.slots[j] == plan.slots[j]
        },
{
    lemma_position(deliverable_ids(plan.graph), i);
    assert(deliverable_ids(plan.graph)[i] == plan.graph.deliverables[i].id);
}

/// The records of a lease say whose it is, on what and in which plan, and how
/// it changed: when it was taken and until when, or why or when it ended.
pub proof fn records_tell_of_their_lease(lock: LockView, files: Seq<Seq<char>>, reason: Seq<char>, now: i64)
    ensures
        tells_of(acquired_record(lock, files), lock),
        tells_of(released_record(lock, reason), lock),
        tells_of(expired_record(lock, now), lock),
        tells_of(force_released_record(lock, reason), lock),
        acquired_record(lock, files).event_type == "plan.lock.acquired"@,
        released_record(lock, reason).event_type == "plan.lock.released"@,
        expired_record(lock, now).event_type == "plan.lock.expired"@,
        force_released_record(lock, reason).event_type == "plan.lock.force_released"@,
        acquired_record(lock, files).payload matches PayloadView::Acquired { acquired_at, expires_at, owned_files, .. } && acquired_at == lock.acquired_at
            && expires_at == lock.expires_at && owned_files == files,
        released_record(lock, reason).payload matches PayloadView::Released { reason: why, .. } && why == reason,
        expired_record(lock, now).payload matches PayloadView::Expired { expired_at, .. } && expired_at == now,
        force_released_record(lock, reason).payload matches PayloadView::ForceReleased { reason: why, .. } && why == reason,
{
}

/// The record tells of the lease, and who acted is who holds it.
pub open spec fn tells_of(r: RecordView, lock: LockView) -> bool {
    &&& r.actor == Some(lock.caller_id)
    &&& match r.payload {
        PayloadView::Empty => false,
        PayloadView::Acquired { plan_id, deliverable_id, caller_id, .. } => plan_id == lock.plan_id && deliverable_id == lock.deliverable_id && caller_id == lock.caller_id,
        PayloadView::Released { plan_id, deliverable_id, caller_id, .. } => plan_id == lock.plan_id && deliverable_id == lock.deliverable_id && caller_id == lock.caller_id,
        PayloadView::Expired { plan_id, deliverable_id, last_caller_id, .. } => plan_id == lock.plan_id && deliverable_id == lock.deliverable_id && last_caller_id == lock.caller_id,
        PayloadView::ForceReleased { plan_id, deliverable_id, last_caller_id, .. } => plan_id == lock.plan_id && deliverable_id == lock.deliverable_id && last_caller_id == lock.caller_id,
        PayloadView::CircuitBroken { .. } => false,
    }
}

/// A new event carries its type and time and nothing else. Its id and its
/// correlation show what they are, and differ where their tokens do.
pub proof fn new_events_carry_nothing(event_type: Seq<char>, a: Seq<char>, b: Seq<char>, c: Seq<char>, d: Seq<char>, timestamp: i64)
    ensures
        ({
            let e = bare_event(event_type, a, b, timestamp);
            let f = bare_event(event_type, c, d, timestamp);
            &&& e.event_type == event_type
            &&& e.timestamp == timestamp
            &&& e.payload is Empty
            &&& e.actor is None
            &&& e.workflow_id is None
            &&& e.trace_id is None
            &&& e.run_id is None
            &&& "evt_"@.is_prefix_of(e.id)
            &&& "cor_"@.is_prefix_of(e.correlation_id)
            &&& e.id == f.id ==> a == c
            &&& e.correlation_id == f.correlation_id ==> b == d
        }),
{
    let e = bare_event(event_type, a, b, timestamp);
    let f = bare_event(event_type, c, d, timestamp);
    let n = "evt_"@.len() as int;
    let m = "cor_"@.len() as int;
    assert(e.id.skip(n) =~= a && f.id.skip(n) =~= c);
    assert(e.correlation_id.skip(m) =~= b && f.correlation_id.skip(m) =~= d);
    assert("evt_"@ =~= e.id.take(n));
    assert("cor_"@ =~= e.correlation_id.take(m));
}

} // verus!
