//! What clearing leases, storing a plan and reading it back do to a slot, in
//! terms of the slot alone.

use vstd::prelude::*;

use crate::analysis_laws::how_many;
use crate::index::{lemma_position, lemma_position_found, position};
use crate::lease_laws::one_more;
use crate::lifecycle::held_locks;
use crate::locks::{lapsed_locks, plan_ok, quarantined, reaped, slot_of, PlanView, SlotView};
use crate::plan::{deliverable_ids, ErrorView, GraphView, LockView, StatusView};
use crate::plan_store::{
    bad_stamp, last_lock, last_status, lock_rows, rows_of, stored_plan, stored_slot, valid_stamp, LockRowView, StatusRowView,
};
use crate::server::{PlanRequest, ResponseView};
use crate::stored_calls::{stored_outcome, stored_snapshot, stray_heartbeat};
use crate::stored_plan::{bare, names_in, stored_ok, stored_whole, unknown_names, StoredView};
use crate::task::ResultView;
use crate::validate::{first, lemma_first_found};

verus! {

/// The lease in the slot ran out before `now`.
pub open spec fn over(slot: SlotView, now: i64) -> bool {
    slot.lock matches Some(l) && l.expires_at < now
}

/// Clearing leases: one that ran out is ended, the work is ready again and one
/// more loss is counted; any other slot stays as it is. A lease is good up to
/// and including the moment at which it expires.
pub proof fn clearing_frees_what_ran_out(slots: Seq<SlotView>, now: i64, i: int)
    requires
        0 <= i < slots.len(),
    ensures
        reaped(slots, now).len() == slots.len(),
        !over(slots[i], now) ==> reaped(slots, now)[i] == slots[i],
        over(slots[i], now) ==> {
            let after = reaped(slots, now)[i];
            &&& after.status is Ready
            &&& after.lock is None
            &&& after.attempts == slots[i].attempts
            &&& after.failures == slots[i].failures
            &&& after.lapses == one_more(slots[i].lapses)
        },
{
}

/// A restart clears leases in the same way, and makes work ready that is in
/// progress without a lease. Whatever else there is stays as it is.
pub proof fn restarting_frees_what_nobody_holds(slots: Seq<SlotView>, now: i64, i: int)
    requires
        0 <= i < slots.len(),
    ensures
        quarantined(slots, now).len() == slots.len(),
        ({
            let after = quarantined(slots, now)[i];
            &&& after.attempts == slots[i].attempts
            &&& after.failures == slots[i].failures
            &&& after.lapses == (if over(slots[i], now) { one_more(slots[i].lapses) } else { slots[i].lapses as int })
            &&& after.lock == (if over(slots[i], now) { None::<LockView> } else { slots[i].lock })
            &&& after.status == (if over(slots[i], now) || (slots[i].status is InProgress && slots[i].lock is None) {
                StatusView::Ready
            } else {
                slots[i].status
            })
        }),
{
}

/// The leases that clearing ends: each one that ran out, once, and no other.
pub proof fn ended_leases_are_listed(slots: Seq<SlotView>, now: i64, n: nat)
    requires
        n <= slots.len(),
    ensures
        lapsed_locks(slots, now, n).len() == how_many(n, |i: int| over(slots[i], now)),
        forall|i: int| 0 <= i < n && over(#[trigger] slots[i], now) ==> lapsed_locks(slots, now, n).contains(slots[i].lock->0),
        forall|k: int| 0 <= k < lapsed_locks(slots, now, n).len() ==> ended_one(slots, now, n as int, #[trigger] lapsed_locks(slots, now, n)[k]),
    decreases n,
{
    if n > 0 {
        let m = (n - 1) as nat;
        ended_leases_are_listed(slots, now, m);
        let p = |i: int| over(slots[i], now);
        let rest = lapsed_locks(slots, now, m);
        let all = lapsed_locks(slots, now, n);
        assert(p(n - 1) == over(slots[n - 1], now));
        assert forall|i: int| 0 <= i < n && over(#[trigger] slots[i], now) implies all.contains(slots[i].lock->0) by {
            if i < m {
                let k = choose|k: int| 0 <= k < rest.len() && rest[k] == slots[i].lock->0;
                assert(all[k] == rest[k]);
            } else {
                assert(all[rest.len() as int] == slots[i].lock->0);
            }
        }
        assert forall|k: int| 0 <= k < all.len() implies ended_one(slots, now, n as int, #[trigger] all[k]) by {
            if k < rest.len() {
                assert(all[k] == rest[k]);
                assert(ended_one(slots, now, m as int, rest[k]));
                let i = choose|i: int| 0 <= i < m && over(#[trigger] slots[i], now) && slots[i].lock == Some(rest[k]);
                assert(over(slots[i], now) && slots[i].lock == Some(all[k]));
            } else {
                assert(over(slots[n - 1], now) && slots[n - 1].lock == Some(all[k]));
            }
        }
    }
}

/// The lease is that of one of the first `n` slots and ran out.
pub open spec fn ended_one(slots: Seq<SlotView>, now: i64, n: int, lock: LockView) -> bool {
    exists|i: int| 0 <= i < n && over(#[trigger] slots[i], now) && slots[i].lock == Some(lock)
}

/// The slot of work is found by its id, and none where there is no such work.
pub proof fn slots_are_found_by_id(plan: PlanView, id: Seq<char>, i: int)
    requires
        plan_ok(plan),
    ensures
        0 <= i < plan.slots.len() && plan.graph.deliverables[i].id == id ==> slot_of(plan, id) == Some(plan.slots[i]),
        !crate::progress_laws::has_work(plan, id) ==> slot_of(plan, id) is None,
{
    let ids = deliverable_ids(plan.graph);
    lemma_position_found(ids, id);
    if 0 <= i < plan.slots.len() && plan.graph.deliverables[i].id == id {
        assert(ids[i] == id);
        lemma_position(ids, i);
    }
    if ids.contains(id) {
        assert(plan.graph.deliverables[position(ids, id)].id == id);
    }
}

/// The rows of a plan: one for each slot with its id, status and counters, and
/// one for each lease with the id, who holds it and its two times.
pub proof fn rows_hold_the_slots(ids: Seq<Seq<char>>, slots: Seq<SlotView>, i: int)
    requires
        0 <= i < slots.len(),
        ids.len() == slots.len(),
    ensures
        ({
            let rows = rows_of(ids, slots);
            let locks = lock_rows(slots, slots.len());
            &&& rows.len() == slots.len()
            &&& rows[i].deliverable_id == ids[i]
            &&& rows[i].status == slots[i].status
            &&& rows[i].attempts == slots[i].attempts
            &&& rows[i].failures == slots[i].failures
            &&& rows[i].lapses == slots[i].lapses
            &&& locks.len() == how_many(slots.len(), |x: int| slots[x].lock is Some)
            &&& slots[i].lock is Some ==> exists|k: int| 0 <= k < locks.len() && #[trigger] stores(locks[k], slots[i].lock->0)
            &&& forall|k: int| 0 <= k < locks.len() ==> stores_one(slots, #[trigger] locks[k])
        }),
{
    lemma_lock_rows(slots, slots.len());
}

/// The row holds the lease.
pub open spec fn stores(row: LockRowView, lock: LockView) -> bool {
    &&& row.deliverable_id == lock.deliverable_id
    &&& row.caller_id == lock.caller_id
    &&& row.acquired_at_us == lock.acquired_at
    &&& row.expires_at_us == lock.expires_at
}

/// The row holds the lease of some slot.
pub open spec fn stores_one(slots: Seq<SlotView>, row: LockRowView) -> bool {
    exists|i: int| 0 <= i < slots.len() && (#[trigger] slots[i]).lock is Some && stores(row, slots[i].lock->0)
}

/// What the rows of leases hold.
proof fn lemma_lock_rows(slots: Seq<SlotView>, n: nat)
    requires
        n <= slots.len(),
    ensures
        lock_rows(slots, n).len() == how_many(n, |x: int| slots[x].lock is Some),
        forall|i: int| 0 <= i < n && (#[trigger] slots[i]).lock is Some ==> exists|k: int| 0 <= k < lock_rows(slots, n).len() && #[trigger] stores(lock_rows(slots, n)[k], slots[i].lock->0),
        forall|k: int| 0 <= k < lock_rows(slots, n).len() ==> stores_one(slots, #[trigger] lock_rows(slots, n)[k]),
    decreases n,
{
    if n > 0 {
        let m = (n - 1) as nat;
        lemma_lock_rows(slots, m);
        let p = |x: int| slots[x].lock is Some;
        let rest = lock_rows(slots, m);
        let all = lock_rows(slots, n);
        assert(p(n - 1) == (slots[n - 1].lock is Some));
        assert forall|i: int| 0 <= i < n && (#[trigger] slots[i]).lock is Some implies exists|k: int| 0 <= k < all.len() && #[trigger] stores(all[k], slots[i].lock->0) by {
            if i < m {
                let k = choose|k: int| 0 <= k < rest.len() && #[trigger] stores(rest[k], slots[i].lock->0);
                assert(stores(all[k], slots[i].lock->0));
            } else {
                assert(stores(all[rest.len() as int], slots[i].lock->0));
            }
        }
        assert forall|k: int| 0 <= k < all.len() implies stores_one(slots, #[trigger] all[k]) by {
            if k < rest.len() {
                assert(all[k] == rest[k]);
            } else {
                assert(slots[n - 1].lock is Some && stores(all[k], slots[n - 1].lock->0));
            }
        }
    }
}

/// The last row about some work.
proof fn lemma_last_status(rows: Seq<StatusRowView>, id: Seq<char>, m: nat, k: int)
    requires
        0 <= k < m <= rows.len(),
        rows[k].deliverable_id == id,
        forall|x: int| k < x < m ==> (#[trigger] rows[x]).deliverable_id != id,
    ensures
        last_status(rows, id, m) == Some(rows[k]),
    decreases m,
{
    if k < m - 1 {
        lemma_last_status(rows, id, (m - 1) as nat, k);
    }
}

/// There is no row about some work.
proof fn lemma_no_status(rows: Seq<StatusRowView>, id: Seq<char>, m: nat)
    requires
        m <= rows.len(),
        forall|x: int| 0 <= x < m ==> (#[trigger] rows[x]).deliverable_id != id,
    ensures
        last_status(rows, id, m) is None,
    decreases m,
{
    if m > 0 {
        lemma_no_status(rows, id, (m - 1) as nat);
    }
}

/// The last row of a lease on some work.
proof fn lemma_last_lock(rows: Seq<LockRowView>, id: Seq<char>, m: nat, k: int)
    requires
        0 <= k < m <= rows.len(),
        rows[k].deliverable_id == id,
        forall|x: int| k < x < m ==> (#[trigger] rows[x]).deliverable_id != id,
    ensures
        last_lock(rows, id, m) == Some(rows[k]),
    decreases m,
{
    if k < m - 1 {
        lemma_last_lock(rows, id, (m - 1) as nat, k);
    }
}

/// There is no row of a lease on some work.
proof fn lemma_no_lock(rows: Seq<LockRowView>, id: Seq<char>, m: nat)
    requires
        m <= rows.len(),
        forall|x: int| 0 <= x < m ==> (#[trigger] rows[x]).deliverable_id != id,
    ensures
        last_lock(rows, id, m) is None,
    decreases m,
{
    if m > 0 {
        lemma_no_lock(rows, id, (m - 1) as nat);
    }
}

/// Row `k` is the last one about the work.
pub open spec fn last_about(rows: Seq<StatusRowView>, id: Seq<char>, k: int) -> bool {
    &&& 0 <= k < rows.len()
    &&& rows[k].deliverable_id == id
    &&& forall|x: int| k < x < rows.len() ==> (#[trigger] rows[x]).deliverable_id != id
}

/// Row `k` is the last lease on the work.
pub open spec fn last_lease_on(rows: Seq<LockRowView>, id: Seq<char>, k: int) -> bool {
    &&& 0 <= k < rows.len()
    &&& rows[k].deliverable_id == id
    &&& forall|x: int| k < x < rows.len() ==> (#[trigger] rows[x]).deliverable_id != id
}

/// What is read back for some work: the status and counters of its last row,
/// pending and nothing counted where it has none; and the lease of its last
/// lease row, in the plan it was read for, none where there is none.
pub proof fn the_last_row_counts(plan_id: Seq<char>, id: Seq<char>, statuses: Seq<StatusRowView>, locks: Seq<LockRowView>, k: int, l: int)
    ensures
        last_about(statuses, id, k) ==> {
            let slot = stored_slot(plan_id, id, statuses, locks);
            &&& slot.status == statuses[k].status
            &&& slot.attempts == statuses[k].attempts
            &&& slot.failures == statuses[k].failures
            &&& slot.lapses == statuses[k].lapses
        },
        (forall|x: int| 0 <= x < statuses.len() ==> (#[trigger] statuses[x]).deliverable_id != id) ==> {
            let slot = stored_slot(plan_id, id, statuses, locks);
            &&& slot.status is Pending
            &&& slot.attempts == 0
            &&& slot.failures == 0
            &&& slot.lapses == 0
        },
        last_lease_on(locks, id, l) ==> (stored_slot(plan_id, id, statuses, locks).lock matches Some(lock) && {
            &&& lock.plan_id == plan_id
            &&& lock.deliverable_id == id
            &&& lock.caller_id == locks[l].caller_id
            &&& lock.acquired_at == locks[l].acquired_at_us
            &&& lock.expires_at == locks[l].expires_at_us
        }),
        (forall|x: int| 0 <= x < locks.len() ==> (#[trigger] locks[x]).deliverable_id != id) ==> stored_slot(plan_id, id, statuses, locks).lock is None,
{
    if last_about(statuses, id, k) {
        lemma_last_status(statuses, id, statuses.len(), k);
    }
    if forall|x: int| 0 <= x < statuses.len() ==> (#[trigger] statuses[x]).deliverable_id != id {
        lemma_no_status(statuses, id, statuses.len());
    }
    if last_lease_on(locks, id, l) {
        lemma_last_lock(locks, id, locks.len(), l);
    }
    if forall|x: int| 0 <= x < locks.len() ==> (#[trigger] locks[x]).deliverable_id != id {
        lemma_no_lock(locks, id, locks.len());
    }
}

/// Rows make a plan unless an id occurs twice in the graph or a lease has a
/// time that is none. The plan has the graph and the analysis it was stored
/// with, and a slot for each deliverable.
pub proof fn rows_make_a_plan(plan_id: Seq<char>, graph: GraphView, result: ResultView, statuses: Seq<StatusRowView>, locks: Seq<LockRowView>)
    ensures
        ({
            let sound = forall|k: int| 0 <= k < locks.len() ==> valid_stamp((#[trigger] locks[k]).acquired_at_us) && valid_stamp(locks[k].expires_at_us);
            match stored_plan(plan_id, graph, result, statuses, locks) {
                Ok(plan) => {
                    &&& deliverable_ids(graph).no_duplicates()
                    &&& sound
                    &&& plan.graph == graph
                    &&& plan.result == result
                    &&& plan.slots.len() == graph.deliverables.len()
                    &&& forall|i: int| 0 <= i < plan.slots.len() ==> #[trigger] plan.slots[i] == stored_slot(plan_id, graph.deliverables[i].id, statuses, locks)
                },
                Err(e) => e is BackendError && (!deliverable_ids(graph).no_duplicates() || !sound),
            }
        }),
{
    let p = |k: int| bad_stamp(locks[k]);
    lemma_first_found(locks.len(), p);
    if first(locks.len(), p) is None {
        assert forall|k: int| 0 <= k < locks.len() implies valid_stamp((#[trigger] locks[k]).acquired_at_us) && valid_stamp(locks[k].expires_at_us) by {
            assert(!p(k));
        }
    } else {
        let k = first(locks.len(), p)->0;
        assert(p(k));
        assert(!(valid_stamp(locks[k].acquired_at_us) && valid_stamp(locks[k].expires_at_us)));
    }
}

/// A heartbeat for work that a store knows though it is not in the graph: the
/// lease of whoever holds it is extended as any other, and nothing else
/// changes.
pub proof fn stray_leases_are_extended_alike(v: StoredView, id: Seq<char>, caller_id: Seq<char>, now: i64, expires_at: i64, k: int)
    requires
        stored_ok(v),
    ensures
        !v.stray_ids.contains(id) ==> stray_heartbeat(v, id, caller_id, now, expires_at) == Err::<StoredView, ErrorView>(
            ErrorView::LockNotHeld { caller_id, deliverable_id: id },
        ),
        0 <= k < v.stray_ids.len() && v.stray_ids[k] == id ==> match v.stray_slots[k].lock {
            None => stray_heartbeat(v, id, caller_id, now, expires_at) == Err::<StoredView, ErrorView>(
                ErrorView::LockNotHeld { caller_id, deliverable_id: id },
            ),
            Some(l) => {
                &&& l.caller_id != caller_id ==> stray_heartbeat(v, id, caller_id, now, expires_at) == Err::<StoredView, ErrorView>(
                    ErrorView::LockNotHeld { caller_id, deliverable_id: id },
                )
                &&& l.caller_id == caller_id && l.expires_at < now ==> stray_heartbeat(v, id, caller_id, now, expires_at) == Err::<StoredView, ErrorView>(
                    ErrorView::LockExpired { deliverable_id: id, expired_at: l.expires_at },
                )
                &&& l.caller_id == caller_id && now <= l.expires_at ==> (stray_heartbeat(v, id, caller_id, now, expires_at) matches Ok(after) && {
                    &&& after.plan == v.plan
                    &&& after.stray_ids == v.stray_ids
                    &&& after.stray_slots.len() == v.stray_slots.len()
                    &&& after.stray_slots[k].lock == Some(LockView { expires_at, ..l })
                    &&& after.stray_slots[k].status == v.stray_slots[k].status
                    &&& after.stray_slots[k].attempts == v.stray_slots[k].attempts
                    &&& after.stray_slots[k].failures == v.stray_slots[k].failures
                    &&& after.stray_slots[k].lapses == v.stray_slots[k].lapses
                    &&& forall|j: int| 0 <= j < v.stray_slots.len() && j != k ==> #[trigger] after.stray_slots[j] == v.stray_slots[j]
                })
            },
        },
{
    lemma_position_found(v.stray_ids, id);
    if 0 <= k < v.stray_ids.len() && v.stray_ids[k] == id {
        let all = deliverable_ids(v.plan.graph) + v.stray_ids;
        assert(v.stray_ids.no_duplicates()) by {
            assert forall|i: int, j: int| 0 <= i < v.stray_ids.len() && 0 <= j < v.stray_ids.len() && i != j implies v.stray_ids[i] != v.stray_ids[j] by {
                let base = deliverable_ids(v.plan.graph).len() as int;
                assert(all[base + i] == v.stray_ids[i] && all[base + j] == v.stray_ids[j]);
            }
        }
        lemma_position(v.stray_ids, k);
    }
}

/// What requests on a stored plan do to what is beside it: a cohort clears
/// leases there too, a heartbeat may extend one, and nothing else touches it.
pub proof fn strays_are_only_cleared(v: StoredView, request: PlanRequest, now: i64, expires_at: i64)
    ensures
        stored_outcome(v, request, now, expires_at) matches Ok((after, response, records)) ==> {
            &&& after.stray_ids == v.stray_ids
            &&& after.plan.graph == v.plan.graph
            &&& after.plan.result == v.plan.result
            &&& request is AcquireCohort ==> after.stray_slots == reaped(v.stray_slots, now)
            &&& !(request is AcquireCohort) && !(request is Heartbeat) ==> after.stray_slots == v.stray_slots
            &&& request is Status ==> after == v && records.len() == 0
            &&& request is Heartbeat ==> records.len() == 0
        },
{
}

/// The snapshot of a stored plan is that of the plan with the leases beside it
/// added at the end.
pub proof fn stored_snapshots_list_all_leases(v: StoredView, plan_id: Seq<char>)
    ensures
        ({
            let s = stored_snapshot(v, plan_id);
            let t = crate::lifecycle::snapshot_of(v.plan, plan_id);
            &&& s.plan_id == t.plan_id
            &&& s.deliverables == t.deliverables
            &&& s.critical_path == t.critical_path
            &&& s.critical_path_hours == t.critical_path_hours
            &&& s.locks_held.len() >= t.locks_held.len()
            &&& s.locks_held.take(t.locks_held.len() as int) == t.locks_held
            &&& s.locks_held.len() - t.locks_held.len() == how_many(v.stray_slots.len(), |i: int| v.stray_slots[i].lock is Some)
            &&& forall|i: int| 0 <= i < v.stray_slots.len() && (#[trigger] v.stray_slots[i]).lock is Some ==> s.locks_held.contains(v.stray_slots[i].lock->0)
        }),
{
    let s = stored_snapshot(v, plan_id);
    let t = crate::lifecycle::snapshot_of(v.plan, plan_id);
    let more = held_locks(v.stray_slots, v.stray_slots.len());
    lemma_held(v.stray_slots, v.stray_slots.len());
    assert(s.locks_held.take(t.locks_held.len() as int) =~= t.locks_held);
    assert forall|i: int| 0 <= i < v.stray_slots.len() && (#[trigger] v.stray_slots[i]).lock is Some implies s.locks_held.contains(v.stray_slots[i].lock->0) by {
        let k = choose|k: int| 0 <= k < more.len() && more[k] == v.stray_slots[i].lock->0;
        assert(s.locks_held[t.locks_held.len() + k] == more[k]);
    }
}

/// What the held leases are.
proof fn lemma_held(slots: Seq<SlotView>, n: nat)
    requires
        n <= slots.len(),
    ensures
        held_locks(slots, n).len() == how_many(n, |i: int| slots[i].lock is Some),
        forall|i: int| 0 <= i < n && (#[trigger] slots[i]).lock is Some ==> held_locks(slots, n).contains(slots[i].lock->0),
    decreases n,
{
    if n > 0 {
        let m = (n - 1) as nat;
        lemma_held(slots, m);
        let p = |i: int| slots[i].lock is Some;
        assert(p(n - 1) == (slots[n - 1].lock is Some));
        let rest = held_locks(slots, m);
        let all = held_locks(slots, n);
        assert forall|i: int| 0 <= i < n && (#[trigger] slots[i]).lock is Some implies all.contains(slots[i].lock->0) by {
            if i < m {
                let k = choose|k: int| 0 <= k < rest.len() && rest[k] == slots[i].lock->0;
                assert(all[k] == rest[k]);
            } else {
                assert(all[rest.len() as int] == slots[i].lock->0);
            }
        }
    }
}

/// The request is about work in the graph, or about none in particular.
pub open spec fn within_the_graph(v: StoredView, request: PlanRequest) -> bool {
    request matches PlanRequest::Heartbeat { plan_id, deliverable_id, caller_id } ==> deliverable_ids(v.plan.graph).contains(deliverable_id@)
}

/// What is beside a stored plan does not change what becomes of the plan, nor
/// the answer, but that a snapshot lists its leases too. A cohort first records
/// the leases that ran out there.
pub proof fn strays_do_not_change_answers(v: StoredView, request: PlanRequest, now: i64, expires_at: i64)
    requires
        within_the_graph(v, request),
    ensures
        match stored_outcome(bare(v.plan), request, now, expires_at) {
            Err(e) => stored_outcome(v, request, now, expires_at) == Err::<(StoredView, ResponseView, Seq<crate::audit::RecordView>), ErrorView>(e),
            Ok((alone, response, records)) => stored_outcome(v, request, now, expires_at) matches Ok((after, given, recorded)) && {
                &&& after.plan == alone.plan
                &&& !(request is Status) ==> given == response
                &&& recorded.len() >= records.len()
                &&& recorded.skip(recorded.len() - records.len()) == records
                &&& recorded.len() - records.len() == (if request is AcquireCohort {
                    how_many(v.stray_slots.len(), |i: int| over(v.stray_slots[i], now))
                } else {
                    0
                })
            },
        },
{
    ended_leases_are_listed(v.stray_slots, now, v.stray_slots.len());
    let none = Seq::<SlotView>::empty();
    assert(lapsed_locks(none, now, none.len()) =~= Seq::<LockView>::empty());
    if let Ok((alone, response, records)) = stored_outcome(bare(v.plan), request, now, expires_at) {
        let (after, given, recorded) = stored_outcome(v, request, now, expires_at)->Ok_0;
        assert(recorded.skip(recorded.len() - records.len()) =~= records);
    }
}

/// The names that are not known, each once.
proof fn lemma_unknown_names(known: Seq<Seq<char>>, names: Seq<Seq<char>>)
    ensures
        unknown_names(known, names).no_duplicates(),
        forall|x: Seq<char>| #[trigger] unknown_names(known, names).contains(x) <==> names.contains(x) && !known.contains(x),
    decreases names.len(),
{
    if names.len() > 0 {
        let head = names.drop_last();
        let last = names.last();
        lemma_unknown_names(known, head);
        let rest = unknown_names(known, head);
        let all = unknown_names(known, names);
        assert forall|x: Seq<char>| #[trigger] all.contains(x) <==> names.contains(x) && !known.contains(x) by {
            assert(rest.contains(x) <==> head.contains(x) && !known.contains(x));
            if names.contains(x) {
                let k = choose|k: int| 0 <= k < names.len() && names[k] == x;
                if k < head.len() {
                    assert(head[k] == x);
                }
            }
            if head.contains(x) {
                let k = choose|k: int| 0 <= k < head.len() && head[k] == x;
                assert(names[k] == x);
            }
            assert(names[names.len() - 1] == last);
            if all.len() > rest.len() {
                assert(all[rest.len() as int] == last);
                if rest.contains(x) {
                    let k = choose|k: int| 0 <= k < rest.len() && rest[k] == x;
                    assert(all[k] == x);
                }
                if all.contains(x) {
                    let k = choose|k: int| 0 <= k < all.len() && all[k] == x;
                    if k < rest.len() {
                        assert(rest[k] == x);
                    }
                }
            }
        }
    }
}

/// Some row names the work.
pub open spec fn named_in_rows(statuses: Seq<StatusRowView>, locks: Seq<LockRowView>, id: Seq<char>) -> bool {
    ||| exists|k: int| 0 <= k < statuses.len() && (#[trigger] statuses[k]).deliverable_id == id
    ||| exists|k: int| 0 <= k < locks.len() && (#[trigger] locks[k]).deliverable_id == id
}

/// What a store holds besides the plan: the work that rows name and the graph
/// does not, each once, with a slot read from the rows like any other.
pub proof fn strays_are_what_only_rows_name(plan_id: Seq<char>, graph: GraphView, result: ResultView, statuses: Seq<StatusRowView>, locks: Seq<LockRowView>)
    ensures
        match stored_whole(plan_id, graph, result, statuses, locks) {
            Ok(v) => {
                &&& stored_plan(plan_id, graph, result, statuses, locks) == Ok::<PlanView, ErrorView>(v.plan)
                &&& v.stray_ids.no_duplicates()
                &&& forall|id: Seq<char>| #[trigger] v.stray_ids.contains(id) <==> named_in_rows(statuses, locks, id) && !deliverable_ids(graph).contains(id)
                &&& v.stray_slots.len() == v.stray_ids.len()
                &&& forall|k: int| 0 <= k < v.stray_slots.len() ==> #[trigger] v.stray_slots[k] == stored_slot(plan_id, v.stray_ids[k], statuses, locks)
            },
            Err(e) => stored_plan(plan_id, graph, result, statuses, locks) == Err::<PlanView, ErrorView>(e),
        },
{
    if let Ok(v) = stored_whole(plan_id, graph, result, statuses, locks) {
        let names = names_in(statuses, locks);
        lemma_unknown_names(deliverable_ids(graph), names);
        assert forall|id: Seq<char>| #[trigger] v.stray_ids.contains(id) <==> named_in_rows(statuses, locks, id) && !deliverable_ids(graph).contains(id) by {
            if names.contains(id) {
                let k = choose|k: int| 0 <= k < names.len() && names[k] == id;
                if k < statuses.len() {
                    assert(statuses[k].deliverable_id == id);
                } else {
                    assert(locks[k - statuses.len()].deliverable_id == id);
                }
            }
            if exists|k: int| 0 <= k < statuses.len() && (#[trigger] statuses[k]).deliverable_id == id {
                let k = choose|k: int| 0 <= k < statuses.len() && (#[trigger] statuses[k]).deliverable_id == id;
                assert(names[k] == id);
            }
            if exists|k: int| 0 <= k < locks.len() && (#[trigger] locks[k]).deliverable_id == id {
                let k = choose|k: int| 0 <= k < locks.len() && (#[trigger] locks[k]).deliverable_id == id;
                assert(names[statuses.len() + k] == id);
            }
        }
    }
}

/// A submission is no request on a stored plan, and is refused as one.
pub proof fn submissions_are_not_about_stored_plans(v: StoredView, request: PlanRequest, now: i64, expires_at: i64)
    requires
        request is Submit,
    ensures
        stored_outcome(v, request, now, expires_at) matches Err(e) && e is BackendError,
{
}

} // verus!
