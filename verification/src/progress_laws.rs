//! What marking, heartbeats, forced releases and status do to a plan, in terms
//! of the plan alone.

use vstd::prelude::*;

use crate::cohort::all_complete;
use crate::index::{lemma_position, lemma_position_found, position};
use crate::lease_laws::one_more;
use crate::lifecycle::{advanced, heartbeat_outcome, held_locks, mark_outcome, marked_slot, release_outcome, snapshot_of};
use crate::locks::{plan_ok, PlanView, SlotView};
use crate::network::lists;
use crate::plan::{deliverable_ids, ErrorView, GraphView, LockView, StatusView};
use crate::validate::graph_deps;

verus! {

/// Some deliverable of the plan has the id.
pub open spec fn has_work(plan: PlanView, id: Seq<char>) -> bool {
    exists|i: int| 0 <= i < plan.graph.deliverables.len() && (#[trigger] plan.graph.deliverables[i]).id == id
}

/// The deliverable with the id is complete.
pub open spec fn completed(plan: PlanView, id: Seq<char>) -> bool {
    exists|i: int| 0 <= i < plan.slots.len() && (#[trigger] plan.graph.deliverables[i]).id == id && plan.slots[i].status is Complete
}

/// All that deliverable `i` waits for is complete.
pub open spec fn unblocked(plan: PlanView, i: int) -> bool {
    forall|a: int| 0 <= a < plan.graph.deliverables[i].prerequisites.len() ==> completed(plan, #[trigger] plan.graph.deliverables[i].prerequisites[a])
}

/// Positions and ids of prerequisites say the same.
proof fn lemma_unblocked(plan: PlanView, i: int)
    requires
        plan_ok(plan),
        plan.slots.len() <= usize::MAX,
        0 <= i < plan.slots.len(),
    ensures
        all_complete(plan.slots, graph_deps(plan.graph)[i]) <==> unblocked(plan, i),
{
    let ids = deliverable_ids(plan.graph);
    let deps = graph_deps(plan.graph)[i];
    let wanted = plan.graph.deliverables[i].prerequisites;
    assert forall|a: int| 0 <= a < wanted.len() implies ((#[trigger] deps[a] < plan.slots.len() && plan.slots[deps[a] as int].status is Complete) <==> completed(plan, wanted[a])) by {
        lemma_position_found(ids, wanted[a]);
        assert(deps[a] == position(ids, wanted[a]) as usize);
        if completed(plan, wanted[a]) {
            let j = choose|j: int| 0 <= j < plan.slots.len() && (#[trigger] plan.graph.deliverables[j]).id == wanted[a] && plan.slots[j].status is Complete;
            assert(ids[j] == wanted[a]);
            lemma_position(ids, j);
        }
        if deps[a] < plan.slots.len() {
            assert(plan.graph.deliverables[deps[a] as int].id == ids[deps[a] as int]);
        }
    }
    if all_complete(plan.slots, deps) {
        assert forall|a: int| 0 <= a < wanted.len() implies completed(plan, #[trigger] wanted[a]) by {
            assert(deps[a] < plan.slots.len());
        }
    }
    if unblocked(plan, i) {
        assert forall|a: int| 0 <= a < deps.len() implies (#[trigger] deps[a]) < plan.slots.len() && plan.slots[deps[a] as int].status is Complete by {
            assert(completed(plan, wanted[a]));
        }
    }
}

/// A deliverable waits for the one at position `d` exactly when it lists its
/// id.
proof fn lemma_waits(graph: GraphView, j: int, d: int)
    requires
        deliverable_ids(graph).no_duplicates(),
        graph.deliverables.len() <= usize::MAX,
        0 <= j < graph.deliverables.len(),
        0 <= d < graph.deliverables.len(),
    ensures
        lists(graph_deps(graph)[j], d) <==> graph.deliverables[j].prerequisites.contains(graph.deliverables[d].id),
{
    let ids = deliverable_ids(graph);
    let deps = graph_deps(graph)[j];
    let wanted = graph.deliverables[j].prerequisites;
    lemma_position(ids, d);
    if lists(deps, d) {
        let a = choose|a: int| 0 <= a < deps.len() && #[trigger] deps[a] == d;
        lemma_position_found(ids, wanted[a]);
        assert(wanted[a] == graph.deliverables[d].id);
    }
    if wanted.contains(ids[d]) {
        let a = choose|a: int| 0 <= a < wanted.len() && wanted[a] == ids[d];
        assert(deps[a] == d);
    }
}

/// Who may mark work, and how a refusal reads: whoever holds the lease may;
/// where nobody holds one, anybody may, but not as in progress. Nobody marks
/// work that is not in the plan.
pub proof fn marks_are_taken_from_the_holder(plan: PlanView, plan_id: Seq<char>, id: Seq<char>, caller_id: Seq<char>, status: StatusView, i: int)
    requires
        plan_ok(plan),
    ensures
        !has_work(plan, id) ==> mark_outcome(plan, plan_id, id, caller_id, status) == Err::<PlanView, ErrorView>(
            ErrorView::DeliverableNotFound { plan_id, deliverable_id: id },
        ),
        0 <= i < plan.slots.len() && plan.graph.deliverables[i].id == id ==> {
            let allowed = if plan.slots[i].lock is Some { plan.slots[i].lock->0.caller_id == caller_id } else { !(status is InProgress) };
            if allowed {
                mark_outcome(plan, plan_id, id, caller_id, status) is Ok
            } else {
                mark_outcome(plan, plan_id, id, caller_id, status) == Err::<PlanView, ErrorView>(
                    ErrorView::LockNotHeld { caller_id, deliverable_id: id },
                )
            }
        },
{
    let ids = deliverable_ids(plan.graph);
    lemma_position_found(ids, id);
    if ids.contains(id) {
        assert(plan.graph.deliverables[position(ids, id)].id == id);
    }
    if 0 <= i < plan.slots.len() && plan.graph.deliverables[i].id == id {
        assert(ids[i] == id);
        lemma_position(ids, i);
    }
}

/// What a mark does: the work has the status given, one more failure where it
/// failed, and its lease only where it is still in progress.
pub proof fn a_mark_sets_one_status(plan: PlanView, plan_id: Seq<char>, caller_id: Seq<char>, status: StatusView, i: int)
    requires
        plan_ok(plan),
        0 <= i < plan.slots.len(),
    ensures
        mark_outcome(plan, plan_id, plan.graph.deliverables[i].id, caller_id, status) matches Ok(after) ==> {
            &&& after.graph == plan.graph
            &&& after.result == plan.result
            &&& after.slots.len() == plan.slots.len()
            &&& after.slots[i].status == status
            &&& after.slots[i].attempts == plan.slots[i].attempts
            &&& after.slots[i].lapses == plan.slots[i].lapses
            &&& after.slots[i].failures == (if status is Failed { one_more(plan.slots[i].failures) } else { plan.slots[i].failures as int })
            &&& after.slots[i].lock == (if status is InProgress { plan.slots[i].lock } else { None::<LockView> })
        },
{
    lemma_position(deliverable_ids(plan.graph), i);
}

/// What a mark does to other work: nothing, but that what waited for completed
/// work and for nothing else that is open becomes ready.
pub proof fn a_mark_only_readies_others(plan: PlanView, plan_id: Seq<char>, caller_id: Seq<char>, status: StatusView, i: int, j: int)
    requires
        plan_ok(plan),
        plan.slots.len() <= usize::MAX,
        0 <= i < plan.slots.len(),
        0 <= j < plan.slots.len(),
        i != j,
    ensures
        mark_outcome(plan, plan_id, plan.graph.deliverables[i].id, caller_id, status) matches Ok(after) ==> {
            &&& after.slots[j].attempts == plan.slots[j].attempts
            &&& after.slots[j].failures == plan.slots[j].failures
            &&& after.slots[j].lapses == plan.slots[j].lapses
            &&& after.slots[j].lock == plan.slots[j].lock
            &&& after.slots[j].status == (if status is Complete && plan.slots[j].status is Pending && plan.graph.deliverables[j].prerequisites.contains(
                plan.graph.deliverables[i].id,
            ) && unblocked(after, j) {
                StatusView::Ready
            } else {
                plan.slots[j].status
            })
        },
{
    let graph = plan.graph;
    lemma_position(deliverable_ids(graph), i);
    if let Ok(after) = mark_outcome(plan, plan_id, graph.deliverables[i].id, caller_id, status) {
        if status is Complete {
            let set = plan.slots.update(i, marked_slot(plan.slots[i], status));
            let deps = graph_deps(graph)[j];
            assert(after.slots == advanced(graph, set, i));
            assert forall|x: int| 0 <= x < set.len() implies ((#[trigger] set[x]).status is Complete) == (after.slots[x].status is Complete) by {}
            assert(all_complete(set, deps) == all_complete(after.slots, deps));
            lemma_unblocked(after, j);
            lemma_waits(graph, j, i);
        }
    }
}

/// A heartbeat extends the lease of whoever holds it, up to and including the
/// moment at which it expires, whatever its age and length. It changes the
/// expiry of that lease and nothing else. Once the lease has expired, the
/// refusal says when. Anybody else is refused.
pub proof fn heartbeats_extend_live_leases(plan: PlanView, id: Seq<char>, caller_id: Seq<char>, now: i64, expires_at: i64, i: int)
    requires
        plan_ok(plan),
    ensures
        !has_work(plan, id) ==> heartbeat_outcome(plan, id, caller_id, now, expires_at) == Err::<PlanView, ErrorView>(
            ErrorView::LockNotHeld { caller_id, deliverable_id: id },
        ),
        0 <= i < plan.slots.len() && plan.graph.deliverables[i].id == id ==> match plan.slots[i].lock {
            None => heartbeat_outcome(plan, id, caller_id, now, expires_at) == Err::<PlanView, ErrorView>(
                ErrorView::LockNotHeld { caller_id, deliverable_id: id },
            ),
            Some(l) => {
                &&& l.caller_id != caller_id ==> heartbeat_outcome(plan, id, caller_id, now, expires_at) == Err::<PlanView, ErrorView>(
                    ErrorView::LockNotHeld { caller_id, deliverable_id: id },
                )
                &&& l.caller_id == caller_id && l.expires_at < now ==> heartbeat_outcome(plan, id, caller_id, now, expires_at) == Err::<PlanView, ErrorView>(
                    ErrorView::LockExpired { deliverable_id: id, expired_at: l.expires_at },
                )
                &&& l.caller_id == caller_id && now <= l.expires_at ==> (heartbeat_outcome(plan, id, caller_id, now, expires_at) matches Ok(after) && {
                    &&& after.graph == plan.graph
                    &&& after.result == plan.result
                    &&& after.slots.len() == plan.slots.len()
                    &&& after.slots[i].lock == Some(LockView { expires_at, ..l })
                    &&& after.slots[i].status == plan.slots[i].status
                    &&& after.slots[i].attempts == plan.slots[i].attempts
                    &&& after.slots[i].failures == plan.slots[i].failures
                    &&& after.slots[i].lapses == plan.slots[i].lapses
                    &&& forall|j: int| 0 <= j < plan.slots.len() && j != i ==> #[trigger] after.slots[j] == plan.slots[j]
                })
            },
        },
{
    let ids = deliverable_ids(plan.graph);
    lemma_position_found(ids, id);
    if ids.contains(id) {
        assert(plan.graph.deliverables[position(ids, id)].id == id);
    }
    if 0 <= i < plan.slots.len() && plan.graph.deliverables[i].id == id {
        assert(ids[i] == id);
        lemma_position(ids, i);
    }
}

/// A heartbeat can be repeated: as long as each comes no later than the expiry
/// that the one before it set, none is refused, and the last one decides when
/// the lease expires.
pub proof fn heartbeats_can_be_repeated(plan: PlanView, caller_id: Seq<char>, now: i64, expires_at: i64, later: i64, final_expiry: i64, i: int)
    requires
        plan_ok(plan),
        0 <= i < plan.slots.len(),
        plan.slots[i].lock is Some,
        plan.slots[i].lock->0.caller_id == caller_id,
        now <= plan.slots[i].lock->0.expires_at,
        later <= expires_at,
    ensures
        heartbeat_outcome(plan, plan.graph.deliverables[i].id, caller_id, now, expires_at) matches Ok(once) && (heartbeat_outcome(
            once,
            plan.graph.deliverables[i].id,
            caller_id,
            later,
            final_expiry,
        ) matches Ok(twice) && twice.slots == plan.slots.update(
            i,
            SlotView { lock: Some(LockView { expires_at: final_expiry, ..plan.slots[i].lock->0 }), ..plan.slots[i] },
        )),
{
    let id = plan.graph.deliverables[i].id;
    heartbeats_extend_live_leases(plan, id, caller_id, now, expires_at, i);
    let once = heartbeat_outcome(plan, id, caller_id, now, expires_at)->Ok_0;
    heartbeats_extend_live_leases(once, id, caller_id, later, final_expiry, i);
    let twice = heartbeat_outcome(once, id, caller_id, later, final_expiry)->Ok_0;
    assert(twice.slots =~= plan.slots.update(
        i,
        SlotView { lock: Some(LockView { expires_at: final_expiry, ..plan.slots[i].lock->0 }), ..plan.slots[i] },
    ));
}

/// A forced release ends the lease, whoever holds it, and makes the work ready
/// again. Where there is none it changes nothing, and never anything else.
/// Only work that is not in the plan is refused.
pub proof fn forced_releases_free_the_work(plan: PlanView, plan_id: Seq<char>, id: Seq<char>, i: int)
    requires
        plan_ok(plan),
    ensures
        !has_work(plan, id) ==> release_outcome(plan, plan_id, id) == Err::<PlanView, ErrorView>(
            ErrorView::DeliverableNotFound { plan_id, deliverable_id: id },
        ),
        0 <= i < plan.slots.len() && plan.graph.deliverables[i].id == id ==> (release_outcome(plan, plan_id, id) matches Ok(after) && {
            &&& after.graph == plan.graph
            &&& after.result == plan.result
            &&& after.slots.len() == plan.slots.len()
            &&& after.slots[i].lock is None
            &&& after.slots[i].status == (if plan.slots[i].lock is Some { StatusView::Ready } else { plan.slots[i].status })
            &&& after.slots[i].attempts == plan.slots[i].attempts
            &&& after.slots[i].failures == plan.slots[i].failures
            &&& after.slots[i].lapses == plan.slots[i].lapses
            &&& forall|j: int| 0 <= j < plan.slots.len() && j != i ==> #[trigger] after.slots[j] == plan.slots[j]
        }),
{
    let ids = deliverable_ids(plan.graph);
    lemma_position_found(ids, id);
    if ids.contains(id) {
        assert(plan.graph.deliverables[position(ids, id)].id == id);
    }
    if 0 <= i < plan.slots.len() && plan.graph.deliverables[i].id == id {
        assert(ids[i] == id);
        lemma_position(ids, i);
    }
}

/// Where the leases of the first `n` slots come from.
proof fn lemma_held_locks(graph: GraphView, slots: Seq<SlotView>, n: nat)
    requires
        n <= slots.len(),
        slots.len() == graph.deliverables.len(),
        deliverable_ids(graph).no_duplicates(),
        crate::locks::locks_match(graph, slots),
    ensures
        forall|i: int| 0 <= i < n && (#[trigger] slots[i]).lock is Some ==> held_locks(slots, n).contains(slots[i].lock->0),
        forall|k: int| 0 <= k < held_locks(slots, n).len() ==> exists|i: int| 0 <= i < n && (#[trigger] slots[i]).lock == Some(#[trigger] held_locks(slots, n)[k]),
        forall|a: int, b: int| 0 <= a < b < held_locks(slots, n).len() ==> (#[trigger] held_locks(slots, n)[a]).deliverable_id != (#[trigger] held_locks(slots, n)[b]).deliverable_id,
        forall|a: int, b: int, i: int, j: int| 0 <= a < b < held_locks(slots, n).len() && 0 <= i < slots.len() && 0 <= j < slots.len() && (#[trigger] slots[i]).lock == Some(#[trigger] held_locks(slots, n)[a])
            && (#[trigger] slots[j]).lock == Some(#[trigger] held_locks(slots, n)[b]) ==> i < j,
    decreases n,
{
    if n > 0 {
        let m = (n - 1) as nat;
        lemma_held_locks(graph, slots, m);
        let rest = held_locks(slots, m);
        let all = held_locks(slots, n);
        if slots[n - 1].lock is Some {
            let l = slots[n - 1].lock->0;
            assert(all == rest.push(l));
            assert(all[rest.len() as int] == l);
            assert forall|i: int| 0 <= i < n && (#[trigger] slots[i]).lock is Some implies all.contains(slots[i].lock->0) by {
                if i < m {
                    let k = choose|k: int| 0 <= k < rest.len() && rest[k] == slots[i].lock->0;
                    assert(all[k] == rest[k]);
                }
            }
            assert forall|k: int| 0 <= k < all.len() implies exists|i: int| 0 <= i < n && (#[trigger] slots[i]).lock == Some(#[trigger] all[k]) by {
                if k < rest.len() {
                    assert(all[k] == rest[k]);
                    let i = choose|i: int| 0 <= i < m && (#[trigger] slots[i]).lock == Some(rest[k]);
                    assert(slots[i].lock == Some(all[k]));
                } else {
                    assert(slots[n - 1].lock == Some(all[k]));
                }
            }
            assert forall|a: int, b: int| 0 <= a < b < all.len() implies (#[trigger] all[a]).deliverable_id != (#[trigger] all[b]).deliverable_id by {
                assert(all[a] == rest[a]);
                if b < rest.len() {
                    assert(all[b] == rest[b]);
                } else {
                    let i = choose|i: int| 0 <= i < m && (#[trigger] slots[i]).lock == Some(rest[a]);
                    let ids = deliverable_ids(graph);
                    assert(slots[i].lock->0.deliverable_id == ids[i]);
                    assert(slots[n - 1].lock->0.deliverable_id == ids[n - 1]);
                }
            }
            assert forall|a: int, b: int, i: int, j: int| 0 <= a < b < all.len() && 0 <= i < slots.len() && 0 <= j < slots.len() && (#[trigger] slots[i]).lock == Some(#[trigger] all[a])
                && (#[trigger] slots[j]).lock == Some(#[trigger] all[b]) implies i < j by {
                let ids = deliverable_ids(graph);
                assert(all[a] == rest[a]);
                if b < rest.len() {
                    assert(all[b] == rest[b]);
                } else {
                    let x = choose|x: int| 0 <= x < m && (#[trigger] slots[x]).lock == Some(rest[a]);
                    assert(slots[x].lock->0.deliverable_id == ids[x] && slots[i].lock->0.deliverable_id == ids[i]);
                    assert(slots[n - 1].lock->0.deliverable_id == ids[n - 1] && slots[j].lock->0.deliverable_id == ids[j]);
                }
            }
        }
    }
}

/// A snapshot shows the plan as it is: every deliverable in order with its
/// status and counters, the critical path of the analysis and how long it
/// takes, and every lease once, in the order of the deliverables.
pub proof fn snapshots_show_the_plan(plan: PlanView, plan_id: Seq<char>)
    requires
        plan_ok(plan),
    ensures
        ({
            let s = snapshot_of(plan, plan_id);
            &&& s.plan_id == plan_id
            &&& s.deliverables.len() == plan.graph.deliverables.len()
            &&& forall|i: int| 0 <= i < s.deliverables.len() ==> {
                &&& (#[trigger] s.deliverables[i]).id == plan.graph.deliverables[i].id
                &&& s.deliverables[i].status == plan.slots[i].status
                &&& s.deliverables[i].attempts == plan.slots[i].attempts
                &&& s.deliverables[i].failures == plan.slots[i].failures
                &&& s.deliverables[i].lapses == plan.slots[i].lapses
            }
            &&& s.critical_path == plan.result.critical_path
            &&& s.critical_path_hours == plan.result.critical_path_duration
            &&& forall|i: int| 0 <= i < plan.slots.len() && (#[trigger] plan.slots[i]).lock is Some ==> s.locks_held.contains(plan.slots[i].lock->0)
            &&& forall|k: int| 0 <= k < s.locks_held.len() ==> exists|i: int| 0 <= i < plan.slots.len() && (#[trigger] plan.slots[i]).lock == Some(#[trigger] s.locks_held[k])
            &&& forall|a: int, b: int| 0 <= a < b < s.locks_held.len() ==> (#[trigger] s.locks_held[a]).deliverable_id != (#[trigger] s.locks_held[b]).deliverable_id
            &&& forall|a: int, b: int, i: int, j: int| 0 <= a < b < s.locks_held.len() && 0 <= i < plan.slots.len() && 0 <= j < plan.slots.len() && (#[trigger] plan.slots[i]).lock == Some(#[trigger] s.locks_held[a])
                && (#[trigger] plan.slots[j]).lock == Some(#[trigger] s.locks_held[b]) ==> i < j
        }),
{
    lemma_held_locks(plan.graph, plan.slots, plan.slots.len());
}

} // verus!
