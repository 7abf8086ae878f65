//! What holds of every lease.

use vstd::prelude::*;

use crate::cohort::{
    acquire_outcome, all_complete, available, busy_file, clashes, higher_priority, lemma_covered_ranked, lemma_picks_available,
    lemma_picks_within, lemma_ready_list, over_limit, picks, ready_list, ready_order, selection, swept, tripped,
};
use crate::index::lemma_position;
use crate::lifecycle::{heartbeat_outcome, mark_outcome, release_outcome};
use crate::locks::{bumped, covers, lapsed, plan_ok, quarantined, reaped, reaped_slot, PlanView, SlotView, MAX_ATTEMPTS, MAX_LAPSES};
use crate::network::lists;
use crate::paths::file_keys;
use crate::plan::{deliverable_ids, ErrorView, GraphView, StatusView};
use crate::submit::{initial_slots, well_formed};
use crate::validate::{graph_deps, lemma_first_found};

verus! {

/// Two deliverables own no file in common.
pub open spec fn files_disjoint(graph: GraphView, i: int, j: int) -> bool {
    forall|f: Seq<char>| !(file_keys(graph.deliverables[i]).contains(f) && #[trigger] file_keys(graph.deliverables[j]).contains(f))
}

/// A greedy selection has at most the size asked for, keeps the order of the
/// list, and shares no file within itself or with what is leased.
proof fn lemma_picks_sound(graph: GraphView, slots: Seq<SlotView>, order: Seq<int>, max: nat)
    requires
        forall|k: int| 0 <= k < order.len() ==> 0 <= #[trigger] order[k] < slots.len(),
    ensures
        picks(graph, slots, order, max).len() <= max,
        forall|a: int, b: int| 0 <= a < b < picks(graph, slots, order, max).len() ==> files_disjoint(graph, #[trigger] picks(graph, slots, order, max)[a], #[trigger] picks(graph, slots, order, max)[b]),
        forall|a: int, m: int| 0 <= a < picks(graph, slots, order, max).len() && 0 <= m < slots.len() && slots[m].lock is Some ==> files_disjoint(graph, m, #[trigger] picks(graph, slots, order, max)[a]) && #[trigger] slots[m] == slots[m],
    decreases order.len(),
{
    if order.len() > 0 {
        let head = order.drop_last();
        let c = order.last();
        assert(order[order.len() - 1] == c);
        assert forall|k: int| 0 <= k < head.len() implies 0 <= #[trigger] head[k] < slots.len() by {
            assert(head[k] == order[k]);
        }
        lemma_picks_sound(graph, slots, head, max);
        let rest = picks(graph, slots, head, max);
        let all = picks(graph, slots, order, max);
        if all.len() > rest.len() {
            assert(all == rest.push(c));
            assert forall|a: int, b: int| 0 <= a < b < all.len() implies files_disjoint(graph, #[trigger] all[a], #[trigger] all[b]) by {
                if b < rest.len() {
                    assert(all[a] == rest[a] && all[b] == rest[b]);
                } else {
                    lemma_picks_within(graph, slots, head, max, a);
                    let x = choose|x: int| 0 <= x < head.len() && head[x] == rest[a];
                    assert forall|f: Seq<char>| !(file_keys(graph.deliverables[rest[a]]).contains(f) && #[trigger] file_keys(graph.deliverables[c]).contains(f)) by {
                        if file_keys(graph.deliverables[rest[a]]).contains(f) && file_keys(graph.deliverables[c]).contains(f) {
                            let y = choose|y: int| 0 <= y < file_keys(graph.deliverables[c]).len() && file_keys(graph.deliverables[c])[y] == f;
                            assert(rest.contains(rest[a]));
                            assert(busy_file(graph, slots, rest, file_keys(graph.deliverables[c])[y]));
                            assert(clashes(graph, slots, rest, c));
                        }
                    }
                }
            }
            assert forall|a: int, m: int| 0 <= a < all.len() && 0 <= m < slots.len() && slots[m].lock is Some implies files_disjoint(graph, m, #[trigger] all[a]) && #[trigger] slots[m] == slots[m] by {
                if a < rest.len() {
                    assert(all[a] == rest[a]);
                } else {
                    assert forall|f: Seq<char>| !(file_keys(graph.deliverables[m]).contains(f) && #[trigger] file_keys(graph.deliverables[c]).contains(f)) by {
                        if file_keys(graph.deliverables[m]).contains(f) && file_keys(graph.deliverables[c]).contains(f) {
                            let y = choose|y: int| 0 <= y < file_keys(graph.deliverables[c]).len() && file_keys(graph.deliverables[c])[y] == f;
                            assert(busy_file(graph, slots, rest, file_keys(graph.deliverables[c])[y]));
                            assert(clashes(graph, slots, rest, c));
                        }
                    }
                }
            }
        } else {
            assert(all == rest);
        }
    }
}

/// What a greedy selection leaves out would clash, or did not fit.
proof fn lemma_picks_maximal(graph: GraphView, slots: Seq<SlotView>, order: Seq<int>, max: nat, k: int)
    requires
        0 <= k < order.len(),
    ensures
        ({
            let all = picks(graph, slots, order, max);
            all.contains(order[k]) || all.len() >= max || clashes(graph, slots, all, order[k])
        }),
    decreases order.len(),
{
    let head = order.drop_last();
    let rest = picks(graph, slots, head, max);
    let all = picks(graph, slots, order, max);
    let c = order[k];
    if k == order.len() - 1 {
        if all.len() > rest.len() {
            assert(all[rest.len() as int] == c);
        }
    } else {
        assert(head[k] == c);
        lemma_picks_maximal(graph, slots, head, max, k);
        if rest.contains(c) {
            let x = choose|x: int| 0 <= x < rest.len() && rest[x] == c;
            assert(all[x] == c);
        } else if rest.len() >= max {
        } else {
            let a = choose|a: int| 0 <= a < file_keys(graph.deliverables[c]).len() && busy_file(graph, slots, rest, #[trigger] file_keys(graph.deliverables[c])[a]);
            let f = file_keys(graph.deliverables[c])[a];
            let m = choose|m: int| {
                &&& 0 <= m < slots.len()
                &&& slots[m].lock is Some || rest.contains(m)
                &&& file_keys(#[trigger] graph.deliverables[m]).contains(f)
            };
            if rest.contains(m) {
                let x = choose|x: int| 0 <= x < rest.len() && rest[x] == m;
                assert(all[x] == m);
            }
            assert(busy_file(graph, slots, all, file_keys(graph.deliverables[c])[a]));
        }
    }
}

/// A greedy selection keeps the order of the list.
proof fn lemma_picks_ordered(plan: PlanView, slots: Seq<SlotView>, order: Seq<int>, max: nat)
    requires
        forall|i: int, j: int| 0 <= i < j < order.len() ==> higher_priority(plan, #[trigger] order[i], #[trigger] order[j]),
    ensures
        forall|a: int, b: int| 0 <= a < b < picks(plan.graph, slots, order, max).len() ==> higher_priority(plan, #[trigger] picks(plan.graph, slots, order, max)[a], #[trigger] picks(plan.graph, slots, order, max)[b]),
    decreases order.len(),
{
    if order.len() > 0 {
        let head = order.drop_last();
        let c = order.last();
        assert forall|i: int, j: int| 0 <= i < j < head.len() implies higher_priority(plan, #[trigger] head[i], #[trigger] head[j]) by {
            assert(head[i] == order[i] && head[j] == order[j]);
        }
        lemma_picks_ordered(plan, slots, head, max);
        let rest = picks(plan.graph, slots, head, max);
        let all = picks(plan.graph, slots, order, max);
        assert forall|a: int, b: int| 0 <= a < b < all.len() implies higher_priority(plan, #[trigger] all[a], #[trigger] all[b]) by {
            if b < rest.len() {
                assert(all[a] == rest[a] && all[b] == rest[b]);
            } else {
                lemma_picks_within(plan.graph, slots, head, max, a);
                let x = choose|x: int| 0 <= x < head.len() && head[x] == rest[a];
                assert(order[x] == rest[a]);
                assert(order[order.len() - 1] == c);
            }
        }
    }
}

/// The facts about the list from which a cohort is chosen.
proof fn lemma_selection(plan: PlanView, now: i64, max: nat)
    requires
        plan_ok(plan),
    ensures
        swept(plan, now).len() == plan.slots.len(),
        ready_order(plan, swept(plan, now), ready_list(plan, swept(plan, now))),
        selection(plan, now, max).no_duplicates(),
        forall|k: int| 0 <= k < selection(plan, now, max).len() ==> available(plan.graph, swept(plan, now), #[trigger] selection(plan, now, max)[k]),
{
    let slots = swept(plan, now);
    lemma_ready_list(plan, slots);
    lemma_picks_available(plan, slots, ready_list(plan, slots), max);
}

/// A cohort holds at most as many deliverables as asked for, each once. All
/// their prerequisites are complete. They share no file among each other, nor
/// with anything that was leased to someone before and still is.
pub proof fn cohorts_are_disjoint_and_ready(plan: PlanView, plan_id: Seq<char>, caller_id: Seq<char>, max: nat, now: i64, expires_at: i64)
    requires
        plan_ok(plan),
    ensures
        acquire_outcome(plan, plan_id, caller_id, max, now, expires_at) matches Ok((after, cohort)) ==> {
            let chosen = selection(plan, now, max);
            &&& cohort.rows.len() == chosen.len()
            &&& cohort.rows.len() <= max
            &&& chosen.no_duplicates()
            &&& forall|k: int| 0 <= k < chosen.len() ==> 0 <= #[trigger] chosen[k] < plan.slots.len() && cohort.rows[k].deliverable == plan.graph.deliverables[chosen[k]]
            &&& forall|k: int| 0 <= k < chosen.len() ==> all_complete(after.slots, graph_deps(plan.graph)[#[trigger] chosen[k]])
            &&& forall|a: int, b: int| 0 <= a < b < chosen.len() ==> files_disjoint(plan.graph, #[trigger] chosen[a], #[trigger] chosen[b])
            &&& forall|k: int, m: int| 0 <= k < chosen.len() && 0 <= m < plan.slots.len() && #[trigger] plan.slots[m].lock is Some && !lapsed(plan.slots[m], now) ==> files_disjoint(plan.graph, m, #[trigger] chosen[k])
        },
{
    let slots = swept(plan, now);
    let order = ready_list(plan, slots);
    let chosen = selection(plan, now, max);
    lemma_selection(plan, now, max);
    let member = |i: int| available(plan.graph, slots, i);
    assert forall|k: int| 0 <= k < order.len() implies 0 <= #[trigger] order[k] < slots.len() by {
        assert(member(order[k]));
    }
    lemma_picks_sound(plan.graph, slots, order, max);
    if let Ok((after, cohort)) = acquire_outcome(plan, plan_id, caller_id, max, now, expires_at) {
        assert forall|k: int| 0 <= k < chosen.len() implies all_complete(after.slots, graph_deps(plan.graph)[#[trigger] chosen[k]]) by {
            let list = graph_deps(plan.graph)[chosen[k]];
            assert(available(plan.graph, slots, chosen[k]));
            assert forall|j: int| 0 <= j < list.len() implies (#[trigger] list[j]) < after.slots.len() && after.slots[list[j] as int].status is Complete by {
                let d = list[j] as int;
                assert(slots[d].status is Complete);
                if chosen.contains(d) {
                    let x = choose|x: int| 0 <= x < chosen.len() && chosen[x] == d;
                    assert(available(plan.graph, slots, chosen[x]));
                }
            }
        }
        assert forall|k: int, m: int| 0 <= k < chosen.len() && 0 <= m < plan.slots.len() && #[trigger] plan.slots[m].lock is Some && !lapsed(plan.slots[m], now) implies files_disjoint(plan.graph, m, #[trigger] chosen[k]) by {
            assert(slots[m].lock is Some);
        }
    }
}

/// A cohort is in order of priority, and nothing available is left out but for
/// want of room or for a file that is leased or chosen.
pub proof fn cohorts_are_greedy(plan: PlanView, max: nat, now: i64, i: int)
    requires
        plan_ok(plan),
    ensures
        ({
            let slots = swept(plan, now);
            let chosen = selection(plan, now, max);
            &&& forall|a: int, b: int| 0 <= a < b < chosen.len() ==> higher_priority(plan, #[trigger] chosen[a], #[trigger] chosen[b])
            &&& available(plan.graph, slots, i) ==> chosen.contains(i) || chosen.len() == max || clashes(plan.graph, slots, chosen, i)
        }),
{
    let slots = swept(plan, now);
    let order = ready_list(plan, slots);
    lemma_selection(plan, now, max);
    let member = |i: int| available(plan.graph, slots, i);
    let before = |i: int, j: int| higher_priority(plan, i, j);
    assert forall|k: int| 0 <= k < order.len() implies 0 <= #[trigger] order[k] < slots.len() by {
        assert(member(order[k]));
    }
    lemma_picks_sound(plan.graph, slots, order, max);
    assert forall|a: int, b: int| 0 <= a < b < order.len() implies higher_priority(plan, #[trigger] order[a], #[trigger] order[b]) by {
        assert(before(order[a], order[b]));
    }
    lemma_picks_ordered(plan, slots, order, max);
    if available(plan.graph, slots, i) {
        assert(member(i));
        assert(order.contains(i));
        let k = choose|k: int| 0 <= k < order.len() && order[k] == i;
        lemma_picks_maximal(plan.graph, slots, order, max, k);
    }
}

/// Every deliverable of a cohort is in progress afterwards, under the lock
/// that its row shows.
pub proof fn cohorts_are_locked(plan: PlanView, plan_id: Seq<char>, caller_id: Seq<char>, max: nat, now: i64, expires_at: i64, k: int)
    requires
        plan_ok(plan),
        0 <= k < selection(plan, now, max).len(),
    ensures
        acquire_outcome(plan, plan_id, caller_id, max, now, expires_at) matches Ok((after, cohort)) ==> {
            let i = selection(plan, now, max)[k];
            &&& after.slots[i].status is InProgress
            &&& after.slots[i].lock == Some(cohort.rows[k].lock)
            &&& cohort.rows[k].lock.deliverable_id == cohort.rows[k].deliverable.id
            &&& cohort.rows[k].lock.caller_id == caller_id
            &&& cohort.rows[k].lock.expires_at == expires_at
            &&& after.slots[i].attempts == bumped(plan.slots[i].attempts)
        },
{
    lemma_selection(plan, now, max);
    let i = selection(plan, now, max)[k];
    assert(available(plan.graph, swept(plan, now), i));
    assert(selection(plan, now, max).contains(i));
}

/// What is leased is not leased again, nor any file of it, to anyone who asks
/// before the lease lapses.
pub proof fn leases_are_exclusive(plan: PlanView, now: i64, max: nat, i: int, b: int)
    requires
        plan_ok(plan),
        0 <= i < plan.slots.len(),
        plan.slots[i].lock is Some,
        !lapsed(plan.slots[i], now),
        0 <= b < selection(plan, now, max).len(),
    ensures
        selection(plan, now, max)[b] != i,
        files_disjoint(plan.graph, i, selection(plan, now, max)[b]),
{
    lemma_selection(plan, now, max);
    let slots = swept(plan, now);
    let chosen = selection(plan, now, max);
    assert(available(plan.graph, slots, chosen[b]));
    assert(slots[i].lock is Some);
    let order = ready_list(plan, slots);
    let member = |i: int| available(plan.graph, slots, i);
    assert forall|k: int| 0 <= k < order.len() implies 0 <= #[trigger] order[k] < slots.len() by {
        assert(member(order[k]));
    }
    lemma_picks_sound(plan.graph, slots, order, max);
    assert(slots[i] == slots[i]);
}

/// What one caller leased is not leased by the next, nor any file of it,
/// before the lease lapses.
pub proof fn cohorts_are_exclusive(plan: PlanView, plan_id: Seq<char>, caller: Seq<char>, max: nat, now: i64, expires_at: i64, later: i64, max2: nat, a: int, b: int)
    requires
        plan_ok(plan),
        later <= expires_at,
        0 <= a < selection(plan, now, max).len(),
    ensures
        acquire_outcome(plan, plan_id, caller, max, now, expires_at) matches Ok((after, cohort)) ==> {
            let first = selection(plan, now, max);
            let second = selection(after, later, max2);
            0 <= b < second.len() ==> second[b] != first[a] && files_disjoint(plan.graph, first[a], second[b])
        },
{
    if let Ok((after, cohort)) = acquire_outcome(plan, plan_id, caller, max, now, expires_at) {
        let first = selection(plan, now, max);
        let second = selection(after, later, max2);
        lemma_selection(plan, now, max);
        cohorts_are_locked(plan, plan_id, caller, max, now, expires_at, a);
        let i = first[a];
        assert(available(plan.graph, swept(plan, now), first[a]));
        assert(after.slots[i].lock is Some);
        if 0 <= b < second.len() {
            lemma_leased_plan_ok(plan, plan_id, caller, max, now, expires_at);
            leases_are_exclusive(after, later, max2, i, b);
        }
    }
}

/// Leasing keeps a plan consistent.
proof fn lemma_leased_plan_ok(plan: PlanView, plan_id: Seq<char>, caller: Seq<char>, max: nat, now: i64, expires_at: i64)
    requires
        plan_ok(plan),
    ensures
        acquire_outcome(plan, plan_id, caller, max, now, expires_at) matches Ok((after, cohort)) ==> plan_ok(after),
{
}

/// A deliverable that failed too often is never leased, and neither is one on
/// which leases lapsed too often.
pub proof fn worn_out_deliverables_are_not_leased(plan: PlanView, plan_id: Seq<char>, caller: Seq<char>, max: nat, now: i64, expires_at: i64, k: int)
    requires
        plan_ok(plan),
        0 <= k < selection(plan, now, max).len(),
    ensures
        acquire_outcome(plan, plan_id, caller, max, now, expires_at) is Ok ==> {
            let i = selection(plan, now, max)[k];
            plan.slots[i].failures < MAX_ATTEMPTS && reaped_slot(plan.slots[i], now).lapses < MAX_LAPSES
        },
{
    lemma_selection(plan, now, max);
    let slots = swept(plan, now);
    let chosen = selection(plan, now, max);
    let i = chosen[k];
    assert(available(plan.graph, slots, chosen[k]));
    let cleared = reaped(plan.slots, now);
    if plan.slots[i].failures >= MAX_ATTEMPTS {
        assert(slots[i].status is Ready);
        assert(!tripped(plan.graph, cleared, i));
        // Not given up, so it was not available before either.
        assert(!available(plan.graph, cleared, i));
        let list = graph_deps(plan.graph)[i];
        assert(all_complete(cleared, list)) by {
            assert forall|j: int| 0 <= j < list.len() implies (#[trigger] list[j]) < cleared.len() && cleared[list[j] as int].status is Complete by {
                let d = list[j] as int;
                assert(slots[d].status is Complete);
            }
        }
    }
    let too_often = |k: int| slots[chosen[k]].lapses >= MAX_LAPSES;
    lemma_first_found(chosen.len(), too_often);
    if acquire_outcome(plan, plan_id, caller, max, now, expires_at) is Ok {
        assert(!too_often(k));
    }
}

/// Where the analysis covers the graph, a request is refused only because of
/// lapses. It then names a deliverable that would have been leased and on which
/// leases did lapse that often.
pub proof fn lapse_limit_is_honest(plan: PlanView, plan_id: Seq<char>, caller: Seq<char>, max: nat, now: i64, expires_at: i64)
    requires
        plan_ok(plan),
    ensures
        acquire_outcome(plan, plan_id, caller, max, now, expires_at) matches Err(e) ==> e is LapseLimit || !covers(plan.result, plan.graph),
        acquire_outcome(plan, plan_id, caller, max, now, expires_at) matches Err(e) ==> e is LapseLimit ==> exists|k: int| {
            let i = selection(plan, now, max)[k];
            &&& 0 <= k < selection(plan, now, max).len()
            &&& available(plan.graph, swept(plan, now), i)
            &&& e == (ErrorView::LapseLimit {
                deliverable_id: (#[trigger] plan.graph.deliverables[selection(plan, now, max)[k]]).id,
                lapse_count: reaped_slot(plan.slots[i], now).lapses,
                max_lapses: MAX_LAPSES,
            })
            &&& reaped_slot(plan.slots[i], now).lapses >= MAX_LAPSES
        },
{
    lemma_selection(plan, now, max);
    let slots = swept(plan, now);
    let chosen = selection(plan, now, max);
    let too_often = |k: int| slots[chosen[k]].lapses >= MAX_LAPSES;
    lemma_first_found(chosen.len(), too_often);
    if covers(plan.result, plan.graph) {
        lemma_covered_ranked(plan, slots);
    }
    if over_limit(slots, chosen) is Some {
        let k = over_limit(slots, chosen)->0;
        assert(too_often(k));
        assert(available(plan.graph, slots, chosen[k]));
        assert(plan.graph.deliverables[chosen[k]].id == plan.graph.deliverables[selection(plan, now, max)[k]].id);
    }
}

/// A deliverable is in progress exactly when someone holds a lease on it.
pub open spec fn progress_matches_locks(slots: Seq<SlotView>) -> bool {
    forall|i: int| 0 <= i < slots.len() ==> ((#[trigger] slots[i]).status is InProgress <==> slots[i].lock is Some)
}

/// A new plan has nothing in progress and nothing leased.
pub proof fn new_plans_match(graph: GraphView)
    ensures
        progress_matches_locks(initial_slots(graph)),
        held_files_disjoint(graph, initial_slots(graph)),
{
}

/// No file is leased twice: deliverables that are leased own no file in
/// common.
pub open spec fn held_files_disjoint(graph: GraphView, slots: Seq<SlotView>) -> bool {
    forall|i: int, j: int| 0 <= i < j < slots.len() && (#[trigger] slots[i]).lock is Some && (#[trigger] slots[j]).lock is Some ==> files_disjoint(graph, i, j)
}

proof fn lemma_files_disjoint_swap(graph: GraphView, i: int, j: int)
    requires
        files_disjoint(graph, i, j),
    ensures
        files_disjoint(graph, j, i),
{
    assert forall|f: Seq<char>| !(file_keys(graph.deliverables[j]).contains(f) && #[trigger] file_keys(graph.deliverables[i]).contains(f)) by {
        if file_keys(graph.deliverables[j]).contains(f) && file_keys(graph.deliverables[i]).contains(f) {
            assert(!(file_keys(graph.deliverables[i]).contains(f) && file_keys(graph.deliverables[j]).contains(f)));
        }
    }
}

/// Whatever happens to a plan, no file is ever leased twice at a time.
pub proof fn held_files_stay_disjoint(plan: PlanView, plan_id: Seq<char>, id: Seq<char>, caller: Seq<char>, max: nat, now: i64, expires_at: i64, status: StatusView)
    requires
        plan_ok(plan),
        held_files_disjoint(plan.graph, plan.slots),
    ensures
        acquire_outcome(plan, plan_id, caller, max, now, expires_at) matches Ok((after, cohort)) ==> held_files_disjoint(after.graph, after.slots),
        heartbeat_outcome(plan, id, caller, now, expires_at) matches Ok(after) ==> held_files_disjoint(after.graph, after.slots),
        release_outcome(plan, plan_id, id) matches Ok(after) ==> held_files_disjoint(after.graph, after.slots),
        mark_outcome(plan, plan_id, id, caller, status) matches Ok(after) ==> held_files_disjoint(after.graph, after.slots),
        held_files_disjoint(plan.graph, quarantined(plan.slots, now)),
{
    if let Ok((after, cohort)) = acquire_outcome(plan, plan_id, caller, max, now, expires_at) {
        let chosen = selection(plan, now, max);
        lemma_selection(plan, now, max);
        cohorts_are_disjoint_and_ready(plan, plan_id, caller, max, now, expires_at);
        assert forall|i: int, j: int| 0 <= i < j < after.slots.len() && (#[trigger] after.slots[i]).lock is Some && (#[trigger] after.slots[j]).lock is Some implies files_disjoint(plan.graph, i, j) by {
            if !chosen.contains(i) {
                assert(plan.slots[i].lock is Some && !lapsed(plan.slots[i], now));
            }
            if !chosen.contains(j) {
                assert(plan.slots[j].lock is Some && !lapsed(plan.slots[j], now));
            }
            if chosen.contains(i) && chosen.contains(j) {
                let a = choose|a: int| 0 <= a < chosen.len() && chosen[a] == i;
                let b = choose|b: int| 0 <= b < chosen.len() && chosen[b] == j;
                if a < b {
                    assert(files_disjoint(plan.graph, chosen[a], chosen[b]));
                } else {
                    assert(files_disjoint(plan.graph, chosen[b], chosen[a]));
                    lemma_files_disjoint_swap(plan.graph, j, i);
                }
            } else if chosen.contains(i) {
                let a = choose|a: int| 0 <= a < chosen.len() && chosen[a] == i;
                assert(files_disjoint(plan.graph, j, chosen[a]));
                lemma_files_disjoint_swap(plan.graph, j, i);
            } else if chosen.contains(j) {
                let b = choose|b: int| 0 <= b < chosen.len() && chosen[b] == j;
                assert(files_disjoint(plan.graph, i, chosen[b]));
            }
        }
    }
    if let Ok(after) = heartbeat_outcome(plan, id, caller, now, expires_at) {
        lemma_fewer_locks(plan.graph, plan.slots, after.slots);
    }
    if let Ok(after) = release_outcome(plan, plan_id, id) {
        lemma_fewer_locks(plan.graph, plan.slots, after.slots);
    }
    if let Ok(after) = mark_outcome(plan, plan_id, id, caller, status) {
        lemma_fewer_locks(plan.graph, plan.slots, after.slots);
    }
    lemma_fewer_locks(plan.graph, plan.slots, quarantined(plan.slots, now));
}

proof fn lemma_fewer_locks(graph: GraphView, before: Seq<SlotView>, after: Seq<SlotView>)
    requires
        held_files_disjoint(graph, before),
        after.len() == before.len(),
        forall|i: int| 0 <= i < after.len() && (#[trigger] after[i]).lock is Some ==> before[i].lock is Some,
    ensures
        held_files_disjoint(graph, after),
{
    assert forall|i: int, j: int| 0 <= i < j < after.len() && (#[trigger] after[i]).lock is Some && (#[trigger] after[j]).lock is Some implies files_disjoint(graph, i, j) by {
        assert(before[i].lock is Some && before[j].lock is Some);
    }
}

/// A restart keeps every lease that has not lapsed, clears and counts every
/// one that has, and leaves nothing in progress that nobody holds.
pub proof fn restarts_keep_live_leases(slots: Seq<SlotView>, now: i64, i: int)
    requires
        0 <= i < slots.len(),
    ensures
        slots[i].lock is Some && !lapsed(slots[i], now) ==> quarantined(slots, now)[i] == slots[i],
        lapsed(slots[i], now) ==> quarantined(slots, now)[i] == (SlotView {
            status: StatusView::Ready,
            lapses: bumped(slots[i].lapses),
            lock: None,
            ..slots[i]
        }),
        quarantined(slots, now)[i].status is InProgress ==> quarantined(slots, now)[i].lock is Some && !lapsed(quarantined(slots, now)[i], now),
{
}

/// Whatever happens to a plan, exactly what is leased is in progress.
pub proof fn progress_keeps_matching_locks(plan: PlanView, plan_id: Seq<char>, id: Seq<char>, caller: Seq<char>, max: nat, now: i64, expires_at: i64, status: StatusView)
    requires
        plan_ok(plan),
        progress_matches_locks(plan.slots),
    ensures
        acquire_outcome(plan, plan_id, caller, max, now, expires_at) matches Ok((after, cohort)) ==> progress_matches_locks(after.slots),
        heartbeat_outcome(plan, id, caller, now, expires_at) matches Ok(after) ==> progress_matches_locks(after.slots),
        release_outcome(plan, plan_id, id) matches Ok(after) ==> progress_matches_locks(after.slots),
        mark_outcome(plan, plan_id, id, caller, status) matches Ok(after) ==> progress_matches_locks(after.slots),
        progress_matches_locks(quarantined(plan.slots, now)),
{
    if let Ok((after, cohort)) = acquire_outcome(plan, plan_id, caller, max, now, expires_at) {
        let slots = swept(plan, now);
        assert forall|i: int| 0 <= i < after.slots.len() implies ((#[trigger] after.slots[i]).status is InProgress <==> after.slots[i].lock is Some) by {
            assert(plan.slots[i].status is InProgress <==> plan.slots[i].lock is Some);
        }
    }
    if let Ok(after) = heartbeat_outcome(plan, id, caller, now, expires_at) {
        assert forall|i: int| 0 <= i < after.slots.len() implies ((#[trigger] after.slots[i]).status is InProgress <==> after.slots[i].lock is Some) by {
            assert(plan.slots[i].status is InProgress <==> plan.slots[i].lock is Some);
        }
    }
    if let Ok(after) = release_outcome(plan, plan_id, id) {
        assert forall|i: int| 0 <= i < after.slots.len() implies ((#[trigger] after.slots[i]).status is InProgress <==> after.slots[i].lock is Some) by {
            assert(plan.slots[i].status is InProgress <==> plan.slots[i].lock is Some);
        }
    }
    if let Ok(after) = mark_outcome(plan, plan_id, id, caller, status) {
        assert forall|i: int| 0 <= i < after.slots.len() implies ((#[trigger] after.slots[i]).status is InProgress <==> after.slots[i].lock is Some) by {
            assert(plan.slots[i].status is InProgress <==> plan.slots[i].lock is Some);
        }
    }
    assert forall|i: int| 0 <= i < plan.slots.len() implies ((#[trigger] quarantined(plan.slots, now)[i]).status is InProgress <==> quarantined(plan.slots, now)[i].lock is Some) by {
        assert(plan.slots[i].status is InProgress <==> plan.slots[i].lock is Some);
    }
}

/// A plan as the planner holds it: consistent, made from a well-formed graph
/// that its analysis covers, in progress exactly where it is leased, and with no file leased twice.
pub open spec fn plan_sound(plan: PlanView) -> bool {
    &&& plan_ok(plan)
    &&& covers(plan.result, plan.graph)
    &&& well_formed(plan.graph)
    &&& progress_matches_locks(plan.slots)
    &&& held_files_disjoint(plan.graph, plan.slots)
}

/// A new plan is sound, and whatever happens to a sound plan leaves it sound.
pub proof fn plans_stay_sound(plan: PlanView, plan_id: Seq<char>, id: Seq<char>, caller: Seq<char>, max: nat, now: i64, expires_at: i64, status: StatusView)
    requires
        plan_sound(plan),
    ensures
        plan_sound(PlanView { slots: initial_slots(plan.graph), ..plan }),
        acquire_outcome(plan, plan_id, caller, max, now, expires_at) matches Ok((after, cohort)) ==> plan_sound(after),
        heartbeat_outcome(plan, id, caller, now, expires_at) matches Ok(after) ==> plan_sound(after),
        release_outcome(plan, plan_id, id) matches Ok(after) ==> plan_sound(after),
        mark_outcome(plan, plan_id, id, caller, status) matches Ok(after) ==> plan_sound(after),
        plan_sound(PlanView { slots: quarantined(plan.slots, now), ..plan }),
{
    new_plans_match(plan.graph);
    held_files_stay_disjoint(plan, plan_id, id, caller, max, now, expires_at, status);
    progress_keeps_matching_locks(plan, plan_id, id, caller, max, now, expires_at, status);
    lemma_leased_plan_ok(plan, plan_id, caller, max, now, expires_at);
}

/// No counter of any slot goes down.
pub open spec fn counters_grow(before: Seq<SlotView>, after: Seq<SlotView>) -> bool {
    &&& after.len() == before.len()
    &&& forall|i: int| 0 <= i < before.len() ==> {
        &&& before[i].attempts <= (#[trigger] after[i]).attempts
        &&& before[i].failures <= after[i].failures
        &&& before[i].lapses <= after[i].lapses
    }
}

/// No operation lowers a counter.
pub proof fn counters_never_go_down(plan: PlanView, plan_id: Seq<char>, id: Seq<char>, caller: Seq<char>, max: nat, now: i64, expires_at: i64, status: StatusView)
    requires
        plan_ok(plan),
    ensures
        acquire_outcome(plan, plan_id, caller, max, now, expires_at) matches Ok((after, cohort)) ==> counters_grow(plan.slots, after.slots),
        heartbeat_outcome(plan, id, caller, now, expires_at) matches Ok(after) ==> counters_grow(plan.slots, after.slots),
        release_outcome(plan, plan_id, id) matches Ok(after) ==> counters_grow(plan.slots, after.slots),
        mark_outcome(plan, plan_id, id, caller, status) matches Ok(after) ==> counters_grow(plan.slots, after.slots),
        counters_grow(plan.slots, quarantined(plan.slots, now)),
{
}

/// Only being marked failed counts as a failure: leasing, lapsing, heartbeats,
/// forced releases and a restart leave the failures as they are.
pub proof fn only_marks_count_as_failures(plan: PlanView, plan_id: Seq<char>, id: Seq<char>, caller: Seq<char>, max: nat, now: i64, expires_at: i64, i: int)
    requires
        plan_ok(plan),
        0 <= i < plan.slots.len(),
    ensures
        acquire_outcome(plan, plan_id, caller, max, now, expires_at) matches Ok((after, cohort)) ==> after.slots[i].failures == plan.slots[i].failures,
        heartbeat_outcome(plan, id, caller, now, expires_at) matches Ok(after) ==> after.slots[i].failures == plan.slots[i].failures,
        release_outcome(plan, plan_id, id) matches Ok(after) ==> after.slots[i].failures == plan.slots[i].failures,
        quarantined(plan.slots, now)[i].failures == plan.slots[i].failures,
        mark_outcome(plan, plan_id, id, caller, StatusView::Complete) matches Ok(after) ==> after.slots[i].failures == plan.slots[i].failures,
{
}

/// Marking something failed counts one failure for it and none for anything
/// else.
pub proof fn a_failed_mark_counts_once(plan: PlanView, plan_id: Seq<char>, caller: Seq<char>, reason: Seq<char>, i: int, j: int)
    requires
        plan_ok(plan),
        0 <= i < plan.slots.len(),
        0 <= j < plan.slots.len(),
    ensures
        mark_outcome(plan, plan_id, plan.graph.deliverables[i].id, caller, StatusView::Failed { reason }) matches Ok(after) ==> {
            after.slots[j].failures == (if j == i { bumped(plan.slots[j].failures) } else { plan.slots[j].failures })
        },
{
    lemma_position(deliverable_ids(plan.graph), i);
    assert(deliverable_ids(plan.graph)[i] == plan.graph.deliverables[i].id);
}

/// A heartbeat keeps the lease alive until its new end: nobody who asks by
/// then clears it.
pub proof fn heartbeats_protect(plan: PlanView, caller: Seq<char>, now: i64, expires_at: i64, later: i64, i: int)
    requires
        plan_ok(plan),
        0 <= i < plan.slots.len(),
        later <= expires_at,
    ensures
        heartbeat_outcome(plan, plan.graph.deliverables[i].id, caller, now, expires_at) matches Ok(after) ==> {
            &&& after.slots[i].lock is Some
            &&& reaped(after.slots, later)[i] == after.slots[i]
            &&& !available(after.graph, swept(after, later), i)
        },
{
    lemma_position(deliverable_ids(plan.graph), i);
    assert(deliverable_ids(plan.graph)[i] == plan.graph.deliverables[i].id);
}

/// Completing a deliverable ends its lease and makes ready whatever waited for
/// it and has nothing else to wait for.
pub proof fn completion_unblocks(plan: PlanView, plan_id: Seq<char>, caller: Seq<char>, i: int, j: int)
    requires
        plan_ok(plan),
        0 <= i < plan.slots.len(),
        0 <= j < plan.slots.len(),
        i != j,
        plan.slots[j].status is Pending,
        lists(graph_deps(plan.graph)[j], i),
        forall|k: int| 0 <= k < graph_deps(plan.graph)[j].len() ==> {
            let d = #[trigger] graph_deps(plan.graph)[j][k];
            d == i || (d < plan.slots.len() && plan.slots[d as int].status is Complete)
        },
    ensures
        mark_outcome(plan, plan_id, plan.graph.deliverables[i].id, caller, StatusView::Complete) matches Ok(after) ==> {
            &&& after.slots[i].status is Complete
            &&& after.slots[i].lock is None
            &&& after.slots[j].status is Ready
        },
{
    lemma_position(deliverable_ids(plan.graph), i);
    assert(deliverable_ids(plan.graph)[i] == plan.graph.deliverables[i].id);
    if let Ok(after) = mark_outcome(plan, plan_id, plan.graph.deliverables[i].id, caller, StatusView::Complete) {
        let set = plan.slots.update(i, crate::lifecycle::marked_slot(plan.slots[i], StatusView::Complete));
        let list = graph_deps(plan.graph)[j];
        assert forall|k: int| 0 <= k < list.len() implies (#[trigger] list[k]) < set.len() && set[list[k] as int].status is Complete by {
            let d = graph_deps(plan.graph)[j][k];
        }
        assert(all_complete(set, list));
    }
}

/// Nobody but the holder of a lease can mark, or extend, what is leased.
pub proof fn only_the_holder_acts(plan: PlanView, plan_id: Seq<char>, intruder: Seq<char>, status: StatusView, now: i64, expires_at: i64, i: int)
    requires
        plan_ok(plan),
        0 <= i < plan.slots.len(),
        plan.slots[i].lock is Some,
        plan.slots[i].lock->0.caller_id != intruder,
    ensures
        mark_outcome(plan, plan_id, plan.graph.deliverables[i].id, intruder, status) == Err::<PlanView, ErrorView>(
            ErrorView::LockNotHeld { caller_id: intruder, deliverable_id: plan.graph.deliverables[i].id },
        ),
        heartbeat_outcome(plan, plan.graph.deliverables[i].id, intruder, now, expires_at) == Err::<PlanView, ErrorView>(
            ErrorView::LockNotHeld { caller_id: intruder, deliverable_id: plan.graph.deliverables[i].id },
        ),
{
    lemma_position(deliverable_ids(plan.graph), i);
    assert(deliverable_ids(plan.graph)[i] == plan.graph.deliverables[i].id);
}

/// Clearing lapsed leases twice at one time is the same as once.
pub proof fn reaping_is_idempotent(slots: Seq<SlotView>, now: i64)
    ensures
        reaped(reaped(slots, now), now) == reaped(slots, now),
        quarantined(quarantined(slots, now), now) == quarantined(slots, now),
{
    assert(reaped(reaped(slots, now), now) =~= reaped(slots, now));
    assert(quarantined(quarantined(slots, now), now) =~= quarantined(slots, now));
}

} // verus!
