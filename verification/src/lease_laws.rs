//! What a cohort holds and in what order, in terms of the plan alone.

use vstd::prelude::*;

use crate::algorithm::task_ids;
use crate::cohort::{
    acquire_outcome, all_complete, available, busy_file, clashes, critical_place, analysed_start, higher_priority,
    lemma_covered_ranked, lemma_picks_available, lemma_picks_within, lemma_ready_list, over_limit, picks, ranks_choices,
    ready_list, ready_order, selection, swept, tripped,
};
use crate::index::{lemma_last_position, lemma_position, lemma_position_found, position};
use crate::locks::{covers, plan_ok, reaped, PlanView, SlotView};
use crate::paths::{file_keys, path_key};
use crate::plan::{deliverable_ids, ErrorView, GraphView, LockView, RowView, StatusView};
use crate::text::{lemma_text_less_irreflexive, text_less};
use crate::validate::{graph_deps, lemma_first_found, lemma_first_none};

verus! {

/// Somebody holds a lease on deliverable `i` that has not run out.
pub open spec fn held(plan: PlanView, now: i64, i: int) -> bool {
    plan.slots[i].lock matches Some(l) && now <= l.expires_at
}

/// Deliverable `i` was leased, and the lease has run out.
pub open spec fn ran_out(plan: PlanView, now: i64, i: int) -> bool {
    plan.slots[i].lock matches Some(l) && l.expires_at < now
}

/// The deliverable with the id is complete.
pub open spec fn finished(plan: PlanView, now: i64, id: Seq<char>) -> bool {
    exists|j: int| {
        &&& 0 <= j < plan.slots.len()
        &&& (#[trigger] plan.graph.deliverables[j]).id == id
        &&& plan.slots[j].status is Complete
        &&& !ran_out(plan, now, j)
    }
}

/// Deliverable `i` waits to be leased: it is ready or was held by somebody
/// whose lease ran out, and all that it waits for is complete.
pub open spec fn waiting(plan: PlanView, now: i64, i: int) -> bool {
    &&& 0 <= i < plan.slots.len()
    &&& ran_out(plan, now, i) || (plan.slots[i].lock is None && plan.slots[i].status is Ready)
    &&& forall|a: int| 0 <= a < plan.graph.deliverables[i].prerequisites.len() ==> finished(plan, now, #[trigger] plan.graph.deliverables[i].prerequisites[a])
}

/// Two deliverables own a file in common.
pub open spec fn share_a_file(graph: GraphView, i: int, j: int) -> bool {
    exists|a: int, b: int| {
        &&& 0 <= a < graph.deliverables[i].owned_files.len()
        &&& 0 <= b < graph.deliverables[j].owned_files.len()
        &&& path_key(#[trigger] graph.deliverables[i].owned_files[a]) == path_key(#[trigger] graph.deliverables[j].owned_files[b])
    }
}

/// The work with id `x` goes before the work with id `y`: what is on the
/// critical path before what is not, along the path in its order, and beside
/// it by the earliest start, then by the text of the id.
pub open spec fn goes_before(plan: PlanView, x: Seq<char>, y: Seq<char>) -> bool {
    let path = plan.result.critical_path;
    let tasks = plan.result.tasks;
    &&& path.contains(y) ==> path.contains(x)
    &&& forall|p: int, q: int| 0 <= p < path.len() && 0 <= q < path.len() && #[trigger] path[p] == x && #[trigger] path[q] == y ==> p < q
    &&& !path.contains(x) ==> forall|s: int, t: int| 0 <= s < tasks.len() && 0 <= t < tasks.len() && (#[trigger] tasks[s]).id == x && (#[trigger] tasks[t]).id == y ==> {
        ||| tasks[s].earliest_start < tasks[t].earliest_start
        ||| tasks[s].earliest_start == tasks[t].earliest_start && text_less(x, y)
    }
}

/// What is available after lapsed leases are cleared is what waits and has not
/// failed too often.
pub proof fn lemma_available_waiting(plan: PlanView, now: i64, i: int)
    requires
        plan_ok(plan),
        plan.slots.len() <= usize::MAX,
    ensures
        available(plan.graph, swept(plan, now), i) <==> waiting(plan, now, i) && plan.slots[i].failures < 3,
        tripped(plan.graph, reaped(plan.slots, now), i) <==> waiting(plan, now, i) && plan.slots[i].failures >= 3,
{
    if 0 <= i < plan.slots.len() {
        let cleared = reaped(plan.slots, now);
        let slots = swept(plan, now);
        let ids = deliverable_ids(plan.graph);
        let deps = graph_deps(plan.graph)[i];
        let wanted = plan.graph.deliverables[i].prerequisites;
        assert(deps.len() == wanted.len());
        assert forall|a: int| 0 <= a < wanted.len() implies ((#[trigger] deps[a] < slots.len() && slots[deps[a] as int].status is Complete) <==> finished(plan, now, wanted[a])) by {
            lemma_position_found(ids, wanted[a]);
            assert(deps[a] == position(ids, wanted[a]) as usize);
            if finished(plan, now, wanted[a]) {
                let j = choose|j: int| {
                    &&& 0 <= j < plan.slots.len()
                    &&& (#[trigger] plan.graph.deliverables[j]).id == wanted[a]
                    &&& plan.slots[j].status is Complete
                    &&& !ran_out(plan, now, j)
                };
                assert(ids[j] == wanted[a]);
                lemma_position(ids, j);
            }
            if deps[a] < slots.len() {
                assert(plan.graph.deliverables[deps[a] as int].id == ids[deps[a] as int]);
            }
        }
        assert forall|a: int| 0 <= a < wanted.len() implies ((#[trigger] deps[a] < cleared.len() && cleared[deps[a] as int].status is Complete) <==> finished(plan, now, wanted[a])) by {
            assert((deps[a] < slots.len() && slots[deps[a] as int].status is Complete) <==> finished(plan, now, wanted[a]));
        }
        if all_complete(slots, deps) {
            assert forall|a: int| 0 <= a < wanted.len() implies finished(plan, now, #[trigger] wanted[a]) by {
                assert(deps[a] < slots.len());
            }
        }
        if all_complete(cleared, deps) {
            assert forall|a: int| 0 <= a < wanted.len() implies finished(plan, now, #[trigger] wanted[a]) by {
                assert(deps[a] < cleared.len());
            }
        }
        if waiting(plan, now, i) {
            assert forall|a: int| 0 <= a < deps.len() implies (#[trigger] deps[a]) < slots.len() && slots[deps[a] as int].status is Complete by {
                assert(finished(plan, now, wanted[a]));
            }
            assert(all_complete(slots, deps));
            assert(all_complete(cleared, deps));
        }
    }
}

/// The priority of deliverables is the order of work.
proof fn lemma_priority_goes_before(plan: PlanView, i: int, j: int)
    requires
        plan_ok(plan),
        covers(plan.result, plan.graph),
        0 <= i < plan.slots.len(),
        0 <= j < plan.slots.len(),
        higher_priority(plan, i, j),
    ensures
        goes_before(plan, plan.graph.deliverables[i].id, plan.graph.deliverables[j].id),
{
    let x = deliverable_ids(plan.graph)[i];
    let y = deliverable_ids(plan.graph)[j];
    let path = plan.result.critical_path;
    let tasks = plan.result.tasks;
    let names = task_ids(tasks);
    lemma_last_position(path, x);
    lemma_last_position(path, y);
    lemma_last_position(names, x);
    lemma_last_position(names, y);
    lemma_text_less_irreflexive(x);
    assert forall|p: int, q: int| 0 <= p < path.len() && 0 <= q < path.len() && #[trigger] path[p] == x && #[trigger] path[q] == y implies p < q by {
        assert(critical_place(plan, i) == Some(p));
        assert(critical_place(plan, j) == Some(q));
    }
    if !path.contains(x) {
        assert forall|s: int, t: int| 0 <= s < tasks.len() && 0 <= t < tasks.len() && (#[trigger] tasks[s]).id == x && (#[trigger] tasks[t]).id == y implies {
            ||| tasks[s].earliest_start < tasks[t].earliest_start
            ||| tasks[s].earliest_start == tasks[t].earliest_start && text_less(x, y)
        } by {
            assert(names[s] == x && names[t] == y);
            assert(analysed_start(plan, i) == Some(tasks[s].earliest_start));
            assert(analysed_start(plan, j) == Some(tasks[t].earliest_start));
        }
    }
}

/// The first `k` of a list are chosen without regard to the rest.
proof fn lemma_picks_prefix(graph: GraphView, slots: Seq<SlotView>, order: Seq<int>, max: nat, k: int)
    requires
        0 <= k <= order.len(),
    ensures
        picks(graph, slots, order.take(k), max).len() <= picks(graph, slots, order, max).len(),
        picks(graph, slots, order, max).take(picks(graph, slots, order.take(k), max).len() as int) == picks(graph, slots, order.take(k), max),
        picks(graph, slots, order.take(k), max).len() >= max ==> picks(graph, slots, order, max) == picks(graph, slots, order.take(k), max),
    decreases order.len() - k,
{
    if k == order.len() {
        assert(order.take(k) == order);
        let all = picks(graph, slots, order, max);
        assert(all.take(all.len() as int) == all);
    } else {
        lemma_picks_prefix(graph, slots, order, max, k + 1);
        let here = picks(graph, slots, order.take(k), max);
        let next = picks(graph, slots, order.take(k + 1), max);
        let all = picks(graph, slots, order, max);
        assert(order.take(k + 1).drop_last() == order.take(k));
        assert(next == here || next == here.push(order[k]));
        assert(all.take(here.len() as int) == all.take(next.len() as int).take(here.len() as int));
        assert(next.take(here.len() as int) == here);
    }
}

/// Deliverable `i` shares a file with another that is leased or chosen.
proof fn lemma_clash_shared(graph: GraphView, slots: Seq<SlotView>, chosen: Seq<int>, i: int) -> (m: int)
    requires
        clashes(graph, slots, chosen, i),
    ensures
        0 <= m < slots.len(),
        slots[m].lock is Some || chosen.contains(m),
        share_a_file(graph, m, i),
{
    let a = choose|a: int| 0 <= a < graph.deliverables[i].owned_files.len() && busy_file(graph, slots, chosen, #[trigger] file_keys(graph.deliverables[i])[a]);
    let f = file_keys(graph.deliverables[i])[a];
    let m = choose|m: int| {
        &&& 0 <= m < slots.len()
        &&& slots[m].lock is Some || chosen.contains(m)
        &&& file_keys(#[trigger] graph.deliverables[m]).contains(f)
    };
    let b = choose|b: int| 0 <= b < file_keys(graph.deliverables[m]).len() && file_keys(graph.deliverables[m])[b] == f;
    assert(path_key(graph.deliverables[m].owned_files[b]) == path_key(graph.deliverables[i].owned_files[a]));
    m
}

/// Where two deliverables share a file and one of them is leased or chosen,
/// the other clashes.
proof fn lemma_shared_clash(graph: GraphView, slots: Seq<SlotView>, chosen: Seq<int>, m: int, i: int)
    requires
        0 <= m < slots.len(),
        slots[m].lock is Some || chosen.contains(m),
        share_a_file(graph, m, i),
    ensures
        clashes(graph, slots, chosen, i),
{
    let (b, a) = choose|b: int, a: int| {
        &&& 0 <= b < graph.deliverables[m].owned_files.len()
        &&& 0 <= a < graph.deliverables[i].owned_files.len()
        &&& path_key(#[trigger] graph.deliverables[m].owned_files[b]) == path_key(#[trigger] graph.deliverables[i].owned_files[a])
    };
    let f = file_keys(graph.deliverables[i])[a];
    assert(file_keys(graph.deliverables[m])[b] == f);
    assert(busy_file(graph, slots, chosen, f));
}

/// What is chosen shares no file with what is leased or chosen before it.
proof fn lemma_picks_apart(graph: GraphView, slots: Seq<SlotView>, order: Seq<int>, max: nat, b: int, m: int)
    requires
        forall|k: int| 0 <= k < order.len() ==> 0 <= #[trigger] order[k] < slots.len(),
        0 <= b < picks(graph, slots, order, max).len(),
        0 <= m < slots.len(),
        slots[m].lock is Some || picks(graph, slots, order, max).take(b).contains(m),
    ensures
        !share_a_file(graph, m, picks(graph, slots, order, max)[b]),
    decreases order.len(),
{
    let head = order.drop_last();
    let rest = picks(graph, slots, head, max);
    let all = picks(graph, slots, order, max);
    assert forall|k: int| 0 <= k < head.len() implies 0 <= #[trigger] head[k] < slots.len() by {
        assert(head[k] == order[k]);
    }
    if b < rest.len() {
        assert(all[b] == rest[b]);
        assert(all.take(b) == rest.take(b));
        lemma_picks_apart(graph, slots, head, max, b, m);
    } else {
        assert(all == rest.push(order.last()));
        assert(all.take(b) == rest);
        if share_a_file(graph, m, order.last()) {
            lemma_shared_clash(graph, slots, rest, m, order.last());
        }
    }
}

/// How a cohort comes about: the chosen deliverables, what is open to choice,
/// and the slots the choice is made from.
proof fn lemma_cohort(plan: PlanView, now: i64, max: nat)
    requires
        plan_ok(plan),
        plan.slots.len() <= usize::MAX,
    ensures
        swept(plan, now).len() == plan.slots.len(),
        ready_order(plan, swept(plan, now), ready_list(plan, swept(plan, now))),
        selection(plan, now, max).no_duplicates(),
        selection(plan, now, max).len() <= max,
        forall|k: int| 0 <= k < selection(plan, now, max).len() ==> {
            let i = #[trigger] selection(plan, now, max)[k];
            waiting(plan, now, i) && plan.slots[i].failures < 3
        },
        forall|m: int| 0 <= m < plan.slots.len() ==> ((#[trigger] swept(plan, now)[m]).lock is Some <==> held(plan, now, m)),
{
    let slots = swept(plan, now);
    let order = ready_list(plan, slots);
    lemma_ready_list(plan, slots);
    lemma_picks_available(plan, slots, order, max);
    lemma_picks_short(plan.graph, slots, order, max);
    assert forall|k: int| 0 <= k < selection(plan, now, max).len() implies {
        let i = #[trigger] selection(plan, now, max)[k];
        waiting(plan, now, i) && plan.slots[i].failures < 3
    } by {
        lemma_available_waiting(plan, now, selection(plan, now, max)[k]);
    }
}

/// No more are chosen than asked for.
proof fn lemma_picks_short(graph: GraphView, slots: Seq<SlotView>, order: Seq<int>, max: nat)
    ensures
        picks(graph, slots, order, max).len() <= max,
    decreases order.len(),
{
    if order.len() > 0 {
        lemma_picks_short(graph, slots, order.drop_last(), max);
    }
}

/// The rows of a cohort come in the order of work: what is on the critical
/// path comes first and along the path, the rest by earliest start and then by
/// id.
pub proof fn cohorts_follow_the_critical_path(plan: PlanView, plan_id: Seq<char>, caller_id: Seq<char>, max: nat, now: i64, expires_at: i64)
    requires
        plan_ok(plan),
        plan.slots.len() <= usize::MAX,
        covers(plan.result, plan.graph),
    ensures
        acquire_outcome(plan, plan_id, caller_id, max, now, expires_at) matches Ok((after, cohort)) ==> forall|a: int, b: int| 0 <= a < b < cohort.rows.len() ==> goes_before(
            plan,
            (#[trigger] cohort.rows[a]).deliverable.id,
            (#[trigger] cohort.rows[b]).deliverable.id,
        ),
{
    lemma_cohort(plan, now, max);
    let slots = swept(plan, now);
    let order = ready_list(plan, slots);
    let chosen = selection(plan, now, max);
    if let Ok((after, cohort)) = acquire_outcome(plan, plan_id, caller_id, max, now, expires_at) {
        assert forall|a: int, b: int| 0 <= a < b < cohort.rows.len() implies goes_before(
            plan,
            (#[trigger] cohort.rows[a]).deliverable.id,
            (#[trigger] cohort.rows[b]).deliverable.id,
        ) by {
            lemma_picks_ascend(plan.graph, slots, order, max, a, b);
            let (x, y) = choose|x: int, y: int| 0 <= x < y < order.len() && #[trigger] order[x] == chosen[a] && #[trigger] order[y] == chosen[b];
            assert(higher_priority(plan, order[x], order[y]));
            lemma_priority_goes_before(plan, chosen[a], chosen[b]);
        }
    }
}

/// What is chosen is chosen in the order of the list.
proof fn lemma_picks_ascend(graph: GraphView, slots: Seq<SlotView>, order: Seq<int>, max: nat, a: int, b: int)
    requires
        0 <= a < b < picks(graph, slots, order, max).len(),
    ensures
        exists|x: int, y: int| 0 <= x < y < order.len() && #[trigger] order[x] == picks(graph, slots, order, max)[a] && #[trigger] order[y] == picks(graph, slots, order, max)[b],
    decreases order.len(),
{
    let head = order.drop_last();
    let rest = picks(graph, slots, head, max);
    let all = picks(graph, slots, order, max);
    if b < rest.len() {
        lemma_picks_ascend(graph, slots, head, max, a, b);
        let (x, y) = choose|x: int, y: int| 0 <= x < y < head.len() && #[trigger] head[x] == rest[a] && #[trigger] head[y] == rest[b];
        assert(order[x] == all[a] && order[y] == all[b]);
    } else {
        lemma_picks_within(graph, slots, head, max, a);
        let x = choose|x: int| 0 <= x < head.len() && head[x] == rest[a];
        assert(order[x] == all[a] && order[order.len() - 1] == all[b]);
    }
}

/// Deliverable `i` is passed over for a good reason: it shares a file with
/// what somebody holds, or with a row that goes before it, or as many rows as
/// were asked for go before it.
pub open spec fn rightly_passed_over(plan: PlanView, now: i64, max: nat, rows: Seq<RowView>, i: int) -> bool {
    let id = plan.graph.deliverables[i].id;
    ||| exists|m: int| 0 <= m < plan.slots.len() && #[trigger] held(plan, now, m) && share_a_file(plan.graph, m, i)
    ||| exists|k: int, m: int| {
        &&& 0 <= k < rows.len()
        &&& 0 <= m < plan.slots.len()
        &&& (#[trigger] rows[k]).deliverable == #[trigger] plan.graph.deliverables[m]
        &&& share_a_file(plan.graph, m, i)
        &&& goes_before(plan, rows[k].deliverable.id, id)
    }
    ||| rows.len() == max && forall|k: int| 0 <= k < rows.len() ==> goes_before(plan, (#[trigger] rows[k]).deliverable.id, id)
}

/// Work that waits and has not failed three times is leased, unless it is
/// rightly passed over.
pub proof fn waiting_work_is_leased(plan: PlanView, plan_id: Seq<char>, caller_id: Seq<char>, max: nat, now: i64, expires_at: i64, i: int)
    requires
        plan_ok(plan),
        plan.slots.len() <= usize::MAX,
        covers(plan.result, plan.graph),
        waiting(plan, now, i),
        plan.slots[i].failures < 3,
    ensures
        acquire_outcome(plan, plan_id, caller_id, max, now, expires_at) matches Ok((after, cohort)) ==> {
            ||| exists|k: int| 0 <= k < cohort.rows.len() && (#[trigger] cohort.rows[k]).deliverable == plan.graph.deliverables[i]
            ||| rightly_passed_over(plan, now, max, cohort.rows, i)
        },
{
    lemma_cohort(plan, now, max);
    lemma_available_waiting(plan, now, i);
    let slots = swept(plan, now);
    let order = ready_list(plan, slots);
    let chosen = selection(plan, now, max);
    let id = plan.graph.deliverables[i].id;
    if let Ok((after, cohort)) = acquire_outcome(plan, plan_id, caller_id, max, now, expires_at) {
        let rows = cohort.rows;
        let member = |i: int| available(plan.graph, slots, i);
        assert(member(i));
        assert(order.contains(i));
        let at = choose|at: int| 0 <= at < order.len() && order[at] == i;
        let head = order.take(at);
        let rest = picks(plan.graph, slots, head, max);
        lemma_picks_prefix(plan.graph, slots, order, max, at);
        lemma_picks_prefix(plan.graph, slots, order, max, at + 1);
        assert(order.take(at + 1).drop_last() == head);
        assert forall|k: int| 0 <= k < rest.len() implies chosen[k] == rest[k] && goes_before(plan, (#[trigger] rows[k]).deliverable.id, id) by {
            assert(chosen.take(rest.len() as int)[k] == chosen[k]);
            lemma_picks_within(plan.graph, slots, head, max, k);
            let x = choose|x: int| 0 <= x < head.len() && head[x] == rest[k];
            assert(head[x] == order[x]);
            assert(higher_priority(plan, order[x], order[at]));
            lemma_priority_goes_before(plan, chosen[k], i);
        }
        if rest.len() >= max {
            assert(chosen == rest);
        } else if clashes(plan.graph, slots, rest, i) {
            let m = lemma_clash_shared(plan.graph, slots, rest, i);
            if slots[m].lock is Some {
                assert(held(plan, now, m));
            } else {
                let k = choose|k: int| 0 <= k < rest.len() && rest[k] == m;
                assert(rows[k].deliverable == plan.graph.deliverables[m]);
            }
        } else {
            let next = picks(plan.graph, slots, order.take(at + 1), max);
            assert(next == rest.push(i));
            assert(chosen.take(next.len() as int)[rest.len() as int] == chosen[rest.len() as int]);
            assert(rows[rest.len() as int].deliverable == plan.graph.deliverables[i]);
        }
    }
}

/// A counter after one more: it stops at its largest value.
pub open spec fn one_more(count: u32) -> int {
    if count < u32::MAX {
        count + 1
    } else {
        count as int
    }
}

/// How often leases on deliverable `i` have run out by now.
pub open spec fn losses(plan: PlanView, now: i64, i: int) -> int {
    if ran_out(plan, now, i) {
        one_more(plan.slots[i].lapses)
    } else {
        plan.slots[i].lapses as int
    }
}

/// The row is a new lease on deliverable `i`: for the caller, from now until
/// it expires, on work that waited, and the slot says so.
pub open spec fn newly_leased(plan: PlanView, after: PlanView, plan_id: Seq<char>, caller_id: Seq<char>, now: i64, expires_at: i64, row: RowView, i: int) -> bool {
    &&& 0 <= i < plan.slots.len()
    &&& row.deliverable == plan.graph.deliverables[i]
    &&& row.lock.plan_id == plan_id
    &&& row.lock.deliverable_id == row.deliverable.id
    &&& row.lock.caller_id == caller_id
    &&& row.lock.acquired_at == now
    &&& row.lock.expires_at == expires_at
    &&& waiting(plan, now, i)
    &&& plan.slots[i].failures < 3
    &&& losses(plan, now, i) < 10
    &&& after.slots[i].lock == Some(row.lock)
    &&& after.slots[i].status is InProgress
    &&& after.slots[i].attempts == one_more(plan.slots[i].attempts)
    &&& after.slots[i].failures == plan.slots[i].failures
    &&& after.slots[i].lapses == losses(plan, now, i)
}

/// The row is a new lease on some deliverable.
pub open spec fn new_lease(plan: PlanView, after: PlanView, plan_id: Seq<char>, caller_id: Seq<char>, now: i64, expires_at: i64, row: RowView) -> bool {
    exists|i: int| #[trigger] newly_leased(plan, after, plan_id, caller_id, now, expires_at, row, i)
}

/// Every row of a cohort is a new lease on work that waited, no two rows are
/// the same work or share a file, and none shares a file with what somebody
/// holds. There are no more rows than asked for.
pub proof fn rows_are_new_leases(plan: PlanView, plan_id: Seq<char>, caller_id: Seq<char>, max: nat, now: i64, expires_at: i64)
    requires
        plan_ok(plan),
        plan.slots.len() <= usize::MAX,
    ensures
        acquire_outcome(plan, plan_id, caller_id, max, now, expires_at) matches Ok((after, cohort)) ==> {
            &&& cohort.plan_id == plan_id
            &&& cohort.rows.len() <= max
            &&& after.graph == plan.graph
            &&& after.result == plan.result
            &&& after.slots.len() == plan.slots.len()
            &&& forall|k: int| 0 <= k < cohort.rows.len() ==> new_lease(plan, after, plan_id, caller_id, now, expires_at, #[trigger] cohort.rows[k])
            &&& forall|a: int, b: int| 0 <= a < b < cohort.rows.len() ==> (#[trigger] cohort.rows[a]).deliverable.id != (#[trigger] cohort.rows[b]).deliverable.id
            &&& forall|k: int, m: int, i: int| 0 <= k < cohort.rows.len() && 0 <= m < plan.slots.len() && 0 <= i < plan.slots.len() && i != m
                && #[trigger] after.slots[m].lock is Some && (#[trigger] cohort.rows[k]).deliverable == #[trigger] plan.graph.deliverables[i] ==> !share_a_file(plan.graph, m, i)
        },
{
    lemma_cohort(plan, now, max);
    let slots = swept(plan, now);
    let order = ready_list(plan, slots);
    let chosen = selection(plan, now, max);
    let ids = deliverable_ids(plan.graph);
    if let Ok((after, cohort)) = acquire_outcome(plan, plan_id, caller_id, max, now, expires_at) {
        let worn = |k: int| slots[chosen[k]].lapses >= crate::locks::MAX_LAPSES;
        lemma_first_found(chosen.len(), worn);
        assert forall|k: int| 0 <= k < cohort.rows.len() implies new_lease(plan, after, plan_id, caller_id, now, expires_at, #[trigger] cohort.rows[k]) by {
            assert(!worn(k));
            assert(chosen.contains(chosen[k]));
            lemma_available_waiting(plan, now, chosen[k]);
            assert(newly_leased(plan, after, plan_id, caller_id, now, expires_at, cohort.rows[k], chosen[k]));
        }
        assert forall|a: int, b: int| 0 <= a < b < cohort.rows.len() implies (#[trigger] cohort.rows[a]).deliverable.id != (#[trigger] cohort.rows[b]).deliverable.id by {
            assert(ids[chosen[a]] != ids[chosen[b]]);
        }
        assert forall|k: int, m: int, i: int| 0 <= k < cohort.rows.len() && 0 <= m < plan.slots.len() && 0 <= i < plan.slots.len() && i != m
            && #[trigger] after.slots[m].lock is Some && (#[trigger] cohort.rows[k]).deliverable == #[trigger] plan.graph.deliverables[i] implies !share_a_file(plan.graph, m, i) by {
            assert(ids[i] == ids[chosen[k]]);
            assert(i == chosen[k]);
            assert forall|x: int| 0 <= x < order.len() implies 0 <= #[trigger] order[x] < slots.len() by {
                assert(available(plan.graph, slots, order[x]));
            }
            if slots[m].lock is Some {
                lemma_picks_apart(plan.graph, slots, order, max, k, m);
            } else {
                assert(chosen.contains(m));
                let l = choose|l: int| 0 <= l < chosen.len() && chosen[l] == m;
                if l < k {
                    assert(chosen.take(k)[l] == m);
                    lemma_picks_apart(plan.graph, slots, order, max, k, m);
                } else {
                    assert(chosen.take(l)[k] == i);
                    lemma_picks_apart(plan.graph, slots, order, max, l, i);
                    if share_a_file(plan.graph, m, i) {
                        let (b, a) = choose|b: int, a: int| {
                            &&& 0 <= b < plan.graph.deliverables[m].owned_files.len()
                            &&& 0 <= a < plan.graph.deliverables[i].owned_files.len()
                            &&& path_key(#[trigger] plan.graph.deliverables[m].owned_files[b]) == path_key(#[trigger] plan.graph.deliverables[i].owned_files[a])
                        };
                        assert(path_key(plan.graph.deliverables[i].owned_files[a]) == path_key(plan.graph.deliverables[m].owned_files[b]));
                        assert(share_a_file(plan.graph, i, m));
                    }
                }
            }
        }
    }
}

/// What asking for a cohort does to work that gets no row: work that waits and
/// failed three times is given up, a lease that ran out is cleared and
/// counted, and anything else stays as it was.
pub proof fn the_rest_is_only_cleared(plan: PlanView, plan_id: Seq<char>, caller_id: Seq<char>, max: nat, now: i64, expires_at: i64, i: int)
    requires
        plan_ok(plan),
        plan.slots.len() <= usize::MAX,
        0 <= i < plan.slots.len(),
    ensures
        acquire_outcome(plan, plan_id, caller_id, max, now, expires_at) matches Ok((after, cohort)) ==> {
            ||| exists|k: int| 0 <= k < cohort.rows.len() && (#[trigger] cohort.rows[k]).deliverable == plan.graph.deliverables[i]
            ||| {
                &&& after.slots[i].attempts == plan.slots[i].attempts
                &&& after.slots[i].failures == plan.slots[i].failures
                &&& after.slots[i].lapses == losses(plan, now, i)
                &&& after.slots[i].lock == (if ran_out(plan, now, i) { None::<LockView> } else { plan.slots[i].lock })
                &&& after.slots[i].status == (if waiting(plan, now, i) && plan.slots[i].failures >= 3 {
                    StatusView::Failed { reason: "circuit-break: exceeded 3 failed attempts"@ }
                } else if ran_out(plan, now, i) {
                    StatusView::Ready
                } else {
                    plan.slots[i].status
                })
            }
        },
{
    lemma_cohort(plan, now, max);
    lemma_available_waiting(plan, now, i);
    lemma_give_up_reason();
    let chosen = selection(plan, now, max);
    if let Ok((after, cohort)) = acquire_outcome(plan, plan_id, caller_id, max, now, expires_at) {
        if chosen.contains(i) {
            let k = choose|k: int| 0 <= k < chosen.len() && chosen[k] == i;
            assert(cohort.rows[k].deliverable == plan.graph.deliverables[i]);
        }
    }
}

/// The reason for which work is given up.
proof fn lemma_give_up_reason()
    ensures
        crate::cohort::circuit_break_reason() == "circuit-break: exceeded 3 failed attempts"@,
{
    reveal_strlit("circuit-break: exceeded ");
    reveal_strlit(" failed attempts");
    reveal_strlit("circuit-break: exceeded 3 failed attempts");
    assert(crate::text::numeral(3) == seq!['3']);
    assert(crate::cohort::circuit_break_reason() =~= "circuit-break: exceeded 3 failed attempts"@);
}

/// The plan as if no lease on it had ever run out.
pub open spec fn without_losses(plan: PlanView) -> PlanView {
    PlanView { slots: Seq::new(plan.slots.len(), |i: int| SlotView { lapses: 0, ..plan.slots[i] }), ..plan }
}

/// Lost leases do not enter into the choice.
proof fn lemma_choice_ignores_losses(plan: PlanView, now: i64, max: nat)
    requires
        plan_ok(plan),
        plan.slots.len() <= usize::MAX,
    ensures
        plan_ok(without_losses(plan)),
        selection(without_losses(plan), now, max) == selection(plan, now, max),
        ranks_choices(plan, swept(plan, now)) <==> ranks_choices(without_losses(plan), swept(without_losses(plan), now)),
{
    let other = without_losses(plan);
    let slots = swept(plan, now);
    let slots2 = swept(other, now);
    let deps = graph_deps(plan.graph);
    assert forall|i: int| #[trigger] available(plan.graph, slots, i) == available(plan.graph, slots2, i) by {
        if 0 <= i < plan.slots.len() {
            let cleared = reaped(plan.slots, now);
            let cleared2 = reaped(other.slots, now);
            assert forall|x: int| 0 <= x < cleared.len() implies (#[trigger] cleared[x]).status == cleared2[x].status && cleared[x].lock == cleared2[x].lock
                && cleared[x].failures == cleared2[x].failures by {}
            assert(all_complete(cleared, deps[i]) == all_complete(cleared2, deps[i]));
            assert(tripped(plan.graph, cleared, i) == tripped(plan.graph, cleared2, i));
            assert forall|x: int| 0 <= x < slots.len() implies ((#[trigger] slots[x]).status is Complete) == (slots2[x].status is Complete) by {}
            assert(all_complete(slots, deps[i]) == all_complete(slots2, deps[i]));
        }
    }
    assert forall|x: int| 0 <= x < slots.len() implies (#[trigger] slots[x]).lock == slots2[x].lock by {}
    assert forall|i: int| available(plan.graph, slots2, i) implies available(plan.graph, slots, i) by {
        assert(available(plan.graph, slots, i) == available(plan.graph, slots2, i));
    }
    let order = ready_list(plan, slots);
    let order2 = ready_list(other, slots2);
    lemma_ready_list(plan, slots);
    lemma_ready_list(other, slots2);
    let member = |i: int| available(plan.graph, slots, i);
    let before = |i: int, j: int| higher_priority(plan, i, j);
    let member2 = |i: int| available(other.graph, slots2, i);
    let before2 = |i: int, j: int| higher_priority(other, i, j);
    assert forall|i: int| #[trigger] member2(i) implies member(i) by {}
    assert forall|i: int| #[trigger] member(i) implies member2(i) by {}
    crate::cohort::lemma_priority_strict(plan, slots);
    assert(crate::ranking::lists_in_order(order2, member, before)) by {
        assert forall|i: int, j: int| 0 <= i < j < order2.len() implies before(#[trigger] order2[i], #[trigger] order2[j]) by {
            assert(before2(order2[i], order2[j]));
        }
    }
    crate::ranking::lemma_listing_unique(order, order2, member, before);
    lemma_picks_same(plan.graph, slots, slots2, order, max);
    if ranks_choices(plan, slots) {
        assert forall|i: int, j: int| #![trigger available(other.graph, slots2, i), available(other.graph, slots2, j)] available(other.graph, slots2, i) && available(other.graph, slots2, j) && i != j implies crate::cohort::ranked(other, i) by {
            assert(available(plan.graph, slots, i) && available(plan.graph, slots, j));
            assert(crate::cohort::ranked(plan, i));
        }
    }
    if ranks_choices(other, slots2) {
        assert forall|i: int, j: int| #![trigger available(plan.graph, slots, i), available(plan.graph, slots, j)] available(plan.graph, slots, i) && available(plan.graph, slots, j) && i != j implies crate::cohort::ranked(plan, i) by {
            assert(available(other.graph, slots2, i) && available(other.graph, slots2, j));
            assert(crate::cohort::ranked(other, i));
        }
    }
}

/// The choice depends on the slots by their leases alone.
proof fn lemma_picks_same(graph: GraphView, a: Seq<SlotView>, b: Seq<SlotView>, order: Seq<int>, max: nat)
    requires
        a.len() == b.len(),
        forall|x: int| 0 <= x < a.len() ==> (#[trigger] a[x]).lock == b[x].lock,
    ensures
        picks(graph, a, order, max) == picks(graph, b, order, max),
    decreases order.len(),
{
    if order.len() > 0 {
        let head = order.drop_last();
        lemma_picks_same(graph, a, b, head, max);
        let rest = picks(graph, a, head, max);
        let c = order.last();
        if clashes(graph, a, rest, c) {
            let m = lemma_clash_shared(graph, a, rest, c);
            assert(a[m].lock == b[m].lock);
            lemma_shared_clash(graph, b, rest, m, c);
        }
        if clashes(graph, b, rest, c) {
            let m = lemma_clash_shared(graph, b, rest, c);
            assert(a[m].lock == b[m].lock);
            lemma_shared_clash(graph, a, rest, m, c);
        }
    }
}

/// Where the analysis is not at fault, asking for a cohort is refused for one
/// reason alone: leases on a row it would have had ran out ten times. The
/// refusal names the first such row. Otherwise lost leases change nothing: the
/// cohort is the one that the plan would give if none had been lost.
pub proof fn only_lost_leases_refuse(plan: PlanView, plan_id: Seq<char>, caller_id: Seq<char>, max: nat, now: i64, expires_at: i64)
    requires
        plan_ok(plan),
        plan.slots.len() <= usize::MAX,
        acquire_outcome(plan, plan_id, caller_id, max, now, expires_at) matches Err(e) ==> !(e is BackendError),
    ensures
        acquire_outcome(without_losses(plan), plan_id, caller_id, max, now, expires_at) matches Ok((_, cohort)) && match acquire_outcome(
            plan,
            plan_id,
            caller_id,
            max,
            now,
            expires_at,
        ) {
            Ok((_, given)) => {
                &&& given == cohort
                &&& forall|k: int, i: int| 0 <= k < cohort.rows.len() && 0 <= i < plan.slots.len() && (#[trigger] cohort.rows[k]).deliverable == #[trigger] plan.graph.deliverables[i] ==> losses(plan, now, i) < 10
            },
            Err(e) => exists|k: int, i: int| {
                &&& 0 <= k < cohort.rows.len()
                &&& 0 <= i < plan.slots.len()
                &&& (#[trigger] cohort.rows[k]).deliverable == #[trigger] plan.graph.deliverables[i]
                &&& losses(plan, now, i) >= 10
                &&& e == (ErrorView::LapseLimit {
                    deliverable_id: plan.graph.deliverables[i].id,
                    lapse_count: losses(plan, now, i) as u32,
                    max_lapses: 10,
                })
                &&& forall|l: int, j: int| 0 <= l < k && 0 <= j < plan.slots.len() && (#[trigger] cohort.rows[l]).deliverable == #[trigger] plan.graph.deliverables[j] ==> losses(plan, now, j) < 10
            },
        },
{
    lemma_choice_ignores_losses(plan, now, max);
    lemma_cohort(plan, now, max);
    assert(ranks_choices(plan, swept(plan, now)));
    let other = without_losses(plan);
    let slots = swept(plan, now);
    let slots2 = swept(other, now);
    let chosen = selection(plan, now, max);
    let ids = deliverable_ids(plan.graph);
    let worn = |k: int| slots[chosen[k]].lapses >= crate::locks::MAX_LAPSES;
    let worn2 = |k: int| slots2[chosen[k]].lapses >= crate::locks::MAX_LAPSES;
    lemma_first_found(chosen.len(), worn);
    assert forall|k: int| 0 <= k < chosen.len() implies !#[trigger] worn2(k) by {
        assert(waiting(plan, now, chosen[k]));
    }
    lemma_first_none(chosen.len(), worn2);
    let (_, cohort) = acquire_outcome(other, plan_id, caller_id, max, now, expires_at)->Ok_0;
    assert forall|k: int, i: int| 0 <= k < cohort.rows.len() && 0 <= i < plan.slots.len() && (#[trigger] cohort.rows[k]).deliverable == #[trigger] plan.graph.deliverables[i] implies i == chosen[k] && (worn(k) <==> losses(plan, now, i) >= 10) by {
        assert(waiting(plan, now, chosen[k]));
        assert(ids[i] == ids[chosen[k]]);
    }
    match acquire_outcome(plan, plan_id, caller_id, max, now, expires_at) {
        Ok((after, given)) => {
            assert(given.rows =~= cohort.rows);
        },
        Err(e) => {
            let k = over_limit(slots, chosen)->0;
            assert(waiting(plan, now, chosen[k]));
            assert(cohort.rows[k].deliverable == plan.graph.deliverables[chosen[k]]);
        },
    }
}

/// Deliverable `i` has no place in the analysis.
pub open spec fn unranked(plan: PlanView, i: int) -> bool {
    let id = plan.graph.deliverables[i].id;
    &&& !plan.result.critical_path.contains(id)
    &&& forall|t: int| 0 <= t < plan.result.tasks.len() ==> (#[trigger] plan.result.tasks[t]).id != id
}

/// Where there is a choice between work that waits, and some of it has no
/// place in the analysis, no cohort is given; and an analysis is faulted for
/// nothing else. One that covers the graph is never at fault.
pub proof fn only_unranked_choices_fault_the_analysis(plan: PlanView, plan_id: Seq<char>, caller_id: Seq<char>, max: nat, now: i64, expires_at: i64)
    requires
        plan_ok(plan),
        plan.slots.len() <= usize::MAX,
    ensures
        (acquire_outcome(plan, plan_id, caller_id, max, now, expires_at) matches Err(e) && e is BackendError) <==> exists|i: int, j: int| #![trigger waiting(plan, now, i), waiting(plan, now, j)] {
            &&& waiting(plan, now, i)
            &&& waiting(plan, now, j)
            &&& i != j
            &&& plan.slots[i].failures < 3
            &&& plan.slots[j].failures < 3
            &&& unranked(plan, i)
        },
        covers(plan.result, plan.graph) ==> (acquire_outcome(plan, plan_id, caller_id, max, now, expires_at) matches Err(e) ==> !(e is BackendError)),
{
    let slots = swept(plan, now);
    if covers(plan.result, plan.graph) {
        lemma_covered_ranked(plan, slots);
    }
    assert forall|i: int| 0 <= i < plan.slots.len() implies (#[trigger] unranked(plan, i) <==> !crate::cohort::ranked(plan, i)) by {
        let id = plan.graph.deliverables[i].id;
        let names = task_ids(plan.result.tasks);
        lemma_last_position(plan.result.critical_path, id);
        lemma_last_position(names, id);
        assert(deliverable_ids(plan.graph)[i] == id);
        if names.contains(id) {
            let t = choose|t: int| 0 <= t < names.len() && names[t] == id;
            assert(plan.result.tasks[t].id == id);
        }
        if exists|t: int| 0 <= t < plan.result.tasks.len() && (#[trigger] plan.result.tasks[t]).id == id {
            let t = choose|t: int| 0 <= t < plan.result.tasks.len() && (#[trigger] plan.result.tasks[t]).id == id;
            assert(names[t] == id);
        }
    }
    assert forall|i: int| #[trigger] available(plan.graph, slots, i) == (waiting(plan, now, i) && plan.slots[i].failures < 3) by {
        lemma_available_waiting(plan, now, i);
    }
    if !ranks_choices(plan, slots) {
        let (i, j) = choose|i: int, j: int| #![trigger available(plan.graph, slots, i), available(plan.graph, slots, j)] available(plan.graph, slots, i) && available(plan.graph, slots, j) && i != j && !crate::cohort::ranked(plan, i);
        assert(waiting(plan, now, i) && waiting(plan, now, j));
        assert(unranked(plan, i));
    }
    if exists|i: int, j: int| #![trigger waiting(plan, now, i), waiting(plan, now, j)] {
        &&& waiting(plan, now, i)
        &&& waiting(plan, now, j)
        &&& i != j
        &&& plan.slots[i].failures < 3
        &&& plan.slots[j].failures < 3
        &&& unranked(plan, i)
    } {
        let (i, j) = choose|i: int, j: int| #![trigger waiting(plan, now, i), waiting(plan, now, j)] {
            &&& waiting(plan, now, i)
            &&& waiting(plan, now, j)
            &&& i != j
            &&& plan.slots[i].failures < 3
            &&& plan.slots[j].failures < 3
            &&& unranked(plan, i)
        };
        assert(available(plan.graph, slots, i) && available(plan.graph, slots, j));
        assert(!crate::cohort::ranked(plan, i));
    }
}

} // verus!
