//! Leasing a cohort of deliverables.
//!
//! A lease goes through five steps: lapsed leases are cleared, deliverables
//! that failed too often are given up, the available ones are ranked, a
//! file-disjoint selection is made greedily, and the selection is leased as a
//! whole or not at all.

use vstd::hash_map::StringHashMap;
use vstd::prelude::*;
use vstd::string::*;

use crate::algorithm::task_ids;
use crate::audit::{
    acquired_record, circuit_broken_record, make_acquired_event, make_circuit_broken_event, AuditRecord, RecordView,
};
use crate::index::{index_last, last_position, lemma_last_position};
use crate::locks::{
    bump, bumped, expired_records, lapsed_locks, plan_ok, reap_slots, reaped, record_expired, PlanState, PlanView,
    Slot, SlotView, MAX_ATTEMPTS, MAX_LAPSES,
};
use crate::paths::{file_keys, path_key, shortest_name};
use crate::plan::{
    deliverable_ids, CallerId, Cohort, CohortRow, CohortView, Deliverable, DeliverableStatus, ErrorView, GraphView, LockInfo, LockView,
    PlanGraph, PlanId, PlannerError, RowView, StatusView,
};
use crate::ranking::{ahead, lemma_listing_exists, lemma_listing_unique, lemma_relist, lists_in_order, order_by, positions, strict_order, Ranked};
use crate::text::{
    decimal, lemma_text_less_irreflexive, lemma_text_less_total, lemma_text_less_transitive, numeral, text_less, text_lt,
};
use crate::validate::{deps_of, first, graph_deps, lemma_first_is, lemma_first_none};

verus! {

/// Sort key of a deliverable: critical ones first, by place on the critical
/// path; then the others by earliest start; ties by id.
#[derive(Debug)]
pub struct PriorityKey {
    /// Zero on the critical path, one off it.
    pub tier: u8,
    /// Place on the critical path, or earliest start.
    pub rank: i128,
    /// The deliverable.
    pub id: String,
}

/// The key `a` sorts before the key `b`.
pub open spec fn key_less(a: (int, int, Seq<char>), b: (int, int, Seq<char>)) -> bool {
    a.0 < b.0 || (a.0 == b.0 && (a.1 < b.1 || (a.1 == b.1 && text_less(a.2, b.2))))
}

impl PriorityKey {
    /// The parts of the key.
    pub open spec fn parts(self) -> (int, int, Seq<char>) {
        (self.tier as int, self.rank as int, self.id@)
    }
}

impl Ranked for PriorityKey {
    open spec fn rankable(&self) -> bool {
        true
    }

    open spec fn precedes(&self, other: &Self) -> bool {
        key_less(self.parts(), other.parts())
    }

    fn comes_before(&self, other: &Self) -> (r: bool) {
        if self.tier != other.tier {
            self.tier < other.tier
        } else if self.rank != other.rank {
            self.rank < other.rank
        } else {
            text_lt(self.id.as_str(), other.id.as_str())
        }
    }

    proof fn irreflexive(a: &Self) {
        lemma_text_less_irreflexive(a.id@);
    }

    proof fn transitive(a: &Self, b: &Self, c: &Self) {
        if text_less(a.id@, b.id@) && text_less(b.id@, c.id@) {
            lemma_text_less_transitive(a.id@, b.id@, c.id@);
        }
    }

    proof fn weakly_ordered(a: &Self, b: &Self, c: &Self) {
        lemma_text_less_total(a.id@, b.id@);
        lemma_text_less_total(b.id@, c.id@);
        lemma_text_less_irreflexive(a.id@);
        if text_less(c.id@, a.id@) && text_less(a.id@, b.id@) {
            lemma_text_less_transitive(c.id@, a.id@, b.id@);
        }
    }
}

/// The key for an id with the given place on the critical path, or else the
/// given earliest start.
pub open spec fn key_of(id: Seq<char>, place: Option<int>, start: Option<int>) -> (int, int, Seq<char>) {
    match place {
        Some(p) => (0, p, id),
        None => (
            1,
            match start {
                Some(s) => s,
                None => 0,
            },
            id,
        ),
    }
}

/// The sort key of a deliverable, from its place on the critical path and its
/// earliest start.
pub fn priority_key(deliverable_id: &str, place: Option<usize>, start: Option<i128>) -> (r: PriorityKey)
    requires
        place is Some || start is Some,
    ensures
        r.parts() == key_of(
            deliverable_id@,
            match place {
                Some(p) => Some(p as int),
                None => None,
            },
            match start {
                Some(s) => Some(s as int),
                None => None,
            },
        ),
{
    match place {
        Some(p) => PriorityKey { tier: 0, rank: p as i128, id: String::from_str(deliverable_id) },
        None => PriorityKey { tier: 1, rank: start.unwrap(), id: String::from_str(deliverable_id) },
    }
}

/// The place of deliverable `i` on the critical path.
pub open spec fn critical_place(plan: PlanView, i: int) -> Option<int> {
    last_position(plan.result.critical_path, deliverable_ids(plan.graph)[i])
}

/// The earliest start of deliverable `i`.
pub open spec fn analysed_start(plan: PlanView, i: int) -> Option<int> {
    match last_position(task_ids(plan.result.tasks), deliverable_ids(plan.graph)[i]) {
        Some(at) => Some(plan.result.tasks[at].earliest_start),
        None => None,
    }
}

/// The sort key of deliverable `i`.
pub open spec fn plan_key(plan: PlanView, i: int) -> (int, int, Seq<char>) {
    key_of(deliverable_ids(plan.graph)[i], critical_place(plan, i), analysed_start(plan, i))
}

/// The analysis ranks deliverable `i`.
pub open spec fn ranked(plan: PlanView, i: int) -> bool {
    critical_place(plan, i) is Some || analysed_start(plan, i) is Some
}

/// Wherever there is a choice between available deliverables, the analysis
/// ranks them.
pub open spec fn ranks_choices(plan: PlanView, slots: Seq<SlotView>) -> bool {
    forall|i: int, j: int| #![trigger available(plan.graph, slots, i), available(plan.graph, slots, j)] available(plan.graph, slots, i) && available(plan.graph, slots, j) && i != j ==> ranked(plan, i)
}

/// The refusal to choose between deliverables that the analysis does not rank.
pub open spec fn not_ranked() -> ErrorView {
    ErrorView::BackendError { reason: "corrupt analysis: it does not rank what is ready"@ }
}

/// Deliverable `i` is leased before deliverable `j`.
pub open spec fn higher_priority(plan: PlanView, i: int, j: int) -> bool {
    key_less(plan_key(plan, i), plan_key(plan, j))
}

/// Every listed deliverable is complete.
pub open spec fn all_complete(slots: Seq<SlotView>, list: Seq<usize>) -> bool {
    forall|j: int| 0 <= j < list.len() ==> (#[trigger] list[j]) < slots.len() && slots[list[j] as int].status is Complete
}

/// Deliverable `i` may be leased: it is ready, nobody holds it, and its
/// prerequisites are complete.
pub open spec fn available(graph: GraphView, slots: Seq<SlotView>, i: int) -> bool {
    &&& 0 <= i < slots.len()
    &&& slots[i].status is Ready
    &&& slots[i].lock is None
    &&& all_complete(slots, graph_deps(graph)[i])
}

/// Deliverable `i` may be leased but has failed too often.
pub open spec fn tripped(graph: GraphView, slots: Seq<SlotView>, i: int) -> bool {
    available(graph, slots, i) && slots[i].failures >= MAX_ATTEMPTS
}

/// Why a deliverable that failed too often is given up.
pub open spec fn circuit_break_reason() -> Seq<char> {
    "circuit-break: exceeded "@ + numeral(MAX_ATTEMPTS as nat) + " failed attempts"@
}

/// The slots after deliverables that failed too often were given up.
pub open spec fn broken(graph: GraphView, slots: Seq<SlotView>) -> Seq<SlotView> {
    Seq::new(
        slots.len(),
        |i: int|
            if tripped(graph, slots, i) {
                SlotView { status: StatusView::Failed { reason: circuit_break_reason() }, ..slots[i] }
            } else {
                slots[i]
            },
    )
}

/// The records of the deliverables given up among the first `n`.
pub open spec fn broken_records(graph: GraphView, slots: Seq<SlotView>, plan_id: Seq<char>, n: nat) -> Seq<RecordView>
    decreases n,
{
    if n == 0 {
        Seq::empty()
    } else {
        let rest = broken_records(graph, slots, plan_id, (n - 1) as nat);
        if tripped(graph, slots, n - 1) {
            rest.push(
                circuit_broken_record(plan_id, graph.deliverables[n - 1].id, slots[n - 1].failures, MAX_ATTEMPTS),
            )
        } else {
            rest
        }
    }
}

/// `order` lists the available deliverables by priority.
pub open spec fn ready_order(plan: PlanView, slots: Seq<SlotView>, order: Seq<int>) -> bool {
    lists_in_order(order, |i: int| available(plan.graph, slots, i), |i: int, j: int| higher_priority(plan, i, j))
}

/// The available deliverables by priority.
pub open spec fn ready_list(plan: PlanView, slots: Seq<SlotView>) -> Seq<int> {
    choose|order: Seq<int>| ready_order(plan, slots, order)
}

/// A file is owned by a deliverable that is leased or chosen.
pub open spec fn busy_file(graph: GraphView, slots: Seq<SlotView>, chosen: Seq<int>, file: Seq<char>) -> bool {
    exists|m: int| {
        &&& 0 <= m < slots.len()
        &&& slots[m].lock is Some || chosen.contains(m)
        &&& file_keys(#[trigger] graph.deliverables[m]).contains(file)
    }
}

/// Deliverable `c` owns a file that is busy.
pub open spec fn clashes(graph: GraphView, slots: Seq<SlotView>, chosen: Seq<int>, c: int) -> bool {
    exists|a: int| 0 <= a < graph.deliverables[c].owned_files.len() && busy_file(graph, slots, chosen, #[trigger] file_keys(graph.deliverables[c])[a])
}

/// The greedy selection: each deliverable in turn, as long as fewer than `max`
/// are chosen and it shares no file with what is leased or chosen.
pub open spec fn picks(graph: GraphView, slots: Seq<SlotView>, order: Seq<int>, max: nat) -> Seq<int>
    decreases order.len(),
{
    if order.len() == 0 {
        Seq::empty()
    } else {
        let rest = picks(graph, slots, order.drop_last(), max);
        if rest.len() < max && !clashes(graph, slots, rest, order.last()) {
            rest.push(order.last())
        } else {
            rest
        }
    }
}

/// The slots from which a cohort is chosen.
pub open spec fn swept(plan: PlanView, now: i64) -> Seq<SlotView> {
    broken(plan.graph, reaped(plan.slots, now))
}

/// The deliverables chosen for a cohort.
pub open spec fn selection(plan: PlanView, now: i64, max: nat) -> Seq<int> {
    picks(plan.graph, swept(plan, now), ready_list(plan, swept(plan, now)), max)
}

/// The first chosen deliverable on which leases lapsed too often.
pub open spec fn over_limit(slots: Seq<SlotView>, chosen: Seq<int>) -> Option<int> {
    first(chosen.len(), |k: int| slots[chosen[k]].lapses >= MAX_LAPSES)
}

/// The lease given on deliverable `i`.
pub open spec fn new_lock(graph: GraphView, i: int, plan_id: Seq<char>, caller_id: Seq<char>, now: i64, expires_at: i64) -> LockView {
    LockView { plan_id, deliverable_id: graph.deliverables[i].id, caller_id, acquired_at: now, expires_at }
}

/// The slots after the chosen deliverables were leased.
pub open spec fn leased(graph: GraphView, slots: Seq<SlotView>, chosen: Seq<int>, plan_id: Seq<char>, caller_id: Seq<char>, now: i64, expires_at: i64) -> Seq<SlotView> {
    Seq::new(
        slots.len(),
        |i: int|
            if chosen.contains(i) {
                SlotView {
                    status: StatusView::InProgress,
                    attempts: bumped(slots[i].attempts),
                    lock: Some(new_lock(graph, i, plan_id, caller_id, now, expires_at)),
                    ..slots[i]
                }
            } else {
                slots[i]
            },
    )
}

/// The cohort made of the chosen deliverables.
pub open spec fn cohort_of(graph: GraphView, chosen: Seq<int>, plan_id: Seq<char>, caller_id: Seq<char>, now: i64, expires_at: i64) -> CohortView {
    CohortView {
        plan_id,
        rows: Seq::new(
            chosen.len(),
            |k: int|
                RowView {
                    deliverable: graph.deliverables[chosen[k]],
                    lock: new_lock(graph, chosen[k], plan_id, caller_id, now, expires_at),
                },
        ),
    }
}

/// The records of the leases taken.
pub open spec fn lease_records(graph: GraphView, chosen: Seq<int>, plan_id: Seq<char>, caller_id: Seq<char>, now: i64, expires_at: i64) -> Seq<RecordView> {
    Seq::new(
        chosen.len(),
        |k: int|
            acquired_record(
                new_lock(graph, chosen[k], plan_id, caller_id, now, expires_at),
                graph.deliverables[chosen[k]].owned_files,
            ),
    )
}

/// Everything recorded when a cohort is leased.
pub open spec fn acquire_records(plan: PlanView, chosen: Seq<int>, plan_id: Seq<char>, caller_id: Seq<char>, now: i64, expires_at: i64) -> Seq<RecordView> {
    expired_records(lapsed_locks(plan.slots, now, plan.slots.len()), now) + broken_records(
        plan.graph,
        reaped(plan.slots, now),
        plan_id,
        plan.slots.len(),
    ) + lease_records(plan.graph, chosen, plan_id, caller_id, now, expires_at)
}

/// What asking for a cohort changes and returns: the plan afterwards and the
/// cohort, or the refusal, which changes nothing.
pub open spec fn acquire_outcome(plan: PlanView, plan_id: Seq<char>, caller_id: Seq<char>, max: nat, now: i64, expires_at: i64) -> Result<(PlanView, CohortView), ErrorView> {
    let slots = swept(plan, now);
    let chosen = selection(plan, now, max);
    if !ranks_choices(plan, slots) {
        Err(not_ranked())
    } else {
        match over_limit(slots, chosen) {
            Some(k) => Err(
                ErrorView::LapseLimit {
                    deliverable_id: plan.graph.deliverables[chosen[k]].id,
                    lapse_count: slots[chosen[k]].lapses,
                    max_lapses: MAX_LAPSES,
                },
            ),
            None => Ok(
                (
                    PlanView { slots: leased(plan.graph, slots, chosen, plan_id, caller_id, now, expires_at), ..plan },
                    cohort_of(plan.graph, chosen, plan_id, caller_id, now, expires_at),
                ),
            ),
        }
    }
}

/// Priority is a strict order on deliverables.
pub proof fn lemma_priority_strict(plan: PlanView, slots: Seq<SlotView>)
    ensures
        strict_order(|i: int| available(plan.graph, slots, i), |i: int, j: int| higher_priority(plan, i, j)),
{
    let member = |i: int| available(plan.graph, slots, i);
    let before = |i: int, j: int| higher_priority(plan, i, j);
    assert forall|i: int| member(i) implies !#[trigger] before(i, i) by {
        lemma_text_less_irreflexive(plan_key(plan, i).2);
    }
    assert forall|i: int, j: int, k: int| member(i) && member(j) && member(k) && #[trigger] before(i, j) && #[trigger] before(j, k) implies before(i, k) by {
        let a = plan_key(plan, i).2;
        let b = plan_key(plan, j).2;
        let c = plan_key(plan, k).2;
        if text_less(a, b) && text_less(b, c) {
            lemma_text_less_transitive(a, b, c);
        }
    }
}

/// The available deliverables can be listed by priority, in one way.
pub proof fn lemma_ready_list(plan: PlanView, slots: Seq<SlotView>)
    requires
        deliverable_ids(plan.graph).no_duplicates(),
        slots.len() == plan.graph.deliverables.len(),
    ensures
        ready_order(plan, slots, ready_list(plan, slots)),
{
    let member = |i: int| available(plan.graph, slots, i);
    let before = |i: int, j: int| higher_priority(plan, i, j);
    lemma_priority_strict(plan, slots);
    assert forall|i: int, j: int| #![trigger before(i, j)] member(i) && member(j) && i != j implies before(i, j) || before(j, i) by {
        assert(deliverable_ids(plan.graph)[i] != deliverable_ids(plan.graph)[j]);
        lemma_text_less_total(plan_key(plan, i).2, plan_key(plan, j).2);
    }
    let order = lemma_listing_exists(slots.len(), member, before);
    let below = |i: int| 0 <= i < slots.len() && member(i);
    assert(lists_in_order(order, below, before));
    assert forall|k: int| #[trigger] member(k) implies order.contains(k) by {
        assert(below(k));
    }
    assert forall|k: int| 0 <= k < order.len() implies member(#[trigger] order[k]) by {
        assert(below(order[k]));
    }
    assert(ready_order(plan, slots, order));
}

/// An analysis that covers a graph ranks all its deliverables.
pub proof fn lemma_covered_ranked(plan: PlanView, slots: Seq<SlotView>)
    requires
        crate::locks::covers(plan.result, plan.graph),
        slots.len() == plan.graph.deliverables.len(),
    ensures
        ranks_choices(plan, slots),
{
    assert forall|i: int, j: int| #![trigger available(plan.graph, slots, i), available(plan.graph, slots, j)] available(plan.graph, slots, i) && available(plan.graph, slots, j) && i != j implies ranked(plan, i) by {
        let id = deliverable_ids(plan.graph)[i];
        assert(task_ids(plan.result.tasks).contains(id));
        lemma_last_position(task_ids(plan.result.tasks), id);
    }
}

/// Marks the deliverables that may be leased.
fn available_flags(slots: &Vec<Slot>, deps: &Vec<Vec<usize>>, graph: Ghost<GraphView>) -> (r: Vec<bool>)
    requires
        deps.deep_view() == graph_deps(graph@),
        slots.len() == deps.len(),
    ensures
        r.len() == slots.len(),
        forall|i: int| 0 <= i < slots.len() ==> #[trigger] r@[i] == available(graph@, slots.deep_view(), i),
{
    let ghost view = slots.deep_view();
    let mut r: Vec<bool> = Vec::new();
    for i in 0..slots.len()
        invariant
            deps.deep_view() == graph_deps(graph@),
            slots.len() == deps.len(),
            view == slots.deep_view(),
            r.len() == i,
            forall|k: int| 0 <= k < i ==> #[trigger] r@[k] == available(graph@, view, k),
    {
        assert(view[i as int] == slots[i as int].deep_view());
        assert(deps[i as int].deep_view() =~= deps[i as int]@);
        assert(graph_deps(graph@)[i as int] == deps[i as int]@);
        let open = slots[i].status.is_ready() && slots[i].lock.is_none();
        let mut done = true;
        let count: usize = deps[i].len();
        for j in 0..count
            invariant
                i < slots.len(),
                slots.len() == deps.len(),
                count == deps[i as int].len(),
                view == slots.deep_view(),
                done == (forall|k: int| 0 <= k < j ==> (#[trigger] deps[i as int]@[k]) < view.len() && view[deps[i as int]@[k] as int].status is Complete),
        {
            let d: usize = deps[i][j];
            let complete = d < slots.len() && slots[d].status.is_complete();
            assert(complete == (deps[i as int]@[j as int] < view.len() && view[deps[i as int]@[j as int] as int].status is Complete));
            done = done && complete;
        }
        r.push(open && done);
    }
    r
}

/// Gives up the deliverables that failed too often.
fn trip_breakers(slots: &Vec<Slot>, graph: &PlanGraph, deps: &Vec<Vec<usize>>, plan_id: &str) -> (r: (Vec<Slot>, Vec<AuditRecord>))
    requires
        deps.deep_view() == graph_deps(graph.deep_view()),
        slots.len() == graph.deliverables.len(),
        slots.len() == deps.len(),
    ensures
        r.0.deep_view() == broken(graph.deep_view(), slots.deep_view()),
        r.1.deep_view() == broken_records(graph.deep_view(), slots.deep_view(), plan_id@, slots.deep_view().len()),
{
    let ghost gv = graph.deep_view();
    let ghost before = slots.deep_view();
    let open = available_flags(slots, deps, Ghost(gv));
    let mut kept: Vec<Slot> = Vec::new();
    let mut records: Vec<AuditRecord> = Vec::new();
    for i in 0..slots.len()
        invariant
            gv == graph.deep_view(),
            before == slots.deep_view(),
            slots.len() == graph.deliverables.len(),
            open.len() == slots.len(),
            forall|k: int| 0 <= k < slots.len() ==> #[trigger] open@[k] == available(gv, before, k),
            kept.len() == i,
            forall|k: int| 0 <= k < i ==> (#[trigger] kept[k]).deep_view() == broken(gv, before)[k],
            records.deep_view() == broken_records(gv, before, plan_id@, i as nat),
    {
        let mut slot = slots[i].clone();
        let ghost listed = records.deep_view();
        assert(before[i as int] == slots[i as int].deep_view());
        assert(gv.deliverables[i as int] == graph.deliverables[i as int].deep_view());
        if open[i] && slot.failures >= MAX_ATTEMPTS {
            let mut reason = String::from_str("circuit-break: exceeded ");
            let limit = decimal(MAX_ATTEMPTS as u64);
            reason.append(limit.as_str());
            reason.append(" failed attempts");
            let record = make_circuit_broken_event(plan_id, graph.deliverables[i].id.as_str(), slot.failures, MAX_ATTEMPTS);
            records.push(record);
            assert(records.deep_view() =~= listed.push(record.deep_view()));
            slot.status = DeliverableStatus::Failed { reason };
        }
        kept.push(slot);
    }
    assert(kept.deep_view() =~= broken(gv, before));
    (kept, records)
}

/// The sort keys of all deliverables, and whether the analysis ranks them.
fn rank_keys(state: &PlanState) -> (r: (Vec<PriorityKey>, Vec<bool>))
    ensures
        r.0.len() == state.graph.deliverables.len(),
        r.1.len() == state.graph.deliverables.len(),
        forall|i: int| 0 <= i < r.0.len() ==> (#[trigger] r.0@[i]).parts() == plan_key(state.deep_view(), i),
        forall|i: int| 0 <= i < r.1.len() ==> #[trigger] r.1@[i] == ranked(state.deep_view(), i),
{
    let ghost plan = state.deep_view();
    let ghost ids = deliverable_ids(plan.graph);
    let ghost path = plan.result.critical_path;
    let ghost tids = task_ids(plan.result.tasks);
    let names = crate::algorithm::ids_of(&state.cached_result.tasks);
    let places = index_last(&state.cached_result.critical_path);
    let starts = index_last(&names);
    let n: usize = state.graph.deliverables.len();
    let mut keys: Vec<PriorityKey> = Vec::new();
    let mut known: Vec<bool> = Vec::new();
    for i in 0..n
        invariant
            n == state.graph.deliverables.len(),
            plan == state.deep_view(),
            ids == deliverable_ids(plan.graph),
            path == plan.result.critical_path,
            tids == task_ids(plan.result.tasks),
            forall|id: Seq<char>| #[trigger] places@.contains_key(id) <==> last_position(path, id) is Some,
            forall|id: Seq<char>| #[trigger] places@.contains_key(id) ==> last_position(path, id) == Some(places@[id] as int),
            forall|id: Seq<char>| #[trigger] starts@.contains_key(id) <==> last_position(tids, id) is Some,
            forall|id: Seq<char>| #[trigger] starts@.contains_key(id) ==> last_position(tids, id) == Some(starts@[id] as int),
            keys.len() == i,
            known.len() == i,
            forall|k: int| 0 <= k < i ==> (#[trigger] keys@[k]).parts() == plan_key(plan, k),
            forall|k: int| 0 <= k < i ==> #[trigger] known@[k] == ranked(plan, k),
    {
        let id = state.graph.deliverables[i].id.as_str();
        assert(ids[i as int] == id@);
        proof {
            lemma_last_position(tids, id@);
        }
        let place: Option<usize> = match places.get(id) {
            Some(p) => Some(*p),
            None => None,
        };
        let start: Option<i128> = match starts.get(id) {
            Some(k) => {
                assert(plan.result.tasks[*k as int] == state.cached_result.tasks[*k as int].deep_view());
                Some(state.cached_result.tasks[*k].earliest_start)
            },
            None => None,
        };
        known.push(place.is_some() || start.is_some());
        let start: Option<i128> = match start {
            Some(s) => Some(s),
            None => Some(0),
        };
        keys.push(priority_key(id, place, start));
    }
    (keys, known)
}

/// Whether the analysis ranks the available deliverables, wherever there is a
/// choice between them.
fn choices_ranked(open: &Vec<bool>, known: &Vec<bool>, plan: Ghost<PlanView>, slots: Ghost<Seq<SlotView>>) -> (r: bool)
    requires
        open.len() == slots@.len(),
        known.len() == slots@.len(),
        forall|i: int| 0 <= i < slots@.len() ==> #[trigger] open@[i] == available(plan@.graph, slots@, i),
        forall|i: int| 0 <= i < known.len() ==> #[trigger] known@[i] == ranked(plan@, i),
    ensures
        r == ranks_choices(plan@, slots@),
{
    let mut seen: Option<usize> = None;
    let mut several = false;
    let mut bad: Option<usize> = None;
    for i in 0..open.len()
        invariant
            open.len() == slots@.len(),
            known.len() == slots@.len(),
            forall|i: int| 0 <= i < slots@.len() ==> #[trigger] open@[i] == available(plan@.graph, slots@, i),
            forall|i: int| 0 <= i < known.len() ==> #[trigger] known@[i] == ranked(plan@, i),
            seen is None ==> forall|k: int| 0 <= k < i ==> !#[trigger] open@[k],
            seen matches Some(k) ==> k < i && open@[k as int],
            !several ==> forall|a: int, b: int| 0 <= a < i && 0 <= b < i && #[trigger] open@[a] && #[trigger] open@[b] ==> a == b,
            several ==> exists|a: int, b: int| 0 <= a < i && 0 <= b < i && #[trigger] open@[a] && #[trigger] open@[b] && a != b,
            bad is None ==> forall|k: int| 0 <= k < i && #[trigger] open@[k] ==> known@[k],
            bad matches Some(k) ==> k < i && open@[k as int] && !known@[k as int],
    {
        if open[i] {
            match seen {
                Some(k) => {
                    assert(open@[k as int] && open@[i as int] && k != i);
                    several = true;
                },
                None => {
                    seen = Some(i);
                },
            }
            if !known[i] {
                bad = Some(i);
            }
        }
    }
    let fine = !several || bad.is_none();
    proof {
        let gv = plan@.graph;
        if fine {
            assert forall|i: int, j: int| #![trigger available(gv, slots@, i), available(gv, slots@, j)] available(gv, slots@, i) && available(gv, slots@, j) && i != j implies ranked(plan@, i) by {
                assert(open@[i] && open@[j]);
                assert(known@[i] == ranked(plan@, i));
            }
        } else {
            let (a, b) = choose|a: int, b: int| 0 <= a < open.len() && 0 <= b < open.len() && #[trigger] open@[a] && #[trigger] open@[b] && a != b;
            let k = bad->0 as int;
            let other = if a == k { b } else { a };
            assert(available(gv, slots@, k) && available(gv, slots@, other));
            assert(!ranked(plan@, k));
        }
    }
    fine
}

/// The available deliverables by priority; nothing where the analysis does not
/// rank them.
fn ready_positions(state: &PlanState, slots: &Vec<Slot>, deps: &Vec<Vec<usize>>) -> (r: Option<Vec<usize>>)
    requires
        plan_ok(state.deep_view()),
        deps.deep_view() == graph_deps(state.deep_view().graph),
        slots.len() == state.graph.deliverables.len(),
        slots.len() == deps.len(),
    ensures
        r is Some <==> ranks_choices(state.deep_view(), slots.deep_view()),
        r matches Some(order) ==> {
            &&& positions(order@) == ready_list(state.deep_view(), slots.deep_view())
            &&& ready_order(state.deep_view(), slots.deep_view(), positions(order@))
            &&& forall|k: int| 0 <= k < order.len() ==> (#[trigger] order@[k]) < slots.len()
        },
{
    let ghost plan = state.deep_view();
    let ghost view = slots.deep_view();
    let (keys, known) = rank_keys(state);
    let open = available_flags(slots, deps, Ghost(plan.graph));
    if !choices_ranked(&open, &known, Ghost(plan), Ghost(view)) {
        return None;
    }
    let order = order_by(&keys, &open);
    proof {
        let listed = positions(order@);
        let member = |k: int| 0 <= k < open@.len() && open@[k];
        let ahead_of = |i: int, j: int| ahead(keys@, i, j);
        let member2 = |i: int| available(plan.graph, view, i);
        let before2 = |i: int, j: int| higher_priority(plan, i, j);
        assert forall|i: int, j: int| member(i) && member(j) && i != j && #[trigger] ahead_of(i, j) implies before2(i, j) by {
            assert(deliverable_ids(plan.graph)[i] != deliverable_ids(plan.graph)[j]);
            assert(keys@[i].parts() == plan_key(plan, i));
            assert(keys@[j].parts() == plan_key(plan, j));
            lemma_text_less_total(plan_key(plan, i).2, plan_key(plan, j).2);
        }
        assert forall|i: int| member(i) implies !#[trigger] ahead_of(i, i) by {
            PriorityKey::irreflexive(&keys@[i]);
        }
        assert forall|i: int| #[trigger] member2(i) implies member(i) by {
            assert(open@[i] == available(plan.graph, view, i));
        }
        assert forall|i: int| #[trigger] member(i) implies member2(i) by {
            assert(open@[i] == available(plan.graph, view, i));
        }
        lemma_relist(listed, member, ahead_of, member2, before2);
        assert(ready_order(plan, view, listed));
        lemma_priority_strict(plan, view);
        lemma_listing_unique(ready_list(plan, view), listed, member2, before2);
        assert forall|k: int| 0 <= k < order.len() implies (#[trigger] order@[k]) < slots.len() by {
            assert(member2(listed[k]));
        }
    }
    Some(order)
}

/// What a set of busy files holds.
spec fn tracks_busy(map: Map<Seq<char>, bool>, graph: GraphView, slots: Seq<SlotView>, chosen: Seq<int>) -> bool {
    forall|f: Seq<char>| #[trigger] map.contains_key(f) <==> busy_file(graph, slots, chosen, f)
}

/// Some of the first `n` deliverables is leased and owns the file.
spec fn locked_upto(graph: GraphView, slots: Seq<SlotView>, n: int, f: Seq<char>) -> bool {
    exists|m: int| 0 <= m < n && slots[m].lock is Some && file_keys(#[trigger] graph.deliverables[m]).contains(f)
}

/// Adds the files of a deliverable to a set.
fn add_files(busy: &mut StringHashMap<bool>, d: &Deliverable)
    ensures
        forall|f: Seq<char>| #[trigger] final(busy)@.contains_key(f) <==> old(busy)@.contains_key(f) || file_keys(d.deep_view()).contains(f),
{
    let ghost files = file_keys(d.deep_view());
    let ghost before = busy@;
    for a in 0..d.owned_files.len()
        invariant
            files == file_keys(d.deep_view()),
            forall|f: Seq<char>| #[trigger] busy@.contains_key(f) <==> before.contains_key(f) || files.take(a as int).contains(f),
    {
        let ghost prev = busy@;
        let ghost part = files.take(a as int);
        let ghost next = files.take(a + 1);
        assert(files[a as int] == path_key(d.owned_files[a as int]@));
        busy.insert(shortest_name(d.owned_files[a].as_str()), true);
        assert forall|f: Seq<char>| #[trigger] busy@.contains_key(f) <==> before.contains_key(f) || next.contains(f) by {
            if part.contains(f) {
                let k = choose|k: int| 0 <= k < part.len() && part[k] == f;
                assert(next[k] == f);
            }
            if f == files[a as int] {
                assert(next[a as int] == f);
            }
            if next.contains(f) {
                let k = choose|k: int| 0 <= k < next.len() && next[k] == f;
                if k < a {
                    assert(part[k] == f);
                }
            }
        }
    }
    assert(files.take(files.len() as int) =~= files);
}

/// The greedy selection.
fn select(graph: &PlanGraph, slots: &Vec<Slot>, order: &Vec<usize>, max: usize) -> (r: Vec<usize>)
    requires
        slots.len() == graph.deliverables.len(),
        forall|k: int| 0 <= k < order.len() ==> (#[trigger] order@[k]) < slots.len(),
    ensures
        positions(r@) == picks(graph.deep_view(), slots.deep_view(), positions(order@), max as nat),
        forall|k: int| 0 <= k < r.len() ==> (#[trigger] r@[k]) < slots.len(),
{
    let ghost gv = graph.deep_view();
    let ghost view = slots.deep_view();
    let ghost all = positions(order@);
    let mut busy: StringHashMap<bool> = StringHashMap::new();
    for m in 0..slots.len()
        invariant
            gv == graph.deep_view(),
            view == slots.deep_view(),
            slots.len() == graph.deliverables.len(),
            forall|f: Seq<char>| #[trigger] busy@.contains_key(f) <==> locked_upto(gv, view, m as int, f),
    {
        let ghost before = busy@;
        assert(view[m as int] == slots[m as int].deep_view());
        assert(gv.deliverables[m as int] == graph.deliverables[m as int].deep_view());
        if slots[m].lock.is_some() {
            add_files(&mut busy, &graph.deliverables[m]);
        }
        assert forall|f: Seq<char>| #[trigger] busy@.contains_key(f) <==> locked_upto(gv, view, m + 1, f) by {
            if locked_upto(gv, view, m + 1, f) {
                let x = choose|x: int| 0 <= x < m + 1 && view[x].lock is Some && file_keys(#[trigger] gv.deliverables[x]).contains(f);
                if x < m {
                    assert(locked_upto(gv, view, m as int, f));
                }
            }
            if before.contains_key(f) {
                assert(locked_upto(gv, view, m as int, f));
            }
        }
    }
    let mut chosen: Vec<usize> = Vec::new();
    proof {
        assert forall|f: Seq<char>| #[trigger] busy@.contains_key(f) <==> busy_file(gv, view, positions(chosen@), f) by {
            assert(busy@.contains_key(f) <==> locked_upto(gv, view, slots.len() as int, f));
        }
        assert(all.take(0) =~= Seq::<int>::empty());
        assert(positions(chosen@) =~= picks(gv, view, all.take(0), max as nat));
    }
    for k in 0..order.len()
        invariant
            gv == graph.deep_view(),
            view == slots.deep_view(),
            slots.len() == graph.deliverables.len(),
            all == positions(order@),
            forall|k: int| 0 <= k < order.len() ==> (#[trigger] order@[k]) < slots.len(),
            forall|k: int| 0 <= k < chosen.len() ==> (#[trigger] chosen@[k]) < slots.len(),
            positions(chosen@) == picks(gv, view, all.take(k as int), max as nat),
            tracks_busy(busy@, gv, view, positions(chosen@)),
    {
        let c: usize = order[k];
        let ghost before = positions(chosen@);
        assert(all.take(k + 1).drop_last() =~= all.take(k as int));
        assert(all.take(k + 1).last() == c);
        assert(gv.deliverables[c as int] == graph.deliverables[c as int].deep_view());
        let ghost files = file_keys(gv.deliverables[c as int]);
        if chosen.len() < max {
            let mut clash = false;
            let count: usize = graph.deliverables[c].owned_files.len();
            for a in 0..count
                invariant
                    c < graph.deliverables.len(),
                    count == graph.deliverables[c as int].owned_files.len(),
                    files == file_keys(graph.deliverables[c as int].deep_view()),
                    files.len() == count,
                    tracks_busy(busy@, gv, view, before),
                    clash == (exists|x: int| 0 <= x < a && busy_file(gv, view, before, #[trigger] files[x])),
            {
                assert(files[a as int] == path_key(graph.deliverables[c as int].owned_files[a as int]@));
                let name = shortest_name(graph.deliverables[c].owned_files[a].as_str());
                let hit = busy.contains_key(name.as_str());
                proof {
                    assert(hit == busy_file(gv, view, before, files[a as int]));
                    if clash {
                        let x = choose|x: int| 0 <= x < a && busy_file(gv, view, before, #[trigger] files[x]);
                        assert(0 <= x < a + 1 && busy_file(gv, view, before, files[x]));
                    }
                    if hit {
                        assert(0 <= a < a + 1 && busy_file(gv, view, before, files[a as int]));
                    }
                }
                clash = clash || hit;
            }
            assert(clash == clashes(gv, view, before, c as int));
            if !clash {
                let ghost old_busy = busy@;
                add_files(&mut busy, &graph.deliverables[c]);
                chosen.push(c);
                proof {
                    let after = positions(chosen@);
                    assert(after =~= before.push(c as int));
                    assert forall|f: Seq<char>| #[trigger] busy@.contains_key(f) <==> busy_file(gv, view, after, f) by {
                        if busy_file(gv, view, before, f) {
                            let m = choose|m: int| {
                                &&& 0 <= m < view.len()
                                &&& view[m].lock is Some || before.contains(m)
                                &&& file_keys(#[trigger] gv.deliverables[m]).contains(f)
                            };
                            if before.contains(m) {
                                let x = choose|x: int| 0 <= x < before.len() && before[x] == m;
                                assert(after[x] == m);
                            }
                            assert(busy_file(gv, view, after, f));
                        }
                        if files.contains(f) {
                            assert(after[before.len() as int] == c as int);
                            assert(file_keys(gv.deliverables[c as int]).contains(f));
                            assert(busy_file(gv, view, after, f));
                        }
                        if busy_file(gv, view, after, f) {
                            let m = choose|m: int| {
                                &&& 0 <= m < view.len()
                                &&& view[m].lock is Some || after.contains(m)
                                &&& file_keys(#[trigger] gv.deliverables[m]).contains(f)
                            };
                            if after.contains(m) && m != c {
                                let x = choose|x: int| 0 <= x < after.len() && after[x] == m;
                                assert(before[x] == m);
                            }
                            if m != c || view[m].lock is Some {
                                assert(busy_file(gv, view, before, f));
                            }
                        }
                    }
                }
            }
        } else {
            assert(before.len() == chosen.len());
        }
    }
    assert(all.take(order.len() as int) =~= all);
    chosen
}

/// Appends records.
pub fn append_records(all: &mut Vec<AuditRecord>, more: Vec<AuditRecord>)
    ensures
        final(all).deep_view() == old(all).deep_view() + more.deep_view(),
{
    let ghost before = all.deep_view();
    let ghost added = more.deep_view();
    let mut rest = more;
    all.append(&mut rest);
    assert(all.deep_view() =~= before + added);
}

impl PlanState {
    /// Leases up to `max_count` available deliverables with disjoint files to
    /// the caller, until `expires_at`. Returns the cohort and what to record.
    ///
    /// When leases on a chosen deliverable lapsed too often, or the analysis
    /// does not rank what there is to choose from, the request is refused as a
    /// whole and the plan is left as it was.
    pub fn acquire_cohort(&mut self, plan_id: &PlanId, caller_id: &CallerId, max_count: usize, now: i64, expires_at: i64) -> (r: Result<(Cohort, Vec<AuditRecord>), PlannerError>)
        requires
            plan_ok(old(self).deep_view()),
        ensures
            plan_ok(final(self).deep_view()),
            match acquire_outcome(old(self).deep_view(), plan_id.0@, caller_id.0@, max_count as nat, now, expires_at) {
                Ok((after, cohort)) => {
                    &&& r matches Ok((c, records))
                    &&& final(self).deep_view() == after
                    &&& c.deep_view() == cohort
                    &&& records.deep_view() == acquire_records(
                        old(self).deep_view(),
                        selection(old(self).deep_view(), now, max_count as nat),
                        plan_id.0@,
                        caller_id.0@,
                        now,
                        expires_at,
                    )
                },
                Err(e) => {
                    &&& r matches Err(x)
                    &&& x.deep_view() == e
                    &&& final(self).deep_view() == old(self).deep_view()
                },
            },
    {
        let ghost plan = self.deep_view();
        let ghost gv = plan.graph;
        let ghost pid = plan_id.0@;
        let ghost cid = caller_id.0@;
        let n: usize = self.slots.len();
        assert(plan.slots.len() == n);
        assert(gv.deliverables.len() == self.graph.deliverables.len());
        let deps = deps_of(&self.graph);
        let (cleared, gone) = reap_slots(&self.slots, now);
        let mut records = record_expired(&gone, now);
        assert(cleared.deep_view().len() == cleared.len());
        let (mut slots, tripped) = trip_breakers(&cleared, &self.graph, &deps, plan_id.as_str());
        append_records(&mut records, tripped);
        let ghost view = slots.deep_view();
        assert(view == swept(plan, now));
        assert(view.len() == slots.len());
        let order = match ready_positions(self, &slots, &deps) {
            Some(order) => order,
            None => {
                return Err(
                    PlannerError::BackendError(String::from_str("corrupt analysis: it does not rank what is ready")),
                );
            },
        };
        let chosen = select(&self.graph, &slots, &order, max_count);
        let ghost picked = positions(chosen@);
        assert(picked == selection(plan, now, max_count as nat));
        let ghost too_often = |k: int| view[picked[k]].lapses >= MAX_LAPSES;
        for k in 0..chosen.len()
            invariant
                plan == self.deep_view(),
                gv == plan.graph,
                plan_ok(plan),
                view == slots.deep_view(),
                slots.len() == self.graph.deliverables.len(),
                picked == positions(chosen@),
                too_often == (|k: int| view[picked[k]].lapses >= MAX_LAPSES),
                forall|a: int| 0 <= a < chosen.len() ==> (#[trigger] chosen@[a]) < slots.len(),
                forall|a: int| 0 <= a < k ==> !#[trigger] too_often(a),
                view == swept(plan, now),
                ranks_choices(plan, view),
                picked == selection(plan, now, max_count as nat),
                *self == *old(self),
        {
            let c: usize = chosen[k];
            assert(view[c as int] == slots[c as int].deep_view());
            assert(gv.deliverables[c as int] == self.graph.deliverables[c as int].deep_view());
            if slots[c].lapses >= MAX_LAPSES {
                proof {
                    assert(too_often(k as int));
                    lemma_first_is(picked.len(), too_often, k as int);
                }
                return Err(
                    PlannerError::LapseLimit {
                        deliverable_id: self.graph.deliverables[c].id.clone(),
                        lapse_count: slots[c].lapses,
                        max_lapses: MAX_LAPSES,
                    },
                );
            }
        }
        proof {
            lemma_first_none(picked.len(), too_often);
            lemma_picks_available(plan, view, positions(order@), max_count as nat);
        }
        let mut rows: Vec<CohortRow> = Vec::new();
        let mut leases: Vec<AuditRecord> = Vec::new();
        for k in 0..chosen.len()
            invariant
                plan == self.deep_view(),
                gv == plan.graph,
                pid == plan_id.0@,
                cid == caller_id.0@,
                plan_ok(plan),
                slots.len() == self.graph.deliverables.len(),
                slots.len() == view.len(),
                picked == positions(chosen@),
                picked.no_duplicates(),
                forall|a: int| 0 <= a < chosen.len() ==> (#[trigger] chosen@[a]) < slots.len(),
                rows.len() == k,
                leases.len() == k,
                forall|a: int| 0 <= a < k ==> (#[trigger] rows[a]).deep_view() == cohort_of(gv, picked, pid, cid, now, expires_at).rows[a],
                forall|a: int| 0 <= a < k ==> (#[trigger] leases[a]).deep_view() == lease_records(gv, picked, pid, cid, now, expires_at)[a],
                forall|i: int| 0 <= i < view.len() ==> (#[trigger] slots@[i]).deep_view() == (if picked.take(k as int).contains(i) {
                    leased(gv, view, picked, pid, cid, now, expires_at)[i]
                } else {
                    view[i]
                }),
        {
            let c: usize = chosen[k];
            assert(picked[k as int] == c);
            assert(gv.deliverables[c as int] == self.graph.deliverables[c as int].deep_view());
            let lock = LockInfo {
                plan_id: plan_id.clone(),
                deliverable_id: self.graph.deliverables[c].id.clone(),
                caller_id: caller_id.clone(),
                acquired_at: now,
                expires_at,
            };
            leases.push(make_acquired_event(&lock, &self.graph.deliverables[c].owned_files));
            let ghost part = picked.take(k as int);
            let ghost next = picked.take(k + 1);
            let ghost before = slots@;
            proof {
                assert(!part.contains(c as int)) by {
                    if part.contains(c as int) {
                        let a = choose|a: int| 0 <= a < part.len() && part[a] == c as int;
                        assert(picked[a] == picked[k as int]);
                    }
                }
                assert(picked.contains(c as int));
            }
            let slot = &mut slots[c];
            slot.status = DeliverableStatus::InProgress;
            slot.attempts = bump(slot.attempts);
            slot.lock = Some(lock.clone());
            rows.push(CohortRow { deliverable: self.graph.deliverables[c].clone(), lock });
            assert forall|i: int| 0 <= i < view.len() implies (#[trigger] slots@[i]).deep_view() == (if next.contains(i) {
                leased(gv, view, picked, pid, cid, now, expires_at)[i]
            } else {
                view[i]
            }) by {
                if i == c {
                    assert(next[k as int] == i);
                    assert(before[i].deep_view() == view[i]);
                } else {
                    assert(slots@[i] == before[i]);
                    if part.contains(i) {
                        let a = choose|a: int| 0 <= a < part.len() && part[a] == i;
                        assert(next[a] == i);
                    }
                    if next.contains(i) {
                        let a = choose|a: int| 0 <= a < next.len() && next[a] == i;
                        assert(part[a] == i);
                    }
                }
            }
        }
        assert(picked.take(chosen.len() as int) =~= picked);
        append_records(&mut records, leases);
        self.slots = slots;
        proof {
            let after = leased(gv, view, picked, pid, cid, now, expires_at);
            assert(self.slots.deep_view() =~= after);
            assert(rows.deep_view() =~= cohort_of(gv, picked, pid, cid, now, expires_at).rows);
            assert(leases.deep_view() =~= lease_records(gv, picked, pid, cid, now, expires_at));
        }
        Ok((Cohort { plan_id: plan_id.clone(), rows }, records))
    }
}

/// A greedy selection from the available deliverables takes each at most once,
/// and no others.
pub proof fn lemma_picks_available(plan: PlanView, slots: Seq<SlotView>, order: Seq<int>, max: nat)
    requires
        ready_order(plan, slots, order),
    ensures
        picks(plan.graph, slots, order, max).no_duplicates(),
        forall|k: int| 0 <= k < picks(plan.graph, slots, order, max).len() ==> available(plan.graph, slots, #[trigger] picks(plan.graph, slots, order, max)[k]),
{
    let member = |i: int| available(plan.graph, slots, i);
    let before = |i: int, j: int| higher_priority(plan, i, j);
    lemma_priority_strict(plan, slots);
    assert forall|a: int, b: int| 0 <= a < order.len() && 0 <= b < order.len() && a != b implies order[a] != order[b] by {
        let lo = if a < b { a } else { b };
        let hi = if a < b { b } else { a };
        assert(member(order[lo]));
        assert(before(order[lo], order[hi]));
        assert(!before(order[lo], order[lo]));
    }
    lemma_picks_no_repeat(plan.graph, slots, order, max);
    assert forall|k: int| 0 <= k < picks(plan.graph, slots, order, max).len() implies available(plan.graph, slots, #[trigger] picks(plan.graph, slots, order, max)[k]) by {
        lemma_picks_within(plan.graph, slots, order, max, k);
        let c = picks(plan.graph, slots, order, max)[k];
        let a = choose|a: int| 0 <= a < order.len() && order[a] == c;
        assert(member(order[a]));
    }
}

/// A greedy selection takes members of the list.
pub proof fn lemma_picks_within(graph: GraphView, slots: Seq<SlotView>, order: Seq<int>, max: nat, k: int)
    requires
        0 <= k < picks(graph, slots, order, max).len(),
    ensures
        order.contains(picks(graph, slots, order, max)[k]),
    decreases order.len(),
{
    if order.len() > 0 {
        let rest = picks(graph, slots, order.drop_last(), max);
        if k < rest.len() {
            lemma_picks_within(graph, slots, order.drop_last(), max, k);
            let a = choose|a: int| 0 <= a < order.drop_last().len() && order.drop_last()[a] == rest[k];
            assert(order[a] == rest[k]);
        } else {
            assert(order[order.len() - 1] == order.last());
        }
    }
}

proof fn lemma_picks_no_repeat(graph: GraphView, slots: Seq<SlotView>, order: Seq<int>, max: nat)
    requires
        order.no_duplicates(),
    ensures
        picks(graph, slots, order, max).no_duplicates(),
    decreases order.len(),
{
    if order.len() > 0 {
        let head = order.drop_last();
        let rest = picks(graph, slots, head, max);
        lemma_picks_no_repeat(graph, slots, head, max);
        let all = picks(graph, slots, order, max);
        assert forall|a: int, b: int| 0 <= a < all.len() && 0 <= b < all.len() && a != b implies all[a] != all[b] by {
            let lo = if a < b { a } else { b };
            let hi = if a < b { b } else { a };
            if hi < rest.len() {
                assert(rest[a] != rest[b]);
            } else {
                lemma_picks_within(graph, slots, head, max, lo);
                let x = choose|x: int| 0 <= x < head.len() && head[x] == rest[lo];
                assert(order[x] == rest[lo]);
                assert(order[x] != order[order.len() - 1]);
            }
        }
    }
}

} // verus!
