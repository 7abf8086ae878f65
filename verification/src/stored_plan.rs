//! A plan as a store holds it.
//!
//! A store may hold statuses and leases on deliverables that are not in the
//! graph. They are kept: such a lease is listed, can be extended and lapses
//! like any other. No request can mark or release it, and nothing is leased on
//! its account.

use vstd::prelude::*;
use vstd::string::*;

use crate::locks::{locks_match, plan_ok, PlanState, PlanView, Slot, SlotView};
use crate::plan::{deliverable_ids, find_deliverable, ErrorView, GraphView, PlanGraph, PlanId, PlannerError};
use crate::plan_store::{
    bad_stamp, leases_storable, lemma_lock_rows_from, lemma_rows_read_back, lock_row, lock_rows, locks_named, read_slot, rows_of,
    status_rows, stored_plan, stored_slot, LockRow, LockRowView, StatusRow, StatusRowView,
};
use crate::task::{CriticalPathResult, ResultView};
use crate::text::same_text;
use crate::validate::lemma_first_none;

verus! {

/// A plan, and what the store holds beside it.
#[derive(Debug)]
pub struct StoredPlan {
    /// The plan.
    pub state: PlanState,
    /// Deliverables that are not in the graph.
    pub stray_ids: Vec<String>,
    /// What is known about each of them.
    pub stray_slots: Vec<Slot>,
}

/// Mathematical form of [`StoredPlan`].
#[verifier::ext_equal]
pub struct StoredView {
    /// The plan.
    pub plan: PlanView,
    /// Deliverables that are not in the graph.
    pub stray_ids: Seq<Seq<char>>,
    /// What is known about each of them.
    pub stray_slots: Seq<SlotView>,
}

impl DeepView for StoredPlan {
    type V = StoredView;

    open spec fn deep_view(&self) -> StoredView {
        StoredView {
            plan: self.state.deep_view(),
            stray_ids: self.stray_ids.deep_view(),
            stray_slots: self.stray_slots.deep_view(),
        }
    }
}

/// The plan is consistent, and so is what is held beside it.
pub open spec fn stored_ok(v: StoredView) -> bool {
    &&& plan_ok(v.plan)
    &&& v.stray_ids.len() == v.stray_slots.len()
    &&& (deliverable_ids(v.plan.graph) + v.stray_ids).no_duplicates()
    &&& locks_named(v.stray_ids, v.stray_slots)
}

/// A plan with nothing beside it.
pub open spec fn bare(plan: PlanView) -> StoredView {
    StoredView { plan, stray_ids: Seq::empty(), stray_slots: Seq::empty() }
}

/// The names that are not known, each once, in order.
pub open spec fn unknown_names(known: Seq<Seq<char>>, names: Seq<Seq<char>>) -> Seq<Seq<char>>
    decreases names.len(),
{
    if names.len() == 0 {
        Seq::empty()
    } else {
        let rest = unknown_names(known, names.drop_last());
        if known.contains(names.last()) || rest.contains(names.last()) {
            rest
        } else {
            rest.push(names.last())
        }
    }
}

/// The deliverables that rows speak of.
pub open spec fn names_in(statuses: Seq<StatusRowView>, locks: Seq<LockRowView>) -> Seq<Seq<char>> {
    Seq::new(statuses.len(), |k: int| statuses[k].deliverable_id) + Seq::new(locks.len(), |k: int| locks[k].deliverable_id)
}

/// What the rows of a plan hold, or why they hold none.
pub open spec fn stored_whole(plan_id: Seq<char>, graph: GraphView, result: ResultView, statuses: Seq<StatusRowView>, locks: Seq<LockRowView>) -> Result<StoredView, ErrorView> {
    match stored_plan(plan_id, graph, result, statuses, locks) {
        Err(e) => Err(e),
        Ok(plan) => {
            let strays = unknown_names(deliverable_ids(graph), names_in(statuses, locks));
            Ok(
                StoredView {
                    plan,
                    stray_ids: strays,
                    stray_slots: Seq::new(strays.len(), |k: int| stored_slot(plan_id, strays[k], statuses, locks)),
                },
            )
        },
    }
}

/// The rows that store the statuses.
pub open spec fn whole_statuses(v: StoredView) -> Seq<StatusRowView> {
    status_rows(v.plan) + rows_of(v.stray_ids, v.stray_slots)
}

/// The rows that store the leases.
pub open spec fn whole_locks(v: StoredView) -> Seq<LockRowView> {
    lock_rows(v.plan.slots, v.plan.slots.len()) + lock_rows(v.stray_slots, v.stray_slots.len())
}

/// Every lease can be stored.
pub open spec fn whole_storable(v: StoredView, plan_id: Seq<char>) -> bool {
    leases_storable(v.plan.slots, plan_id) && leases_storable(v.stray_slots, plan_id)
}

/// What is unknown is named, and named once.
proof fn lemma_unknown(known: Seq<Seq<char>>, names: Seq<Seq<char>>)
    requires
        known.no_duplicates(),
    ensures
        (known + unknown_names(known, names)).no_duplicates(),
    decreases names.len(),
{
    if names.len() > 0 {
        let rest = unknown_names(known, names.drop_last());
        let all = unknown_names(known, names);
        lemma_unknown(known, names.drop_last());
        let (a, b) = (known + rest, known + all);
        if all.len() > rest.len() {
            assert forall|i: int, j: int| 0 <= i < b.len() && 0 <= j < b.len() && i != j implies b[i] != b[j] by {
                let (lo, hi) = if i < j { (i, j) } else { (j, i) };
                assert(b[lo] == a[lo]);
                if hi < a.len() {
                    assert(b[hi] == a[hi]);
                    assert(a[lo] != a[hi]);
                } else {
                    assert(b[hi] == names.last());
                    if lo < known.len() {
                        assert(known[lo] == a[lo]);
                        assert(known.contains(known[lo]));
                    } else {
                        assert(rest[lo - known.len()] == a[lo]);
                        assert(rest.contains(rest[lo - known.len()]));
                    }
                }
            }
        }
    } else {
        assert(known + unknown_names(known, names) =~= known);
    }
}

/// A list of texts holds a text.
fn among(list: &Vec<String>, text: &str) -> (r: bool)
    ensures
        r == list.deep_view().contains(text@),
{
    let ghost all = list.deep_view();
    for i in 0..list.len()
        invariant
            all == list.deep_view(),
            forall|k: int| 0 <= k < i ==> #[trigger] all[k] != text@,
    {
        assert(all[i as int] == list[i as int]@);
        if same_text(list[i].as_str(), text) {
            return true;
        }
    }
    false
}

/// Adds a name that is in neither list.
fn note_name(graph: &PlanGraph, list: &mut Vec<String>, name: &str)
    requires
        deliverable_ids(graph.deep_view()).no_duplicates(),
    ensures
        final(list).deep_view() == (if deliverable_ids(graph.deep_view()).contains(name@) || old(list).deep_view().contains(name@) {
            old(list).deep_view()
        } else {
            old(list).deep_view().push(name@)
        }),
{
    let ghost before = list.deep_view();
    let i: usize = find_deliverable(graph, name);
    assert(deliverable_ids(graph.deep_view()).len() == graph.deliverables.len());
    if i >= graph.deliverables.len() && !among(list, name) {
        list.push(String::from_str(name));
        assert(list.deep_view() =~= before.push(name@));
    }
}

impl StoredPlan {
    /// A plan with nothing beside it.
    pub fn new(state: PlanState) -> (r: Self)
        ensures
            r.deep_view() == bare(state.deep_view()),
            plan_ok(state.deep_view()) ==> stored_ok(r.deep_view()),
    {
        let r = StoredPlan { state, stray_ids: Vec::new(), stray_slots: Vec::new() };
        proof {
            assert(r.stray_ids.deep_view() =~= Seq::<Seq<char>>::empty());
            assert(r.stray_slots.deep_view() =~= Seq::<SlotView>::empty());
            let ids = deliverable_ids(r.deep_view().plan.graph);
            assert(ids + Seq::<Seq<char>>::empty() =~= ids);
        }
        r
    }

    /// Reads a plan back from its rows.
    pub fn restore(plan_id: &PlanId, graph: PlanGraph, cached_result: CriticalPathResult, statuses: &Vec<StatusRow>, locks: &Vec<LockRow>) -> (r: Result<Self, PlannerError>)
        ensures
            match stored_whole(
                plan_id.0@,
                graph.deep_view(),
                cached_result.deep_view(),
                statuses.deep_view(),
                locks.deep_view(),
            ) {
                Ok(v) => r matches Ok(x) && x.deep_view() == v && stored_ok(v),
                Err(e) => r matches Err(x) && x.deep_view() == e,
            },
    {
        let ghost gv = graph.deep_view();
        let ghost ids = deliverable_ids(gv);
        let ghost sv = statuses.deep_view();
        let ghost lv = locks.deep_view();
        let ghost names = names_in(sv, lv);
        let state = match PlanState::restore(plan_id, graph, cached_result, statuses, locks) {
            Ok(state) => state,
            Err(e) => {
                return Err(e);
            },
        };
        let mut stray_ids: Vec<String> = Vec::new();
        assert(stray_ids.deep_view() =~= unknown_names(ids, names.take(0)));
        for k in 0..statuses.len()
            invariant
                ids == deliverable_ids(state.graph.deep_view()),
                ids.no_duplicates(),
                sv == statuses.deep_view(),
                names == names_in(sv, lv),
                stray_ids.deep_view() == unknown_names(ids, names.take(k as int)),
        {
            assert(names.take(k + 1).drop_last() =~= names.take(k as int));
            assert(names[k as int] == statuses[k as int].deliverable_id@) by {
                assert(sv[k as int] == statuses[k as int].deep_view());
            }
            note_name(&state.graph, &mut stray_ids, statuses[k].deliverable_id.as_str());
        }
        for k in 0..locks.len()
            invariant
                ids == deliverable_ids(state.graph.deep_view()),
                ids.no_duplicates(),
                sv == statuses.deep_view(),
                lv == locks.deep_view(),
                names == names_in(sv, lv),
                stray_ids.deep_view() == unknown_names(ids, names.take(statuses.len() + k)),
        {
            let ghost at = statuses.len() + k;
            assert(names.take(at + 1).drop_last() =~= names.take(at));
            assert(names[at] == locks[k as int].deliverable_id@) by {
                assert(lv[k as int] == locks[k as int].deep_view());
            }
            note_name(&state.graph, &mut stray_ids, locks[k].deliverable_id.as_str());
        }
        assert(names.take(statuses.len() + locks.len()) =~= names);
        let ghost strays = stray_ids.deep_view();
        let mut stray_slots: Vec<Slot> = Vec::new();
        for k in 0..stray_ids.len()
            invariant
                sv == statuses.deep_view(),
                lv == locks.deep_view(),
                strays == stray_ids.deep_view(),
                stray_slots.len() == k,
                forall|a: int| 0 <= a < k ==> (#[trigger] stray_slots[a]).deep_view() == stored_slot(plan_id.0@, strays[a], sv, lv),
        {
            assert(strays[k as int] == stray_ids[k as int]@);
            stray_slots.push(read_slot(plan_id, stray_ids[k].as_str(), statuses, locks));
        }
        proof {
            assert(stray_slots.deep_view() =~= Seq::new(strays.len(), |k: int| stored_slot(plan_id.0@, strays[k], sv, lv)));
            lemma_unknown(ids, names);
        }
        Ok(StoredPlan { state, stray_ids, stray_slots })
    }

    /// The rows that store the statuses.
    pub fn to_status_rows(&self) -> (r: Vec<StatusRow>)
        requires
            stored_ok(self.deep_view()),
        ensures
            r.deep_view() == whole_statuses(self.deep_view()),
    {
        let ghost v = self.deep_view();
        let mut r = self.state.to_status_rows();
        let ghost first = r.deep_view();
        let ghost more = rows_of(v.stray_ids, v.stray_slots);
        assert(v.stray_ids.len() == self.stray_ids.len());
        assert(first + more.take(0) =~= first);
        for i in 0..self.stray_slots.len()
            invariant
                v == self.deep_view(),
                self.stray_ids.len() == self.stray_slots.len(),
                more == rows_of(v.stray_ids, v.stray_slots),
                r.deep_view() == first + more.take(i as int),
        {
            let slot = &self.stray_slots[i];
            let ghost before = r.deep_view();
            assert(v.stray_slots[i as int] == slot.deep_view());
            assert(v.stray_ids[i as int] == self.stray_ids[i as int]@);
            let row = StatusRow {
                deliverable_id: self.stray_ids[i].clone(),
                status: slot.status.clone(),
                attempt_count: slot.attempts,
                failure_count: slot.failures,
                lapse_count: slot.lapses,
            };
            r.push(row);
            assert(r.deep_view() =~= before.push(row.deep_view()));
            assert(more.take(i + 1) =~= more.take(i as int).push(row.deep_view()));
            assert(r.deep_view() =~= first + more.take(i + 1));
        }
        assert(more.take(self.stray_slots.len() as int) =~= more);
        r
    }

    /// The rows that store the leases.
    pub fn to_lock_rows(&self) -> (r: Vec<LockRow>)
        ensures
            r.deep_view() == whole_locks(self.deep_view()),
    {
        let ghost v = self.deep_view();
        let mut r = self.state.to_lock_rows();
        let ghost first = r.deep_view();
        assert(first + lock_rows(v.stray_slots, 0) =~= first);
        for i in 0..self.stray_slots.len()
            invariant
                v == self.deep_view(),
                r.deep_view() == first + lock_rows(v.stray_slots, i as nat),
        {
            let ghost before = r.deep_view();
            let ghost listed = lock_rows(v.stray_slots, i as nat);
            assert(v.stray_slots[i as int] == self.stray_slots[i as int].deep_view());
            if let Some(lock) = &self.stray_slots[i].lock {
                let row = LockRow {
                    deliverable_id: lock.deliverable_id.clone(),
                    caller_id: lock.caller_id.0.clone(),
                    acquired_at_us: lock.acquired_at,
                    expires_at_us: lock.expires_at,
                };
                r.push(row);
                assert(r.deep_view() =~= before.push(row.deep_view()));
                assert(r.deep_view() =~= first + listed.push(row.deep_view()));
            }
        }
        r
    }
}

/// The leases of two lists of slots, one after the other.
proof fn lemma_lock_rows_join(a: Seq<SlotView>, b: Seq<SlotView>, m: nat)
    requires
        m <= b.len(),
    ensures
        lock_rows(a + b, a.len() + m) == lock_rows(a, a.len()) + lock_rows(b, m),
    decreases m,
{
    if m == 0 {
        lemma_lock_rows_head(a, b, a.len());
        assert(lock_rows(a, a.len()) + lock_rows(b, 0) =~= lock_rows(a, a.len()));
    } else {
        lemma_lock_rows_join(a, b, (m - 1) as nat);
        assert((a + b)[a.len() + m - 1] == b[m - 1]);
        if b[m - 1].lock is Some {
            let row = lock_row(b[m - 1].lock->0);
            assert((lock_rows(a, a.len()) + lock_rows(b, (m - 1) as nat)).push(row) =~= lock_rows(a, a.len()) + lock_rows(b, (m - 1) as nat).push(row));
        }
    }
}

proof fn lemma_lock_rows_head(a: Seq<SlotView>, b: Seq<SlotView>, n: nat)
    requires
        n <= a.len(),
    ensures
        lock_rows(a + b, n) == lock_rows(a, n),
    decreases n,
{
    if n > 0 {
        lemma_lock_rows_head(a, b, (n - 1) as nat);
        assert((a + b)[n - 1] == a[n - 1]);
    }
}

/// Known names add nothing.
proof fn lemma_known_add_nothing(known: Seq<Seq<char>>, names: Seq<Seq<char>>, more: Seq<Seq<char>>)
    requires
        forall|k: int| 0 <= k < more.len() ==> known.contains(#[trigger] more[k]) || unknown_names(known, names).contains(more[k]),
    ensures
        unknown_names(known, names + more) == unknown_names(known, names),
    decreases more.len(),
{
    if more.len() == 0 {
        assert(names + more =~= names);
    } else {
        let head = more.drop_last();
        assert forall|k: int| 0 <= k < head.len() implies known.contains(#[trigger] head[k]) || unknown_names(known, names).contains(head[k]) by {
            assert(head[k] == more[k]);
        }
        lemma_known_add_nothing(known, names, head);
        assert((names + more).drop_last() =~= names + head);
        assert(more[more.len() - 1] == (names + more).last());
    }
}

/// Names that differ from each other and from the known ones are all listed.
proof fn lemma_strays_listed(known: Seq<Seq<char>>, strays: Seq<Seq<char>>)
    requires
        (known + strays).no_duplicates(),
    ensures
        unknown_names(known, known + strays) == strays,
    decreases strays.len(),
{
    if strays.len() == 0 {
        let none = Seq::<Seq<char>>::empty();
        assert forall|k: int| 0 <= k < known.len() implies known.contains(#[trigger] known[k]) || unknown_names(known, none).contains(known[k]) by {
        }
        lemma_known_add_nothing(known, none, known);
        assert(none + known =~= known);
        assert(known + strays =~= known);
        assert(strays =~= none);
    } else {
        let head = strays.drop_last();
        let all = known + strays;
        let last = strays.last();
        assert(all[all.len() - 1] == last);
        assert((known + head).no_duplicates()) by {
            let part = known + head;
            assert forall|i: int, j: int| 0 <= i < part.len() && 0 <= j < part.len() && i != j implies part[i] != part[j] by {
                assert(part[i] == all[i] && part[j] == all[j]);
            }
        }
        lemma_strays_listed(known, head);
        assert(all.drop_last() =~= known + head);
        if known.contains(last) {
            let i = choose|i: int| 0 <= i < known.len() && known[i] == last;
            assert(all[i] == last);
        }
        if head.contains(last) {
            let i = choose|i: int| 0 <= i < head.len() && head[i] == last;
            assert(all[known.len() + i] == last);
        }
        assert(head.push(last) =~= strays);
    }
}

/// Reading back what was stored gives what was stored.
pub proof fn storing_keeps_the_plan(v: StoredView, plan_id: Seq<char>)
    requires
        stored_ok(v),
        whole_storable(v, plan_id),
    ensures
        stored_whole(plan_id, v.plan.graph, v.plan.result, whole_statuses(v), whole_locks(v)) == Ok::<StoredView, ErrorView>(v),
{
    let known = deliverable_ids(v.plan.graph);
    let ids = known + v.stray_ids;
    let slots = v.plan.slots + v.stray_slots;
    let statuses = whole_statuses(v);
    let locks = whole_locks(v);
    let n = v.plan.slots.len();
    lemma_lock_rows_join(v.plan.slots, v.stray_slots, v.stray_slots.len());
    assert(locks == lock_rows(slots, slots.len()));
    assert(statuses =~= rows_of(ids, slots));
    assert(locks_match(v.plan.graph, v.plan.slots));
    assert(locks_named(ids, slots)) by {
        assert forall|i: int| 0 <= i < slots.len() implies ((#[trigger] slots[i]).lock matches Some(l) ==> l.deliverable_id == ids[i]) by {
            if i < n {
                assert(slots[i] == v.plan.slots[i]);
                assert(ids[i] == known[i]);
            } else {
                assert(slots[i] == v.stray_slots[i - n]);
                assert(ids[i] == v.stray_ids[i - n]);
            }
        }
    }
    assert(leases_storable(slots, plan_id)) by {
        assert forall|i: int| 0 <= i < slots.len() implies ((#[trigger] slots[i]).lock matches Some(l) ==> {
            &&& l.plan_id == plan_id
            &&& crate::plan_store::valid_stamp(l.acquired_at)
            &&& crate::plan_store::valid_stamp(l.expires_at)
        }) by {
            if i < n {
                assert(slots[i] == v.plan.slots[i]);
            } else {
                assert(slots[i] == v.stray_slots[i - n]);
            }
        }
    }
    lemma_rows_read_back(ids, slots, plan_id);
    let bad = |k: int| bad_stamp(locks[k]);
    assert forall|k: int| 0 <= k < locks.len() implies !#[trigger] bad(k) by {
        assert(!bad_stamp(locks[k]));
    }
    lemma_first_none(locks.len(), bad);
    assert(known.no_duplicates());
    let back = Seq::new(v.plan.graph.deliverables.len(), |i: int| stored_slot(plan_id, v.plan.graph.deliverables[i].id, statuses, locks));
    assert forall|i: int| 0 <= i < n implies back[i] == v.plan.slots[i] by {
        assert(slots[i] == stored_slot(plan_id, ids[i], statuses, locks));
        assert(ids[i] == known[i]);
    }
    assert(back =~= v.plan.slots);
    let first = Seq::new(statuses.len(), |k: int| statuses[k].deliverable_id);
    let second = Seq::new(locks.len(), |k: int| locks[k].deliverable_id);
    assert(first =~= ids);
    lemma_strays_listed(known, v.stray_ids);
    assert forall|k: int| 0 <= k < second.len() implies known.contains(#[trigger] second[k]) || unknown_names(known, ids).contains(second[k]) by {
        lemma_lock_rows_from(slots, slots.len(), k);
        let i = choose|i: int| 0 <= i < slots.len() && (#[trigger] slots[i]).lock is Some && locks[k] == lock_row(slots[i].lock->0);
        assert(second[k] == ids[i]);
        if i < n {
            assert(known[i] == ids[i]);
        } else {
            assert(v.stray_ids[i - n] == ids[i]);
        }
    }
    lemma_known_add_nothing(known, ids, second);
    assert(names_in(statuses, locks) =~= ids + second);
    let strays = Seq::new(v.stray_ids.len(), |k: int| stored_slot(plan_id, v.stray_ids[k], statuses, locks));
    assert forall|k: int| 0 <= k < v.stray_slots.len() implies strays[k] == v.stray_slots[k] by {
        assert(slots[n + k] == v.stray_slots[k]);
        assert(ids[n + k] == v.stray_ids[k]);
        assert(slots[n + k] == stored_slot(plan_id, ids[n + k], statuses, locks));
    }
    assert(strays =~= v.stray_slots);
}

/// What clears a stored status when a store is opened.
#[derive(Debug, Clone, Copy, PartialEq, Eq, Structural)]
pub enum Sweep {
    /// Nothing does.
    Keep,
    /// The lease lapsed.
    Lapsed,
    /// The work is in progress, and nobody holds a lease.
    Orphaned,
}

/// What clears a stored status, given whether it is in progress and when the
/// lease on it ends.
pub open spec fn sweep_of(in_progress: bool, expires_at_us: Option<i64>, now: i64) -> Sweep {
    match expires_at_us {
        Some(end) => if end < now {
            Sweep::Lapsed
        } else {
            Sweep::Keep
        },
        None => if in_progress {
            Sweep::Orphaned
        } else {
            Sweep::Keep
        },
    }
}

/// Decides what clears a stored status.
pub fn sweep_row(in_progress: bool, expires_at_us: Option<i64>, now: i64) -> (r: Sweep)
    ensures
        r == sweep_of(in_progress, expires_at_us, now),
{
    match expires_at_us {
        Some(end) => if end < now {
            Sweep::Lapsed
        } else {
            Sweep::Keep
        },
        None => if in_progress {
            Sweep::Orphaned
        } else {
            Sweep::Keep
        },
    }
}

/// Sweeping the rows of a slot, one by one, clears what a restart clears.
pub proof fn sweeping_rows_clears_slots(slots: Seq<SlotView>, i: int, now: i64)
    requires
        0 <= i < slots.len(),
    ensures
        ({
            let slot = slots[i];
            let end = match slot.lock {
                Some(l) => Some(l.expires_at),
                None => None,
            };
            crate::locks::quarantined(slots, now)[i] == (match sweep_of(slot.status is InProgress, end, now) {
                Sweep::Keep => slot,
                Sweep::Lapsed => SlotView {
                    status: crate::plan::StatusView::Ready,
                    lapses: crate::locks::bumped(slot.lapses),
                    lock: None,
                    ..slot
                },
                Sweep::Orphaned => SlotView { status: crate::plan::StatusView::Ready, ..slot },
            })
        }),
{
}

} // verus!
