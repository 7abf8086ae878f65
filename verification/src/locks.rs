//! The state of one plan: graph, status and lease of every deliverable, and
//! the cached analysis.

use vstd::prelude::*;
use vstd::string::*;

use crate::algorithm::task_ids;
use crate::audit::{expired_record, make_expired_event, AuditRecord, RecordView};
use crate::plan::{deliverable_ids, DeliverableStatus, GraphView, LockInfo, LockView, PlanGraph, StatusView};
use crate::task::{CriticalPathResult, ResultView};

verus! {

/// How often a deliverable may be marked failed before it is given up.
pub const MAX_ATTEMPTS: u32 = 3;

/// How often leases on a deliverable may lapse before it is no longer leased.
pub const MAX_LAPSES: u32 = 10;

/// What is known about one deliverable.
#[derive(Debug)]
pub struct Slot {
    /// Its status.
    pub status: DeliverableStatus,
    /// How often it was leased.
    pub attempts: u32,
    /// How often it was marked failed.
    pub failures: u32,
    /// How often a lease on it lapsed.
    pub lapses: u32,
    /// The lease on it, if there is one.
    pub lock: Option<LockInfo>,
}

/// Mathematical form of [`Slot`].
#[verifier::ext_equal]
pub struct SlotView {
    /// Its status.
    pub status: StatusView,
    /// How often it was leased.
    pub attempts: u32,
    /// How often it was marked failed.
    pub failures: u32,
    /// How often a lease on it lapsed.
    pub lapses: u32,
    /// The lease on it.
    pub lock: Option<LockView>,
}

impl DeepView for Slot {
    type V = SlotView;

    open spec fn deep_view(&self) -> SlotView {
        SlotView {
            status: self.status.deep_view(),
            attempts: self.attempts,
            failures: self.failures,
            lapses: self.lapses,
            lock: self.lock.deep_view(),
        }
    }
}

/// A copy of an optional lock.
pub fn copy_lock(lock: &Option<LockInfo>) -> (r: Option<LockInfo>)
    ensures
        r.deep_view() == lock.deep_view(),
{
    match lock {
        Some(l) => Some(l.clone()),
        None => None,
    }
}

impl Clone for Slot {
    fn clone(&self) -> (r: Self)
        ensures
            r.deep_view() == self.deep_view(),
    {
        Slot {
            status: self.status.clone(),
            attempts: self.attempts,
            failures: self.failures,
            lapses: self.lapses,
            lock: copy_lock(&self.lock),
        }
    }
}

/// The state of one plan.
#[derive(Debug)]
pub struct PlanState {
    /// The graph as submitted.
    pub graph: PlanGraph,
    /// One slot per deliverable, in the same order.
    pub slots: Vec<Slot>,
    /// The analysis made when the plan was submitted.
    pub cached_result: CriticalPathResult,
}

/// Mathematical form of [`PlanState`].
#[verifier::ext_equal]
pub struct PlanView {
    /// The graph as submitted.
    pub graph: GraphView,
    /// One slot per deliverable.
    pub slots: Seq<SlotView>,
    /// The cached analysis.
    pub result: ResultView,
}

impl DeepView for PlanState {
    type V = PlanView;

    open spec fn deep_view(&self) -> PlanView {
        PlanView {
            graph: self.graph.deep_view(),
            slots: self.slots.deep_view(),
            result: self.cached_result.deep_view(),
        }
    }
}

/// An analysis covers a graph: every deliverable has a task, and ids are not
/// ambiguous. Only then are deliverables ranked.
pub open spec fn covers(result: ResultView, graph: GraphView) -> bool {
    &&& task_ids(result.tasks).no_duplicates()
    &&& result.critical_path.no_duplicates()
    &&& forall|i: int| 0 <= i < graph.deliverables.len() ==> task_ids(result.tasks).contains(#[trigger] deliverable_ids(graph)[i])
}

/// A lock belongs to the deliverable in whose slot it is.
pub open spec fn locks_match(graph: GraphView, slots: Seq<SlotView>) -> bool {
    forall|i: int| 0 <= i < slots.len() ==> ((#[trigger] slots[i]).lock matches Some(l) ==> l.deliverable_id == graph.deliverables[i].id)
}

/// The state is consistent.
pub open spec fn plan_ok(plan: PlanView) -> bool {
    &&& plan.slots.len() == plan.graph.deliverables.len()
    &&& deliverable_ids(plan.graph).no_duplicates()
    &&& locks_match(plan.graph, plan.slots)
}

/// A counter that stops at its largest value.
pub open spec fn bumped(count: u32) -> u32 {
    if count == u32::MAX {
        count
    } else {
        (count + 1) as u32
    }
}

/// Counts one more.
pub fn bump(count: u32) -> (r: u32)
    ensures
        r == bumped(count),
{
    if count == u32::MAX {
        count
    } else {
        count + 1
    }
}

/// The lease in the slot has lapsed.
pub open spec fn lapsed(slot: SlotView, now: i64) -> bool {
    slot.lock matches Some(l) && l.expires_at < now
}

/// A slot after lapsed leases were cleared: the deliverable may be leased
/// again, and one more lapse is counted.
pub open spec fn reaped_slot(slot: SlotView, now: i64) -> SlotView {
    if lapsed(slot, now) {
        SlotView { status: StatusView::Ready, lapses: bumped(slot.lapses), lock: None, ..slot }
    } else {
        slot
    }
}

/// All slots after lapsed leases were cleared.
pub open spec fn reaped(slots: Seq<SlotView>, now: i64) -> Seq<SlotView> {
    Seq::new(slots.len(), |i: int| reaped_slot(slots[i], now))
}

/// The lapsed leases among the first `n` slots, in order.
pub open spec fn lapsed_locks(slots: Seq<SlotView>, now: i64, n: nat) -> Seq<LockView>
    decreases n,
{
    if n == 0 {
        Seq::empty()
    } else {
        let rest = lapsed_locks(slots, now, (n - 1) as nat);
        if lapsed(slots[n - 1], now) {
            rest.push(slots[n - 1].lock->0)
        } else {
            rest
        }
    }
}

/// Clears the lapsed leases from a copy of the slots, and lists them.
pub fn reap_slots(slots: &Vec<Slot>, now: i64) -> (r: (Vec<Slot>, Vec<LockInfo>))
    ensures
        r.0.deep_view() == reaped(slots.deep_view(), now),
        r.1.deep_view() == lapsed_locks(slots.deep_view(), now, slots.deep_view().len()),
{
    let ghost before = slots.deep_view();
    let mut kept: Vec<Slot> = Vec::new();
    let mut gone: Vec<LockInfo> = Vec::new();
    for i in 0..slots.len()
        invariant
            before == slots.deep_view(),
            kept.len() == i,
            forall|k: int| 0 <= k < i ==> (#[trigger] kept[k]).deep_view() == reaped_slot(before[k], now),
            gone.deep_view() == lapsed_locks(before, now, i as nat),
    {
        let mut slot = slots[i].clone();
        let ghost listed = gone.deep_view();
        assert(before[i as int] == slots[i as int].deep_view());
        if let Some(lock) = &slots[i].lock {
            if lock.expires_at < now {
                gone.push(lock.clone());
                assert(gone.deep_view() =~= listed.push(lock.deep_view()));
                slot.status = DeliverableStatus::Ready;
                slot.lapses = bump(slot.lapses);
                slot.lock = None;
            }
        }
        kept.push(slot);
    }
    assert(kept.deep_view() =~= reaped(before, now));
    (kept, gone)
}

/// A slot that is in progress without a lease goes back to the pool.
pub open spec fn adopted_slot(slot: SlotView) -> SlotView {
    if slot.status is InProgress && slot.lock is None {
        SlotView { status: StatusView::Ready, ..slot }
    } else {
        slot
    }
}

/// All slots after a restart: lapsed leases are cleared, and work that nobody
/// holds goes back to the pool.
pub open spec fn quarantined(slots: Seq<SlotView>, now: i64) -> Seq<SlotView> {
    Seq::new(slots.len(), |i: int| adopted_slot(reaped_slot(slots[i], now)))
}

impl PlanState {
    /// Puts a state together.
    pub fn new(graph: PlanGraph, slots: Vec<Slot>, cached_result: CriticalPathResult) -> (r: Self)
        ensures
            r.deep_view() == (PlanView {
                graph: graph.deep_view(),
                slots: slots.deep_view(),
                result: cached_result.deep_view(),
            }),
    {
        PlanState { graph, slots, cached_result }
    }

    /// How often a deliverable was leased; zero when it is not in the plan.
    pub fn attempt_count(&self, deliverable_id: &str) -> (r: u32)
        requires
            plan_ok(self.deep_view()),
        ensures
            r == (match slot_of(self.deep_view(), deliverable_id@) {
                Some(s) => s.attempts,
                None => 0u32,
            }),
    {
        let i: usize = crate::plan::find_deliverable(&self.graph, deliverable_id);
        if i < self.slots.len() {
            assert(self.deep_view().slots[i as int] == self.slots[i as int].deep_view());
            self.slots[i].attempts
        } else {
            0
        }
    }

    /// How often a deliverable was marked failed; zero when it is not in the
    /// plan.
    pub fn failure_count(&self, deliverable_id: &str) -> (r: u32)
        requires
            plan_ok(self.deep_view()),
        ensures
            r == (match slot_of(self.deep_view(), deliverable_id@) {
                Some(s) => s.failures,
                None => 0u32,
            }),
    {
        let i: usize = crate::plan::find_deliverable(&self.graph, deliverable_id);
        if i < self.slots.len() {
            assert(self.deep_view().slots[i as int] == self.slots[i as int].deep_view());
            self.slots[i].failures
        } else {
            0
        }
    }

    /// How often a lease on a deliverable lapsed; zero when it is not in the
    /// plan.
    pub fn lapse_count(&self, deliverable_id: &str) -> (r: u32)
        requires
            plan_ok(self.deep_view()),
        ensures
            r == (match slot_of(self.deep_view(), deliverable_id@) {
                Some(s) => s.lapses,
                None => 0u32,
            }),
    {
        let i: usize = crate::plan::find_deliverable(&self.graph, deliverable_id);
        if i < self.slots.len() {
            assert(self.deep_view().slots[i as int] == self.slots[i as int].deep_view());
            self.slots[i].lapses
        } else {
            0
        }
    }

    /// Drops every lease that lapsed before `now` and lists them.
    pub fn reap_expired(&mut self, now: i64) -> (r: Vec<LockInfo>)
        requires
            plan_ok(old(self).deep_view()),
        ensures
            final(self).deep_view() == (PlanView {
                slots: reaped(old(self).deep_view().slots, now),
                ..old(self).deep_view()
            }),
            plan_ok(final(self).deep_view()),
            r.deep_view() == lapsed_locks(old(self).deep_view().slots, now, old(self).deep_view().slots.len()),
    {
        let (kept, gone) = reap_slots(&self.slots, now);
        self.slots = kept;
        gone
    }

    /// Clears what a crash left behind: lapsed leases, and work in progress
    /// that nobody holds. Returns the number of leases cleared.
    pub fn quarantine_expired(&mut self, now: i64) -> (r: usize)
        requires
            plan_ok(old(self).deep_view()),
        ensures
            final(self).deep_view() == (PlanView {
                slots: quarantined(old(self).deep_view().slots, now),
                ..old(self).deep_view()
            }),
            plan_ok(final(self).deep_view()),
            r == lapsed_locks(old(self).deep_view().slots, now, old(self).deep_view().slots.len()).len(),
    {
        let ghost before = self.slots.deep_view();
        let (mut kept, gone) = reap_slots(&self.slots, now);
        assert(gone.deep_view().len() == gone.len());
        let ghost middle = kept.deep_view();
        assert(kept.len() == middle.len());
        let n: usize = kept.len();
        for i in 0..n
            invariant
                n == before.len(),
                kept.len() == n,
                middle == reaped(before, now),
                forall|k: int| 0 <= k < i ==> (#[trigger] kept[k]).deep_view() == adopted_slot(middle[k]),
                forall|k: int| i <= k < kept.len() ==> (#[trigger] kept[k]).deep_view() == middle[k],
        {
            if kept[i].status.is_in_progress() && kept[i].lock.is_none() {
                let slot = &mut kept[i];
                slot.status = DeliverableStatus::Ready;
            }
        }
        self.slots = kept;
        assert(self.slots.deep_view() =~= quarantined(before, now));
        gone.len()
    }
}

/// The slot of a deliverable.
pub open spec fn slot_of(plan: PlanView, id: Seq<char>) -> Option<SlotView> {
    let i = crate::index::position(deliverable_ids(plan.graph), id);
    if i < plan.slots.len() {
        Some(plan.slots[i])
    } else {
        None
    }
}

/// The records of lapsed leases.
pub open spec fn expired_records(locks: Seq<LockView>, now: i64) -> Seq<RecordView> {
    Seq::new(locks.len(), |k: int| expired_record(locks[k], now))
}

/// Records the lapsed leases.
pub fn record_expired(locks: &Vec<LockInfo>, now: i64) -> (r: Vec<AuditRecord>)
    ensures
        r.deep_view() == expired_records(locks.deep_view(), now),
{
    let mut r: Vec<AuditRecord> = Vec::new();
    for i in 0..locks.len()
        invariant
            r.len() == i,
            forall|k: int| 0 <= k < i ==> (#[trigger] r[k]).deep_view() == expired_record(locks[k].deep_view(), now),
    {
        r.push(make_expired_event(&locks[i], now));
    }
    assert(r.deep_view() =~= expired_records(locks.deep_view(), now));
    r
}

} // verus!
