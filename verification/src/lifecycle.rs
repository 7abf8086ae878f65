//! What happens to a lease after it was taken: marking, heartbeats, forced
//! release, and the snapshot of a plan.

use vstd::prelude::*;
use vstd::string::*;

use crate::audit::{
    force_released_record, make_force_released_event, make_released_event, released_record, AuditRecord, RecordView,
};
use crate::cohort::all_complete;
use crate::index::position;
use crate::locks::{bump, bumped, plan_ok, PlanState, PlanView, Slot, SlotView};
use crate::network::{holds, lists};
use crate::plan::{
    deliverable_ids, entry_view, find_deliverable, CallerId, DeliverableStatus, EntryView, ErrorView, GraphView, LockInfo,
    LockView, PlanId, PlanStatus, PlannerError, SnapshotView, StatusView,
};
use crate::text::{copy_texts, same_text};
use crate::validate::{deps_of, graph_deps};

verus! {

/// The caller may give a slot the status: nobody else holds a lease on it, and
/// only who holds one marks it in progress.
pub open spec fn may_mark(slot: SlotView, caller_id: Seq<char>, status: StatusView) -> bool {
    match slot.lock {
        Some(l) => l.caller_id == caller_id,
        None => !(status is InProgress),
    }
}

/// A slot after it was marked. What is no longer in progress is no longer
/// leased.
pub open spec fn marked_slot(slot: SlotView, status: StatusView) -> SlotView {
    SlotView {
        status,
        failures: if status is Failed { bumped(slot.failures) } else { slot.failures },
        lock: if status is InProgress { slot.lock } else { None },
        ..slot
    }
}

/// The slots after deliverable `done` became complete: whatever waited for it
/// and has nothing else to wait for is ready.
pub open spec fn advanced(graph: GraphView, slots: Seq<SlotView>, done: int) -> Seq<SlotView> {
    Seq::new(
        slots.len(),
        |i: int|
            if lists(graph_deps(graph)[i], done) && slots[i].status is Pending && all_complete(slots, graph_deps(graph)[i]) {
                SlotView { status: StatusView::Ready, ..slots[i] }
            } else {
                slots[i]
            },
    )
}

/// The slots after deliverable `i` was marked.
pub open spec fn marked(graph: GraphView, slots: Seq<SlotView>, i: int, status: StatusView) -> Seq<SlotView> {
    let set = slots.update(i, marked_slot(slots[i], status));
    if status is Complete {
        advanced(graph, set, i)
    } else {
        set
    }
}

/// What marking a deliverable changes, or the refusal, which changes nothing.
pub open spec fn mark_outcome(plan: PlanView, plan_id: Seq<char>, id: Seq<char>, caller_id: Seq<char>, status: StatusView) -> Result<PlanView, ErrorView> {
    let i = position(deliverable_ids(plan.graph), id);
    if i >= plan.slots.len() {
        Err(ErrorView::DeliverableNotFound { plan_id, deliverable_id: id })
    } else if !may_mark(plan.slots[i], caller_id, status) {
        Err(ErrorView::LockNotHeld { caller_id, deliverable_id: id })
    } else {
        Ok(PlanView { slots: marked(plan.graph, plan.slots, i, status), ..plan })
    }
}

/// Why a lease ends with a status.
pub open spec fn release_reason(status: StatusView) -> Seq<char> {
    if status is Complete {
        "completed"@
    } else if status is Failed {
        "failed"@
    } else {
        "returned"@
    }
}

/// What is recorded when a slot is marked.
pub open spec fn mark_records(slot: SlotView, status: StatusView) -> Seq<RecordView> {
    if !(status is InProgress) && slot.lock is Some {
        seq![released_record(slot.lock->0, release_reason(status))]
    } else {
        Seq::empty()
    }
}

/// A slot after a heartbeat, or the refusal.
pub open spec fn beat_slot(slot: SlotView, id: Seq<char>, caller_id: Seq<char>, now: i64, expires_at: i64) -> Result<SlotView, ErrorView> {
    if slot.lock is None || slot.lock->0.caller_id != caller_id {
        Err(ErrorView::LockNotHeld { caller_id, deliverable_id: id })
    } else if slot.lock->0.expires_at < now {
        Err(ErrorView::LockExpired { deliverable_id: id, expired_at: slot.lock->0.expires_at })
    } else {
        Ok(SlotView { lock: Some(LockView { expires_at, ..slot.lock->0 }), ..slot })
    }
}

/// What a heartbeat changes, or the refusal, which changes nothing.
pub open spec fn heartbeat_outcome(plan: PlanView, id: Seq<char>, caller_id: Seq<char>, now: i64, expires_at: i64) -> Result<PlanView, ErrorView> {
    let i = position(deliverable_ids(plan.graph), id);
    if i >= plan.slots.len() {
        Err(ErrorView::LockNotHeld { caller_id, deliverable_id: id })
    } else {
        match beat_slot(plan.slots[i], id, caller_id, now, expires_at) {
            Ok(slot) => Ok(PlanView { slots: plan.slots.update(i, slot), ..plan }),
            Err(e) => Err(e),
        }
    }
}

/// What a forced release changes, or the refusal, which changes nothing.
pub open spec fn release_outcome(plan: PlanView, plan_id: Seq<char>, id: Seq<char>) -> Result<PlanView, ErrorView> {
    let i = position(deliverable_ids(plan.graph), id);
    if i >= plan.slots.len() {
        Err(ErrorView::DeliverableNotFound { plan_id, deliverable_id: id })
    } else if plan.slots[i].lock is None {
        Ok(plan)
    } else {
        let slot = SlotView { status: StatusView::Ready, lock: None, ..plan.slots[i] };
        Ok(PlanView { slots: plan.slots.update(i, slot), ..plan })
    }
}

/// What is recorded when a slot is released by force.
pub open spec fn release_records(slot: SlotView, reason: Seq<char>) -> Seq<RecordView> {
    if slot.lock is Some {
        seq![force_released_record(slot.lock->0, reason)]
    } else {
        Seq::empty()
    }
}

/// The leases held in the first `n` slots, in order.
pub open spec fn held_locks(slots: Seq<SlotView>, n: nat) -> Seq<LockView>
    decreases n,
{
    if n == 0 {
        Seq::empty()
    } else {
        let rest = held_locks(slots, (n - 1) as nat);
        match slots[n - 1].lock {
            Some(l) => rest.push(l),
            None => rest,
        }
    }
}

/// The status entry of deliverable `i`.
pub open spec fn entry_of(plan: PlanView, i: int) -> EntryView {
    EntryView {
        id: plan.graph.deliverables[i].id,
        status: plan.slots[i].status,
        attempts: plan.slots[i].attempts,
        failures: plan.slots[i].failures,
        lapses: plan.slots[i].lapses,
    }
}

/// The snapshot of a plan.
pub open spec fn snapshot_of(plan: PlanView, plan_id: Seq<char>) -> SnapshotView {
    SnapshotView {
        plan_id,
        deliverables: Seq::new(plan.slots.len(), |i: int| entry_of(plan, i)),
        critical_path: plan.result.critical_path,
        critical_path_hours: plan.result.critical_path_duration,
        locks_held: held_locks(plan.slots, plan.slots.len()),
    }
}

/// The slot after a heartbeat.
pub(crate) fn extend_lease(slot: &Slot, deliverable_id: &str, caller_id: &CallerId, now: i64, expires_at: i64) -> (r: Result<Slot, PlannerError>)
    ensures
        match beat_slot(slot.deep_view(), deliverable_id@, caller_id.0@, now, expires_at) {
            Ok(after) => r matches Ok(x) && x.deep_view() == after,
            Err(e) => r matches Err(x) && x.deep_view() == e,
        },
{
    let refusal = PlannerError::LockNotHeld {
        caller_id: caller_id.0.clone(),
        deliverable_id: String::from_str(deliverable_id),
    };
    let mut lock = match &slot.lock {
        Some(lock) => lock.clone(),
        None => {
            return Err(refusal);
        },
    };
    if !same_text(lock.caller_id.as_str(), caller_id.as_str()) {
        return Err(refusal);
    }
    if lock.expires_at < now {
        return Err(
            PlannerError::LockExpired { deliverable_id: String::from_str(deliverable_id), expired_at: lock.expires_at },
        );
    }
    lock.expires_at = expires_at;
    let mut after = slot.clone();
    after.lock = Some(lock);
    Ok(after)
}

/// Lists the leases held in slots.
pub(crate) fn list_held(slots: &Vec<Slot>) -> (r: Vec<LockInfo>)
    ensures
        r.deep_view() == held_locks(slots.deep_view(), slots.deep_view().len()),
{
    let ghost view = slots.deep_view();
    let mut r: Vec<LockInfo> = Vec::new();
    for i in 0..slots.len()
        invariant
            view == slots.deep_view(),
            r.deep_view() == held_locks(view, i as nat),
    {
        assert(view[i as int] == slots[i as int].deep_view());
        let ghost listed = r.deep_view();
        if let Some(lock) = &slots[i].lock {
            r.push(lock.clone());
            assert(r.deep_view() =~= listed.push(lock.deep_view()));
        }
    }
    r
}

impl PlanState {
    /// Sets the status of a deliverable for the caller. Any status but in
    /// progress ends the lease; completing a deliverable makes ready what
    /// waited for it. Returns what to record.
    pub fn mark_status(&mut self, plan_id: &PlanId, deliverable_id: &str, caller_id: &CallerId, status: DeliverableStatus) -> (r: Result<Vec<AuditRecord>, PlannerError>)
        requires
            plan_ok(old(self).deep_view()),
        ensures
            plan_ok(final(self).deep_view()),
            match mark_outcome(old(self).deep_view(), plan_id.0@, deliverable_id@, caller_id.0@, status.deep_view()) {
                Ok(after) => {
                    let i = position(deliverable_ids(old(self).deep_view().graph), deliverable_id@);
                    &&& final(self).deep_view() == after
                    &&& r matches Ok(records)
                    &&& records.deep_view() == mark_records(old(self).deep_view().slots[i], status.deep_view())
                },
                Err(e) => {
                    &&& r matches Err(x)
                    &&& x.deep_view() == e
                    &&& final(self).deep_view() == old(self).deep_view()
                },
            },
    {
        let ghost plan = self.deep_view();
        let ghost gv = plan.graph;
        let ghost sv = status.deep_view();
        let i: usize = find_deliverable(&self.graph, deliverable_id);
        assert(plan.slots.len() == self.slots.len());
        if i >= self.slots.len() {
            return Err(
                PlannerError::DeliverableNotFound {
                    plan_id: plan_id.0.clone(),
                    deliverable_id: String::from_str(deliverable_id),
                },
            );
        }
        assert(plan.slots[i as int] == self.slots[i as int].deep_view());
        let mut records: Vec<AuditRecord> = Vec::new();
        assert(records.deep_view() =~= Seq::<RecordView>::empty());
        let ends = !status.is_in_progress();
        if let Some(lock) = &self.slots[i].lock {
            if !same_text(lock.caller_id.as_str(), caller_id.as_str()) {
                return Err(
                    PlannerError::LockNotHeld {
                        caller_id: caller_id.0.clone(),
                        deliverable_id: String::from_str(deliverable_id),
                    },
                );
            }
            if ends {
                let reason = if status.is_complete() {
                    "completed"
                } else if status.is_failed() {
                    "failed"
                } else {
                    "returned"
                };
                let record = make_released_event(lock, reason);
                records.push(record);
                assert(records.deep_view() =~= seq![record.deep_view()]);
            }
        } else if !ends {
            return Err(
                PlannerError::LockNotHeld {
                    caller_id: caller_id.0.clone(),
                    deliverable_id: String::from_str(deliverable_id),
                },
            );
        }
        let deps = deps_of(&self.graph);
        let finished = status.is_complete();
        let failures: u32 = if status.is_failed() { bump(self.slots[i].failures) } else { self.slots[i].failures };
        let ghost before = self.slots@;
        {
            let slot = &mut self.slots[i];
            slot.failures = failures;
            slot.status = status;
            if ends {
                slot.lock = None;
            }
        }
        let ghost set = self.slots.deep_view();
        assert(set =~= plan.slots.update(i as int, marked_slot(plan.slots[i as int], sv)));
        if finished {
            self.advance(&deps, i);
        }
        Ok(records)
    }

    /// Makes ready what waited for deliverable `done` and has nothing else to
    /// wait for.
    fn advance(&mut self, deps: &Vec<Vec<usize>>, done: usize)
        requires
            deps.deep_view() == graph_deps(old(self).deep_view().graph),
            deps.len() == old(self).slots.len(),
        ensures
            final(self).deep_view() == (PlanView {
                slots: advanced(old(self).deep_view().graph, old(self).deep_view().slots, done as int),
                ..old(self).deep_view()
            }),
    {
        let ghost before = self.slots.deep_view();
        let ghost gv = self.graph.deep_view();
        let n: usize = self.slots.len();
        let mut kept: Vec<Slot> = Vec::new();
        for i in 0..n
            invariant
                n == self.slots.len(),
                n == deps.len(),
                *self == *old(self),
                gv == self.graph.deep_view(),
                before == self.slots.deep_view(),
                deps.deep_view() == graph_deps(gv),
                kept.len() == i,
                forall|k: int| 0 <= k < i ==> (#[trigger] kept[k]).deep_view() == advanced(gv, before, done as int)[k],
        {
            assert(deps[i as int].deep_view() =~= deps[i as int]@);
            assert(graph_deps(gv)[i as int] == deps[i as int]@);
            assert(before[i as int] == self.slots[i as int].deep_view());
            let mut slot = self.slots[i].clone();
            if slot.status.is_pending() && holds(&deps[i], done) && self.prerequisites_complete(&deps[i]) {
                slot.status = DeliverableStatus::Ready;
            }
            kept.push(slot);
        }
        self.slots = kept;
        assert(self.slots.deep_view() =~= advanced(gv, before, done as int));
    }

    /// Whether every listed deliverable is complete.
    fn prerequisites_complete(&self, list: &Vec<usize>) -> (r: bool)
        ensures
            r == all_complete(self.deep_view().slots, list@),
    {
        let ghost view = self.slots.deep_view();
        for j in 0..list.len()
            invariant
                view == self.slots.deep_view(),
                forall|k: int| 0 <= k < j ==> (#[trigger] list@[k]) < view.len() && view[list@[k] as int].status is Complete,
        {
            let d: usize = list[j];
            if d >= self.slots.len() || !self.slots[d].status.is_complete() {
                assert(!(list@[j as int] < view.len() && view[list@[j as int] as int].status is Complete));
                return false;
            }
            assert(view[d as int] == self.slots[d as int].deep_view());
        }
        true
    }

    /// Extends the caller's lease on a deliverable until `expires_at`.
    pub fn heartbeat(&mut self, deliverable_id: &str, caller_id: &CallerId, now: i64, expires_at: i64) -> (r: Result<(), PlannerError>)
        requires
            plan_ok(old(self).deep_view()),
        ensures
            plan_ok(final(self).deep_view()),
            match heartbeat_outcome(old(self).deep_view(), deliverable_id@, caller_id.0@, now, expires_at) {
                Ok(after) => r is Ok && final(self).deep_view() == after,
                Err(e) => {
                    &&& r matches Err(x)
                    &&& x.deep_view() == e
                    &&& final(self).deep_view() == old(self).deep_view()
                },
            },
    {
        let ghost plan = self.deep_view();
        let i: usize = find_deliverable(&self.graph, deliverable_id);
        assert(plan.slots.len() == self.slots.len());
        if i >= self.slots.len() {
            return Err(
                PlannerError::LockNotHeld {
                    caller_id: caller_id.0.clone(),
                    deliverable_id: String::from_str(deliverable_id),
                },
            );
        }
        assert(plan.slots[i as int] == self.slots[i as int].deep_view());
        match extend_lease(&self.slots[i], deliverable_id, caller_id, now, expires_at) {
            Ok(slot) => {
                let ghost held = slot.deep_view();
                self.slots.set(i, slot);
                assert(self.slots.deep_view() =~= plan.slots.update(i as int, held));
                Ok(())
            },
            Err(e) => Err(e),
        }
    }

    /// Ends the lease on a deliverable whoever holds it. Returns what to
    /// record.
    pub fn force_release(&mut self, plan_id: &PlanId, deliverable_id: &str, reason: &str) -> (r: Result<Vec<AuditRecord>, PlannerError>)
        requires
            plan_ok(old(self).deep_view()),
        ensures
            plan_ok(final(self).deep_view()),
            match release_outcome(old(self).deep_view(), plan_id.0@, deliverable_id@) {
                Ok(after) => {
                    let i = position(deliverable_ids(old(self).deep_view().graph), deliverable_id@);
                    &&& final(self).deep_view() == after
                    &&& r matches Ok(records)
                    &&& records.deep_view() == release_records(old(self).deep_view().slots[i], reason@)
                },
                Err(e) => {
                    &&& r matches Err(x)
                    &&& x.deep_view() == e
                    &&& final(self).deep_view() == old(self).deep_view()
                },
            },
    {
        let ghost plan = self.deep_view();
        let i: usize = find_deliverable(&self.graph, deliverable_id);
        assert(plan.slots.len() == self.slots.len());
        if i >= self.slots.len() {
            return Err(
                PlannerError::DeliverableNotFound {
                    plan_id: plan_id.0.clone(),
                    deliverable_id: String::from_str(deliverable_id),
                },
            );
        }
        assert(plan.slots[i as int] == self.slots[i as int].deep_view());
        let mut records: Vec<AuditRecord> = Vec::new();
        assert(records.deep_view() =~= Seq::<RecordView>::empty());
        let held = match &self.slots[i].lock {
            Some(lock) => {
                let record = make_force_released_event(lock, reason);
                records.push(record);
                assert(records.deep_view() =~= seq![record.deep_view()]);
                true
            },
            None => false,
        };
        if held {
            let slot = &mut self.slots[i];
            slot.status = DeliverableStatus::Ready;
            slot.lock = None;
        }
        proof {
            if held {
                assert(self.slots.deep_view() =~= plan.slots.update(
                    i as int,
                    SlotView { status: StatusView::Ready, lock: None, ..plan.slots[i as int] },
                ));
            }
        }
        Ok(records)
    }

    /// A snapshot of the plan.
    pub fn status(&self, plan_id: &PlanId) -> (r: PlanStatus)
        requires
            plan_ok(self.deep_view()),
        ensures
            r.deep_view() == snapshot_of(self.deep_view(), plan_id.0@),
    {
        let ghost plan = self.deep_view();
        let n: usize = self.slots.len();
        assert(plan.slots.len() == n);
        assert(plan.graph.deliverables.len() == self.graph.deliverables.len());
        let mut deliverables: Vec<(String, DeliverableStatus, u32, u32, u32)> = Vec::new();
        let mut locks: Vec<LockInfo> = Vec::new();
        for i in 0..n
            invariant
                n == self.slots.len(),
                n == self.graph.deliverables.len(),
                plan == self.deep_view(),
                deliverables.len() == i,
                forall|k: int| 0 <= k < i ==> entry_view(#[trigger] deliverables@[k]) == entry_of(plan, k),
                locks.deep_view() == held_locks(plan.slots, i as nat),
        {
            let slot = &self.slots[i];
            assert(plan.slots[i as int] == slot.deep_view());
            assert(plan.graph.deliverables[i as int] == self.graph.deliverables[i as int].deep_view());
            deliverables.push(
                (self.graph.deliverables[i].id.clone(), slot.status.clone(), slot.attempts, slot.failures, slot.lapses),
            );
            let ghost listed = locks.deep_view();
            if let Some(lock) = &slot.lock {
                locks.push(lock.clone());
                assert(locks.deep_view() =~= listed.push(lock.deep_view()));
            }
        }
        let r = PlanStatus {
            plan_id: plan_id.clone(),
            deliverables,
            critical_path: copy_texts(&self.cached_result.critical_path),
            critical_path_hours: self.cached_result.critical_path_duration,
            locks_held: locks,
        };
        assert(r.deep_view().deliverables =~= snapshot_of(plan, plan_id.0@).deliverables);
        r
    }
}

} // verus!
