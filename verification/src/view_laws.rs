//! Values and their mathematical form agree field by field.

use vstd::prelude::*;

use crate::drag::DragResult;
use crate::locks::{PlanState, Slot};
use crate::plan::{Cohort, CohortRow, Deliverable, DeliverableStatus, LockInfo, PlanGraph, PlanStatus, StatusView};
use crate::plan_store::{LockRow, StatusRow};
use crate::task::{Bottleneck, CriticalPathResult, Task, TaskBatch};

verus! {

/// Two lists of texts hold the same.
pub open spec fn same_texts(a: Seq<Seq<char>>, b: Seq<String>) -> bool {
    a.len() == b.len() && forall|k: int| 0 <= k < b.len() ==> #[trigger] a[k] == b[k]@
}

/// Tasks, and what is computed of them.
pub proof fn tasks_show_their_fields(t: Task, b: Bottleneck, batch: TaskBatch, d: DragResult)
    ensures
        t.deep_view().id == t.id@,
        t.deep_view().name == t.name@,
        t.deep_view().effort == t.effort_hours,
        same_texts(t.deep_view().dependencies, t.dependencies@),
        same_texts(t.deep_view().affected_files, t.affected_files@),
        t.deep_view().status == t.status,
        t.deep_view().earliest_start == t.earliest_start,
        t.deep_view().earliest_finish == t.earliest_finish,
        t.deep_view().latest_start == t.latest_start,
        t.deep_view().latest_finish == t.latest_finish,
        t.deep_view().float == t.float,
        t.deep_view().is_critical == t.is_critical,
        b.deep_view().task_id == b.task_id@,
        b.deep_view().task_name == b.task_name@,
        b.deep_view().blocks_count == b.blocks_count,
        b.deep_view().blocked_effort == b.blocked_hours,
        b.deep_view().roi == b.roi,
        b.deep_view().effort == b.effort_hours,
        batch.deep_view().id == batch.id@,
        same_texts(batch.deep_view().tasks, batch.tasks@),
        batch.deep_view().total_effort == batch.total_effort_hours,
        batch.deep_view().duration == batch.duration_hours,
        batch.deep_view().start_time == batch.start_time,
        d.deep_view().task_id == d.task_id@,
        d.deep_view().drag == d.drag,
{
}

/// An analysis.
pub proof fn analyses_show_their_fields(r: CriticalPathResult)
    ensures
        r.deep_view().total_tasks == r.total_tasks,
        same_texts(r.deep_view().critical_path, r.critical_path@),
        r.deep_view().critical_path_duration == r.critical_path_duration,
        r.deep_view().sequential == r.total_duration_sequential,
        r.deep_view().parallel == r.optimal_duration_parallel,
        r.deep_view().speedup == r.speedup_factor,
        r.deep_view().batches.len() == r.parallelizable_batches@.len(),
        forall|k: int| 0 <= k < r.parallelizable_batches@.len() ==> #[trigger] r.deep_view().batches[k] == r.parallelizable_batches@[k].deep_view(),
        r.deep_view().bottlenecks.len() == r.bottlenecks@.len(),
        forall|k: int| 0 <= k < r.bottlenecks@.len() ==> #[trigger] r.deep_view().bottlenecks[k] == r.bottlenecks@[k].deep_view(),
        r.deep_view().tasks.len() == r.tasks@.len(),
        forall|k: int| 0 <= k < r.tasks@.len() ==> #[trigger] r.deep_view().tasks[k] == r.tasks@[k].deep_view(),
        same_texts(r.deep_view().unscheduled, r.unscheduled@),
{
}

/// A graph and its deliverables.
pub proof fn graphs_show_their_fields(g: PlanGraph, d: Deliverable)
    ensures
        g.deep_view().deliverables.len() == g.deliverables@.len(),
        forall|k: int| 0 <= k < g.deliverables@.len() ==> #[trigger] g.deep_view().deliverables[k] == g.deliverables@[k].deep_view(),
        g.deep_view().max_chained_dispatch == g.max_chained_dispatch,
        d.deep_view().id == d.id@,
        same_texts(d.deep_view().owned_files, d.owned_files@),
        same_texts(d.deep_view().prerequisites, d.prerequisites@),
        d.deep_view().effort == d.estimated_effort_hours,
        d.deep_view().metadata == d.metadata@,
{
}

/// A status is its own form.
pub open spec fn same_status(v: StatusView, s: DeliverableStatus) -> bool {
    match s {
        DeliverableStatus::Pending => v is Pending,
        DeliverableStatus::Ready => v is Ready,
        DeliverableStatus::InProgress => v is InProgress,
        DeliverableStatus::Complete => v is Complete,
        DeliverableStatus::Failed { reason } => v == (StatusView::Failed { reason: reason@ }),
    }
}

/// Leases, slots and the rows that store them.
pub proof fn leases_show_their_fields(l: LockInfo, slot: Slot, row: CohortRow, status: StatusRow, lock: LockRow)
    ensures
        l.deep_view().plan_id == l.plan_id.0@,
        l.deep_view().deliverable_id == l.deliverable_id@,
        l.deep_view().caller_id == l.caller_id.0@,
        l.deep_view().acquired_at == l.acquired_at,
        l.deep_view().expires_at == l.expires_at,
        same_status(slot.deep_view().status, slot.status),
        slot.deep_view().attempts == slot.attempts,
        slot.deep_view().failures == slot.failures,
        slot.deep_view().lapses == slot.lapses,
        slot.lock is None ==> slot.deep_view().lock is None,
        slot.lock matches Some(x) ==> slot.deep_view().lock == Some(x.deep_view()),
        row.deep_view().deliverable == row.deliverable.deep_view(),
        row.deep_view().lock == row.lock.deep_view(),
        status.deep_view().deliverable_id == status.deliverable_id@,
        same_status(status.deep_view().status, status.status),
        status.deep_view().attempts == status.attempt_count,
        status.deep_view().failures == status.failure_count,
        status.deep_view().lapses == status.lapse_count,
        lock.deep_view().deliverable_id == lock.deliverable_id@,
        lock.deep_view().caller_id == lock.caller_id@,
        lock.deep_view().acquired_at_us == lock.acquired_at_us,
        lock.deep_view().expires_at_us == lock.expires_at_us,
{
}

/// A plan, what is leased of it, and its snapshot.
pub proof fn plans_show_their_fields(p: PlanState, c: Cohort, s: PlanStatus)
    ensures
        p.deep_view().graph == p.graph.deep_view(),
        p.deep_view().result == p.cached_result.deep_view(),
        p.deep_view().slots.len() == p.slots@.len(),
        forall|k: int| 0 <= k < p.slots@.len() ==> #[trigger] p.deep_view().slots[k] == p.slots@[k].deep_view(),
        c.deep_view().plan_id == c.plan_id.0@,
        c.deep_view().rows.len() == c.rows@.len(),
        forall|k: int| 0 <= k < c.rows@.len() ==> #[trigger] c.deep_view().rows[k] == c.rows@[k].deep_view(),
        s.deep_view().plan_id == s.plan_id.0@,
        s.deep_view().deliverables.len() == s.deliverables@.len(),
        forall|k: int| 0 <= k < s.deliverables@.len() ==> {
            &&& (#[trigger] s.deep_view().deliverables[k]).id == s.deliverables@[k].0@
            &&& same_status(s.deep_view().deliverables[k].status, s.deliverables@[k].1)
            &&& s.deep_view().deliverables[k].attempts == s.deliverables@[k].2
            &&& s.deep_view().deliverables[k].failures == s.deliverables@[k].3
            &&& s.deep_view().deliverables[k].lapses == s.deliverables@[k].4
        },
        same_texts(s.deep_view().critical_path, s.critical_path@),
        s.deep_view().critical_path_hours == s.critical_path_hours,
        s.deep_view().locks_held.len() == s.locks_held@.len(),
        forall|k: int| 0 <= k < s.locks_held@.len() ==> #[trigger] s.deep_view().locks_held[k] == s.locks_held@[k].deep_view(),
{
}

} // verus!
