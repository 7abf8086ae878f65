//! The planner interface.

use vstd::prelude::*;

use crate::cohort::all_complete;
use crate::lifecycle::snapshot_of;
use crate::locks::{lapsed, PlanView};
use crate::paths::file_keys;
use crate::plan::{
    CallerId, Cohort, CohortView, DeliverableStatus, GraphView, PlanGraph, PlanId, PlanStatus, PlannerError, RowView,
};
use crate::planner::{
    answers, no_such_plan, planner_acquire, planner_heartbeat, planner_mark, planner_release, submit_outcome, PlannerView,
};
use crate::validate::graph_deps;

verus! {

/// A row of a cohort is a deliverable of the plan, leased to the caller, with
/// all its prerequisites complete.
pub open spec fn sound_row(plan: PlanView, row: RowView, caller_id: Seq<char>) -> bool {
    exists|i: int| {
        &&& 0 <= i < plan.slots.len()
        &&& row.deliverable == #[trigger] plan.graph.deliverables[i]
        &&& plan.slots[i].lock == Some(row.lock)
        &&& row.lock.deliverable_id == row.deliverable.id
        &&& row.lock.caller_id == caller_id
        &&& all_complete(plan.slots, graph_deps(plan.graph)[i])
    }
}

/// Two lists of files have none in common.
pub open spec fn no_common_file(a: Seq<Seq<char>>, b: Seq<Seq<char>>) -> bool {
    forall|f: Seq<char>| !(a.contains(f) && #[trigger] b.contains(f))
}

/// What a cohort promises: not more than asked for, every row sound, files
/// disjoint within the cohort and from every lease that was held.
pub open spec fn sound_cohort(before: PlanView, after: PlanView, cohort: CohortView, caller_id: Seq<char>, max: nat, now: i64) -> bool {
    &&& cohort.rows.len() <= max
    &&& after.graph == before.graph
    &&& forall|k: int| 0 <= k < cohort.rows.len() ==> sound_row(after, #[trigger] cohort.rows[k], caller_id)
    &&& forall|a: int, b: int| 0 <= a < b < cohort.rows.len() ==> no_common_file(
        file_keys((#[trigger] cohort.rows[a]).deliverable),
        file_keys((#[trigger] cohort.rows[b]).deliverable),
    )
    &&& forall|k: int, m: int| 0 <= k < cohort.rows.len() && 0 <= m < before.slots.len() && #[trigger] before.slots[m].lock is Some && !lapsed(before.slots[m], now) ==> no_common_file(
        file_keys(before.graph.deliverables[m]),
        file_keys((#[trigger] cohort.rows[k]).deliverable),
    )
}

/// A graph was submitted under the id: `after` and `r` are what it made of the
/// planner `before`.
pub open spec fn submitted_as(before: PlannerView, graph: GraphView, id: Seq<char>, after: PlannerView, r: Result<PlanId, PlannerError>) -> bool {
    &&& after == submit_outcome(before, graph, id).0
    &&& match submit_outcome(before, graph, id).1 {
        Ok(known) => r matches Ok(x) && x.0@ == known,
        Err(e) => r matches Err(x) && x.deep_view() == e,
    }
}

/// Lock-aware planner.
///
/// - [`Planner::submit_plan`] is idempotent: a graph that was submitted before
///   gives the plan it gave then.
/// - [`Planner::acquire_cohort`] leases up to `max_count` deliverables whose
///   prerequisites are complete and whose files are disjoint, among each other
///   and from everything leased. It leases all of them or none.
/// - [`Planner::mark_status`] with any status but in progress ends the lease.
///   Only the holder of a lease may mark what it covers.
/// - [`Planner::heartbeat`] extends a lease.
/// - [`Planner::status`] is a snapshot.
/// - [`Planner::force_release`] ends a lease whoever holds it, and records the
///   reason.
///
/// Every operation that refuses leaves the planner as it was. The current
/// time is passed in.
pub trait Planner {
    /// The planner is in order.
    spec fn sound(&self) -> bool;

    /// The plans, what was submitted, the time to live of leases, and the
    /// records not yet taken.
    spec fn state(&self) -> PlannerView;

    /// Submits a graph, to be known under some id unless it is known already.
    fn submit_plan(&mut self, graph: PlanGraph) -> (r: Result<PlanId, PlannerError>)
        requires
            old(self).sound(),
            graph.deliverables.len() <= isize::MAX,
        ensures
            final(self).sound(),
            exists|id: Seq<char>| #[trigger] submitted_as(old(self).state(), graph.deep_view(), id, final(self).state(), r),
    ;

    /// Leases up to `max_count` deliverables to the caller.
    fn acquire_cohort(&mut self, plan_id: &PlanId, caller_id: &CallerId, max_count: usize, now: i64) -> (r: Result<Cohort, PlannerError>)
        requires
            old(self).sound(),
            now + old(self).state().ttl <= i64::MAX,
        ensures
            final(self).sound(),
            final(self).state() == planner_acquire(old(self).state(), plan_id.0@, caller_id.0@, max_count as nat, now).0,
            match planner_acquire(old(self).state(), plan_id.0@, caller_id.0@, max_count as nat, now).1 {
                Ok(cohort) => {
                    &&& r matches Ok(c)
                    &&& c.deep_view() == cohort
                    &&& sound_cohort(
                        old(self).state().plans[plan_id.0@],
                        final(self).state().plans[plan_id.0@],
                        cohort,
                        caller_id.0@,
                        max_count as nat,
                        now,
                    )
                },
                Err(e) => r matches Err(x) && x.deep_view() == e,
            },
    ;

    /// Sets the status of a deliverable. Any status but in progress ends the
    /// lease on it; only who holds the lease may set one while it lasts, and
    /// nobody marks in progress what they hold no lease on.
    fn mark_status(&mut self, plan_id: &PlanId, deliverable_id: &str, caller_id: &CallerId, status: DeliverableStatus) -> (r: Result<(), PlannerError>)
        requires
            old(self).sound(),
        ensures
            final(self).sound(),
            final(self).state() == planner_mark(old(self).state(), plan_id.0@, deliverable_id@, caller_id.0@, status.deep_view()).0,
            answers(r, planner_mark(old(self).state(), plan_id.0@, deliverable_id@, caller_id.0@, status.deep_view()).1),
    ;

    /// Extends the caller's lease on a deliverable.
    fn heartbeat(&mut self, plan_id: &PlanId, deliverable_id: &str, caller_id: &CallerId, now: i64) -> (r: Result<(), PlannerError>)
        requires
            old(self).sound(),
            now + old(self).state().ttl <= i64::MAX,
        ensures
            final(self).sound(),
            final(self).state() == planner_heartbeat(old(self).state(), plan_id.0@, deliverable_id@, caller_id.0@, now).0,
            answers(r, planner_heartbeat(old(self).state(), plan_id.0@, deliverable_id@, caller_id.0@, now).1),
    ;

    /// A snapshot of a plan.
    fn status(&self, plan_id: &PlanId) -> (r: Result<PlanStatus, PlannerError>)
        requires
            self.sound(),
        ensures
            match r {
                Ok(s) => self.state().plans.contains_key(plan_id.0@) && s.deep_view() == snapshot_of(
                    self.state().plans[plan_id.0@],
                    plan_id.0@,
                ),
                Err(e) => !self.state().plans.contains_key(plan_id.0@) && e.deep_view() == no_such_plan(plan_id.0@),
            },
    ;

    /// Ends the lease on a deliverable whoever holds it.
    fn force_release(&mut self, plan_id: &PlanId, deliverable_id: &str, reason: &str) -> (r: Result<(), PlannerError>)
        requires
            old(self).sound(),
        ensures
            final(self).sound(),
            final(self).state() == planner_release(old(self).state(), plan_id.0@, deliverable_id@, reason@).0,
            answers(r, planner_release(old(self).state(), plan_id.0@, deliverable_id@, reason@).1),
    ;
}

} // verus!
