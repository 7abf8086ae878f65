//! The planner: plans in memory, leases with a time to live, and an outbox of
//! audit records.

use vstd::prelude::*;
use vstd::string::*;

use crate::audit::{AuditRecord, RecordView};
use crate::bridge::{fresh_token, is_hex};
use crate::cohort::{acquire_outcome, acquire_records, append_records, selection};
use crate::hash::{graph_hash, hash_graph};
use crate::index::position;
use crate::lifecycle::{heartbeat_outcome, mark_outcome, mark_records, release_outcome, release_records};
use crate::locks::{plan_ok, PlanState, PlanView};
use crate::paths::file_keys;
use crate::plan::{
    deliverable_ids, CallerId, Cohort, CohortView, DeliverableStatus, ErrorView, GraphView, PlanGraph, PlanId, PlanStatus,
    PlannerError, StatusView,
};
use crate::plan_laws::{
    cohorts_are_disjoint_and_ready, cohorts_are_locked, new_plans_match, plan_sound, plans_stay_sound,
};
use crate::ports::{sound_cohort, sound_row, submitted_as, Planner};
use crate::submit::{build_plan, rejected_exactly_when_ill_formed, submission};
use crate::textmap::TextMap;
use crate::validate::{rejection, validate_graph};

verus! {

/// Time to live of a lease, in microseconds, unless set otherwise: five
/// minutes.
pub const DEFAULT_TTL: u64 = 300_000_000;

/// A flat effort of one hour, for callers that want a plain fallback.
pub const DEFAULT_EFFORT_HOURS: i64 = 1_000_000;

/// Planner with plans in memory.
pub struct BasicCpmPlanner {
    plans: TextMap<PlanState>,
    dedup: TextMap<String>,
    ttl: u64,
    outbox: Vec<AuditRecord>,
}

/// Mathematical form of [`BasicCpmPlanner`].
#[verifier::ext_equal]
pub struct PlannerView {
    /// The plans, by id.
    pub plans: Map<Seq<char>, PlanView>,
    /// The plan that each graph hash gave.
    pub dedup: Map<Seq<char>, Seq<char>>,
    /// Time to live of a lease.
    pub ttl: u64,
    /// Records not yet taken.
    pub outbox: Seq<RecordView>,
}

/// The planner after a graph was submitted under a new id, and the answer.
pub open spec fn submit_outcome(v: PlannerView, graph: GraphView, plan_id: Seq<char>) -> (PlannerView, Result<Seq<char>, ErrorView>) {
    let hash = graph_hash(graph);
    if rejection(graph) is Some {
        (v, Err(ErrorView::InvalidGraph { reason: rejection(graph)->0 }))
    } else if v.dedup.contains_key(hash) {
        (v, Ok(v.dedup[hash]))
    } else {
        match submission(graph) {
            Ok(plan) => (
                PlannerView { plans: v.plans.insert(plan_id, plan), dedup: v.dedup.insert(hash, plan_id), ..v },
                Ok(plan_id),
            ),
            Err(e) => (v, Err(e)),
        }
    }
}

/// Every known hash leads to a plan.
pub open spec fn hashes_lead_to_plans(v: PlannerView) -> bool {
    forall|h: Seq<char>| #[trigger] v.dedup.contains_key(h) ==> v.plans.contains_key(v.dedup[h])
}

/// Every known hash leads to a plan, and no two lead to the same.
pub open spec fn hashes_lead_apart(v: PlannerView) -> bool {
    &&& hashes_lead_to_plans(v)
    &&& forall|g: Seq<char>, h: Seq<char>| #[trigger] v.dedup.contains_key(g) && #[trigger] v.dedup.contains_key(h) && g != h ==> v.dedup[g] != v.dedup[h]
}

proof fn lemma_same_hashes(a: PlannerView, b: PlannerView)
    requires
        a.plans == b.plans,
        a.dedup == b.dedup,
    ensures
        hashes_lead_to_plans(a) == hashes_lead_to_plans(b),
{
    if hashes_lead_to_plans(a) {
        assert(hashes_lead_to_plans(b));
    } else {
        assert(!hashes_lead_to_plans(b));
    }
}

/// The refusal for a plan that does not exist.
pub open spec fn no_such_plan(plan_id: Seq<char>) -> ErrorView {
    ErrorView::PlanNotFound { plan_id }
}

/// The planner after a cohort was asked for, and the answer.
pub open spec fn planner_acquire(v: PlannerView, plan_id: Seq<char>, caller_id: Seq<char>, max: nat, now: i64) -> (PlannerView, Result<CohortView, ErrorView>) {
    if !v.plans.contains_key(plan_id) {
        (v, Err(no_such_plan(plan_id)))
    } else {
        let plan = v.plans[plan_id];
        let expires_at = (now + v.ttl) as i64;
        match acquire_outcome(plan, plan_id, caller_id, max, now, expires_at) {
            Ok((after, cohort)) => (
                PlannerView {
                    plans: v.plans.insert(plan_id, after),
                    outbox: v.outbox + acquire_records(plan, selection(plan, now, max), plan_id, caller_id, now, expires_at),
                    ..v
                },
                Ok(cohort),
            ),
            Err(e) => (v, Err(e)),
        }
    }
}

/// The planner after a deliverable was marked, and the answer.
pub open spec fn planner_mark(v: PlannerView, plan_id: Seq<char>, id: Seq<char>, caller_id: Seq<char>, status: StatusView) -> (PlannerView, Result<(), ErrorView>) {
    if !v.plans.contains_key(plan_id) {
        (v, Err(no_such_plan(plan_id)))
    } else {
        let plan = v.plans[plan_id];
        match mark_outcome(plan, plan_id, id, caller_id, status) {
            Ok(after) => (
                PlannerView {
                    plans: v.plans.insert(plan_id, after),
                    outbox: v.outbox + mark_records(plan.slots[position(deliverable_ids(plan.graph), id)], status),
                    ..v
                },
                Ok(()),
            ),
            Err(e) => (v, Err(e)),
        }
    }
}

/// The planner after a heartbeat, and the answer.
pub open spec fn planner_heartbeat(v: PlannerView, plan_id: Seq<char>, id: Seq<char>, caller_id: Seq<char>, now: i64) -> (PlannerView, Result<(), ErrorView>) {
    if !v.plans.contains_key(plan_id) {
        (v, Err(no_such_plan(plan_id)))
    } else {
        match heartbeat_outcome(v.plans[plan_id], id, caller_id, now, (now + v.ttl) as i64) {
            Ok(after) => (PlannerView { plans: v.plans.insert(plan_id, after), ..v }, Ok(())),
            Err(e) => (v, Err(e)),
        }
    }
}

/// The planner after a forced release, and the answer.
pub open spec fn planner_release(v: PlannerView, plan_id: Seq<char>, id: Seq<char>, reason: Seq<char>) -> (PlannerView, Result<(), ErrorView>) {
    if !v.plans.contains_key(plan_id) {
        (v, Err(no_such_plan(plan_id)))
    } else {
        let plan = v.plans[plan_id];
        match release_outcome(plan, plan_id, id) {
            Ok(after) => (
                PlannerView {
                    plans: v.plans.insert(plan_id, after),
                    outbox: v.outbox + release_records(plan.slots[position(deliverable_ids(plan.graph), id)], reason),
                    ..v
                },
                Ok(()),
            ),
            Err(e) => (v, Err(e)),
        }
    }
}

/// An answer as its mathematical form.
pub open spec fn answers<T>(r: Result<T, PlannerError>, expected: Result<(), ErrorView>) -> bool {
    match expected {
        Ok(_) => r is Ok,
        Err(e) => r matches Err(x) && x.deep_view() == e,
    }
}

/// An id for a new plan: the prefix `plan_` and a fresh token.
pub fn fresh_plan_id() -> (r: PlanId)
    ensures
        exists|token: Seq<char>| #[trigger] is_hex(token, 32) && r.0@ == "plan_"@ + token,
{
    let token = fresh_token();
    let mut id = String::from_str("plan_");
    id.append(token.as_str());
    assert(is_hex(token@, 32));
    PlanId(id)
}

impl View for BasicCpmPlanner {
    type V = PlannerView;

    closed spec fn view(&self) -> PlannerView {
        PlannerView {
            plans: self.plans.contents().map_values(|s: PlanState| s.deep_view()),
            dedup: self.dedup.contents().map_values(|id: String| id@),
            ttl: self.ttl,
            outbox: self.outbox.deep_view(),
        }
    }
}

impl BasicCpmPlanner {
    /// The planner is in order: every plan is sound, and every known hash leads
    /// to a plan.
    pub closed spec fn ok(&self) -> bool {
        &&& self.plans.ok()
        &&& self.dedup.ok()
        &&& forall|id: Seq<char>| #[trigger] self.plans.contents().contains_key(id) ==> plan_sound(self.plans.contents()[id].deep_view())
        &&& hashes_lead_to_plans(self@)
    }

    /// A planner without plans, with the default time to live.
    pub fn new() -> (r: Self)
        ensures
            r.ok(),
            r@ == (PlannerView {
                plans: Map::empty(),
                dedup: Map::empty(),
                ttl: DEFAULT_TTL,
                outbox: Seq::empty(),
            }),
    {
        let r = BasicCpmPlanner { plans: TextMap::new(), dedup: TextMap::new(), ttl: DEFAULT_TTL, outbox: Vec::new() };
        proof {
            assert(r@.plans =~= Map::empty());
            assert(r@.dedup =~= Map::empty());
            assert(r@.outbox =~= Seq::empty());
        }
        r
    }

    /// Sets the time to live of leases, in microseconds.
    pub fn with_ttl(self, ttl: u64) -> (r: Self)
        ensures
            r.ok() == self.ok(),
            r@ == (PlannerView { ttl, ..self@ }),
    {
        let ghost before = self@;
        let mut r = self;
        r.ttl = ttl;
        proof {
            lemma_same_hashes(before, r@);
        }
        r
    }

    /// Takes the records written since the last time.
    pub fn take_records(&mut self) -> (r: Vec<AuditRecord>)
        ensures
            r.deep_view() == old(self)@.outbox,
            final(self)@ == (PlannerView { outbox: Seq::empty(), ..old(self)@ }),
            final(self).ok() == old(self).ok(),
    {
        let mut taken: Vec<AuditRecord> = Vec::new();
        std::mem::swap(&mut self.outbox, &mut taken);
        assert(self@.outbox =~= Seq::empty());
        proof {
            lemma_same_hashes(old(self)@, self@);
        }
        taken
    }

    /// Submits a graph, to be known under the given id unless it is known
    /// already. A plan that had the id gives way.
    pub fn submit_as(&mut self, graph: PlanGraph, plan_id: PlanId) -> (r: Result<PlanId, PlannerError>)
        requires
            old(self).ok(),
            graph.deliverables.len() <= isize::MAX,
        ensures
            final(self).ok(),
            final(self)@ == submit_outcome(old(self)@, graph.deep_view(), plan_id.0@).0,
            match submit_outcome(old(self)@, graph.deep_view(), plan_id.0@).1 {
                Ok(id) => r matches Ok(x) && x.0@ == id,
                Err(e) => r matches Err(x) && x.deep_view() == e,
            },
    {
        let ghost before = self@;
        if let Err(e) = validate_graph(&graph) {
            return Err(e);
        }
        let hash = hash_graph(&graph);
        if let Some(known) = self.dedup.get(hash.as_str()) {
            return Ok(PlanId(known.clone()));
        }
        match build_plan(graph) {
            Err(e) => Err(e),
            Ok(state) => {
                let ghost plan = state.deep_view();
                proof {
                    rejected_exactly_when_ill_formed(plan.graph);
                    new_plans_match(plan.graph);
                }
                let ghost key = hash@;
                let ghost states = self.plans.contents();
                self.plans.insert(plan_id.0.clone(), state);
                self.dedup.insert(hash, plan_id.0.clone());
                proof {
                    assert(self@.plans =~= before.plans.insert(plan_id.0@, plan));
                    assert(self@.dedup =~= before.dedup.insert(key, plan_id.0@));
                }
                Ok(plan_id)
            },
        }
    }
}

impl Default for BasicCpmPlanner {
    fn default() -> (r: Self)
        ensures
            r.ok(),
            r@ == (PlannerView {
                plans: Map::empty(),
                dedup: Map::empty(),
                ttl: DEFAULT_TTL,
                outbox: Seq::empty(),
            }),
    {
        Self::new()
    }
}

/// What an exact lease promises.
proof fn lemma_cohort_sound(plan: PlanView, plan_id: Seq<char>, caller_id: Seq<char>, max: nat, now: i64, expires_at: i64)
    requires
        plan_ok(plan),
    ensures
        acquire_outcome(plan, plan_id, caller_id, max, now, expires_at) matches Ok((after, cohort)) ==> sound_cohort(
            plan,
            after,
            cohort,
            caller_id,
            max,
            now,
        ),
{
    if let Ok((after, cohort)) = acquire_outcome(plan, plan_id, caller_id, max, now, expires_at) {
        let chosen = selection(plan, now, max);
        cohorts_are_disjoint_and_ready(plan, plan_id, caller_id, max, now, expires_at);
        assert forall|k: int| 0 <= k < cohort.rows.len() implies sound_row(after, #[trigger] cohort.rows[k], caller_id) by {
            cohorts_are_locked(plan, plan_id, caller_id, max, now, expires_at, k);
            let i = chosen[k];
            assert(cohort.rows[k].deliverable == after.graph.deliverables[i]);
        }
        assert forall|a: int, b: int| 0 <= a < b < cohort.rows.len() implies crate::ports::no_common_file(
            file_keys((#[trigger] cohort.rows[a]).deliverable),
            file_keys((#[trigger] cohort.rows[b]).deliverable),
        ) by {
            assert(crate::plan_laws::files_disjoint(plan.graph, chosen[a], chosen[b]));
        }
        assert forall|k: int, m: int| 0 <= k < cohort.rows.len() && 0 <= m < plan.slots.len() && #[trigger] plan.slots[m].lock is Some && !crate::locks::lapsed(plan.slots[m], now) implies crate::ports::no_common_file(
            file_keys(plan.graph.deliverables[m]),
            file_keys((#[trigger] cohort.rows[k]).deliverable),
        ) by {
            assert(crate::plan_laws::files_disjoint(plan.graph, m, chosen[k]));
        }
    }
}

impl Planner for BasicCpmPlanner {
    open spec fn sound(&self) -> bool {
        self.ok()
    }

    open spec fn state(&self) -> PlannerView {
        self@
    }

    /// Submits a graph under a fresh id.
    fn submit_plan(&mut self, graph: PlanGraph) -> (r: Result<PlanId, PlannerError>)
        ensures
            exists|token: Seq<char>| #![trigger is_hex(token, 32)] {
                let outcome = submit_outcome(old(self)@, graph.deep_view(), "plan_"@ + token);
                &&& is_hex(token, 32)
                &&& final(self)@ == outcome.0
                &&& match outcome.1 {
                    Ok(id) => r matches Ok(x) && x.0@ == id,
                    Err(e) => r matches Err(x) && x.deep_view() == e,
                }
            },
    {
        let id = fresh_plan_id();
        let ghost gv = graph.deep_view();
        let ghost drawn = id.0@;
        let r = self.submit_as(graph, id);
        assert(submitted_as(old(self).state(), gv, drawn, self.state(), r));
        r
    }

    /// Leases a cohort.
    fn acquire_cohort(&mut self, plan_id: &PlanId, caller_id: &CallerId, max_count: usize, now: i64) -> (r: Result<Cohort, PlannerError>)
    {
        let ghost before = self@;
        let ghost key = plan_id.0@;
        let at: usize = match self.plans.find(plan_id.as_str()) {
            Some(at) => at,
            None => {
                return Err(PlannerError::PlanNotFound { plan_id: plan_id.0.clone() });
            },
        };
        let expires_at: i64 = (now as i128 + self.ttl as i128) as i64;
        let ghost states = self.plans.contents();
        let ghost plan = states[key].deep_view();
        assert(before.plans[key] == plan);
        proof {
            lemma_cohort_sound(plan, key, caller_id.0@, max_count as nat, now, expires_at);
            plans_stay_sound(plan, key, key, caller_id.0@, max_count as nat, now, expires_at, StatusView::Ready);
        }
        let state = self.plans.value_mut(at, Ghost(key));
        match state.acquire_cohort(plan_id, caller_id, max_count, now, expires_at) {
            Ok((cohort, records)) => {
                append_records(&mut self.outbox, records);
                proof {
                    let after = self.plans.contents()[key].deep_view();
                    assert(self@.plans =~= before.plans.insert(key, after));
                    assert(self@.plans[key] == after);
                }
                Ok(cohort)
            },
            Err(e) => {
                assert(self@.plans =~= before.plans);
                Err(e)
            },
        }
    }

    /// Marks a deliverable.
    fn mark_status(&mut self, plan_id: &PlanId, deliverable_id: &str, caller_id: &CallerId, status: DeliverableStatus) -> (r: Result<(), PlannerError>)
    {
        let ghost before = self@;
        let ghost key = plan_id.0@;
        let at: usize = match self.plans.find(plan_id.as_str()) {
            Some(at) => at,
            None => {
                return Err(PlannerError::PlanNotFound { plan_id: plan_id.0.clone() });
            },
        };
        let ghost plan = self.plans.contents()[key].deep_view();
        assert(before.plans[key] == plan);
        proof {
            plans_stay_sound(plan, key, deliverable_id@, caller_id.0@, 0, 0, 0, status.deep_view());
        }
        let state = self.plans.value_mut(at, Ghost(key));
        match state.mark_status(plan_id, deliverable_id, caller_id, status) {
            Ok(records) => {
                append_records(&mut self.outbox, records);
                proof {
                    let after = self.plans.contents()[key].deep_view();
                    assert(self@.plans =~= before.plans.insert(key, after));
                    assert(self@.plans[key] == after);
                }
                Ok(())
            },
            Err(e) => {
                assert(self@.plans =~= before.plans);
                Err(e)
            },
        }
    }

    /// Extends a lease.
    fn heartbeat(&mut self, plan_id: &PlanId, deliverable_id: &str, caller_id: &CallerId, now: i64) -> (r: Result<(), PlannerError>)
    {
        let ghost before = self@;
        let ghost key = plan_id.0@;
        let at: usize = match self.plans.find(plan_id.as_str()) {
            Some(at) => at,
            None => {
                return Err(PlannerError::PlanNotFound { plan_id: plan_id.0.clone() });
            },
        };
        let expires_at: i64 = (now as i128 + self.ttl as i128) as i64;
        let ghost plan = self.plans.contents()[key].deep_view();
        assert(before.plans[key] == plan);
        proof {
            plans_stay_sound(plan, key, deliverable_id@, caller_id.0@, 0, now, expires_at, StatusView::Ready);
        }
        let state = self.plans.value_mut(at, Ghost(key));
        match state.heartbeat(deliverable_id, caller_id, now, expires_at) {
            Ok(_) => {
                proof {
                    let after = self.plans.contents()[key].deep_view();
                    assert(self@.plans =~= before.plans.insert(key, after));
                    assert(self@.plans[key] == after);
                }
                Ok(())
            },
            Err(e) => {
                assert(self@.plans =~= before.plans);
                Err(e)
            },
        }
    }

    /// A snapshot of a plan.
    fn status(&self, plan_id: &PlanId) -> (r: Result<PlanStatus, PlannerError>) {
        match self.plans.get(plan_id.as_str()) {
            Some(state) => Ok(state.status(plan_id)),
            None => Err(PlannerError::PlanNotFound { plan_id: plan_id.0.clone() }),
        }
    }

    /// Ends a lease by force.
    fn force_release(&mut self, plan_id: &PlanId, deliverable_id: &str, reason: &str) -> (r: Result<(), PlannerError>)
    {
        let ghost before = self@;
        let ghost key = plan_id.0@;
        let at: usize = match self.plans.find(plan_id.as_str()) {
            Some(at) => at,
            None => {
                return Err(PlannerError::PlanNotFound { plan_id: plan_id.0.clone() });
            },
        };
        let ghost plan = self.plans.contents()[key].deep_view();
        assert(before.plans[key] == plan);
        proof {
            plans_stay_sound(plan, key, deliverable_id@, key, 0, 0, 0, StatusView::Ready);
        }
        let state = self.plans.value_mut(at, Ghost(key));
        match state.force_release(plan_id, deliverable_id, reason) {
            Ok(records) => {
                append_records(&mut self.outbox, records);
                proof {
                    let after = self.plans.contents()[key].deep_view();
                    assert(self@.plans =~= before.plans.insert(key, after));
                    assert(self@.plans[key] == after);
                }
                Ok(())
            },
            Err(e) => {
                assert(self@.plans =~= before.plans);
                Err(e)
            },
        }
    }
}

/// Every plan of a planner in order is sound, and every known hash leads to a
/// plan.
pub proof fn planners_hold_sound_plans(planner: &BasicCpmPlanner)
    requires
        planner.ok(),
    ensures
        forall|id: Seq<char>| #[trigger] planner@.plans.contains_key(id) ==> plan_sound(planner@.plans[id]),
        hashes_lead_to_plans(planner@),
{
    assert forall|id: Seq<char>| #[trigger] planner@.plans.contains_key(id) implies plan_sound(planner@.plans[id]) by {
        assert(planner.plans.contents().contains_key(id));
    }
}

} // verus!
