//! The tool surface of the planner: tool names, requests and responses, and
//! what each request does.

use vstd::prelude::*;
use vstd::string::*;

use crate::plan::{
    CallerId, Cohort, CohortView, DeliverableStatus, ErrorView, PlanGraph, PlanId, PlanStatus, PlannerError,
    SnapshotView,
};
use crate::planner::{
    no_such_plan, planner_acquire, planner_heartbeat, planner_mark, planner_release, submit_outcome, BasicCpmPlanner, PlannerView,
};
use crate::bridge::is_hex;
use crate::lifecycle::snapshot_of;
use crate::ports::Planner;
use crate::text::{join, joined, same_text};

verus! {

/// Submits a plan.
pub const TOOL_SUBMIT: &'static str = "plan.submit";

/// Leases a cohort.
pub const TOOL_ACQUIRE_COHORT: &'static str = "plan.acquire_cohort";

/// Extends a lease.
pub const TOOL_HEARTBEAT: &'static str = "plan.heartbeat";

/// Marks a deliverable.
pub const TOOL_MARK_STATUS: &'static str = "plan.mark_status";

/// Reads a plan.
pub const TOOL_STATUS: &'static str = "plan.status";

/// Ends a lease by force.
pub const TOOL_FORCE_RELEASE: &'static str = "plan.force_release";

/// The tools.
#[derive(Debug, Clone, Copy, PartialEq, Eq, Structural)]
pub enum PlanTool {
    /// See [`TOOL_SUBMIT`].
    Submit,
    /// See [`TOOL_ACQUIRE_COHORT`].
    AcquireCohort,
    /// See [`TOOL_HEARTBEAT`].
    Heartbeat,
    /// See [`TOOL_MARK_STATUS`].
    MarkStatus,
    /// See [`TOOL_STATUS`].
    Status,
    /// See [`TOOL_FORCE_RELEASE`].
    ForceRelease,
}

/// The name of a tool.
pub open spec fn tool_name(tool: PlanTool) -> Seq<char> {
    match tool {
        PlanTool::Submit => "plan.submit"@,
        PlanTool::AcquireCohort => "plan.acquire_cohort"@,
        PlanTool::Heartbeat => "plan.heartbeat"@,
        PlanTool::MarkStatus => "plan.mark_status"@,
        PlanTool::Status => "plan.status"@,
        PlanTool::ForceRelease => "plan.force_release"@,
    }
}

/// The names of all tools, in order of declaration.
pub open spec fn tool_names() -> Seq<Seq<char>> {
    seq![
        "plan.submit"@,
        "plan.acquire_cohort"@,
        "plan.heartbeat"@,
        "plan.mark_status"@,
        "plan.status"@,
        "plan.force_release"@,
    ]
}

/// The names of all tools, in order of declaration.
pub fn plan_tool_names() -> (r: Vec<String>)
    ensures
        r.deep_view() == tool_names(),
{
    let mut r: Vec<String> = Vec::new();
    r.push(String::from_str(TOOL_SUBMIT));
    r.push(String::from_str(TOOL_ACQUIRE_COHORT));
    r.push(String::from_str(TOOL_HEARTBEAT));
    r.push(String::from_str(TOOL_MARK_STATUS));
    r.push(String::from_str(TOOL_STATUS));
    r.push(String::from_str(TOOL_FORCE_RELEASE));
    assert(r.deep_view() =~= tool_names());
    r
}

/// The message for a tool that does not exist.
pub open spec fn unknown_tool(name: Seq<char>) -> Seq<char> {
    "Unknown tool '"@ + name + "'. Available: "@ + joined(tool_names(), ", "@) + "."@
}

/// The tool with the given name, or the message that there is none.
pub fn find_tool(name: &str) -> (r: Result<PlanTool, String>)
    ensures
        match r {
            Ok(tool) => tool_name(tool) == name@,
            Err(message) => {
                &&& forall|tool: PlanTool| #[trigger] tool_name(tool) != name@
                &&& message@ == unknown_tool(name@)
            },
        },
{
    if same_text(name, TOOL_SUBMIT) {
        Ok(PlanTool::Submit)
    } else if same_text(name, TOOL_ACQUIRE_COHORT) {
        Ok(PlanTool::AcquireCohort)
    } else if same_text(name, TOOL_HEARTBEAT) {
        Ok(PlanTool::Heartbeat)
    } else if same_text(name, TOOL_MARK_STATUS) {
        Ok(PlanTool::MarkStatus)
    } else if same_text(name, TOOL_STATUS) {
        Ok(PlanTool::Status)
    } else if same_text(name, TOOL_FORCE_RELEASE) {
        Ok(PlanTool::ForceRelease)
    } else {
        let mut message = String::from_str("Unknown tool '");
        message.append(name);
        message.append("'. Available: ");
        let names = join(&plan_tool_names(), ", ");
        message.append(names.as_str());
        message.append(".");
        Err(message)
    }
}

/// The arguments that a call of the tool must give.
pub open spec fn arguments_of(tool: PlanTool) -> Seq<Seq<char>> {
    match tool {
        PlanTool::Submit => seq!["graph"@],
        PlanTool::AcquireCohort => seq!["plan_id"@, "caller_id"@, "max_count"@],
        PlanTool::Heartbeat => seq!["plan_id"@, "deliverable_id"@, "caller_id"@],
        PlanTool::MarkStatus => seq!["plan_id"@, "deliverable_id"@, "caller_id"@, "status"@],
        PlanTool::Status => seq!["plan_id"@],
        PlanTool::ForceRelease => seq!["plan_id"@, "deliverable_id"@, "reason"@],
    }
}

/// The arguments that a call of the tool must give.
pub fn required_arguments(tool: PlanTool) -> (r: Vec<String>)
    ensures
        r.deep_view() == arguments_of(tool),
{
    let mut r: Vec<String> = Vec::new();
    match tool {
        PlanTool::Submit => {
            r.push(String::from_str("graph"));
        },
        PlanTool::AcquireCohort => {
            r.push(String::from_str("plan_id"));
            r.push(String::from_str("caller_id"));
            r.push(String::from_str("max_count"));
        },
        PlanTool::Heartbeat => {
            r.push(String::from_str("plan_id"));
            r.push(String::from_str("deliverable_id"));
            r.push(String::from_str("caller_id"));
        },
        PlanTool::MarkStatus => {
            r.push(String::from_str("plan_id"));
            r.push(String::from_str("deliverable_id"));
            r.push(String::from_str("caller_id"));
            r.push(String::from_str("status"));
        },
        PlanTool::Status => {
            r.push(String::from_str("plan_id"));
        },
        PlanTool::ForceRelease => {
            r.push(String::from_str("plan_id"));
            r.push(String::from_str("deliverable_id"));
            r.push(String::from_str("reason"));
        },
    }
    assert(r.deep_view() =~= arguments_of(tool));
    r
}

/// The members that a submitted graph must have.
pub fn required_in_graph() -> (r: Vec<String>)
    ensures
        r.deep_view() == seq!["deliverables"@],
{
    let mut r: Vec<String> = Vec::new();
    r.push(String::from_str("deliverables"));
    assert(r.deep_view() =~= seq!["deliverables"@]);
    r
}

/// The members that every deliverable of a submitted graph must have.
pub fn required_in_deliverable() -> (r: Vec<String>)
    ensures
        r.deep_view() == seq!["id"@, "owned_files"@, "prerequisites"@],
{
    let mut r: Vec<String> = Vec::new();
    r.push(String::from_str("id"));
    r.push(String::from_str("owned_files"));
    r.push(String::from_str("prerequisites"));
    assert(r.deep_view() =~= seq!["id"@, "owned_files"@, "prerequisites"@]);
    r
}

/// The answer to a request that returns nothing.
#[derive(Debug, Clone, Copy, PartialEq, Eq, Structural)]
pub struct OkResponse {
    /// Always true.
    pub ok: bool,
}

impl OkResponse {
    /// The answer.
    pub fn new() -> (r: Self)
        ensures
            r.ok,
    {
        Self { ok: true }
    }
}

/// A request to the planner.
#[derive(Debug)]
pub enum PlanRequest {
    /// Submit a plan.
    Submit {
        /// The plan.
        graph: PlanGraph,
    },
    /// Lease a cohort.
    AcquireCohort {
        /// The plan.
        plan_id: PlanId,
        /// Who asks.
        caller_id: CallerId,
        /// How many deliverables at most.
        max_count: usize,
    },
    /// Extend a lease.
    Heartbeat {
        /// The plan.
        plan_id: PlanId,
        /// The deliverable.
        deliverable_id: String,
        /// Who asks.
        caller_id: CallerId,
    },
    /// Mark a deliverable.
    MarkStatus {
        /// The plan.
        plan_id: PlanId,
        /// The deliverable.
        deliverable_id: String,
        /// Who asks.
        caller_id: CallerId,
        /// The new status.
        status: DeliverableStatus,
    },
    /// Read a plan.
    Status {
        /// The plan.
        plan_id: PlanId,
    },
    /// End a lease by force.
    ForceRelease {
        /// The plan.
        plan_id: PlanId,
        /// The deliverable.
        deliverable_id: String,
        /// Why.
        reason: String,
    },
}

/// What the planner answers.
#[derive(Debug)]
pub enum PlanResponse {
    /// The id of the submitted plan.
    Submitted {
        /// The id.
        plan_id: PlanId,
    },
    /// The leased cohort.
    Acquired {
        /// The cohort.
        cohort: Cohort,
        /// Whether nothing was leased.
        exhausted: bool,
    },
    /// Done.
    Done(OkResponse),
    /// The snapshot of a plan.
    Snapshot(PlanStatus),
}

/// Mathematical form of [`PlanResponse`].
#[verifier::ext_equal]
pub enum ResponseView {
    /// See [`PlanResponse::Submitted`].
    Submitted { plan_id: Seq<char> },
    /// See [`PlanResponse::Acquired`].
    Acquired { cohort: CohortView, exhausted: bool },
    /// See [`PlanResponse::Done`].
    Done { ok: bool },
    /// See [`PlanResponse::Snapshot`].
    Snapshot { status: SnapshotView },
}

impl DeepView for PlanResponse {
    type V = ResponseView;

    open spec fn deep_view(&self) -> ResponseView {
        match *self {
            PlanResponse::Submitted { plan_id } => ResponseView::Submitted { plan_id: plan_id.0@ },
            PlanResponse::Acquired { cohort, exhausted } => ResponseView::Acquired { cohort: cohort.deep_view(), exhausted },
            PlanResponse::Done(r) => ResponseView::Done { ok: r.ok },
            PlanResponse::Snapshot(s) => ResponseView::Snapshot { status: s.deep_view() },
        }
    }
}

/// An answer that carries nothing.
pub open spec fn done(r: Result<(), ErrorView>) -> Result<ResponseView, ErrorView> {
    match r {
        Ok(_) => Ok(ResponseView::Done { ok: true }),
        Err(e) => Err(e),
    }
}

/// The planner after a request, and the answer. `fresh` is the id for a new
/// plan.
pub open spec fn request_outcome(v: PlannerView, request: PlanRequest, now: i64, fresh: Seq<char>) -> (PlannerView, Result<ResponseView, ErrorView>) {
    match request {
        PlanRequest::Submit { graph } => {
            let outcome = submit_outcome(v, graph.deep_view(), fresh);
            (
                outcome.0,
                match outcome.1 {
                    Ok(plan_id) => Ok(ResponseView::Submitted { plan_id }),
                    Err(e) => Err(e),
                },
            )
        },
        PlanRequest::AcquireCohort { plan_id, caller_id, max_count } => {
            let outcome = planner_acquire(v, plan_id.0@, caller_id.0@, max_count as nat, now);
            (
                outcome.0,
                match outcome.1 {
                    Ok(cohort) => Ok(ResponseView::Acquired { cohort, exhausted: cohort.rows.len() == 0 }),
                    Err(e) => Err(e),
                },
            )
        },
        PlanRequest::Heartbeat { plan_id, deliverable_id, caller_id } => {
            let outcome = planner_heartbeat(v, plan_id.0@, deliverable_id@, caller_id.0@, now);
            (outcome.0, done(outcome.1))
        },
        PlanRequest::MarkStatus { plan_id, deliverable_id, caller_id, status } => {
            let outcome = planner_mark(v, plan_id.0@, deliverable_id@, caller_id.0@, status.deep_view());
            (outcome.0, done(outcome.1))
        },
        PlanRequest::Status { plan_id } => (
            v,
            if v.plans.contains_key(plan_id.0@) {
                Ok(ResponseView::Snapshot { status: snapshot_of(v.plans[plan_id.0@], plan_id.0@) })
            } else {
                Err(no_such_plan(plan_id.0@))
            },
        ),
        PlanRequest::ForceRelease { plan_id, deliverable_id, reason } => {
            let outcome = planner_release(v, plan_id.0@, deliverable_id@, reason@);
            (outcome.0, done(outcome.1))
        },
    }
}

/// Whether a request can be carried out by a machine: a submitted graph fits
/// in memory, and a lease that it asks for lapses at a time that exists.
pub open spec fn feasible(request: PlanRequest, ttl: u64, now: i64) -> bool {
    match request {
        PlanRequest::Submit { graph } => graph.deliverables.len() <= isize::MAX,
        PlanRequest::AcquireCohort { .. } => now + ttl <= i64::MAX,
        PlanRequest::Heartbeat { .. } => now + ttl <= i64::MAX,
        _ => true,
    }
}

/// The planner was `before`, and `after` and `r` are what the request made of
/// it.
pub open spec fn carried_out(before: PlannerView, request: PlanRequest, now: i64, fresh: Seq<char>, after: PlannerView, r: Result<PlanResponse, PlannerError>) -> bool {
    let outcome = request_outcome(before, request, now, fresh);
    &&& after == outcome.0
    &&& match outcome.1 {
        Ok(response) => r matches Ok(x) && x.deep_view() == response,
        Err(e) => r matches Err(x) && x.deep_view() == e,
    }
}

/// Carries out a request.
pub fn dispatch_call(planner: &mut BasicCpmPlanner, request: PlanRequest, now: i64) -> (r: Result<PlanResponse, PlannerError>)
    requires
        old(planner).ok(),
        feasible(request, old(planner)@.ttl, now),
    ensures
        final(planner).ok(),
        exists|token: Seq<char>| {
            &&& #[trigger] carried_out(old(planner)@, request, now, "plan_"@ + token, final(planner)@, r)
            &&& request is Submit ==> is_hex(token, 32)
        },
{
    let ghost before = planner@;
    let ghost asked = request;
    let mut token: Ghost<Seq<char>> = Ghost(Seq::empty());
    let r = match request {
        PlanRequest::Submit { graph } => {
            let ghost gv = graph.deep_view();
            let r = planner.submit_plan(graph);
            proof {
                token@ = choose|t: Seq<char>| #![trigger is_hex(t, 32)] {
                    let outcome = submit_outcome(before, gv, "plan_"@ + t);
                    &&& is_hex(t, 32)
                    &&& planner@ == outcome.0
                    &&& match outcome.1 {
                        Ok(id) => r matches Ok(x) && x.0@ == id,
                        Err(e) => r matches Err(x) && x.deep_view() == e,
                    }
                };
            }
            match r {
                Ok(plan_id) => Ok(PlanResponse::Submitted { plan_id }),
                Err(e) => Err(e),
            }
        },
        PlanRequest::AcquireCohort { plan_id, caller_id, max_count } => match planner.acquire_cohort(&plan_id, &caller_id, max_count, now) {
            Ok(cohort) => {
                let exhausted = cohort.exhausted();
                Ok(PlanResponse::Acquired { cohort, exhausted })
            },
            Err(e) => Err(e),
        },
        PlanRequest::Heartbeat { plan_id, deliverable_id, caller_id } => match planner.heartbeat(
            &plan_id,
            deliverable_id.as_str(),
            &caller_id,
            now,
        ) {
            Ok(_) => Ok(PlanResponse::Done(OkResponse::new())),
            Err(e) => Err(e),
        },
        PlanRequest::MarkStatus { plan_id, deliverable_id, caller_id, status } => match planner.mark_status(
            &plan_id,
            deliverable_id.as_str(),
            &caller_id,
            status,
        ) {
            Ok(_) => Ok(PlanResponse::Done(OkResponse::new())),
            Err(e) => Err(e),
        },
        PlanRequest::Status { plan_id } => match planner.status(&plan_id) {
            Ok(status) => Ok(PlanResponse::Snapshot(status)),
            Err(e) => Err(e),
        },
        PlanRequest::ForceRelease { plan_id, deliverable_id, reason } => match planner.force_release(
            &plan_id,
            deliverable_id.as_str(),
            reason.as_str(),
        ) {
            Ok(_) => Ok(PlanResponse::Done(OkResponse::new())),
            Err(e) => Err(e),
        },
    };
    assert(carried_out(before, asked, now, "plan_"@ + token@, planner@, r));
    r
}

/// Orientation for a connecting client.
pub const INSTRUCTIONS: &'static str = "This is the cpm-planner MCP server — the open-source CPM planner.

Tools (six total, all `plan.<verb>`):
  plan.submit          — submit a PlanGraph, get a plan_id (idempotent on identical graphs)
  plan.acquire_cohort  — atomically acquire ready, file-disjoint deliverables
  plan.heartbeat       — refresh a held lock's TTL
  plan.mark_status     — set a deliverable's status (Complete/Failed releases the lock)
  plan.status          — read-only snapshot (statuses, critical path, held locks)
  plan.force_release   — operator escape hatch; emits audit event with `reason`

Errors carry stable prefixes: LOCK_HELD, LOCK_NOT_HELD, LOCK_EXPIRED,
OVERLAP_DETECTED, MISSING_PREREQUISITE, PLAN_NOT_FOUND,
DELIVERABLE_NOT_FOUND, INVALID_GRAPH, BACKEND_ERROR.

DeliverableStatus is internally tagged on `status`:
  {\"status\":\"pending\"} | {\"status\":\"ready\"} | {\"status\":\"in_progress\"} |
  {\"status\":\"complete\"} | {\"status\":\"failed\",\"reason\":\"...\"}
";

/// Orientation for a connecting client.
pub fn instructions() -> (r: &'static str)
    ensures
        r@ == INSTRUCTIONS@,
{
    INSTRUCTIONS
}

} // verus!
