//! What labels and messages say.

use vstd::prelude::*;

use crate::naming_laws::has_inside;
use crate::plan::{error_message, ErrorView};
use crate::server::{arguments_of, tool_name, tool_names, unknown_tool, PlanTool};
use crate::task::{kind_label, task_status_label, KindView, TaskStatus};
use crate::text::{numeral, signed_numeral};

verus! {

/// A text that stands between two others stands inside of all.
proof fn lemma_between(a: Seq<char>, text: Seq<char>, b: Seq<char>)
    ensures
        has_inside(a + text + b, text),
{
}

/// A text that ends another stands inside of it.
proof fn lemma_at_end(a: Seq<char>, text: Seq<char>)
    ensures
        has_inside(a + text, text),
{
    assert(a + text =~= a + text + Seq::<char>::empty());
    lemma_between(a, text, Seq::empty());
}

/// A text stays inside when more follows.
proof fn lemma_more(name: Seq<char>, text: Seq<char>, more: Seq<char>)
    requires
        has_inside(name, text),
    ensures
        has_inside(name + more, text),
{
    let (a, b) = choose|a: Seq<char>, b: Seq<char>| name == #[trigger] (a + text + b);
    assert(name + more =~= a + text + (b + more));
    lemma_between(a, text, b + more);
}

/// The message of an error names whatever the error is about.
pub proof fn messages_name_what_they_are_about(e: ErrorView)
    ensures
        match e {
            ErrorView::LockHeld { deliverable_id, holder } => has_inside(error_message(e), deliverable_id) && has_inside(error_message(e), holder),
            ErrorView::LockNotHeld { caller_id, deliverable_id } => has_inside(error_message(e), caller_id) && has_inside(error_message(e), deliverable_id),
            ErrorView::LockExpired { deliverable_id, expired_at } => has_inside(error_message(e), deliverable_id) && has_inside(error_message(e), signed_numeral(expired_at as int)),
            ErrorView::OverlapDetected { file, deliverable_id } => has_inside(error_message(e), file) && has_inside(error_message(e), deliverable_id),
            ErrorView::MissingPrerequisite { deliverable_id, prerequisite } => has_inside(error_message(e), deliverable_id) && has_inside(error_message(e), prerequisite),
            ErrorView::PlanNotFound { plan_id } => has_inside(error_message(e), plan_id),
            ErrorView::DeliverableNotFound { plan_id, deliverable_id } => has_inside(error_message(e), plan_id) && has_inside(error_message(e), deliverable_id),
            ErrorView::InvalidGraph { reason } => has_inside(error_message(e), reason),
            ErrorView::BackendError { reason } => has_inside(error_message(e), reason),
            ErrorView::LapseLimit { deliverable_id, lapse_count, max_lapses } => has_inside(error_message(e), deliverable_id) && has_inside(error_message(e), numeral(lapse_count as nat))
                && has_inside(error_message(e), numeral(max_lapses as nat)),
        },
{
    match e {
        ErrorView::LockHeld { deliverable_id, holder } => {
            let a = "LOCK_HELD: deliverable '"@;
            let b = a + deliverable_id + "' is locked by '"@;
            lemma_at_end(a, deliverable_id);
            lemma_more(a + deliverable_id, deliverable_id, "' is locked by '"@);
            lemma_more(b, deliverable_id, holder);
            lemma_more(b + holder, deliverable_id, "'"@);
            lemma_at_end(b, holder);
            lemma_more(b + holder, holder, "'"@);
        },
        ErrorView::LockNotHeld { caller_id, deliverable_id } => {
            let a = "LOCK_NOT_HELD: caller '"@;
            let b = a + caller_id + "' does not hold the lock on '"@;
            lemma_at_end(a, caller_id);
            lemma_more(a + caller_id, caller_id, "' does not hold the lock on '"@);
            lemma_more(b, caller_id, deliverable_id);
            lemma_more(b + deliverable_id, caller_id, "'"@);
            lemma_at_end(b, deliverable_id);
            lemma_more(b + deliverable_id, deliverable_id, "'"@);
        },
        ErrorView::LockExpired { deliverable_id, expired_at } => {
            let a = "LOCK_EXPIRED: lock on '"@;
            let b = a + deliverable_id + "' expired at "@;
            lemma_at_end(a, deliverable_id);
            lemma_more(a + deliverable_id, deliverable_id, "' expired at "@);
            lemma_more(b, deliverable_id, signed_numeral(expired_at as int));
            lemma_at_end(b, signed_numeral(expired_at as int));
        },
        ErrorView::OverlapDetected { file, deliverable_id } => {
            let a = "OVERLAP_DETECTED: file '"@;
            let b = a + file + "' is owned by '"@;
            lemma_at_end(a, file);
            lemma_more(a + file, file, "' is owned by '"@);
            lemma_more(b, file, deliverable_id);
            lemma_more(b + deliverable_id, file, "'"@);
            lemma_at_end(b, deliverable_id);
            lemma_more(b + deliverable_id, deliverable_id, "'"@);
        },
        ErrorView::MissingPrerequisite { deliverable_id, prerequisite } => {
            let a = "MISSING_PREREQUISITE: deliverable '"@;
            let b = a + deliverable_id + "' waits for '"@;
            lemma_at_end(a, deliverable_id);
            lemma_more(a + deliverable_id, deliverable_id, "' waits for '"@);
            lemma_more(b, deliverable_id, prerequisite);
            lemma_more(b + prerequisite, deliverable_id, "'"@);
            lemma_at_end(b, prerequisite);
            lemma_more(b + prerequisite, prerequisite, "'"@);
        },
        ErrorView::PlanNotFound { plan_id } => {
            let a = "PLAN_NOT_FOUND: plan '"@;
            lemma_at_end(a, plan_id);
            lemma_more(a + plan_id, plan_id, "'"@);
        },
        ErrorView::DeliverableNotFound { plan_id, deliverable_id } => {
            let a = "DELIVERABLE_NOT_FOUND: deliverable '"@;
            let b = a + deliverable_id + "' in plan '"@;
            lemma_at_end(a, deliverable_id);
            lemma_more(a + deliverable_id, deliverable_id, "' in plan '"@);
            lemma_more(b, deliverable_id, plan_id);
            lemma_more(b + plan_id, deliverable_id, "'"@);
            lemma_at_end(b, plan_id);
            lemma_more(b + plan_id, plan_id, "'"@);
        },
        ErrorView::InvalidGraph { reason } => {
            lemma_at_end("INVALID_GRAPH: "@, reason);
        },
        ErrorView::BackendError { reason } => {
            lemma_at_end("BACKEND_ERROR: "@, reason);
        },
        ErrorView::LapseLimit { deliverable_id, lapse_count, max_lapses } => {
            let a = "LAPSE_LIMIT: leases on '"@;
            let n = numeral(lapse_count as nat);
            let m = numeral(max_lapses as nat);
            let b = a + deliverable_id + "' lapsed "@;
            let c = b + n + " times (limit "@;
            let tail = "): environmental losses, not failed work"@;
            lemma_at_end(a, deliverable_id);
            lemma_more(a + deliverable_id, deliverable_id, "' lapsed "@);
            lemma_more(b, deliverable_id, n);
            lemma_more(b + n, deliverable_id, " times (limit "@);
            lemma_more(c, deliverable_id, m);
            lemma_more(c + m, deliverable_id, tail);
            lemma_at_end(b, n);
            lemma_more(b + n, n, " times (limit "@);
            lemma_more(c, n, m);
            lemma_more(c + m, n, tail);
            lemma_at_end(c, m);
            lemma_more(c + m, m, tail);
        },
    }
}

/// Statuses are told apart by their labels.
pub proof fn statuses_are_told_apart(a: TaskStatus, b: TaskStatus)
    requires
        task_status_label(a) == task_status_label(b),
    ensures
        a == b,
{
    reveal_strlit("pending");
    reveal_strlit("ready");
    reveal_strlit("in_progress");
    reveal_strlit("completed");
    reveal_strlit("blocked");
    assert("pending"@[0] == 'p' && "ready"@[0] == 'r' && "in_progress"@[0] == 'i' && "completed"@[0] == 'c' && "blocked"@[0] == 'b');
}

/// A label shows what is to be implemented, and tells the three kinds of work
/// apart.
pub proof fn kinds_are_told_apart(a: KindView, b: KindView)
    requires
        kind_label(a) == kind_label(b),
    ensures
        a is BreakCycle <==> b is BreakCycle,
        a is Custom <==> b is Custom,
        a is ImplementSpec ==> a == b,
{
    reveal_strlit("CYCLE");
    reveal_strlit("SPEC-");
    reveal_strlit("CUSTOM");
    let x = kind_label(a);
    let y = kind_label(b);
    if a is BreakCycle || b is BreakCycle {
        assert(x[1] == 'Y' && y[1] == 'Y');
    }
    if a is Custom || b is Custom {
        assert(x[1] == 'U' && y[1] == 'U');
    }
    if a is ImplementSpec && b is ImplementSpec {
        assert(x.skip(5) =~= a->spec_id);
        assert(y.skip(5) =~= b->spec_id);
    }
}

/// Tools are told apart by their names. All their names are listed once, and
/// whoever asks for another tool is told what was asked for.
pub proof fn tools_are_told_apart(a: PlanTool, b: PlanTool, name: Seq<char>)
    ensures
        tool_name(a) == tool_name(b) ==> a == b,
        tool_names().contains(tool_name(a)),
        tool_names().len() == 6,
        has_inside(unknown_tool(name), name),
{
    reveal_strlit("plan.submit");
    reveal_strlit("plan.acquire_cohort");
    reveal_strlit("plan.heartbeat");
    reveal_strlit("plan.mark_status");
    reveal_strlit("plan.status");
    reveal_strlit("plan.force_release");
    if tool_name(a) == tool_name(b) {
        let x = tool_name(a);
        assert(a is Submit ==> x[5] == 's' && x[6] == 'u');
        assert(a is AcquireCohort ==> x[5] == 'a');
        assert(a is Heartbeat ==> x[5] == 'h');
        assert(a is MarkStatus ==> x[5] == 'm');
        assert(a is Status ==> x[5] == 's' && x[6] == 't');
        assert(a is ForceRelease ==> x[5] == 'f');
        assert(b is Submit ==> x[5] == 's' && x[6] == 'u');
        assert(b is AcquireCohort ==> x[5] == 'a');
        assert(b is Heartbeat ==> x[5] == 'h');
        assert(b is MarkStatus ==> x[5] == 'm');
        assert(b is Status ==> x[5] == 's' && x[6] == 't');
        assert(b is ForceRelease ==> x[5] == 'f');
    }
    let names = tool_names();
    match a {
        PlanTool::Submit => { assert(names[0] == tool_name(a)); },
        PlanTool::AcquireCohort => { assert(names[1] == tool_name(a)); },
        PlanTool::Heartbeat => { assert(names[2] == tool_name(a)); },
        PlanTool::MarkStatus => { assert(names[3] == tool_name(a)); },
        PlanTool::Status => { assert(names[4] == tool_name(a)); },
        PlanTool::ForceRelease => { assert(names[5] == tool_name(a)); },
    }
    let head = "Unknown tool '"@;
    let rest = crate::text::joined(tool_names(), ", "@);
    lemma_at_end(head, name);
    lemma_more(head + name, name, "'. Available: "@);
    lemma_more(head + name + "'. Available: "@, name, rest);
    lemma_more(head + name + "'. Available: "@ + rest, name, "."@);
}

/// Every call but a submission names the plan it is about, and whoever acts for
/// themselves says who they are.
pub proof fn calls_name_their_plan(tool: PlanTool)
    ensures
        tool is Submit ==> arguments_of(tool) == seq!["graph"@],
        !(tool is Submit) ==> arguments_of(tool)[0] == "plan_id"@,
        tool is Heartbeat || tool is MarkStatus || tool is ForceRelease ==> arguments_of(tool).contains("deliverable_id"@),
        tool is AcquireCohort || tool is Heartbeat || tool is MarkStatus ==> arguments_of(tool).contains("caller_id"@),
        tool is AcquireCohort ==> arguments_of(tool).contains("max_count"@),
        tool is MarkStatus ==> arguments_of(tool).contains("status"@),
        tool is ForceRelease ==> arguments_of(tool).contains("reason"@),
        arguments_of(tool).len() == (match tool {
            PlanTool::Submit => 1nat,
            PlanTool::AcquireCohort => 3nat,
            PlanTool::Heartbeat => 3nat,
            PlanTool::MarkStatus => 4nat,
            PlanTool::Status => 1nat,
            PlanTool::ForceRelease => 3nat,
        }),
{
    let list = arguments_of(tool);
    match tool {
        PlanTool::AcquireCohort => {
            assert(list[1] == "caller_id"@ && list[2] == "max_count"@);
        },
        PlanTool::Heartbeat => {
            assert(list[1] == "deliverable_id"@ && list[2] == "caller_id"@);
        },
        PlanTool::MarkStatus => {
            assert(list[1] == "deliverable_id"@ && list[2] == "caller_id"@ && list[3] == "status"@);
        },
        PlanTool::ForceRelease => {
            assert(list[1] == "deliverable_id"@ && list[2] == "reason"@);
        },
        _ => {},
    }
}

} // verus!
