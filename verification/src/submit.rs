//! Turning a submitted graph into a plan.

use vstd::prelude::*;
use vstd::string::*;

use crate::algorithm::{
    analysed, critical_order, is_critical, lemma_same_network, same_work, scheduled, starts_ahead, task_deps,
    task_ids, CpmAlgorithm,
};
use crate::bridge::{json_member, json_member_of, JsonMember, MemberView};
use crate::cpm_laws::{analysis_is_unique, holdable, schedule_is_unique, unscheduled_exactly_when_cyclic};
use crate::cycles::{acyclic, all_known, settles_exactly_when_acyclic};
use crate::existence::{analysis_exists, schedule_exists};
use crate::estimator::{default_config, estimate_of, estimates_stay_in_range, whole_part, EffortEstimator, EstimationConfig};
use crate::index::lemma_position_found;
use crate::locks::{covers, locks_match, plan_ok, PlanState, PlanView, Slot, SlotView};
use crate::network::settled;
use crate::plan::{
    deliverable_ids, Deliverable, DeliverableStatus, DeliverableView, ErrorView, GraphView, PlanGraph, PlannerError, StatusView,
};
use crate::ranking::ids_at;
use crate::task::{blank_result, blank_task, KindView, ResultView, Task, TaskKind, TaskView};
use crate::text::copy_texts;
use crate::validate::{
    cycle_flags, dangles, first, graph_deps, has_dangling, has_taken, lemma_first_found, rejection, repeats, validate_graph,
};

verus! {

/// The description that metadata gives.
pub open spec fn described(description: MemberView) -> Seq<char> {
    match description {
        MemberView::Text(t) => t,
        _ => Seq::empty(),
    }
}

/// The complexity hint that metadata gives: the member `complexity`, or else
/// `is_complex`, where it is a boolean.
pub open spec fn complex_hint(complexity: MemberView, is_complex: MemberView) -> bool {
    let hint = if complexity is Absent { is_complex } else { complexity };
    match hint {
        MemberView::Flag(b) => b,
        _ => false,
    }
}

/// The task for a deliverable with the given metadata members. An explicit
/// effort wins over an estimate, of which a task holds the whole millionths.
pub open spec fn task_from(d: DeliverableView, description: MemberView, complexity: MemberView, is_complex: MemberView, config: EstimationConfig) -> TaskView {
    let kind = KindView::Custom { description: described(description) };
    TaskView {
        id: d.id,
        name: d.id,
        kind,
        effort: match d.effort {
            Some(e) => e as int,
            None => whole_part(estimate_of(config, kind, complex_hint(complexity, is_complex))),
        },
        dependencies: d.prerequisites,
        ..blank_task()
    }
}

/// The task for a deliverable.
pub open spec fn task_for(d: DeliverableView, config: EstimationConfig) -> TaskView {
    task_from(
        d,
        json_member_of(d.metadata, "description"@),
        json_member_of(d.metadata, "complexity"@),
        json_member_of(d.metadata, "is_complex"@),
        config,
    )
}

/// Converts a deliverable into a task, given what its metadata holds.
pub fn task_with_hints(d: &Deliverable, description: JsonMember, complexity: JsonMember, is_complex: JsonMember, estimator: &EffortEstimator) -> (r: Task)
    requires
        estimator.settings().min_hours <= estimator.settings().max_hours,
    ensures
        r.deep_view() == task_from(
            d.deep_view(),
            description.deep_view(),
            complexity.deep_view(),
            is_complex.deep_view(),
            estimator.settings(),
        ),
{
    let text = match description {
        JsonMember::Text(t) => t,
        _ => String::new(),
    };
    let kind = TaskKind::Custom { description: text };
    let effort_hours: i64 = match d.estimated_effort_hours {
        Some(explicit) => explicit,
        None => {
            let hint = match complexity {
                JsonMember::Absent => is_complex,
                other => other,
            };
            let complex = match hint {
                JsonMember::Flag(b) => b,
                _ => false,
            };
            estimator.estimate_whole(&kind, complex)
        },
    };
    let mut task = Task::default();
    task.id = d.id.clone();
    task.name = d.id.clone();
    task.kind = kind;
    task.effort_hours = effort_hours;
    task.dependencies = copy_texts(&d.prerequisites);
    task
}

/// Converts a deliverable into a task.
pub fn deliverable_to_task(d: &Deliverable, estimator: &EffortEstimator) -> (r: Task)
    requires
        estimator.settings().min_hours <= estimator.settings().max_hours,
    ensures
        r.deep_view() == task_for(d.deep_view(), estimator.settings()),
{
    let description = json_member(d.metadata.as_str(), "description");
    let complexity = json_member(d.metadata.as_str(), "complexity");
    let is_complex = json_member(d.metadata.as_str(), "is_complex");
    task_with_hints(d, description, complexity, is_complex, estimator)
}

/// The tasks of a graph.
pub open spec fn graph_tasks(graph: GraphView) -> Seq<TaskView> {
    Seq::new(graph.deliverables.len(), |i: int| task_for(graph.deliverables[i], default_config()))
}

/// `result` is the analysis of the graph's tasks.
pub open spec fn analysis_of(graph: GraphView, result: ResultView) -> bool {
    if graph.deliverables.len() == 0 {
        result == blank_result()
    } else {
        exists|after: Seq<TaskView>| #[trigger] scheduled(graph_tasks(graph), after) && analysed(after, result)
    }
}

/// The analysis of the graph's tasks.
pub open spec fn graph_result(graph: GraphView) -> ResultView {
    choose|result: ResultView| analysis_of(graph, result)
}

/// The slots of a new plan: what waits for nothing is ready.
pub open spec fn initial_slots(graph: GraphView) -> Seq<SlotView> {
    Seq::new(
        graph.deliverables.len(),
        |i: int|
            SlotView {
                status: if graph.deliverables[i].prerequisites.len() == 0 { StatusView::Ready } else { StatusView::Pending },
                attempts: 0,
                failures: 0,
                lapses: 0,
                lock: None,
            },
    )
}

/// The plan that a graph makes, or why it makes none.
pub open spec fn submission(graph: GraphView) -> Result<PlanView, ErrorView> {
    match rejection(graph) {
        Some(reason) => Err(ErrorView::InvalidGraph { reason }),
        None => Ok(PlanView { graph, slots: initial_slots(graph), result: graph_result(graph) }),
    }
}

/// Efforts of a graph's tasks are efforts that a task can hold.
proof fn lemma_graph_tasks_holdable(graph: GraphView)
    ensures
        holdable(graph_tasks(graph)),
{
    let tasks = graph_tasks(graph);
    assert forall|i: int| 0 <= i < tasks.len() implies i64::MIN <= (#[trigger] tasks[i]).effort <= i64::MAX by {
        let d = graph.deliverables[i];
        assert(tasks[i] == task_for(d, default_config()));
        estimates_stay_in_range(default_config(), tasks[i].kind, true);
        estimates_stay_in_range(default_config(), tasks[i].kind, false);
    }
}

/// Every graph has an analysis.
pub proof fn graph_analysis_exists(graph: GraphView)
    ensures
        analysis_of(graph, graph_result(graph)),
{
    if graph.deliverables.len() == 0 {
        assert(analysis_of(graph, blank_result()));
    } else {
        let tasks = graph_tasks(graph);
        let after = schedule_exists(tasks);
        lemma_graph_tasks_holdable(graph);
        assert forall|i: int| 0 <= i < after.len() implies i64::MIN <= (#[trigger] after[i]).effort <= i64::MAX by {
            assert(same_work(tasks[i], after[i]));
            assert(i64::MIN <= tasks[i].effort <= i64::MAX);
        }
        let result = analysis_exists(after);
        assert(analysis_of(graph, result));
    }
}

/// A graph has one analysis.
pub proof fn graph_analysis_is_unique(graph: GraphView, a: ResultView, b: ResultView)
    requires
        analysis_of(graph, a),
        analysis_of(graph, b),
    ensures
        a == b,
{
    if graph.deliverables.len() > 0 {
        let tasks = graph_tasks(graph);
        let x = choose|after: Seq<TaskView>| #[trigger] scheduled(tasks, after) && analysed(after, a);
        let y = choose|after: Seq<TaskView>| #[trigger] scheduled(tasks, after) && analysed(after, b);
        schedule_is_unique(tasks, x, y);
        lemma_graph_tasks_holdable(graph);
        assert forall|i: int| 0 <= i < x.len() implies i64::MIN <= (#[trigger] x[i]).effort <= i64::MAX by {
            assert(same_work(tasks[i], x[i]));
            assert(i64::MIN <= tasks[i].effort <= i64::MAX);
        }
        analysis_is_unique(x, a, b);
    }
}

/// The ids of a graph's tasks are those of its deliverables.
pub proof fn lemma_graph_task_ids(graph: GraphView)
    ensures
        task_ids(graph_tasks(graph)) == deliverable_ids(graph),
        task_deps(graph_tasks(graph)) == graph_deps(graph),
{
    let tasks = graph_tasks(graph);
    assert(task_ids(tasks) =~= deliverable_ids(graph));
    let x = Seq::new(tasks.len(), |i: int| tasks[i].dependencies);
    let y = Seq::new(graph.deliverables.len(), |i: int| graph.deliverables[i].prerequisites);
    assert(x =~= y);
}

/// The critical path of an analysis names no task twice.
proof fn lemma_critical_path_distinct(tasks: Seq<TaskView>, result: ResultView)
    requires
        analysed(tasks, result),
        task_ids(tasks).no_duplicates(),
    ensures
        result.critical_path.no_duplicates(),
{
    let ids = task_ids(tasks);
    let order = choose|o: Seq<int>| #[trigger] critical_order(tasks, o) && result.critical_path == ids_at(ids, o);
    let path = result.critical_path;
    let member = |i: int| is_critical(tasks, i);
    let before = |i: int, j: int| starts_ahead(tasks, i, j);
    assert forall|a: int, b: int| 0 <= a < path.len() && 0 <= b < path.len() && a != b implies path[a] != path[b] by {
        let lo = if a < b { a } else { b };
        let hi = if a < b { b } else { a };
        assert(member(order[lo]));
        assert(member(order[hi]));
        assert(before(order[lo], order[hi]));
        assert(ids[order[lo]] != ids[order[hi]]);
    }
}

/// Builds the plan of a graph.
pub fn build_plan(graph: PlanGraph) -> (r: Result<PlanState, PlannerError>)
    requires
        graph.deliverables.len() <= isize::MAX,
    ensures
        match submission(graph.deep_view()) {
            Ok(plan) => r matches Ok(state) && state.deep_view() == plan && plan_ok(plan) && covers(plan.result, plan.graph),
            Err(e) => r matches Err(x) && x.deep_view() == e,
        },
{
    let ghost view = graph.deep_view();
    if let Err(e) = validate_graph(&graph) {
        return Err(e);
    }
    let n: usize = graph.deliverables.len();
    let estimator = EffortEstimator::new();
    let mut tasks: Vec<Task> = Vec::new();
    let mut slots: Vec<Slot> = Vec::new();
    for i in 0..n
        invariant
            n == graph.deliverables.len(),
            view == graph.deep_view(),
            estimator.settings() == default_config(),
            tasks.len() == i,
            slots.len() == i,
            forall|k: int| 0 <= k < i ==> (#[trigger] tasks[k]).deep_view() == graph_tasks(view)[k],
            forall|k: int| 0 <= k < i ==> (#[trigger] slots[k]).deep_view() == initial_slots(view)[k],
    {
        let d = &graph.deliverables[i];
        assert(view.deliverables[i as int] == d.deep_view());
        assert(d.prerequisites.deep_view().len() == d.prerequisites.len());
        tasks.push(deliverable_to_task(d, &estimator));
        let status = if d.prerequisites.len() == 0 { DeliverableStatus::Ready } else { DeliverableStatus::Pending };
        slots.push(Slot { status, attempts: 0, failures: 0, lapses: 0, lock: None });
    }
    assert(tasks.deep_view() =~= graph_tasks(view));
    assert(slots.deep_view() =~= initial_slots(view));
    proof {
        lemma_graph_task_ids(view);
    }
    let result = CpmAlgorithm::calculate(&mut tasks);
    let ghost after = tasks.deep_view();
    proof {
        assert(analysis_of(view, result.deep_view()));
        graph_analysis_is_unique(view, graph_result(view), result.deep_view());
        let rv = result.deep_view();
        if n > 0 {
            lemma_same_network(graph_tasks(view), after);
            lemma_critical_path_distinct(after, rv);
            assert forall|i: int| 0 <= i < view.deliverables.len() implies task_ids(rv.tasks).contains(#[trigger] deliverable_ids(view)[i]) by {
                assert(task_ids(rv.tasks)[i] == deliverable_ids(view)[i]);
            }
        } else {
            assert(task_ids(rv.tasks) =~= Seq::<Seq<char>>::empty());
        }
        assert(covers(rv, view));
        assert(locks_match(view, slots.deep_view()));
    }
    Ok(PlanState::new(graph, slots, result))
}

/// The structural rules: distinct ids, known prerequisites, files owned once,
/// and no deliverable that waits for itself.
pub open spec fn well_formed(graph: GraphView) -> bool {
    &&& forall|i: int| 0 <= i < graph.deliverables.len() ==> !#[trigger] repeats(deliverable_ids(graph), i)
    &&& forall|i: int| 0 <= i < graph.deliverables.len() ==> !#[trigger] has_dangling(graph, i)
    &&& forall|i: int| 0 <= i < graph.deliverables.len() ==> !#[trigger] has_taken(graph, i)
    &&& acyclic(graph_deps(graph))
}

/// A graph is rejected exactly when it breaks a structural rule.
pub proof fn rejected_exactly_when_ill_formed(graph: GraphView)
    requires
        graph.deliverables.len() <= usize::MAX,
    ensures
        rejection(graph) is None <==> well_formed(graph),
{
    let n = graph.deliverables.len();
    let ids = deliverable_ids(graph);
    let p = |i: int| repeats(ids, i);
    let q = |i: int| has_dangling(graph, i);
    let t = |i: int| has_taken(graph, i);
    lemma_first_found(n, p);
    lemma_first_found(n, q);
    lemma_first_found(n, t);
    let deps = graph_deps(graph);
    settles_exactly_when_acyclic(deps);
    if first(n, p) is None {
        assert forall|i: int| 0 <= i < n implies !#[trigger] repeats(ids, i) by {
            assert(!p(i));
        }
    } else {
        assert(repeats(ids, first(n, p)->0));
    }
    if first(n, q) is None {
        assert forall|i: int| 0 <= i < n implies !#[trigger] has_dangling(graph, i) by {
            assert(!q(i));
        }
        assert(all_known(deps)) by {
            assert forall|i: int, j: int| 0 <= i < deps.len() && 0 <= j < deps[i].len() implies (#[trigger] deps[i][j]) < deps.len() by {
                let list = graph.deliverables[i].prerequisites;
                assert(!has_dangling(graph, i));
                assert(!dangles(graph, i, j));
                lemma_position_found(ids, list[j]);
            }
        }
    } else {
        assert(has_dangling(graph, first(n, q)->0));
    }
    if first(n, t) is None {
        assert forall|i: int| 0 <= i < n implies !#[trigger] has_taken(graph, i) by {
            assert(!t(i));
        }
    } else {
        assert(has_taken(graph, first(n, t)->0));
    }
    let flags = cycle_flags(graph);
    if flags.contains(true) {
        let i = choose|i: int| 0 <= i < flags.len() && flags[i] == true;
        assert(!settled(deps, i));
    } else {
        assert forall|i: int| 0 <= i < deps.len() implies #[trigger] settled(deps, i) by {
            if !settled(deps, i) {
                assert(flags[i] == true);
            }
        }
    }
}

/// A well-formed graph always makes a plan, which holds its analysis. Nothing
/// is left unscheduled, nothing is leased, and exactly what waits for nothing
/// is ready.
pub proof fn well_formed_graphs_make_plans(graph: GraphView)
    requires
        graph.deliverables.len() <= usize::MAX,
        well_formed(graph),
    ensures
        submission(graph) == Ok::<PlanView, ErrorView>(
            PlanView { graph, slots: initial_slots(graph), result: graph_result(graph) },
        ),
        analysis_of(graph, graph_result(graph)),
        graph_result(graph).unscheduled.len() == 0,
{
    rejected_exactly_when_ill_formed(graph);
    graph_analysis_exists(graph);
    let result = graph_result(graph);
    if graph.deliverables.len() > 0 {
        let tasks = graph_tasks(graph);
        let after = choose|after: Seq<TaskView>| #[trigger] scheduled(tasks, after) && analysed(after, result);
        lemma_graph_task_ids(graph);
        lemma_same_network(tasks, after);
        let ids = deliverable_ids(graph);
        assert(task_ids(after).no_duplicates()) by {
            assert forall|a: int, b: int| 0 <= a < ids.len() && 0 <= b < ids.len() && a != b implies ids[a] != ids[b] by {
                assert(!repeats(ids, a));
                assert(!repeats(ids, b));
            }
        }
        assert(all_known(graph_deps(graph))) by {
            let deps = graph_deps(graph);
            assert forall|i: int, j: int| 0 <= i < deps.len() && 0 <= j < deps[i].len() implies (#[trigger] deps[i][j]) < deps.len() by {
                let list = graph.deliverables[i].prerequisites;
                assert(!has_dangling(graph, i));
                assert(!dangles(graph, i, j));
                lemma_position_found(ids, list[j]);
            }
        }
        unscheduled_exactly_when_cyclic(after, result);
    }
}

} // verus!
