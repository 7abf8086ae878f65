//! What a submitted graph becomes, in terms of its deliverables.

use vstd::prelude::*;

use crate::algorithm::{analysed, lemma_same_network, schedulable, scheduled, task_deps, task_ids};
use crate::analysis_laws::{depends_on, holds_up, lemma_blocks, line};
use crate::bridge::{json_member_of, MemberView};
use crate::cpm_laws::unscheduled_exactly_when_cyclic;
use crate::cycles::settles_exactly_when_acyclic;
use crate::estimator::{base_estimate, default_config, estimate_of, scaled, whole_part, EstimationConfig};
use crate::lifecycle::snapshot_of;
use crate::network::settled;
use crate::paths::{file_keys, path_key};
use crate::plan::{deliverable_ids, DeliverableView, GraphView, StatusView};
use crate::submit::{
    graph_analysis_exists, graph_result, graph_tasks, lemma_graph_task_ids, rejected_exactly_when_ill_formed,
    submission, task_for, task_from, well_formed, well_formed_graphs_make_plans,
};
use crate::task::{KindView, TaskStatus, TaskView};
use crate::timing_laws::{
    effort_along, in_order, is_known, orderly_tasks_are_scheduled, the_critical_path_lasts_the_longest_line,
    the_critical_path_lists_critical_tasks,
};
use crate::validate::{graph_deps, has_dangling, has_taken, owns_before, repeats, taken};

verus! {

/// An effort that is given is the effort of the task, whatever the estimates
/// are configured to be and whatever the metadata says.
pub proof fn a_given_effort_is_kept(d: DeliverableView, description: MemberView, complexity: MemberView, is_complex: MemberView, config: EstimationConfig, effort: i64)
    requires
        d.effort == Some(effort),
    ensures
        task_from(d, description, complexity, is_complex, config).effort == effort,
        task_for(d, config).effort == effort,
{
}

/// What a task has from its deliverable besides the effort: its id, also as
/// its name, what it waits for, and a description where the metadata gives
/// one as text.
pub proof fn a_task_has_the_id_of_its_deliverable(d: DeliverableView, description: MemberView, complexity: MemberView, is_complex: MemberView, config: EstimationConfig)
    ensures
        ({
            let t = task_from(d, description, complexity, is_complex, config);
            &&& t.id == d.id
            &&& t.name == d.id
            &&& t.dependencies == d.prerequisites
            &&& t.status == TaskStatus::Pending
            &&& t.affected_files.len() == 0
            &&& (description matches MemberView::Text(text) ==> t.kind == (KindView::Custom { description: text }))
            &&& !(description is Text) ==> t.kind == (KindView::Custom { description: Seq::empty() })
        }),
{
}

/// The metadata says that the work is complex: `complexity` is true, or there
/// is none and `is_complex` is true.
pub open spec fn said_complex(complexity: MemberView, is_complex: MemberView) -> bool {
    complexity == MemberView::Flag(true) || (complexity == MemberView::Absent && is_complex == MemberView::Flag(true))
}

/// Whether the work is complex matters only where no effort is given: there
/// it decides which of two efforts the task has.
pub proof fn only_complexity_enters_an_estimate(
    d: DeliverableView,
    e: DeliverableView,
    description: MemberView,
    complexity: MemberView,
    is_complex: MemberView,
    description2: MemberView,
    complexity2: MemberView,
    is_complex2: MemberView,
    config: EstimationConfig,
)
    requires
        d.effort is None,
        e.effort is None,
        said_complex(complexity, is_complex) == said_complex(complexity2, is_complex2),
    ensures
        task_from(d, description, complexity, is_complex, config).effort == task_from(e, description2, complexity2, is_complex2, config).effort,
{
}

/// The hours of a deliverable: what is given, else four, or six for complex
/// work.
pub open spec fn hours_of(d: DeliverableView) -> int {
    match d.effort {
        Some(e) => e as int,
        None => if said_complex(json_member_of(d.metadata, "complexity"@), json_member_of(d.metadata, "is_complex"@)) {
            6_000_000
        } else {
            4_000_000
        },
    }
}

/// A line of deliverables, each of which waits for the one before it.
pub open spec fn line_of_work(graph: GraphView, path: Seq<int>) -> bool {
    &&& path.len() > 0
    &&& forall|k: int| 0 <= k < path.len() ==> 0 <= #[trigger] path[k] < graph.deliverables.len()
    &&& forall|k: int| 0 < k < path.len() ==> graph.deliverables[#[trigger] path[k]].prerequisites.contains(graph.deliverables[path[k - 1]].id)
}

/// The hours of a line of deliverables.
pub open spec fn hours_along(graph: GraphView, path: Seq<int>) -> int
    decreases path.len(),
{
    if path.len() == 0 {
        0
    } else {
        hours_along(graph, path.drop_last()) + hours_of(graph.deliverables[path.last()])
    }
}

/// No id occurs twice, every prerequisite is in the graph, no file is listed
/// twice under any of its names, and no line of work comes back to where it
/// starts.
pub open spec fn sensible(graph: GraphView) -> bool {
    let ds = graph.deliverables;
    &&& forall|i: int, j: int| 0 <= i < j < ds.len() ==> (#[trigger] ds[i]).id != (#[trigger] ds[j]).id
    &&& forall|i: int, a: int| 0 <= i < ds.len() && 0 <= a < ds[i].prerequisites.len() ==> names_work(graph, #[trigger] ds[i].prerequisites[a])
    &&& forall|i: int, a: int, j: int, b: int| 0 <= i < ds.len() && 0 <= a < ds[i].owned_files.len() && 0 <= j < ds.len() && 0 <= b < ds[j].owned_files.len()
        && (i != j || a != b) ==> path_key(#[trigger] ds[i].owned_files[a]) != path_key(#[trigger] ds[j].owned_files[b])
    &&& forall|path: Seq<int>| #[trigger] line_of_work(graph, path) && path.len() >= 2 ==> path[0] != path.last()
}

/// Some deliverable has the id.
pub open spec fn names_work(graph: GraphView, id: Seq<char>) -> bool {
    exists|j: int| 0 <= j < graph.deliverables.len() && (#[trigger] graph.deliverables[j]).id == id
}

/// The tasks of a graph have the hours of its deliverables.
proof fn lemma_hours(graph: GraphView, i: int)
    requires
        0 <= i < graph.deliverables.len(),
    ensures
        graph_tasks(graph)[i].effort == hours_of(graph.deliverables[i]),
        graph_tasks(graph)[i].id == graph.deliverables[i].id,
        graph_tasks(graph)[i].dependencies == graph.deliverables[i].prerequisites,
{
    let d = graph.deliverables[i];
    let config = default_config();
    let kind = graph_tasks(graph)[i].kind;
    if d.effort is None {
        let base = base_estimate(config, kind);
        assert(base == (4_000_000int, 1int));
        let raised = scaled(base, config.complexity_multiplier as int);
        assert(raised.0 == 6_000_000_000_000) by (nonlinear_arith)
            requires
                raised.0 == base.0 * config.complexity_multiplier,
                base.0 == 4_000_000,
                config.complexity_multiplier == 1_500_000,
        ;
        assert(raised.1 == 1_000_000);
        assert(estimate_of(config, kind, false) == base);
        assert(estimate_of(config, kind, true) == raised);
        assert(whole_part(base) == 4_000_000);
        assert(whole_part(raised) == 6_000_000);
    }
}

/// A line of deliverables is a line of tasks, and lasts as long.
proof fn lemma_line_of_work(graph: GraphView, path: Seq<int>)
    ensures
        line_of_work(graph, path) <==> line(graph_tasks(graph), path),
        (forall|k: int| 0 <= k < path.len() ==> 0 <= #[trigger] path[k] < graph.deliverables.len()) ==> hours_along(graph, path) == effort_along(graph_tasks(graph), path),
    decreases path.len(),
{
    let tasks = graph_tasks(graph);
    if line_of_work(graph, path) {
        assert forall|k: int| 0 < k < path.len() implies depends_on(tasks, #[trigger] path[k], path[k - 1]) by {
            assert(0 <= path[k - 1] < graph.deliverables.len());
        }
    }
    if line(tasks, path) {
        assert forall|k: int| 0 < k < path.len() implies graph.deliverables[#[trigger] path[k]].prerequisites.contains(graph.deliverables[path[k - 1]].id) by {
            assert(0 <= path[k - 1] < tasks.len());
            assert(depends_on(tasks, path[k], path[k - 1]));
        }
    }
    if path.len() > 0 && (forall|k: int| 0 <= k < path.len() ==> 0 <= #[trigger] path[k] < graph.deliverables.len()) {
        assert(0 <= path[path.len() - 1] < graph.deliverables.len());
        lemma_hours(graph, path.last());
        assert forall|k: int| 0 <= k < path.drop_last().len() implies 0 <= #[trigger] path.drop_last()[k] < graph.deliverables.len() by {
            assert(path.drop_last()[k] == path[k]);
        }
        lemma_line_of_work(graph, path.drop_last());
    }
}

/// A well-formed graph is a sensible one.
proof fn lemma_sensible(graph: GraphView)
    requires
        graph.deliverables.len() <= usize::MAX,
    ensures
        well_formed(graph) <==> sensible(graph),
{
    let ds = graph.deliverables;
    let ids = deliverable_ids(graph);
    let tasks = graph_tasks(graph);
    lemma_graph_task_ids(graph);
    if well_formed(graph) || sensible(graph) {
        assert forall|i: int, j: int| 0 <= i < j < ds.len() implies (#[trigger] ds[i]).id != (#[trigger] ds[j]).id by {
            if ds[i].id == ds[j].id {
                assert(ids[i] == ids[j]);
                assert(repeats(ids, j));
            }
        }
        assert(ids.no_duplicates());
        assert(task_ids(tasks).no_duplicates());
    }
    if well_formed(graph) {
        assert forall|i: int, a: int| 0 <= i < ds.len() && 0 <= a < ds[i].prerequisites.len() implies names_work(graph, #[trigger] ds[i].prerequisites[a]) by {
            assert(!has_dangling(graph, i));
            assert(!crate::validate::dangles(graph, i, a));
            let j = choose|j: int| 0 <= j < ids.len() && ids[j] == ds[i].prerequisites[a];
            assert(ds[j].id == ds[i].prerequisites[a]);
        }
        assert forall|i: int, a: int, j: int, b: int| 0 <= i < ds.len() && 0 <= a < ds[i].owned_files.len() && 0 <= j < ds.len() && 0 <= b < ds[j].owned_files.len()
            && (i != j || a != b) implies path_key(#[trigger] ds[i].owned_files[a]) != path_key(#[trigger] ds[j].owned_files[b]) by {
            assert(!has_taken(graph, i) && !has_taken(graph, j));
            assert(!taken(graph, i, a) && !taken(graph, j, b));
            assert(!owns_before(graph, i, a, j) && !owns_before(graph, j, b, i));
            assert(file_keys(ds[i])[a] == path_key(ds[i].owned_files[a]));
            assert(file_keys(ds[j])[b] == path_key(ds[j].owned_files[b]));
        }
        assert forall|path: Seq<int>| #[trigger] line_of_work(graph, path) && path.len() >= 2 implies path[0] != path.last() by {
            lemma_line_of_work(graph, path);
            if path[0] == path.last() {
                let i = path[0];
                assert(holds_up(tasks, i, i));
                lemma_blocks(tasks, i, i);
                assert(!crate::reach::blocks(crate::reach::reversed(graph_deps(graph)), i, i));
            }
        }
    }
    if sensible(graph) {
        assert forall|i: int| 0 <= i < ds.len() implies !#[trigger] repeats(ids, i) by {
            if repeats(ids, i) {
                let k = choose|k: int| 0 <= k < i && #[trigger] ids[k] == ids[i];
                assert(ds[k].id == ds[i].id);
            }
        }
        assert forall|i: int| 0 <= i < ds.len() implies !#[trigger] has_dangling(graph, i) by {
            if has_dangling(graph, i) {
                let a = choose|a: int| 0 <= a < ds[i].prerequisites.len() && #[trigger] crate::validate::dangles(graph, i, a);
                assert(names_work(graph, ds[i].prerequisites[a]));
                let j = choose|j: int| 0 <= j < ds.len() && (#[trigger] ds[j]).id == ds[i].prerequisites[a];
                assert(ids[j] == ds[i].prerequisites[a]);
            }
        }
        assert forall|i: int| 0 <= i < ds.len() implies !#[trigger] has_taken(graph, i) by {
            if has_taken(graph, i) {
                let a = choose|a: int| 0 <= a < ds[i].owned_files.len() && #[trigger] taken(graph, i, a);
                let k = choose|k: int| #[trigger] owns_before(graph, i, a, k);
                let l = choose|l: int| {
                    &&& 0 <= l < ds[k].owned_files.len()
                    &&& k < i || l < a
                    &&& #[trigger] file_keys(ds[k])[l] == file_keys(ds[i])[a]
                };
                assert(path_key(ds[k].owned_files[l]) == path_key(ds[i].owned_files[a]));
            }
        }
        assert forall|i: int| 0 <= i < graph_deps(graph).len() implies !#[trigger] crate::reach::blocks(crate::reach::reversed(graph_deps(graph)), i, i) by {
            lemma_blocks(tasks, i, i);
            if holds_up(tasks, i, i) {
                let path = choose|path: Seq<int>| #[trigger] line(tasks, path) && path.len() >= 2 && path[0] == i && path.last() == i;
                lemma_line_of_work(graph, path);
                assert(line_of_work(graph, path));
            }
        }
    }
}

/// A graph becomes a plan exactly when it is sensible; any other is refused as
/// an invalid graph.
pub proof fn sensible_graphs_become_plans(graph: GraphView)
    requires
        graph.deliverables.len() <= usize::MAX,
    ensures
        submission(graph) is Ok <==> sensible(graph),
        submission(graph) matches Err(e) ==> e is InvalidGraph,
{
    rejected_exactly_when_ill_formed(graph);
    lemma_sensible(graph);
}

/// The analysis in a new plan, unless the graph is empty.
proof fn lemma_plan_analysis(graph: GraphView) -> (after: Seq<TaskView>)
    requires
        graph.deliverables.len() <= usize::MAX,
        graph.deliverables.len() > 0,
        submission(graph) is Ok,
    ensures
        scheduled(graph_tasks(graph), after),
        analysed(after, graph_result(graph)),
        task_ids(graph_tasks(graph)).no_duplicates(),
        in_order(graph_tasks(graph)),
        after == graph_result(graph).tasks,
{
    let tasks = graph_tasks(graph);
    let r = graph_result(graph);
    rejected_exactly_when_ill_formed(graph);
    graph_analysis_exists(graph);
    let after = choose|after: Seq<TaskView>| #[trigger] scheduled(tasks, after) && analysed(after, r);
    lemma_graph_task_ids(graph);
    let ids = deliverable_ids(graph);
    assert(ids.no_duplicates()) by {
        assert forall|i: int, j: int| 0 <= i < ids.len() && 0 <= j < ids.len() && i != j implies ids[i] != ids[j] by {
            if ids[i] == ids[j] {
                assert(!repeats(ids, i) && !repeats(ids, j));
            }
        }
    }
    well_formed_graphs_make_plans(graph);
    lemma_same_network(tasks, after);
    unscheduled_exactly_when_cyclic(after, r);
    let deps = task_deps(tasks);
    settles_exactly_when_acyclic(deps);
    assert forall|i: int| 0 <= i < tasks.len() implies #[trigger] schedulable(tasks)[i] by {
        assert(settled(deps, i));
    }
    orderly_tasks_are_scheduled(tasks);
    after
}

/// What is in a new plan: the graph itself; for every deliverable a task with
/// its id, what it waits for and its hours; and a slot that nobody holds and
/// nothing was counted for, ready where it waits for nothing.
pub proof fn a_new_plan_holds_the_graph(graph: GraphView, i: int)
    requires
        graph.deliverables.len() <= usize::MAX,
        0 <= i < graph.deliverables.len(),
    ensures
        submission(graph) matches Ok(plan) ==> {
            &&& plan.graph == graph
            &&& plan.result.total_tasks == graph.deliverables.len()
            &&& plan.result.tasks.len() == graph.deliverables.len()
            &&& plan.result.tasks[i].id == graph.deliverables[i].id
            &&& plan.result.tasks[i].name == graph.deliverables[i].id
            &&& plan.result.tasks[i].dependencies == graph.deliverables[i].prerequisites
            &&& plan.result.tasks[i].effort == hours_of(graph.deliverables[i])
            &&& plan.slots.len() == graph.deliverables.len()
            &&& plan.slots[i].status == (if graph.deliverables[i].prerequisites.len() == 0 { StatusView::Ready } else { StatusView::Pending })
            &&& plan.slots[i].lock is None
            &&& plan.slots[i].attempts == 0
            &&& plan.slots[i].failures == 0
            &&& plan.slots[i].lapses == 0
        },
{
    if submission(graph) is Ok {
        let after = lemma_plan_analysis(graph);
        lemma_hours(graph, i);
        assert(crate::algorithm::same_work(graph_tasks(graph)[i], after[i]));
    }
}

/// The status of a new plan says how long the critical path takes: as long as
/// the longest line of work in the graph, and no line takes longer. It lists
/// the deliverables whose tasks have no float.
pub proof fn status_gives_the_longest_line_of_work(graph: GraphView, plan_id: Seq<char>)
    requires
        graph.deliverables.len() <= usize::MAX,
    ensures
        submission(graph) matches Ok(plan) ==> {
            let s = snapshot_of(plan, plan_id);
            &&& s.critical_path_hours >= 0
            &&& forall|path: Seq<int>| #[trigger] line_of_work(graph, path) ==> hours_along(graph, path) <= s.critical_path_hours
            &&& s.critical_path_hours == 0 || exists|path: Seq<int>| #[trigger] line_of_work(graph, path) && hours_along(graph, path) == s.critical_path_hours
            &&& s.critical_path.no_duplicates()
            &&& forall|i: int| 0 <= i < graph.deliverables.len() ==> ((#[trigger] plan.result.tasks[i]).float == 0 <==> s.critical_path.contains(graph.deliverables[i].id))
            &&& forall|p: int| 0 <= p < s.critical_path.len() ==> names_work(graph, #[trigger] s.critical_path[p])
        },
{
    if let Ok(plan) = submission(graph) {
        let s = snapshot_of(plan, plan_id);
        if graph.deliverables.len() == 0 {
            graph_analysis_exists(graph);
            assert forall|path: Seq<int>| #[trigger] line_of_work(graph, path) implies hours_along(graph, path) <= s.critical_path_hours by {
                assert(0 <= path[0] < graph.deliverables.len());
            }
        } else {
            let tasks = graph_tasks(graph);
            let after = lemma_plan_analysis(graph);
            let r = plan.result;
            the_critical_path_lasts_the_longest_line(tasks, after, r);
            lemma_same_network(tasks, after);
            the_critical_path_lists_critical_tasks(after, r);
            assert forall|path: Seq<int>| #[trigger] line_of_work(graph, path) implies hours_along(graph, path) <= s.critical_path_hours by {
                lemma_line_of_work(graph, path);
                assert(line(tasks, path));
            }
            if s.critical_path_hours > 0 {
                let path = choose|path: Seq<int>| #[trigger] line(tasks, path) && effort_along(tasks, path) == r.critical_path_duration;
                lemma_line_of_work(graph, path);
                assert(line_of_work(graph, path));
            }
            assert forall|i: int| 0 <= i < graph.deliverables.len() implies ((#[trigger] plan.result.tasks[i]).float == 0 <==> s.critical_path.contains(graph.deliverables[i].id)) by {
                assert(crate::algorithm::same_work(tasks[i], after[i]));
                assert(after[i].is_critical <==> after[i].float == 0);
                lemma_hours(graph, i);
            }
            assert forall|p: int| 0 <= p < s.critical_path.len() implies names_work(graph, #[trigger] s.critical_path[p]) by {
                assert(is_known(after, r.critical_path[p]));
                let j = choose|j: int| 0 <= j < after.len() && (#[trigger] after[j]).id == r.critical_path[p];
                assert(crate::algorithm::same_work(tasks[j], after[j]));
                assert(graph.deliverables[j].id == s.critical_path[p]);
            }
        }
    }
}

} // verus!
