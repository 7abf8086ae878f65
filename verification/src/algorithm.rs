//! Critical path analysis.
//!
//! 1. Forward pass: earliest start and finish
//! 2. Backward pass: latest start and finish
//! 3. Float: latest start minus earliest start
//! 4. Critical path: tasks without float
//! 5. Batches: tasks that can start together
//! 6. Bottlenecks: tasks that block the most work

use vstd::prelude::*;
use vstd::string::*;

use crate::index::{build_index, resolve_list, resolved, resolved_list};
use crate::latest::late_times;
use crate::network::{settled_flags, topological_order};
use crate::ranking::{
    ahead, ids_at, lemma_relist, lists_in_order, order_by, positions, sorted_ids, sorted_marked, Descending, Ranked,
};
use crate::ratio::Ratio;
use crate::reach::{blocked_flags, marked_count, marked_total, reversed, total_marked};
use crate::schedule::{
    early_times, efforts, latest_finish_of_all, lemma_project_end, project_end, wide, EFFORT_SPAN,
};
use crate::task::{
    blank_result, copy_tasks, BatchView, Bottleneck, BottleneckView, CriticalPathResult, ResultView, Task, TaskBatch,
    TaskView,
};
use crate::text::{decimal, numeral};
use crate::turns::{turn, turns_of};

verus! {

/// The critical path calculator.
pub struct CpmAlgorithm;

/// The ids of the tasks.
pub open spec fn task_ids(tasks: Seq<TaskView>) -> Seq<Seq<char>> {
    Seq::new(tasks.len(), |i: int| tasks[i].id)
}

/// The efforts of the tasks.
pub open spec fn task_efforts(tasks: Seq<TaskView>) -> Seq<int> {
    Seq::new(tasks.len(), |i: int| tasks[i].effort)
}

/// The dependencies of the tasks, by position.
pub open spec fn task_deps(tasks: Seq<TaskView>) -> Seq<Seq<usize>> {
    resolved(task_ids(tasks), Seq::new(tasks.len(), |i: int| tasks[i].dependencies))
}

/// For each task, whether it can be scheduled: its dependencies are known
/// and can be scheduled themselves.
pub open spec fn schedulable(tasks: Seq<TaskView>) -> Seq<bool> {
    settled_flags(task_deps(tasks))
}

/// The earliest starts of the tasks.
pub open spec fn early_starts(tasks: Seq<TaskView>) -> Seq<int> {
    Seq::new(tasks.len(), |i: int| tasks[i].earliest_start)
}

/// The earliest finishes of the tasks.
pub open spec fn early_finishes(tasks: Seq<TaskView>) -> Seq<int> {
    Seq::new(tasks.len(), |i: int| tasks[i].earliest_finish)
}

/// The latest starts of the tasks.
pub open spec fn late_starts(tasks: Seq<TaskView>) -> Seq<int> {
    Seq::new(tasks.len(), |i: int| tasks[i].latest_start)
}

/// The latest finishes of the tasks.
pub open spec fn late_finishes(tasks: Seq<TaskView>) -> Seq<int> {
    Seq::new(tasks.len(), |i: int| tasks[i].latest_finish)
}

/// Two tasks that differ at most in their calculated times.
pub open spec fn same_work(a: TaskView, b: TaskView) -> bool {
    &&& a.id == b.id
    &&& a.name == b.name
    &&& a.kind == b.kind
    &&& a.effort == b.effort
    &&& a.dependencies == b.dependencies
    &&& a.status == b.status
    &&& a.affected_files == b.affected_files
}

/// `after` is `before` with its times calculated.
pub open spec fn scheduled(before: Seq<TaskView>, after: Seq<TaskView>) -> bool {
    &&& after.len() == before.len()
    &&& forall|i: int| 0 <= i < before.len() ==> same_work(before[i], #[trigger] after[i])
    &&& early_times(task_deps(before), schedulable(before), task_efforts(before), early_starts(after), early_finishes(after))
    &&& late_times(
        task_deps(before),
        task_efforts(before),
        project_end(early_finishes(after)),
        late_starts(after),
        late_finishes(after),
    )
    &&& forall|i: int| 0 <= i < before.len() ==> (#[trigger] after[i]).float == after[i].latest_start - after[i].earliest_start
    &&& forall|i: int| 0 <= i < before.len() ==> ((#[trigger] after[i]).is_critical <==> after[i].float == 0)
}

/// Task `i` starts before task `j`: at an earlier time, or at the same time in
/// an earlier turn.
pub open spec fn starts_before(tasks: Seq<TaskView>, i: int, j: int) -> bool {
    ||| tasks[i].earliest_start < tasks[j].earliest_start
    ||| tasks[i].earliest_start == tasks[j].earliest_start && turn(tasks, i) < turn(tasks, j)
}

/// Task `i` starts with task `j`: at the same time, in the same turn.
pub open spec fn starts_with(tasks: Seq<TaskView>, i: int, j: int) -> bool {
    tasks[i].earliest_start == tasks[j].earliest_start && turn(tasks, i) == turn(tasks, j)
}

/// For each task, whether it starts with task `lead`.
pub open spec fn in_batch(tasks: Seq<TaskView>, lead: int) -> Seq<bool> {
    Seq::new(tasks.len(), |i: int| starts_with(tasks, lead, i))
}

/// The marked ids, in order.
pub open spec fn marked_ids(marks: Seq<bool>, ids: Seq<Seq<char>>) -> Seq<Seq<char>>
    decreases marks.len(),
{
    if marks.len() == 0 {
        Seq::empty()
    } else {
        let rest = marked_ids(marks.drop_last(), ids);
        if marks.last() {
            rest.push(ids[marks.len() - 1])
        } else {
            rest
        }
    }
}

/// The largest marked value, or zero.
pub open spec fn marked_max(marks: Seq<bool>, values: Seq<int>) -> int
    decreases marks.len(),
{
    if marks.len() == 0 {
        0
    } else {
        let rest = marked_max(marks.drop_last(), values);
        if marks.last() && values[marks.len() - 1] > rest {
            values[marks.len() - 1]
        } else {
            rest
        }
    }
}

/// The batch with the given number, of the tasks that start with task `lead`.
pub open spec fn batch_view(tasks: Seq<TaskView>, number: int, lead: int) -> BatchView {
    BatchView {
        id: "Batch-"@ + numeral(number as nat),
        tasks: marked_ids(in_batch(tasks, lead), task_ids(tasks)),
        total_effort: marked_total(in_batch(tasks, lead), task_efforts(tasks)),
        duration: marked_max(in_batch(tasks, lead), task_efforts(tasks)),
        start_time: tasks[lead].earliest_start,
    }
}

/// Task `i` is the first of the tasks that start with it.
pub open spec fn leads_batch(tasks: Seq<TaskView>, i: int) -> bool {
    0 <= i < tasks.len() && forall|j: int| 0 <= j < i ==> !#[trigger] starts_with(tasks, j, i)
}

/// `leads` are the first tasks of the batches, in order of start.
pub open spec fn batch_order(tasks: Seq<TaskView>, leads: Seq<int>) -> bool {
    lists_in_order(leads, |i: int| leads_batch(tasks, i), |i: int, j: int| starts_before(tasks, i, j))
}

/// The batches of a schedule: the tasks that start together, in order of
/// start.
pub open spec fn batched(tasks: Seq<TaskView>, batches: Seq<BatchView>) -> bool {
    exists|leads: Seq<int>| #[trigger] batch_order(tasks, leads) && batches == Seq::new(leads.len(), |k: int| batch_view(tasks, k, leads[k]))
}

/// Marks for the tasks that task `i` blocks.
pub open spec fn task_blocks(tasks: Seq<TaskView>, i: int) -> Seq<bool> {
    blocked_flags(reversed(task_deps(tasks)), i)
}

/// The return on finishing a task: blocked effort over own effort, zero for a
/// task without effort.
pub open spec fn return_on(blocked: int, effort: int) -> Ratio {
    if effort > 0 {
        Ratio { num: blocked as i128, den: effort as i128 }
    } else {
        Ratio { num: 0, den: 1 }
    }
}

/// What task `i` holds up.
pub open spec fn bottleneck_view(tasks: Seq<TaskView>, i: int) -> BottleneckView {
    let blocked = marked_total(task_blocks(tasks, i), task_efforts(tasks));
    BottleneckView {
        task_id: tasks[i].id,
        task_name: tasks[i].name,
        blocks_count: marked_count(task_blocks(tasks, i)) as int,
        blocked_effort: blocked,
        roi: return_on(blocked, tasks[i].effort),
        effort: tasks[i].effort,
    }
}

/// Task `i` holds something up.
pub open spec fn is_bottleneck(tasks: Seq<TaskView>, i: int) -> bool {
    0 <= i < tasks.len() && marked_count(task_blocks(tasks, i)) > 0
}

/// Task `i` is a better investment than task `j`, or an equal one that comes
/// earlier.
pub open spec fn better_return(tasks: Seq<TaskView>, i: int, j: int) -> bool {
    let a = bottleneck_view(tasks, i).roi;
    let b = bottleneck_view(tasks, j).roi;
    b.below(a) || (!a.below(b) && i < j)
}

/// `order` lists the bottlenecks by return.
pub open spec fn return_order(tasks: Seq<TaskView>, order: Seq<int>) -> bool {
    lists_in_order(order, |i: int| is_bottleneck(tasks, i), |i: int, j: int| better_return(tasks, i, j))
}

/// The bottlenecks of a schedule, highest return first.
pub open spec fn bottlenecked(tasks: Seq<TaskView>, bottlenecks: Seq<BottleneckView>) -> bool {
    exists|order: Seq<int>| #[trigger] return_order(tasks, order) && bottlenecks == Seq::new(order.len(), |k: int| bottleneck_view(tasks, order[k]))
}

/// For each task, whether it is critical.
pub open spec fn critical_flags(tasks: Seq<TaskView>) -> Seq<bool> {
    Seq::new(tasks.len(), |i: int| tasks[i].is_critical)
}

/// Task `i` is critical.
pub open spec fn is_critical(tasks: Seq<TaskView>, i: int) -> bool {
    0 <= i < tasks.len() && tasks[i].is_critical
}

/// Task `i` starts before task `j`, or with it and comes earlier.
pub open spec fn starts_ahead(tasks: Seq<TaskView>, i: int, j: int) -> bool {
    starts_before(tasks, i, j) || (starts_with(tasks, i, j) && i < j)
}

/// `order` lists the critical tasks by start.
pub open spec fn critical_order(tasks: Seq<TaskView>, order: Seq<int>) -> bool {
    lists_in_order(order, |i: int| is_critical(tasks, i), |i: int, j: int| starts_ahead(tasks, i, j))
}

/// The critical path: the critical tasks in the order in which they are done.
pub open spec fn critical_listed(tasks: Seq<TaskView>, path: Seq<Seq<char>>) -> bool {
    exists|order: Seq<int>| #[trigger] critical_order(tasks, order) && path == ids_at(task_ids(tasks), order)
}

/// For each task, whether it cannot be scheduled.
pub open spec fn unscheduled_flags(tasks: Seq<TaskView>) -> Seq<bool> {
    Seq::new(tasks.len(), |i: int| !schedulable(tasks)[i])
}

/// Sum of the efforts.
pub open spec fn total_effort(values: Seq<int>) -> int
    decreases values.len(),
{
    if values.len() == 0 {
        0
    } else {
        total_effort(values.drop_last()) + values.last()
    }
}

/// The analysis of a non-empty schedule.
pub open spec fn analysed(tasks: Seq<TaskView>, r: ResultView) -> bool {
    &&& r.total_tasks == tasks.len()
    &&& r.tasks == tasks
    &&& critical_listed(tasks, r.critical_path)
    &&& r.critical_path_duration == project_end(early_finishes(tasks))
    &&& r.sequential == total_effort(task_efforts(tasks))
    &&& batched(tasks, r.batches)
    &&& r.parallel == project_end(early_finishes(tasks))
    &&& r.speedup == (if r.parallel > 0 {
        Ratio { num: r.sequential as i128, den: r.parallel as i128 }
    } else {
        Ratio { num: 1, den: 1 }
    })
    &&& bottlenecked(tasks, r.bottlenecks)
    &&& r.unscheduled == sorted_ids(task_ids(tasks), unscheduled_flags(tasks))
}

/// The ids of the tasks.
pub fn ids_of(tasks: &Vec<Task>) -> (r: Vec<String>)
    ensures
        r.deep_view() == task_ids(tasks.deep_view()),
{
    let mut r: Vec<String> = Vec::new();
    for i in 0..tasks.len()
        invariant
            r.len() == i,
            forall|k: int| 0 <= k < i ==> (#[trigger] r[k])@ == tasks[k].id@,
    {
        r.push(tasks[i].id.clone());
    }
    assert(r.deep_view() =~= task_ids(tasks.deep_view()));
    r
}

/// The efforts of the tasks.
fn efforts_of(tasks: &Vec<Task>) -> (r: Vec<i64>)
    ensures
        efforts(r@) == task_efforts(tasks.deep_view()),
        r.len() == tasks.len(),
{
    let mut r: Vec<i64> = Vec::new();
    for i in 0..tasks.len()
        invariant
            r.len() == i,
            forall|k: int| 0 <= k < i ==> (#[trigger] r[k]) == tasks[k].effort_hours,
    {
        r.push(tasks[i].effort_hours);
    }
    assert(efforts(r@) =~= task_efforts(tasks.deep_view()));
    r
}

/// The ids at the listed positions.
fn pick_ids(tasks: &Vec<Task>, order: &Vec<usize>) -> (r: Vec<String>)
    requires
        forall|k: int| 0 <= k < order.len() ==> (#[trigger] order@[k]) < tasks.len(),
    ensures
        r.deep_view() == ids_at(task_ids(tasks.deep_view()), positions(order@)),
{
    let mut r: Vec<String> = Vec::new();
    for k in 0..order.len()
        invariant
            forall|k: int| 0 <= k < order.len() ==> (#[trigger] order@[k]) < tasks.len(),
            r.len() == k,
            forall|a: int| 0 <= a < k ==> (#[trigger] r[a])@ == tasks[order@[a] as int].id@,
    {
        r.push(tasks[order[k]].id.clone());
    }
    assert(r.deep_view() =~= ids_at(task_ids(tasks.deep_view()), positions(order@)));
    r
}

impl CpmAlgorithm {
    /// The dependencies of the tasks by position. `None` when an id occurs
    /// twice.
    fn resolve(tasks: &Vec<Task>) -> (r: Option<Vec<Vec<usize>>>)
        ensures
            r is Some <==> task_ids(tasks.deep_view()).no_duplicates(),
            r matches Some(net) ==> {
                &&& net.deep_view() == task_deps(tasks.deep_view())
                &&& net.len() == tasks.len()
            },
    {
        let ids = ids_of(tasks);
        let map = match build_index(&ids) {
            Some(map) => map,
            None => {
                return None;
            },
        };
        let ghost view = tasks.deep_view();
        let ghost names = task_ids(view);
        let mut deps: Vec<Vec<usize>> = Vec::new();
        for i in 0..tasks.len()
            invariant
                view == tasks.deep_view(),
                names == task_ids(view),
                crate::index::indexes(map@, names),
                deps.len() == i,
                forall|k: int| 0 <= k < i ==> (#[trigger] deps[k])@ == resolved_list(names, view[k].dependencies),
        {
            let list = resolve_list(&map, tasks.len(), &tasks[i].dependencies, Ghost(names));
            deps.push(list);
        }
        proof {
            let net = task_deps(view);
            assert forall|k: int| 0 <= k < net.len() implies #[trigger] deps.deep_view()[k] == net[k] by {
                assert(deps[k].deep_view() =~= deps[k]@);
            }
            assert(deps.deep_view() =~= net);
        }
        Some(deps)
    }

    /// Writes the calculated times into the tasks, with float and
    /// criticality.
    fn calculate_float(tasks: &mut Vec<Task>, es: &Vec<i128>, ef: &Vec<i128>, ls: &Vec<i128>, lf: &Vec<i128>)
        requires
            es.len() == old(tasks).len(),
            ef.len() == old(tasks).len(),
            ls.len() == old(tasks).len(),
            lf.len() == old(tasks).len(),
            forall|i: int| 0 <= i < es.len() ==> i128::MIN <= ls@[i] - #[trigger] es@[i] <= i128::MAX,
        ensures
            final(tasks).len() == old(tasks).len(),
            forall|i: int| 0 <= i < es.len() ==> same_work(old(tasks)[i].deep_view(), (#[trigger] final(tasks)[i]).deep_view()),
            forall|i: int| 0 <= i < es.len() ==> {
                let t = #[trigger] final(tasks)[i];
                &&& t.earliest_start == es@[i]
                &&& t.earliest_finish == ef@[i]
                &&& t.latest_start == ls@[i]
                &&& t.latest_finish == lf@[i]
                &&& t.float == ls@[i] - es@[i]
                &&& t.is_critical <==> t.float == 0
            },
    {
        let n: usize = tasks.len();
        let ghost before = tasks@;
        for i in 0..n
            invariant
                n == before.len(),
                tasks.len() == n,
                es.len() == n,
                ef.len() == n,
                ls.len() == n,
                lf.len() == n,
                forall|k: int| 0 <= k < es.len() ==> i128::MIN <= ls@[k] - #[trigger] es@[k] <= i128::MAX,
                forall|k: int| i <= k < n ==> #[trigger] tasks@[k] == before[k],
                forall|k: int| 0 <= k < i ==> same_work(before[k].deep_view(), (#[trigger] tasks@[k]).deep_view()),
                forall|k: int| 0 <= k < i ==> {
                    let t = #[trigger] tasks@[k];
                    &&& t.earliest_start == es@[k]
                    &&& t.earliest_finish == ef@[k]
                    &&& t.latest_start == ls@[k]
                    &&& t.latest_finish == lf@[k]
                    &&& t.float == ls@[k] - es@[k]
                    &&& t.is_critical <==> t.float == 0
                },
        {
            let float: i128 = ls[i] - es[i];
            let task = &mut tasks[i];
            task.earliest_start = es[i];
            task.earliest_finish = ef[i];
            task.latest_start = ls[i];
            task.latest_finish = lf[i];
            task.float = float;
            task.is_critical = float == 0;
        }
    }

    /// Groups the tasks that start together.
    fn identify_parallel_batches(tasks: &Vec<Task>, turns: &Vec<usize>) -> (r: Vec<TaskBatch>)
        requires
            turns.len() == tasks.len(),
            forall|i: int| 0 <= i < tasks.len() ==> #[trigger] turns@[i] == turn(tasks.deep_view(), i),
        ensures
            batched(tasks.deep_view(), r.deep_view()),
    {
        let ghost view = tasks.deep_view();
        let n: usize = tasks.len();
        let mut keys: Vec<(i128, usize)> = Vec::new();
        let mut leading: Vec<bool> = Vec::new();
        for i in 0..n
            invariant
                n == tasks.len(),
                n == turns.len(),
                view == tasks.deep_view(),
                forall|k: int| 0 <= k < n ==> #[trigger] turns@[k] == turn(view, k),
                keys.len() == i,
                leading.len() == i,
                forall|k: int| 0 <= k < i ==> (#[trigger] keys@[k]).0 == view[k].earliest_start && keys@[k].1 == turn(view, k),
                forall|k: int| 0 <= k < i ==> #[trigger] leading@[k] == leads_batch(view, k),
        {
            let key: (i128, usize) = (tasks[i].earliest_start, turns[i]);
            let mut leads = true;
            for j in 0..i
                invariant
                    i < n,
                    n == tasks.len(),
                    view == tasks.deep_view(),
                    keys.len() == i,
                    key.0 == view[i as int].earliest_start,
                    key.1 == turn(view, i as int),
                    forall|k: int| 0 <= k < i ==> (#[trigger] keys@[k]).0 == view[k].earliest_start && keys@[k].1 == turn(view, k),
                    leads <==> forall|k: int| 0 <= k < j ==> !#[trigger] starts_with(view, k, i as int),
            {
                if keys[j].0 == key.0 && keys[j].1 == key.1 {
                    assert(starts_with(view, j as int, i as int));
                    leads = false;
                }
            }
            keys.push(key);
            leading.push(leads);
        }
        let order = order_by(&keys, &leading);
        let ghost leads = positions(order@);
        proof {
            let member = |k: int| 0 <= k < leading@.len() && leading@[k];
            let before = |i: int, j: int| ahead(keys@, i, j);
            let member2 = |i: int| leads_batch(view, i);
            let before2 = |i: int, j: int| starts_before(view, i, j);
            assert forall|i: int, j: int| member(i) && member(j) && i != j && #[trigger] before(i, j) implies before2(i, j) by {
                assert(leads_batch(view, i) && leads_batch(view, j));
                if starts_with(view, i, j) {
                    assert(starts_with(view, j, i));
                }
            }
            lemma_relist(leads, member, before, member2, before2);
            assert(batch_order(view, leads));
            assert forall|k: int| 0 <= k < order.len() implies (#[trigger] order@[k]) < n by {
                assert(member(leads[k]));
            }
        }
        let effort = efforts_of(tasks);
        let mut batches: Vec<TaskBatch> = Vec::new();
        for b in 0..order.len()
            invariant
                n == tasks.len(),
                view == tasks.deep_view(),
                keys.len() == n,
                effort.len() == n,
                efforts(effort@) == task_efforts(view),
                leads == positions(order@),
                forall|k: int| 0 <= k < order.len() ==> (#[trigger] order@[k]) < n,
                forall|k: int| 0 <= k < n ==> (#[trigger] keys@[k]).0 == view[k].earliest_start && keys@[k].1 == turn(view, k),
                batches.len() == b,
                forall|k: int| 0 <= k < b ==> (#[trigger] batches[k]).deep_view() == batch_view(view, k, leads[k]),
        {
            let lead: usize = order[b];
            let mut marks: Vec<bool> = Vec::new();
            let mut names: Vec<String> = Vec::new();
            let mut duration: i64 = 0;
            for i in 0..n
                invariant
                    n == tasks.len(),
                    view == tasks.deep_view(),
                    lead < n,
                    keys.len() == n,
                    forall|k: int| 0 <= k < n ==> (#[trigger] keys@[k]).0 == view[k].earliest_start && keys@[k].1 == turn(view, k),
                    marks@ == in_batch(view, lead as int).take(i as int),
                    names.deep_view() == marked_ids(marks@, task_ids(view)),
                    duration == marked_max(marks@, task_efforts(view)),
            {
                let hit = keys[lead].0 == keys[i].0 && keys[lead].1 == keys[i].1;
                let ghost old_marks = marks@;
                let ghost old_names = names.deep_view();
                marks.push(hit);
                assert(marks@ =~= in_batch(view, lead as int).take(i + 1));
                assert(marks@.drop_last() =~= old_marks);
                if hit {
                    names.push(tasks[i].id.clone());
                    assert(names.deep_view() =~= old_names.push(tasks[i as int].id@));
                    if tasks[i].effort_hours > duration {
                        duration = tasks[i].effort_hours;
                    }
                }
            }
            assert(in_batch(view, lead as int).take(n as int) =~= in_batch(view, lead as int));
            let mut id = String::from_str("Batch-");
            let number = decimal(b as u64);
            id.append(number.as_str());
            let batch = TaskBatch {
                id,
                tasks: names,
                total_effort_hours: total_marked(&marks, &effort),
                duration_hours: duration,
                start_time: tasks[lead].earliest_start,
            };
            batches.push(batch);
        }
        assert(batches.deep_view() =~= Seq::new(leads.len(), |k: int| batch_view(view, k, leads[k])));
        batches
    }

    /// Ranks the tasks that block others by return on effort.
    fn identify_bottlenecks(tasks: &Vec<Task>, predecessors: &Vec<Vec<usize>>) -> (r: Vec<Bottleneck>)
        requires
            predecessors.deep_view() == task_deps(tasks.deep_view()),
        ensures
            bottlenecked(tasks.deep_view(), r.deep_view()),
    {
        let ghost view = tasks.deep_view();
        let n: usize = tasks.len();
        assert(predecessors.deep_view().len() == n);
        let successors = Self::build_dependency_graphs(predecessors);
        assert(successors.deep_view().len() == n);
        let effort = efforts_of(tasks);
        let mut found: Vec<Bottleneck> = Vec::new();
        let mut keys: Vec<Descending> = Vec::new();
        let mut chosen: Vec<bool> = Vec::new();
        for i in 0..n
            invariant
                n == tasks.len(),
                n == successors.len(),
                view == tasks.deep_view(),
                effort.len() == n,
                efforts(effort@) == task_efforts(view),
                successors.deep_view() == reversed(task_deps(view)),
                forall|i: int, j: int| 0 <= i < successors.len() && 0 <= j < successors[i].len() ==> #[trigger] successors[i][j] < successors.len(),
                found.len() == i,
                keys.len() == i,
                chosen.len() == i,
                forall|k: int| 0 <= k < i ==> (#[trigger] found[k]).deep_view() == bottleneck_view(view, k),
                forall|k: int| 0 <= k < i ==> (#[trigger] keys@[k]).rankable() && keys@[k].0 == bottleneck_view(view, k).roi,
                forall|k: int| 0 <= k < i ==> #[trigger] chosen@[k] == is_bottleneck(view, k),
        {
            let (marks, count) = Self::get_transitive_successors(i, &successors);
            let blocked: i128 = total_marked(&marks, &effort);
            let own: i64 = tasks[i].effort_hours;
            let roi = if own > 0 {
                Ratio { num: blocked, den: own as i128 }
            } else {
                Ratio { num: 0, den: 1 }
            };
            found.push(
                Bottleneck {
                    task_id: tasks[i].id.clone(),
                    task_name: tasks[i].name.clone(),
                    blocks_count: count,
                    blocked_hours: blocked,
                    roi,
                    effort_hours: own,
                },
            );
            keys.push(Descending(roi));
            chosen.push(count > 0);
        }
        let order = order_by(&keys, &chosen);
        let ghost listed = positions(order@);
        proof {
            let member = |k: int| 0 <= k < chosen@.len() && chosen@[k];
            let before = |i: int, j: int| ahead(keys@, i, j);
            let member2 = |i: int| is_bottleneck(view, i);
            let before2 = |i: int, j: int| better_return(view, i, j);
            lemma_relist(listed, member, before, member2, before2);
            assert(return_order(view, listed));
        }
        let mut bottlenecks: Vec<Bottleneck> = Vec::new();
        for k in 0..order.len()
            invariant
                n == tasks.len(),
                view == tasks.deep_view(),
                found.len() == n,
                listed == positions(order@),
                return_order(view, listed),
                forall|k: int| 0 <= k < n ==> (#[trigger] found[k]).deep_view() == bottleneck_view(view, k),
                bottlenecks.len() == k,
                forall|a: int| 0 <= a < k ==> (#[trigger] bottlenecks[a]).deep_view() == bottleneck_view(view, listed[a]),
        {
            proof {
                let member = |i: int| is_bottleneck(view, i);
                assert(member(listed[k as int]));
            }
            bottlenecks.push(found[order[k]].clone());
        }
        assert(bottlenecks.deep_view() =~= Seq::new(listed.len(), |k: int| bottleneck_view(view, listed[k])));
        bottlenecks
    }

    /// Puts the analysis together.
    fn build_result(tasks: &Vec<Task>, turns: &Vec<usize>, end: i128, batches: Vec<TaskBatch>, bottlenecks: Vec<Bottleneck>, unscheduled: Vec<String>) -> (r: CriticalPathResult)
        requires
            turns.len() == tasks.len(),
            forall|i: int| 0 <= i < tasks.len() ==> #[trigger] turns@[i] == turn(tasks.deep_view(), i),
            end == project_end(early_finishes(tasks.deep_view())),
            batched(tasks.deep_view(), batches.deep_view()),
            bottlenecked(tasks.deep_view(), bottlenecks.deep_view()),
            unscheduled.deep_view() == sorted_ids(task_ids(tasks.deep_view()), unscheduled_flags(tasks.deep_view())),
        ensures
            analysed(tasks.deep_view(), r.deep_view()),
    {
        let ghost view = tasks.deep_view();
        let n: usize = tasks.len();
        let mut starts: Vec<(i128, usize)> = Vec::new();
        let mut critical: Vec<bool> = Vec::new();
        let mut sequential: i128 = 0;
        for i in 0..n
            invariant
                n == tasks.len(),
                view == tasks.deep_view(),
                n == turns.len(),
                forall|k: int| 0 <= k < n ==> #[trigger] turns@[k] == turn(view, k),
                starts.len() == i,
                forall|k: int| 0 <= k < i ==> (#[trigger] starts@[k]).0 == view[k].earliest_start && starts@[k].1 == turn(view, k),
                critical@ == critical_flags(view).take(i as int),
                sequential == total_effort(task_efforts(view).take(i as int)),
                -i * 0x8000_0000_0000_0000 <= sequential <= i * 0x7fff_ffff_ffff_ffff,
        {
            starts.push((tasks[i].earliest_start, turns[i]));
            critical.push(tasks[i].is_critical);
            assert(critical@ =~= critical_flags(view).take(i + 1));
            assert(task_efforts(view).take(i + 1).drop_last() =~= task_efforts(view).take(i as int));
            sequential = sequential + tasks[i].effort_hours as i128;
        }
        assert(critical_flags(view).take(n as int) =~= critical_flags(view));
        assert(task_efforts(view).take(n as int) =~= task_efforts(view));
        let order = order_by(&starts, &critical);
        let ghost listed = positions(order@);
        proof {
            let member = |k: int| 0 <= k < critical@.len() && critical@[k];
            let before = |i: int, j: int| ahead(starts@, i, j);
            let member2 = |i: int| is_critical(view, i);
            let before2 = |i: int, j: int| starts_ahead(view, i, j);
            lemma_relist(listed, member, before, member2, before2);
            assert(critical_order(view, listed));
            assert forall|k: int| 0 <= k < order.len() implies (#[trigger] order@[k]) < tasks.len() by {
                assert(member(listed[k]));
            }
        }
        let critical_path = pick_ids(tasks, &order);
        let speedup_factor = if end > 0 {
            Ratio { num: sequential, den: end }
        } else {
            Ratio { num: 1, den: 1 }
        };
        CriticalPathResult {
            total_tasks: n,
            critical_path,
            critical_path_duration: end,
            total_duration_sequential: sequential,
            optimal_duration_parallel: end,
            speedup_factor,
            parallelizable_batches: batches,
            bottlenecks,
            tasks: copy_tasks(tasks),
            unscheduled,
        }
    }

    /// Calculates the critical path and all related metrics, and fills in the
    /// times of the tasks.
    pub fn calculate(tasks: &mut Vec<Task>) -> (r: CriticalPathResult)
        requires
            task_ids(old(tasks).deep_view()).no_duplicates(),
            old(tasks).len() <= isize::MAX,
        ensures
            scheduled(old(tasks).deep_view(), final(tasks).deep_view()),
            old(tasks).len() == 0 ==> r.deep_view() == blank_result(),
            old(tasks).len() > 0 ==> analysed(final(tasks).deep_view(), r.deep_view()),
    {
        let ghost before = tasks.deep_view();
        let deps = match Self::resolve(tasks) {
            Some(net) => net,
            None => {
                return CriticalPathResult::default();
            },
        };
        let effort = efforts_of(tasks);
        let (order, done) = topological_order(&deps);
        let (es, ef) = Self::forward_pass(&deps, &order, &done, &effort);
        let end: i128 = latest_finish_of_all(&ef);
        proof {
            lemma_project_end(wide(ef@));
            assert forall|i: int| 0 <= i < ef.len() implies #[trigger] wide(ef@)[i] <= (deps.len() + 1) * (EFFORT_SPAN - 1) by {
                assert(ef@[i] <= (deps.len() + 1) * (EFFORT_SPAN - 1));
            }
            assert((deps.len() + 1) * (EFFORT_SPAN - 1) >= 0) by (nonlinear_arith)
                requires
                    deps.len() >= 0,
                    EFFORT_SPAN == 0x8000_0000_0000_0000,
            ;
        }
        let (ls, lf) = Self::backward_pass(&deps, &effort, end);
        proof {
            assert forall|i: int| 0 <= i < es.len() implies i128::MIN <= ls@[i] - #[trigger] es@[i] <= i128::MAX by {
                assert(es@[i] <= deps.len() * (EFFORT_SPAN - 1));
                assert(-(deps.len() + 1) * EFFORT_SPAN <= ls@[i]);
                assert(deps.len() * (EFFORT_SPAN - 1) + (deps.len() + 1) * EFFORT_SPAN <= 0x7fff_ffff_ffff_ffff_ffff_ffff_ffff_ffff) by (nonlinear_arith)
                    requires
                        deps.len() <= 0x7fff_ffff_ffff_ffff,
                        EFFORT_SPAN == 0x8000_0000_0000_0000,
                ;
            }
        }
        if tasks.len() == 0 {
            assert(early_starts(before) =~= wide(es@));
            assert(early_finishes(before) =~= wide(ef@));
            assert(late_starts(before) =~= wide(ls@));
            assert(late_finishes(before) =~= wide(lf@));
            return CriticalPathResult::default();
        }
        Self::calculate_float(tasks, &es, &ef, &ls, &lf);
        let ghost after = tasks.deep_view();
        proof {
            assert forall|i: int| 0 <= i < before.len() implies same_work(before[i], #[trigger] after[i]) by {
                assert(after[i] == tasks[i].deep_view());
            }
            assert(early_starts(after) =~= wide(es@));
            assert(early_finishes(after) =~= wide(ef@));
            assert(late_starts(after) =~= wide(ls@));
            assert(late_finishes(after) =~= wide(lf@));
            lemma_same_network(before, after);
        }
        let turns = turns_of(tasks, &deps, &done);
        let batches = Self::identify_parallel_batches(tasks, &turns);
        let bottlenecks = Self::identify_bottlenecks(tasks, &deps);
        let mut missing: Vec<bool> = Vec::new();
        for i in 0..done.len()
            invariant
                missing.len() == i,
                forall|k: int| 0 <= k < i ==> #[trigger] missing@[k] == !done@[k],
        {
            missing.push(!done[i]);
        }
        assert(missing@ =~= unscheduled_flags(after));
        let ids = ids_of(tasks);
        assert(ids.deep_view().len() == missing.len());
        let unscheduled = sorted_marked(&ids, &missing);
        Self::build_result(tasks, &turns, end, batches, bottlenecks, unscheduled)
    }
}

/// Tasks that differ only in their times form the same network.
pub proof fn lemma_same_network(a: Seq<TaskView>, b: Seq<TaskView>)
    requires
        a.len() == b.len(),
        forall|i: int| 0 <= i < a.len() ==> same_work(a[i], #[trigger] b[i]),
    ensures
        task_ids(a) == task_ids(b),
        task_efforts(a) == task_efforts(b),
        task_deps(a) == task_deps(b),
        schedulable(a) == schedulable(b),
{
    assert(task_ids(a) =~= task_ids(b)) by {
        assert forall|i: int| 0 <= i < a.len() implies task_ids(a)[i] == task_ids(b)[i] by {
            assert(same_work(a[i], b[i]));
        }
    }
    assert(task_efforts(a) =~= task_efforts(b)) by {
        assert forall|i: int| 0 <= i < a.len() implies task_efforts(a)[i] == task_efforts(b)[i] by {
            assert(same_work(a[i], b[i]));
        }
    }
    let x = Seq::new(a.len(), |i: int| a[i].dependencies);
    let y = Seq::new(b.len(), |i: int| b[i].dependencies);
    assert(x =~= y) by {
        assert forall|i: int| 0 <= i < a.len() implies x[i] == y[i] by {
            assert(same_work(a[i], b[i]));
        }
    }
}

} // verus!
