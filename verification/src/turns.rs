//! The order among tasks that start at the same time.
//!
//! A task that takes no time lets its dependents start when it starts. Such
//! tasks take turns: among tasks with the same earliest start, a task comes a
//! turn after the last of its dependencies.

use vstd::prelude::*;

use crate::algorithm::{schedulable, task_deps};
use crate::network::{
    is_layer, layer, layers, lemma_layer, lemma_layers_rise, lemma_settled_deps, lemma_settled_intro, lists, settled,
    settles, topological_order,
};
use crate::task::{Task, TaskView};

verus! {

/// Position `d` is a schedulable task that starts when task `i` does.
pub open spec fn ties_with(tasks: Seq<TaskView>, i: int, d: usize) -> bool {
    d < tasks.len() && schedulable(tasks)[d as int] && tasks[d as int].earliest_start == tasks[i].earliest_start
}

/// The listed positions that start when task `i` does.
pub open spec fn tied(tasks: Seq<TaskView>, i: int, list: Seq<usize>) -> Seq<usize>
    decreases list.len(),
{
    if list.len() == 0 {
        Seq::empty()
    } else {
        let rest = tied(tasks, i, list.drop_last());
        if ties_with(tasks, i, list.last()) {
            rest.push(list.last())
        } else {
            rest
        }
    }
}

/// For each task, the dependencies that start when it does.
pub open spec fn tied_deps(tasks: Seq<TaskView>) -> Seq<Seq<usize>> {
    Seq::new(tasks.len(), |i: int| tied(tasks, i, task_deps(tasks)[i]))
}

/// The turn of task `i` among the tasks that start when it does: one for a
/// task none of whose dependencies is among them, else one more than the last
/// turn of those that are.
pub open spec fn turn(tasks: Seq<TaskView>, i: int) -> nat {
    layer(tied_deps(tasks), i)
}

/// What is kept of a list is what ties.
proof fn lemma_tied(tasks: Seq<TaskView>, i: int, list: Seq<usize>, d: int)
    ensures
        lists(tied(tasks, i, list), d) <==> lists(list, d) && 0 <= d <= usize::MAX && ties_with(tasks, i, d as usize),
    decreases list.len(),
{
    let all = tied(tasks, i, list);
    if list.len() > 0 {
        let head = list.drop_last();
        let rest = tied(tasks, i, head);
        lemma_tied(tasks, i, head, d);
        if lists(list, d) && 0 <= d <= usize::MAX && ties_with(tasks, i, d as usize) {
            let a = choose|a: int| 0 <= a < list.len() && #[trigger] list[a] == d;
            if a < list.len() - 1 {
                assert(head[a] == d);
                let b = choose|b: int| 0 <= b < rest.len() && #[trigger] rest[b] == d;
                assert(all[b] == d);
            } else {
                assert(all[all.len() - 1] == d);
            }
        }
        if lists(all, d) {
            let b = choose|b: int| 0 <= b < all.len() && #[trigger] all[b] == d;
            if b < rest.len() {
                assert(rest[b] == d);
                let a = choose|a: int| 0 <= a < head.len() && #[trigger] head[a] == d;
                assert(list[a] == d);
            } else {
                assert(list[list.len() - 1] == d);
            }
        }
    }
}

proof fn lemma_tied_settled(tasks: Seq<TaskView>, k: nat, i: int)
    requires
        settles(task_deps(tasks), k, i),
    ensures
        settled(tied_deps(tasks), i),
    decreases k,
{
    let deps = task_deps(tasks);
    let ties = tied_deps(tasks);
    assert forall|j: int| 0 <= j < ties[i].len() implies settled(ties, #[trigger] ties[i][j] as int) by {
        let d = ties[i][j] as int;
        assert(lists(ties[i], d));
        lemma_tied(tasks, i, deps[i], d);
        let a = choose|a: int| 0 <= a < deps[i].len() && #[trigger] deps[i][a] == d;
        assert(settles(deps, (k - 1) as nat, deps[i][a] as int));
        lemma_tied_settled(tasks, (k - 1) as nat, d);
    }
    lemma_settled_intro(ties, i);
}

/// Every task has a turn.
pub proof fn lemma_every_turn(tasks: Seq<TaskView>, i: int)
    requires
        0 <= i < tasks.len(),
    ensures
        settled(tied_deps(tasks), i),
{
    let deps = task_deps(tasks);
    let ties = tied_deps(tasks);
    assert forall|j: int| 0 <= j < ties[i].len() implies settled(ties, #[trigger] ties[i][j] as int) by {
        let d = ties[i][j] as int;
        assert(lists(ties[i], d));
        lemma_tied(tasks, i, deps[i], d);
        assert(schedulable(tasks)[d]);
        let k = choose|k: nat| settles(deps, k, d);
        lemma_tied_settled(tasks, k, d);
    }
    lemma_settled_intro(ties, i);
}

/// A schedulable task that starts together with one of its dependencies has a
/// later turn.
pub proof fn turns_follow_dependencies(tasks: Seq<TaskView>, i: int, d: int)
    requires
        0 <= i < tasks.len(),
        schedulable(tasks)[i],
        lists(task_deps(tasks)[i], d),
        0 <= d < tasks.len() ==> tasks[d].earliest_start == tasks[i].earliest_start,
    ensures
        turn(tasks, d) < turn(tasks, i),
{
    let deps = task_deps(tasks);
    let a = choose|a: int| 0 <= a < deps[i].len() && #[trigger] deps[i][a] == d;
    assert(settled(deps, i));
    lemma_settled_deps(deps, i, a);
    assert(schedulable(tasks)[d]);
    lemma_tied(tasks, i, deps[i], d);
    lemma_every_turn(tasks, i);
    assert(tied_deps(tasks)[i] == tied(tasks, i, deps[i]));
    lemma_layers_rise(tied_deps(tasks), i, d);
}

/// Turns count from one, and a later turn always follows that of a dependency:
/// what starts together with none of its dependencies has the first.
pub proof fn turns_count_up(tasks: Seq<TaskView>, i: int)
    requires
        0 <= i < tasks.len(),
    ensures
        turn(tasks, i) >= 1,
        turn(tasks, i) > 1 ==> exists|d: usize| #[trigger] ties_with(tasks, i, d) && lists(task_deps(tasks)[i], d as int) && turn(tasks, d as int) + 1 == turn(tasks, i),
{
    let ties = tied_deps(tasks);
    let k = turn(tasks, i);
    lemma_every_turn(tasks, i);
    lemma_layer(ties, i);
    if k > 1 {
        let j = choose|j: int| 0 <= j < ties[i].len() && !settles(ties, (k - 2) as nat, #[trigger] ties[i][j] as int);
        let d = ties[i][j];
        assert(settles(ties, (k - 1) as nat, ties[i][j] as int));
        assert(lists(ties[i], d as int));
        lemma_tied(tasks, i, task_deps(tasks)[i], d as int);
        lemma_layer(ties, d as int);
        assert(is_layer(ties, (k - 1) as nat, d as int));
        assert(ties_with(tasks, i, d));
    }
}

/// The turns of the tasks.
pub fn turns_of(tasks: &Vec<Task>, deps: &Vec<Vec<usize>>, done: &Vec<bool>) -> (r: Vec<usize>)
    requires
        deps.deep_view() == task_deps(tasks.deep_view()),
        done@ == schedulable(tasks.deep_view()),
    ensures
        r.len() == tasks.len(),
        forall|i: int| 0 <= i < tasks.len() ==> #[trigger] r@[i] == turn(tasks.deep_view(), i),
{
    let ghost view = tasks.deep_view();
    let n: usize = tasks.len();
    assert(deps.deep_view().len() == n);
    assert(done@.len() == n);
    let mut ties: Vec<Vec<usize>> = Vec::new();
    for i in 0..n
        invariant
            n == tasks.len(),
            n == deps.len(),
            n == done.len(),
            view == tasks.deep_view(),
            deps.deep_view() == task_deps(view),
            done@ == schedulable(view),
            ties.len() == i,
            forall|k: int| 0 <= k < i ==> (#[trigger] ties[k])@ == tied_deps(view)[k],
    {
        let ghost list = task_deps(view)[i as int];
        assert(deps[i as int].deep_view() =~= deps[i as int]@);
        assert(list == deps.deep_view()[i as int]);
        let count: usize = deps[i].len();
        let mut own: Vec<usize> = Vec::new();
        for j in 0..count
            invariant
                n == tasks.len(),
                n == deps.len(),
                n == done.len(),
                i < n,
                view == tasks.deep_view(),
                done@ == schedulable(view),
                list == deps[i as int]@,
                count == list.len(),
                own@ == tied(view, i as int, list.take(j as int)),
        {
            let d: usize = deps[i][j];
            assert(list.take(j + 1).drop_last() =~= list.take(j as int));
            if d < n && done[d] && tasks[d].earliest_start == tasks[i].earliest_start {
                own.push(d);
            }
        }
        assert(list.take(count as int) =~= list);
        ties.push(own);
    }
    proof {
        assert forall|k: int| 0 <= k < n implies #[trigger] ties.deep_view()[k] == tied_deps(view)[k] by {
            assert(ties[k].deep_view() =~= ties[k]@);
        }
        assert(ties.deep_view() =~= tied_deps(view));
    }
    let (order, _) = topological_order(&ties);
    let r = layers(&ties, &order);
    proof {
        assert forall|i: int| 0 <= i < n implies #[trigger] r@[i] == turn(view, i) by {
            lemma_every_turn(view, i);
        }
    }
    r
}

} // verus!
