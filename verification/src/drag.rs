//! Drag of activities and diameter of a schedule.
//!
//! The drag of a critical activity is how much the project would shrink if the
//! activity took no time: its own effort, bounded by the smallest float among
//! the non-critical activities that run in parallel with it. A non-critical
//! activity has no drag. The diameter is the latest earliest finish.

use vstd::prelude::*;
use vstd::string::*;

use crate::task::{Task, TaskView};
use crate::text::same_text;

verus! {

/// Drag of a single activity.
#[derive(Debug)]
pub struct DragResult {
    /// Id of the activity.
    pub task_id: String,
    /// Drag in the unit of the efforts.
    pub drag: i128,
}

/// Mathematical form of [`DragResult`].
#[verifier::ext_equal]
pub struct DragView {
    /// Id of the activity.
    pub task_id: Seq<char>,
    /// Drag.
    pub drag: int,
}

impl DeepView for DragResult {
    type V = DragView;

    open spec fn deep_view(&self) -> DragView {
        DragView { task_id: self.task_id@, drag: self.drag as int }
    }
}

/// The mathematical form of a list of tasks.
pub open spec fn task_views(tasks: Seq<Task>) -> Seq<TaskView> {
    Seq::new(tasks.len(), |i: int| tasks[i].deep_view())
}

/// The windows of the two tasks, from earliest start to earliest finish,
/// overlap.
pub open spec fn parallel(a: TaskView, b: TaskView) -> bool {
    a.earliest_start < b.earliest_finish && b.earliest_start < a.earliest_finish
}

/// The float recorded for an id among the first `m` tasks: that of the last
/// task with the id.
pub open spec fn recorded_float(tasks: Seq<TaskView>, id: Seq<char>, m: nat) -> int
    decreases m,
{
    if m == 0 {
        0
    } else if tasks[m - 1].id == id {
        tasks[m - 1].float
    } else {
        recorded_float(tasks, id, (m - 1) as nat)
    }
}

/// Task `p` bounds the drag of task `a`.
pub open spec fn bounds_drag(a: TaskView, p: TaskView) -> bool {
    !p.is_critical && p.id != a.id && parallel(a, p)
}

/// The smallest float among the first `m` tasks that bound the drag of `a`.
pub open spec fn least_float(tasks: Seq<TaskView>, a: TaskView, m: nat) -> Option<int>
    decreases m,
{
    if m == 0 {
        None
    } else {
        let rest = least_float(tasks, a, (m - 1) as nat);
        let p = tasks[m - 1];
        if bounds_drag(a, p) {
            let f = recorded_float(tasks, p.id, tasks.len());
            match rest {
                None => Some(f),
                Some(x) => Some(if f < x { f } else { x }),
            }
        } else {
            rest
        }
    }
}

/// The drag of task `a`.
pub open spec fn drag_of(tasks: Seq<TaskView>, a: TaskView) -> int {
    if !a.is_critical {
        0
    } else {
        match least_float(tasks, a, tasks.len()) {
            Some(f) => if f < a.effort { f } else { a.effort },
            None => a.effort,
        }
    }
}

/// Whether two half-open windows overlap.
fn windows_overlap(s1: i128, e1: i128, s2: i128, e2: i128) -> (r: bool)
    ensures
        r == (s1 < e2 && s2 < e1),
{
    s1 < e2 && s2 < e1
}

/// The float recorded for an id.
fn float_by_id(tasks: &[Task], id: &str) -> (r: i128)
    ensures
        r == recorded_float(task_views(tasks@), id@, tasks@.len()),
{
    let mut m: usize = tasks.len();
    while m > 0
        invariant
            m <= tasks@.len(),
            recorded_float(task_views(tasks@), id@, tasks@.len()) == recorded_float(task_views(tasks@), id@, m as nat),
        decreases m,
    {
        if same_text(tasks[m - 1].id.as_str(), id) {
            return tasks[m - 1].float;
        }
        m -= 1;
    }
    0
}

/// Computes the drag of every activity, in the order given.
#[must_use]
pub fn drag(tasks: &[Task]) -> (r: Vec<DragResult>)
    ensures
        r.deep_view() == Seq::new(
            tasks@.len(),
            |i: int| DragView { task_id: tasks@[i].id@, drag: drag_of(task_views(tasks@), tasks@[i].deep_view()) },
        ),
{
    let ghost views = task_views(tasks@);
    let mut r: Vec<DragResult> = Vec::new();
    for i in 0..tasks.len()
        invariant
            views == task_views(tasks@),
            r.len() == i,
            forall|k: int| 0 <= k < i ==> (#[trigger] r[k]).task_id@ == tasks@[k].id@ && r[k].drag == drag_of(views, tasks@[k].deep_view()),
    {
        let a = &tasks[i];
        let mut value: i128 = 0;
        if a.is_critical {
            let mut least: Option<i128> = None;
            for p in 0..tasks.len()
                invariant
                    views == task_views(tasks@),
                    match least {
                        Some(x) => least_float(views, a.deep_view(), p as nat) == Some(x as int),
                        None => least_float(views, a.deep_view(), p as nat) is None,
                    },
            {
                let other = &tasks[p];
                assert(views[p as int] == other.deep_view());
                let in_window = windows_overlap(a.earliest_start, a.earliest_finish, other.earliest_start, other.earliest_finish);
                if !other.is_critical && !same_text(other.id.as_str(), a.id.as_str()) && in_window {
                    let f: i128 = float_by_id(tasks, other.id.as_str());
                    least = match least {
                        None => Some(f),
                        Some(x) => Some(if f < x { f } else { x }),
                    };
                }
            }
            let own: i128 = a.effort_hours as i128;
            value = match least {
                Some(f) => if f < own { f } else { own },
                None => own,
            };
        }
        r.push(DragResult { task_id: a.id.clone(), drag: value });
    }
    assert(r.deep_view() =~= Seq::new(
        tasks@.len(),
        |i: int| DragView { task_id: tasks@[i].id@, drag: drag_of(views, tasks@[i].deep_view()) },
    ));
    r
}

/// The latest earliest finish, zero when there is none later.
pub open spec fn latest_finish(tasks: Seq<TaskView>) -> int
    decreases tasks.len(),
{
    if tasks.len() == 0 {
        0
    } else {
        let rest = latest_finish(tasks.drop_last());
        if tasks.last().earliest_finish > rest {
            tasks.last().earliest_finish
        } else {
            rest
        }
    }
}

/// The project duration: the latest earliest finish.
#[must_use]
pub fn diameter(tasks: &[Task]) -> (r: i128)
    ensures
        r == latest_finish(task_views(tasks@)),
{
    let ghost views = task_views(tasks@);
    let mut end: i128 = 0;
    for i in 0..tasks.len()
        invariant
            views == task_views(tasks@),
            end == latest_finish(views.take(i as int)),
    {
        assert(views.take(i + 1).drop_last() =~= views.take(i as int));
        if tasks[i].earliest_finish > end {
            end = tasks[i].earliest_finish;
        }
    }
    assert(views.take(tasks@.len() as int) =~= views);
    end
}

/// The diameter is the end of the project that the backward pass counts from.
pub proof fn diameter_is_project_end(tasks: Seq<TaskView>)
    ensures
        latest_finish(tasks) == crate::schedule::project_end(crate::algorithm::early_finishes(tasks)),
    decreases tasks.len(),
{
    let ef = crate::algorithm::early_finishes(tasks);
    if tasks.len() > 0 {
        diameter_is_project_end(tasks.drop_last());
        assert(ef.drop_last() =~= crate::algorithm::early_finishes(tasks.drop_last()));
        assert(ef.last() == tasks.last().earliest_finish);
    }
}

/// The drag of a critical activity never exceeds its own effort, nor the float
/// recorded for an activity that bounds it.
pub proof fn drag_is_bounded(tasks: Seq<TaskView>, a: TaskView, k: int)
    requires
        a.is_critical,
        0 <= k < tasks.len(),
        bounds_drag(a, tasks[k]),
    ensures
        drag_of(tasks, a) <= a.effort,
        drag_of(tasks, a) <= recorded_float(tasks, tasks[k].id, tasks.len()),
{
    lemma_least_float_bounds(tasks, a, tasks.len(), k);
}

proof fn lemma_least_float_bounds(tasks: Seq<TaskView>, a: TaskView, m: nat, k: int)
    requires
        m <= tasks.len(),
        0 <= k < m,
        bounds_drag(a, tasks[k]),
    ensures
        least_float(tasks, a, m) matches Some(x) && x <= recorded_float(tasks, tasks[k].id, tasks.len()),
    decreases m,
{
    if k < m - 1 {
        lemma_least_float_bounds(tasks, a, (m - 1) as nat, k);
    }
}

/// Where nothing runs in parallel with a critical activity but other critical
/// ones, its drag is its own effort. An activity with float has none.
pub proof fn unbounded_drag_is_the_effort(tasks: Seq<TaskView>, a: TaskView)
    requires
        forall|k: int| 0 <= k < tasks.len() ==> !bounds_drag(a, #[trigger] tasks[k]),
    ensures
        drag_of(tasks, a) == (if a.is_critical {
            a.effort
        } else {
            0
        }),
{
    lemma_nothing_bounds(tasks, a, tasks.len());
}

proof fn lemma_nothing_bounds(tasks: Seq<TaskView>, a: TaskView, m: nat)
    requires
        m <= tasks.len(),
        forall|k: int| 0 <= k < tasks.len() ==> !bounds_drag(a, #[trigger] tasks[k]),
    ensures
        least_float(tasks, a, m) is None,
    decreases m,
{
    if m > 0 {
        lemma_nothing_bounds(tasks, a, (m - 1) as nat);
        assert(!bounds_drag(a, tasks[m - 1]));
    }
}

} // verus!
