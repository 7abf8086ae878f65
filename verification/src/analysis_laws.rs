//! What an analysis says of its tasks, in terms of their ids, efforts and
//! dependencies.

use vstd::prelude::*;

use crate::algorithm::{
    analysed, better_return, bottleneck_view, is_bottleneck, return_order, task_blocks, task_deps, task_efforts,
    task_ids,
};
use crate::cpm_laws::holdable;
use crate::index::{lemma_position, lemma_position_found};
use crate::network::lists;
use crate::reach::{blocks, leads, lemma_successor_row, marked_count, marked_total, reversed};
use crate::task::{blank_result, BottleneckView, ResultView, TaskView};

verus! {

/// Task `i` depends on task `j`.
pub open spec fn depends_on(tasks: Seq<TaskView>, i: int, j: int) -> bool {
    tasks[i].dependencies.contains(tasks[j].id)
}

/// A line of tasks, each of which depends on the one before it.
pub open spec fn line(tasks: Seq<TaskView>, path: Seq<int>) -> bool {
    &&& path.len() > 0
    &&& forall|k: int| 0 <= k < path.len() ==> 0 <= #[trigger] path[k] < tasks.len()
    &&& forall|k: int| 0 < k < path.len() ==> depends_on(tasks, #[trigger] path[k], path[k - 1])
}

/// Task `i` holds up task `j`: a line of two tasks or more leads from one to
/// the other.
pub open spec fn holds_up(tasks: Seq<TaskView>, i: int, j: int) -> bool {
    exists|path: Seq<int>| #[trigger] line(tasks, path) && path.len() >= 2 && path[0] == i && path.last() == j
}

/// How many of the first `n` numbers have the property.
pub open spec fn how_many(n: nat, p: spec_fn(int) -> bool) -> int
    decreases n,
{
    if n == 0 {
        0
    } else {
        how_many((n - 1) as nat, p) + if p(n - 1) { 1int } else { 0 }
    }
}

/// The effort of those of the first `n` tasks that have the property.
pub open spec fn effort_of(tasks: Seq<TaskView>, n: nat, p: spec_fn(int) -> bool) -> int
    decreases n,
{
    if n == 0 {
        0
    } else {
        effort_of(tasks, (n - 1) as nat, p) + if p(n - 1) { tasks[n - 1].effort } else { 0 }
    }
}

/// Positions and ids of dependencies say the same.
pub proof fn lemma_depends(tasks: Seq<TaskView>, i: int, d: int)
    requires
        task_ids(tasks).no_duplicates(),
        tasks.len() <= usize::MAX,
        0 <= i < tasks.len(),
        0 <= d < tasks.len(),
    ensures
        lists(task_deps(tasks)[i], d) <==> depends_on(tasks, i, d),
{
    let ids = task_ids(tasks);
    let deps = task_deps(tasks)[i];
    let wanted = tasks[i].dependencies;
    lemma_position(ids, d);
    if lists(deps, d) {
        let a = choose|a: int| 0 <= a < deps.len() && #[trigger] deps[a] == d;
        lemma_position_found(ids, wanted[a]);
        assert(wanted[a] == tasks[d].id);
    }
    if wanted.contains(ids[d]) {
        let a = choose|a: int| 0 <= a < wanted.len() && wanted[a] == ids[d];
        assert(deps[a] == d);
    }
}

/// A task blocks another along reversed dependencies exactly when it is listed
/// by it.
proof fn lemma_direct(tasks: Seq<TaskView>, m: int, j: int)
    requires
        task_ids(tasks).no_duplicates(),
        tasks.len() <= usize::MAX,
        0 <= m < tasks.len(),
    ensures
        lists(reversed(task_deps(tasks))[m], j) <==> 0 <= j < tasks.len() && depends_on(tasks, j, m),
{
    lemma_successor_row(task_deps(tasks), m, tasks.len(), j);
    if 0 <= j < tasks.len() {
        lemma_depends(tasks, j, m);
    }
}

/// What is led to is held up.
proof fn lemma_led_held(tasks: Seq<TaskView>, k: nat, i: int, j: int)
    requires
        task_ids(tasks).no_duplicates(),
        tasks.len() <= usize::MAX,
        0 <= i < tasks.len(),
        leads(reversed(task_deps(tasks)), k, i, j),
    ensures
        holds_up(tasks, i, j),
        0 <= j < tasks.len(),
    decreases k,
{
    let succ = reversed(task_deps(tasks));
    if lists(succ[i], j) {
        lemma_direct(tasks, i, j);
        let path = seq![i, j];
        assert(line(tasks, path));
    } else {
        let m = choose|m: int| 0 <= m < succ.len() && leads(succ, (k - 1) as nat, i, m) && #[trigger] lists(succ[m], j);
        lemma_led_held(tasks, (k - 1) as nat, i, m);
        lemma_direct(tasks, m, j);
        let path = choose|path: Seq<int>| #[trigger] line(tasks, path) && path.len() >= 2 && path[0] == i && path.last() == m;
        let longer = path.push(j);
        assert(line(tasks, longer)) by {
            assert forall|x: int| 0 < x < longer.len() implies depends_on(tasks, #[trigger] longer[x], longer[x - 1]) by {
                if x < path.len() {
                    assert(longer[x] == path[x] && longer[x - 1] == path[x - 1]);
                }
            }
        }
        assert(longer.last() == j && longer[0] == i);
    }
}

/// What is held up is led to.
proof fn lemma_held_led(tasks: Seq<TaskView>, path: Seq<int>)
    requires
        task_ids(tasks).no_duplicates(),
        tasks.len() <= usize::MAX,
        line(tasks, path),
        path.len() >= 2,
    ensures
        leads(reversed(task_deps(tasks)), (path.len() - 1) as nat, path[0], path.last()),
    decreases path.len(),
{
    let succ = reversed(task_deps(tasks));
    let n = path.len();
    assert(depends_on(tasks, path[n - 1], path[n - 2]));
    lemma_direct(tasks, path[n - 2], path[n - 1]);
    if n > 2 {
        let head = path.drop_last();
        assert(line(tasks, head)) by {
            assert forall|x: int| 0 < x < head.len() implies depends_on(tasks, #[trigger] head[x], head[x - 1]) by {
                assert(head[x] == path[x] && head[x - 1] == path[x - 1]);
            }
        }
        lemma_held_led(tasks, head);
        assert(leads(succ, (n - 2) as nat, path[0], path[n - 2]) && lists(succ[path[n - 2]], path.last()));
    }
}

/// Blocking is holding up.
pub proof fn lemma_blocks(tasks: Seq<TaskView>, i: int, j: int)
    requires
        task_ids(tasks).no_duplicates(),
        tasks.len() <= usize::MAX,
        0 <= i < tasks.len(),
    ensures
        blocks(reversed(task_deps(tasks)), i, j) <==> holds_up(tasks, i, j),
{
    let succ = reversed(task_deps(tasks));
    if blocks(succ, i, j) {
        let k = choose|k: nat| leads(succ, k, i, j);
        lemma_led_held(tasks, k, i, j);
    }
    if holds_up(tasks, i, j) {
        let path = choose|path: Seq<int>| #[trigger] line(tasks, path) && path.len() >= 2 && path[0] == i && path.last() == j;
        lemma_held_led(tasks, path);
    }
}

/// Marks count and sum up what has the property they mark.
pub proof fn lemma_marks(tasks: Seq<TaskView>, marks: Seq<bool>, p: spec_fn(int) -> bool)
    requires
        marks.len() <= tasks.len(),
        forall|j: int| 0 <= j < marks.len() ==> #[trigger] marks[j] == p(j),
    ensures
        marked_count(marks) == how_many(marks.len(), p),
        marked_total(marks, task_efforts(tasks)) == effort_of(tasks, marks.len(), p),
    decreases marks.len(),
{
    if marks.len() > 0 {
        assert forall|j: int| 0 <= j < marks.drop_last().len() implies #[trigger] marks.drop_last()[j] == p(j) by {
            assert(marks.drop_last()[j] == marks[j]);
        }
        assert(marks[marks.len() - 1] == p(marks.len() - 1));
        lemma_marks(tasks, marks.drop_last(), p);
    }
}

/// A sum of efforts is not larger than a machine can hold.
pub proof fn lemma_effort_bound(tasks: Seq<TaskView>, n: nat, p: spec_fn(int) -> bool)
    requires
        holdable(tasks),
        n <= tasks.len(),
    ensures
        n * i64::MIN <= effort_of(tasks, n, p) <= n * i64::MAX,
    decreases n,
{
    if n > 0 {
        let m = (n - 1) as nat;
        lemma_effort_bound(tasks, m, p);
        assert(i64::MIN <= tasks[n - 1].effort <= i64::MAX);
        assert(n * i64::MIN == m * i64::MIN + i64::MIN) by (nonlinear_arith)
            requires
                n == m + 1,
        ;
        assert(n * i64::MAX == m * i64::MAX + i64::MAX) by (nonlinear_arith)
            requires
                n == m + 1,
        ;
    }
}

/// The bottleneck is task `i`: it has its id, name and effort, counts what the
/// task holds up and adds up the effort of that. Its return is that effort
/// over its own, exactly, and nothing for a task without effort.
pub open spec fn bottleneck_at(tasks: Seq<TaskView>, b: BottleneckView, i: int) -> bool {
    &&& 0 <= i < tasks.len()
    &&& b.task_id == tasks[i].id
    &&& b.task_name == tasks[i].name
    &&& b.effort == tasks[i].effort
    &&& b.blocks_count == how_many(tasks.len(), |j: int| holds_up(tasks, i, j))
    &&& b.blocked_effort == effort_of(tasks, tasks.len(), |j: int| holds_up(tasks, i, j))
    &&& b.roi.den > 0
    &&& if b.effort > 0 {
        b.roi.num * b.effort == b.blocked_effort * b.roi.den
    } else {
        b.roi.num == 0
    }
}

/// What a bottleneck says of its task.
proof fn lemma_bottleneck_at(tasks: Seq<TaskView>, i: int)
    requires
        holdable(tasks),
        task_ids(tasks).no_duplicates(),
        tasks.len() <= usize::MAX,
        0 <= i < tasks.len(),
    ensures
        bottleneck_at(tasks, bottleneck_view(tasks, i), i),
        is_bottleneck(tasks, i) <==> exists|j: int| 0 <= j < tasks.len() && #[trigger] holds_up(tasks, i, j),
{
    let p = |j: int| holds_up(tasks, i, j);
    let marks = task_blocks(tasks, i);
    assert forall|j: int| 0 <= j < marks.len() implies #[trigger] marks[j] == p(j) by {
        lemma_blocks(tasks, i, j);
    }
    lemma_marks(tasks, marks, p);
    lemma_effort_bound(tasks, tasks.len(), p);
    lemma_some_counted(tasks.len(), p);
    let blocked = effort_of(tasks, tasks.len(), p);
    let n = tasks.len();
    assert(n * i64::MAX <= i128::MAX && n * i64::MIN >= i128::MIN) by (nonlinear_arith)
        requires
            0 <= n <= 0xffff_ffff_ffff_ffff,
    ;
    let effort = tasks[i].effort;
    assert(i64::MIN <= effort <= i64::MAX);
    if effort > 0 {
        let roi = bottleneck_view(tasks, i).roi;
        assert(roi.num == blocked && roi.den == effort);
    }
    if exists|j: int| 0 <= j < tasks.len() && #[trigger] holds_up(tasks, i, j) {
        let j = choose|j: int| 0 <= j < tasks.len() && #[trigger] holds_up(tasks, i, j);
        assert(p(j));
    }
    if how_many(tasks.len(), p) > 0 {
        let j = choose|j: int| 0 <= j < tasks.len() && #[trigger] p(j);
        assert(holds_up(tasks, i, j));
    }
}

/// A count is positive exactly when something has the property.
proof fn lemma_some_counted(n: nat, p: spec_fn(int) -> bool)
    ensures
        how_many(n, p) >= 0,
        how_many(n, p) > 0 <==> exists|j: int| 0 <= j < n && #[trigger] p(j),
    decreases n,
{
    if n > 0 {
        lemma_some_counted((n - 1) as nat, p);
    }
}

/// Every bottleneck is a task that holds something up, described exactly.
pub proof fn bottlenecks_are_tasks_that_hold_up_others(tasks: Seq<TaskView>, r: ResultView)
    requires
        analysed(tasks, r),
        holdable(tasks),
        task_ids(tasks).no_duplicates(),
        tasks.len() <= usize::MAX,
    ensures
        forall|k: int| 0 <= k < r.bottlenecks.len() ==> is_some_bottleneck(tasks, #[trigger] r.bottlenecks[k]),
        forall|a: int, b: int| 0 <= a < b < r.bottlenecks.len() ==> (#[trigger] r.bottlenecks[a]).task_id != (#[trigger] r.bottlenecks[b]).task_id,
        forall|i: int, j: int| 0 <= i < tasks.len() && 0 <= j < tasks.len() && #[trigger] holds_up(tasks, i, j) ==> lists_bottleneck(r.bottlenecks, tasks[i].id),
{
    let order = choose|order: Seq<int>| #[trigger] return_order(tasks, order) && r.bottlenecks == Seq::new(order.len(), |k: int| bottleneck_view(tasks, order[k]));
    let ids = task_ids(tasks);
    assert forall|k: int| 0 <= k < r.bottlenecks.len() implies is_some_bottleneck(tasks, #[trigger] r.bottlenecks[k]) by {
        assert(is_bottleneck(tasks, order[k]));
        lemma_bottleneck_at(tasks, order[k]);
        let j = choose|j: int| 0 <= j < tasks.len() && #[trigger] holds_up(tasks, order[k], j);
        assert(bottleneck_at(tasks, r.bottlenecks[k], order[k]) && holds_up(tasks, order[k], j));
    }
    crate::cpm_laws::lemma_better_return_strict(tasks);
    assert forall|a: int, b: int| 0 <= a < b < r.bottlenecks.len() implies (#[trigger] r.bottlenecks[a]).task_id != (#[trigger] r.bottlenecks[b]).task_id by {
        let member = |i: int| is_bottleneck(tasks, i);
        let before = |i: int, j: int| better_return(tasks, i, j);
        assert(member(order[a]) && member(order[b]));
        assert(before(order[a], order[b]));
        assert(!before(order[a], order[a]));
        assert(ids[order[a]] != ids[order[b]]);
    }
    assert forall|i: int, j: int| 0 <= i < tasks.len() && 0 <= j < tasks.len() && #[trigger] holds_up(tasks, i, j) implies lists_bottleneck(r.bottlenecks, tasks[i].id) by {
        lemma_bottleneck_at(tasks, i);
        let member = |i: int| is_bottleneck(tasks, i);
        assert(member(i));
        let k = choose|k: int| 0 <= k < order.len() && order[k] == i;
        assert(r.bottlenecks[k].task_id == tasks[i].id);
    }
}

/// The bottleneck is a task that holds something up.
pub open spec fn is_some_bottleneck(tasks: Seq<TaskView>, b: BottleneckView) -> bool {
    exists|i: int, j: int| #[trigger] bottleneck_at(tasks, b, i) && 0 <= j < tasks.len() && #[trigger] holds_up(tasks, i, j)
}

/// Some bottleneck has the id.
pub open spec fn lists_bottleneck(list: Seq<BottleneckView>, id: Seq<char>) -> bool {
    exists|k: int| 0 <= k < list.len() && (#[trigger] list[k]).task_id == id
}

/// The return on finishing a task is the effort that it holds up over its own
/// effort, exactly: times its own effort it is the effort that it holds up.
pub proof fn returns_are_exact(tasks: Seq<TaskView>, r: ResultView, k: int)
    requires
        analysed(tasks, r),
        holdable(tasks),
        task_ids(tasks).no_duplicates(),
        tasks.len() <= usize::MAX,
        0 <= k < r.bottlenecks.len(),
        r.bottlenecks[k].effort > 0,
    ensures
        r.bottlenecks[k].roi.den > 0,
        r.bottlenecks[k].roi.num * r.bottlenecks[k].effort == r.bottlenecks[k].blocked_effort * r.bottlenecks[k].roi.den,
{
    bottlenecks_are_tasks_that_hold_up_others(tasks, r);
    assert(is_some_bottleneck(tasks, r.bottlenecks[k]));
}

/// Bottlenecks come by their return: of two with some effort, the earlier one
/// holds up at least as much for each hour of its own as the later one. Of two
/// that hold up the same for each hour, the one whose task comes earlier is
/// the earlier one. One without effort counts as holding up nothing.
pub proof fn bottlenecks_come_by_return(tasks: Seq<TaskView>, r: ResultView, a: int, b: int, i: int, j: int)
    requires
        analysed(tasks, r),
        holdable(tasks),
        task_ids(tasks).no_duplicates(),
        tasks.len() <= usize::MAX,
        0 <= a < b < r.bottlenecks.len(),
        0 <= i < tasks.len(),
        0 <= j < tasks.len(),
        r.bottlenecks[a].task_id == tasks[i].id,
        r.bottlenecks[b].task_id == tasks[j].id,
    ensures
        ({
            let x = r.bottlenecks[a];
            let y = r.bottlenecks[b];
            &&& x.effort > 0 && y.effort > 0 ==> {
                ||| x.blocked_effort * y.effort > y.blocked_effort * x.effort
                ||| x.blocked_effort * y.effort == y.blocked_effort * x.effort && i < j
            }
            &&& x.effort <= 0 && y.effort > 0 ==> y.blocked_effort < 0 || (y.blocked_effort == 0 && i < j)
            &&& x.effort > 0 && y.effort <= 0 ==> x.blocked_effort > 0 || (x.blocked_effort == 0 && i < j)
            &&& x.effort <= 0 && y.effort <= 0 ==> i < j
        }),
{
    let order = choose|order: Seq<int>| #[trigger] return_order(tasks, order) && r.bottlenecks == Seq::new(order.len(), |k: int| bottleneck_view(tasks, order[k]));
    let ids = task_ids(tasks);
    assert(is_bottleneck(tasks, order[a]) && is_bottleneck(tasks, order[b]));
    assert(ids[order[a]] == ids[i] && ids[order[b]] == ids[j]);
    assert(order[a] == i && order[b] == j);
    let before = |i: int, j: int| better_return(tasks, i, j);
    assert(before(order[a], order[b]));
    lemma_bottleneck_at(tasks, i);
    lemma_bottleneck_at(tasks, j);
    let x = r.bottlenecks[a];
    let y = r.bottlenecks[b];
    assert(y.roi.below(x.roi) || (!x.roi.below(y.roi) && i < j));
    lemma_ratio_order(x.roi.num as int, x.roi.den as int, x.blocked_effort, x.effort, y.roi.num as int, y.roi.den as int, y.blocked_effort, y.effort);
}

/// Fractions compare as what they stand for.
proof fn lemma_ratio_order(xn: int, xd: int, xb: int, xe: int, yn: int, yd: int, yb: int, ye: int)
    requires
        xd > 0,
        yd > 0,
        if xe > 0 { xn * xe == xb * xd } else { xn == 0 },
        if ye > 0 { yn * ye == yb * yd } else { yn == 0 },
    ensures
        xe > 0 && ye > 0 ==> (yn * xd < xn * yd <==> yb * xe < xb * ye),
        xe > 0 && ye > 0 ==> (xn * yd < yn * xd <==> xb * ye < yb * xe),
        xe <= 0 && ye > 0 ==> (yn * xd < xn * yd <==> yb < 0) && (xn * yd < yn * xd <==> 0 < yb),
        xe > 0 && ye <= 0 ==> (yn * xd < xn * yd <==> 0 < xb) && (xn * yd < yn * xd <==> xb < 0),
        xe <= 0 && ye <= 0 ==> yn * xd == 0 && xn * yd == 0,
{
    if xe > 0 {
        lemma_sign(xn, xd, xb, xe);
    }
    if ye > 0 {
        lemma_sign(yn, yd, yb, ye);
    }
    assert(xe <= 0 ==> xn * yd == 0);
    assert(ye <= 0 ==> yn * xd == 0);
    if xe > 0 && ye <= 0 {
        assert((0 < xn * yd <==> 0 < xn) && (xn * yd < 0 <==> xn < 0)) by (nonlinear_arith)
            requires
                yd > 0,
        ;
    }
    if ye > 0 && xe <= 0 {
        assert((0 < yn * xd <==> 0 < yn) && (yn * xd < 0 <==> yn < 0)) by (nonlinear_arith)
            requires
                xd > 0,
        ;
    }
    if xe > 0 && ye > 0 {
        let s = xe * ye;
        let t = xd * yd;
        assert(s > 0 && t > 0) by (nonlinear_arith)
            requires
                s == xe * ye,
                t == xd * yd,
                xe > 0,
                ye > 0,
                xd > 0,
                yd > 0,
        ;
        assert((xn * yd) * s == (xb * ye) * t) by (nonlinear_arith)
            requires
                xn * xe == xb * xd,
                s == xe * ye,
                t == xd * yd,
        {
            assert((xn * yd) * (xe * ye) == (xn * xe) * (yd * ye));
            assert((xb * ye) * (xd * yd) == (xb * xd) * (yd * ye));
        }
        assert((yn * xd) * s == (yb * xe) * t) by (nonlinear_arith)
            requires
                yn * ye == yb * yd,
                s == xe * ye,
                t == xd * yd,
        {
            assert((yn * xd) * (xe * ye) == (yn * ye) * (xd * xe));
            assert((yb * xe) * (xd * yd) == (yb * yd) * (xd * xe));
        }
        lemma_scaled_order(xn * yd, yn * xd, xb * ye, yb * xe, s, t);
    }
}

/// A fraction has the sign of what it stands for.
proof fn lemma_sign(n: int, d: int, b: int, e: int)
    by (nonlinear_arith)
    requires
        d > 0,
        e > 0,
        n * e == b * d,
    ensures
        n > 0 <==> b > 0,
        n < 0 <==> b < 0,
{
}

/// Scaling keeps order.
proof fn lemma_scaled_order(p: int, q: int, x: int, y: int, s: int, t: int)
    requires
        s > 0,
        t > 0,
        p * s == x * t,
        q * s == y * t,
    ensures
        q < p <==> y < x,
        p < q <==> x < y,
{
    assert((q < p <==> q * s < p * s) && (p < q <==> p * s < q * s)) by (nonlinear_arith)
        requires
            s > 0,
    ;
    assert((y < x <==> y * t < x * t) && (x < y <==> x * t < y * t)) by (nonlinear_arith)
        requires
            t > 0,
    ;
}

/// Where there is nothing to analyse, everything is zero and every list empty.
pub proof fn nothing_takes_no_time()
    ensures
        ({
            let r = blank_result();
            &&& r.total_tasks == 0
            &&& r.critical_path_duration == 0
            &&& r.sequential == 0
            &&& r.parallel == 0
            &&& r.speedup.num == 0 && r.speedup.den > 0
            &&& r.critical_path.len() == 0
            &&& r.batches.len() == 0
            &&& r.bottlenecks.len() == 0
            &&& r.tasks.len() == 0
            &&& r.unscheduled.len() == 0
        }),
{
}

} // verus!
