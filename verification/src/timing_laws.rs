//! What a schedule says of its tasks, in terms of their ids, efforts and
//! dependencies.

use vstd::prelude::*;

use crate::algorithm::{
    analysed, batch_order, batch_view, critical_order, early_finishes, early_starts, in_batch, is_critical, late_finishes,
    late_starts, leads_batch, lemma_same_network, marked_ids, marked_max, schedulable, scheduled, starts_ahead,
    starts_before, starts_with, task_deps, task_efforts, task_ids, total_effort, unscheduled_flags,
};
use crate::analysis_laws::{depends_on, effort_of, holds_up, lemma_blocks, lemma_depends, lemma_effort_bound, lemma_marks, line};
use crate::cpm_laws::{finish_is_longest_chain, holdable};
use crate::cycles::{all_known, settles_exactly_when_acyclic};
use crate::index::{lemma_position, lemma_position_found, position};
use crate::latest::{followers, least_start, lemma_all_follow, lemma_followers, lemma_least_start_bounds, lemma_least_start_witness};
use crate::network::{lemma_settled_intro, lists, settled, settles};
use crate::ranking::{ids_at, is_marked, lemma_text_order_exists, text_order};
use crate::reach::reversed;
use crate::schedule::{
    chain, chain_effort, greatest_finish, lemma_greatest_finish_bounds, lemma_greatest_finish_nonnegative,
    lemma_greatest_finish_witness, lemma_project_end, project_end,
};
use crate::task::{ResultView, TaskView};
use crate::text::{numeral, text_less};
use crate::turns::{ties_with, turn, turns_count_up};

verus! {

/// Some task has the id.
pub open spec fn is_known(tasks: Seq<TaskView>, id: Seq<char>) -> bool {
    exists|j: int| 0 <= j < tasks.len() && (#[trigger] tasks[j]).id == id
}

/// The tasks can be done in some order: every dependency is a task, and no
/// task holds up itself.
pub open spec fn in_order(tasks: Seq<TaskView>) -> bool {
    &&& forall|i: int, a: int| 0 <= i < tasks.len() && 0 <= a < tasks[i].dependencies.len() ==> is_known(tasks, #[trigger] tasks[i].dependencies[a])
    &&& forall|i: int| 0 <= i < tasks.len() ==> !#[trigger] holds_up(tasks, i, i)
}

/// The total effort of a line of tasks.
pub open spec fn effort_along(tasks: Seq<TaskView>, path: Seq<int>) -> int
    decreases path.len(),
{
    if path.len() == 0 {
        0
    } else {
        effort_along(tasks, path.drop_last()) + tasks[path.last()].effort
    }
}

/// `end` is when the last task finishes, if each starts as early as it can.
pub open spec fn is_end(tasks: Seq<TaskView>, end: int) -> bool {
    &&& end >= 0
    &&& forall|i: int| 0 <= i < tasks.len() ==> (#[trigger] tasks[i]).earliest_finish <= end
    &&& end == 0 || exists|i: int| 0 <= i < tasks.len() && (#[trigger] tasks[i]).earliest_finish == end
}

/// A dependency that is known is one by position.
proof fn lemma_known(tasks: Seq<TaskView>, i: int, a: int)
    requires
        tasks.len() <= usize::MAX,
        0 <= i < tasks.len(),
        0 <= a < tasks[i].dependencies.len(),
    ensures
        task_deps(tasks)[i][a] < tasks.len() <==> is_known(tasks, tasks[i].dependencies[a]),
        task_deps(tasks)[i][a] <= tasks.len(),
{
    let ids = task_ids(tasks);
    let id = tasks[i].dependencies[a];
    lemma_position_found(ids, id);
    assert(task_deps(tasks)[i][a] == position(ids, id) as usize);
    if ids.contains(id) {
        assert(tasks[position(ids, id)].id == id);
    }
    if is_known(tasks, id) {
        let j = choose|j: int| 0 <= j < tasks.len() && (#[trigger] tasks[j]).id == id;
        assert(ids[j] == id);
    }
}

/// Tasks that can be done in some order can all be scheduled.
pub proof fn orderly_tasks_are_scheduled(tasks: Seq<TaskView>)
    requires
        task_ids(tasks).no_duplicates(),
        tasks.len() <= usize::MAX,
    ensures
        in_order(tasks) <==> forall|i: int| 0 <= i < tasks.len() ==> #[trigger] schedulable(tasks)[i],
{
    let deps = task_deps(tasks);
    settles_exactly_when_acyclic(deps);
    assert forall|i: int| 0 <= i < tasks.len() implies (blocks_itself(tasks, i) <==> #[trigger] holds_up(tasks, i, i)) by {
        lemma_blocks(tasks, i, i);
    }
    if in_order(tasks) {
        assert forall|i: int, j: int| 0 <= i < deps.len() && 0 <= j < deps[i].len() implies (#[trigger] deps[i][j]) < deps.len() by {
            lemma_known(tasks, i, j);
            assert(is_known(tasks, tasks[i].dependencies[j]));
        }
        assert(all_known(deps));
        assert forall|i: int| 0 <= i < deps.len() implies !#[trigger] crate::reach::blocks(reversed(deps), i, i) by {
            assert(!holds_up(tasks, i, i));
        }
        assert forall|i: int| 0 <= i < tasks.len() implies #[trigger] schedulable(tasks)[i] by {
            assert(settled(deps, i));
        }
    }
    if forall|i: int| 0 <= i < tasks.len() ==> #[trigger] schedulable(tasks)[i] {
        assert forall|i: int| 0 <= i < deps.len() implies #[trigger] settled(deps, i) by {
            assert(schedulable(tasks)[i]);
        }
        assert forall|i: int, a: int| 0 <= i < tasks.len() && 0 <= a < tasks[i].dependencies.len() implies is_known(tasks, #[trigger] tasks[i].dependencies[a]) by {
            lemma_known(tasks, i, a);
            assert(deps[i][a] < deps.len());
        }
        assert forall|i: int| 0 <= i < tasks.len() implies !#[trigger] holds_up(tasks, i, i) by {
            assert(!crate::reach::blocks(reversed(deps), i, i));
        }
    }
}

/// A task blocks itself.
spec fn blocks_itself(tasks: Seq<TaskView>, i: int) -> bool {
    crate::reach::blocks(reversed(task_deps(tasks)), i, i)
}

/// The earliest times of orderly tasks: nothing starts before its dependencies
/// have finished, and everything starts as early as that lets it and finishes
/// after its effort.
pub proof fn tasks_start_when_their_dependencies_finish(before: Seq<TaskView>, after: Seq<TaskView>, i: int)
    requires
        scheduled(before, after),
        in_order(before),
        task_ids(before).no_duplicates(),
        before.len() <= usize::MAX,
        0 <= i < before.len(),
    ensures
        after.len() == before.len(),
        after[i].id == before[i].id,
        after[i].name == before[i].name,
        after[i].kind == before[i].kind,
        after[i].effort == before[i].effort,
        after[i].dependencies == before[i].dependencies,
        after[i].status == before[i].status,
        after[i].affected_files == before[i].affected_files,
        after[i].earliest_start >= 0,
        after[i].earliest_finish == after[i].earliest_start + before[i].effort,
        forall|j: int| 0 <= j < before.len() && #[trigger] depends_on(before, i, j) ==> after[j].earliest_finish <= after[i].earliest_start,
        after[i].earliest_start == 0 || exists|j: int| 0 <= j < before.len() && #[trigger] depends_on(before, i, j) && after[j].earliest_finish == after[i].earliest_start,
{
    orderly_tasks_are_scheduled(before);
    let deps = task_deps(before);
    let done = schedulable(before);
    let ef = early_finishes(after);
    assert(same_at(before, after, i));
    assert(early_starts(after)[i] == greatest_finish(ef, done, deps[i]));
    assert(ef[i] == after[i].earliest_finish);
    assert(done[i]);
    lemma_greatest_finish_nonnegative(ef, done, deps[i]);
    assert forall|j: int| 0 <= j < before.len() && #[trigger] depends_on(before, i, j) implies after[j].earliest_finish <= after[i].earliest_start by {
        lemma_depends(before, i, j);
        let a = choose|a: int| 0 <= a < deps[i].len() && #[trigger] deps[i][a] == j;
        assert(done[j]);
        lemma_greatest_finish_bounds(ef, done, deps[i], a);
        assert(ef[j] == after[j].earliest_finish);
    }
    if after[i].earliest_start > 0 {
        let a = lemma_greatest_finish_witness(ef, done, deps[i]);
        let j = deps[i][a] as int;
        lemma_depends(before, i, j);
        assert(depends_on(before, i, j));
        assert(ef[j] == after[j].earliest_finish);
    }
}

/// The schedule keeps the work of task `i`.
spec fn same_at(before: Seq<TaskView>, after: Seq<TaskView>, i: int) -> bool {
    crate::algorithm::same_work(before[i], after[i])
}

/// The latest times of orderly tasks: everything must finish before anything
/// that depends on it has to start, and need not finish earlier than that, or
/// than the end where nothing depends on it. The float is how much later than
/// it can a task may start, and a task without float is critical.
pub proof fn tasks_may_wait_for_what_depends_on_them(before: Seq<TaskView>, after: Seq<TaskView>, end: int, i: int)
    requires
        scheduled(before, after),
        in_order(before),
        task_ids(before).no_duplicates(),
        before.len() <= usize::MAX,
        is_end(after, end),
        0 <= i < before.len(),
    ensures
        after[i].latest_start == after[i].latest_finish - before[i].effort,
        forall|j: int| 0 <= j < before.len() && #[trigger] depends_on(before, j, i) ==> after[i].latest_finish <= after[j].latest_start,
        (exists|j: int| 0 <= j < before.len() && #[trigger] depends_on(before, j, i) && after[i].latest_finish == after[j].latest_start) || (after[i].latest_finish == end && forall|j: int| 0 <= j < before.len() ==> !#[trigger] depends_on(before, j, i)),
        after[i].float == after[i].latest_start - after[i].earliest_start,
        after[i].is_critical <==> after[i].float == 0,
{
    orderly_tasks_are_scheduled(before);
    let deps = task_deps(before);
    let ls = late_starts(after);
    let lf = late_finishes(after);
    let ef = early_finishes(after);
    lemma_same_end(after, end);
    assert forall|x: int| 0 <= x < deps.len() implies #[trigger] settled(deps, x) by {
        assert(schedulable(before)[x]);
    }
    lemma_all_follow(deps, i);
    assert(ls[i] == lf[i] - task_efforts(before)[i]);
    assert(lf[i] == crate::latest::late_finish(deps, project_end(ef), ls, i));
    let next = followers(deps)[i];
    assert forall|j: int| 0 <= j < before.len() && #[trigger] depends_on(before, j, i) implies after[i].latest_finish <= after[j].latest_start by {
        lemma_depends(before, j, i);
        lemma_all_follow(deps, j);
        lemma_followers(deps, i, j);
        let a = choose|a: int| 0 <= a < next.len() && #[trigger] next[a] == j;
        lemma_least_start_bounds(ls, next, a);
        assert(ls[j] == after[j].latest_start);
    }
    if least_start(ls, next) is Some {
        let a = lemma_least_start_witness(ls, next);
        let j = next[a] as int;
        assert(lists(next, j));
        lemma_followers(deps, i, j);
        lemma_depends(before, j, i);
        assert(depends_on(before, j, i));
        assert(ls[j] == after[j].latest_start);
    } else {
        assert forall|j: int| 0 <= j < before.len() implies !#[trigger] depends_on(before, j, i) by {
            if depends_on(before, j, i) {
                lemma_depends(before, j, i);
                lemma_all_follow(deps, j);
                lemma_followers(deps, i, j);
                let a = choose|a: int| 0 <= a < next.len() && #[trigger] next[a] == j;
                lemma_least_start_bounds(ls, next, a);
            }
        }
    }
}

/// There is one end.
proof fn lemma_same_end(tasks: Seq<TaskView>, end: int)
    ensures
        is_end(tasks, project_end(early_finishes(tasks))),
        is_end(tasks, end) ==> end == project_end(early_finishes(tasks)),
{
    let ef = early_finishes(tasks);
    lemma_project_end(ef);
    assert forall|i: int| 0 <= i < tasks.len() implies (#[trigger] tasks[i]).earliest_finish <= project_end(ef) by {
        assert(ef[i] == tasks[i].earliest_finish);
    }
    if project_end(ef) > 0 {
        let i = choose|i: int| 0 <= i < ef.len() && ef[i] == project_end(ef);
        assert(tasks[i].earliest_finish == project_end(ef));
    }
}

/// A line is a chain of positions, of the same effort.
proof fn lemma_line_chain(tasks: Seq<TaskView>, path: Seq<int>)
    requires
        task_ids(tasks).no_duplicates(),
        tasks.len() <= usize::MAX,
    ensures
        line(tasks, path) <==> chain(task_deps(tasks), path),
        line(tasks, path) ==> effort_along(tasks, path) == chain_effort(task_efforts(tasks), path),
{
    let deps = task_deps(tasks);
    if path.len() > 0 && forall|k: int| 0 <= k < path.len() ==> 0 <= #[trigger] path[k] < tasks.len() {
        assert forall|k: int| 0 < k < path.len() implies (lists(deps[#[trigger] path[k]], path[k - 1]) <==> depends_on(tasks, path[k], path[k - 1])) by {
            assert(0 <= path[k - 1] < tasks.len());
            lemma_depends(tasks, path[k], path[k - 1]);
        }
        lemma_along(tasks, path);
    }
}

/// The effort along a path of tasks is that of its positions.
proof fn lemma_along(tasks: Seq<TaskView>, path: Seq<int>)
    requires
        forall|k: int| 0 <= k < path.len() ==> 0 <= #[trigger] path[k] < tasks.len(),
    ensures
        effort_along(tasks, path) == chain_effort(task_efforts(tasks), path),
    decreases path.len(),
{
    if path.len() > 0 {
        assert(0 <= path[path.len() - 1] < tasks.len());
        assert forall|k: int| 0 <= k < path.drop_last().len() implies 0 <= #[trigger] path.drop_last()[k] < tasks.len() by {
            assert(path.drop_last()[k] == path[k]);
        }
        lemma_along(tasks, path.drop_last());
    }
}

/// The earliest finish of a task is the effort of the longest line that ends
/// with it.
pub proof fn finish_is_the_longest_line(before: Seq<TaskView>, after: Seq<TaskView>, i: int)
    requires
        scheduled(before, after),
        in_order(before),
        task_ids(before).no_duplicates(),
        before.len() <= usize::MAX,
        0 <= i < before.len(),
    ensures
        forall|path: Seq<int>| #[trigger] line(before, path) && path.last() == i ==> effort_along(before, path) <= after[i].earliest_finish,
        exists|path: Seq<int>| #[trigger] line(before, path) && path.last() == i && effort_along(before, path) == after[i].earliest_finish,
{
    orderly_tasks_are_scheduled(before);
    let deps = task_deps(before);
    finish_is_longest_chain(before, after, i);
    assert forall|path: Seq<int>| #[trigger] line(before, path) && path.last() == i implies effort_along(before, path) <= after[i].earliest_finish by {
        lemma_line_chain(before, path);
    }
    let path = choose|path: Seq<int>| #[trigger] chain(deps, path) && path.last() == i && chain_effort(task_efforts(before), path) == after[i].earliest_finish;
    lemma_line_chain(before, path);
    assert(line(before, path));
}

/// The critical path of an analysis lasts as long as its longest line of
/// tasks, or no time where none lasts any. So does the whole work when done in
/// parallel.
pub proof fn the_critical_path_lasts_the_longest_line(before: Seq<TaskView>, after: Seq<TaskView>, r: ResultView)
    requires
        scheduled(before, after),
        analysed(after, r),
        in_order(before),
        task_ids(before).no_duplicates(),
        before.len() <= usize::MAX,
    ensures
        r.critical_path_duration >= 0,
        r.parallel == r.critical_path_duration,
        forall|path: Seq<int>| #[trigger] line(before, path) ==> effort_along(before, path) <= r.critical_path_duration,
        r.critical_path_duration == 0 || exists|path: Seq<int>| #[trigger] line(before, path) && effort_along(before, path) == r.critical_path_duration,
        is_end(after, r.critical_path_duration),
{
    lemma_same_end(after, 0);
    let end = r.critical_path_duration;
    assert forall|path: Seq<int>| #[trigger] line(before, path) implies effort_along(before, path) <= end by {
        let i = path[path.len() - 1];
        finish_is_the_longest_line(before, after, i);
        assert(path.last() == i);
        assert(after[i].earliest_finish <= end);
    }
    if end > 0 {
        let i = choose|i: int| 0 <= i < after.len() && (#[trigger] after[i]).earliest_finish == end;
        finish_is_the_longest_line(before, after, i);
    }
}

/// A sum of efforts is the effort of all tasks.
proof fn lemma_total(tasks: Seq<TaskView>, n: nat)
    requires
        n <= tasks.len(),
    ensures
        total_effort(task_efforts(tasks).take(n as int)) == effort_of(tasks, n, |j: int| true),
    decreases n,
{
    let values = task_efforts(tasks);
    if n > 0 {
        lemma_total(tasks, (n - 1) as nat);
        assert(values.take(n as int).drop_last() == values.take(n - 1));
    }
}

/// The totals of an analysis: how many tasks there are, their whole effort,
/// and how many times shorter the work is when done in parallel.
pub proof fn totals_add_up(before: Seq<TaskView>, after: Seq<TaskView>, r: ResultView)
    requires
        scheduled(before, after),
        analysed(after, r),
        holdable(before),
        before.len() <= usize::MAX,
    ensures
        r.tasks == after,
        r.total_tasks == before.len(),
        r.sequential == effort_of(before, before.len(), |j: int| true),
        r.parallel <= 0 ==> r.speedup.num == r.speedup.den && r.speedup.den > 0,
        0 < r.parallel <= i128::MAX ==> r.speedup.den > 0 && r.speedup.num * r.parallel == r.sequential * r.speedup.den,
{
    lemma_same_network(before, after);
    let n = before.len();
    assert(task_efforts(before).take(n as int) == task_efforts(before));
    lemma_total(before, n);
    lemma_effort_bound(before, n, |j: int| true);
    assert(n * i64::MAX <= i128::MAX && n * i64::MIN >= i128::MIN) by (nonlinear_arith)
        requires
            0 <= n <= 0xffff_ffff_ffff_ffff,
    ;
}

/// The critical path lists every critical task once and nothing else, in the
/// order in which they start.
pub proof fn the_critical_path_lists_critical_tasks(tasks: Seq<TaskView>, r: ResultView)
    requires
        analysed(tasks, r),
        task_ids(tasks).no_duplicates(),
    ensures
        r.critical_path.no_duplicates(),
        forall|i: int| 0 <= i < tasks.len() ==> ((#[trigger] tasks[i]).is_critical <==> r.critical_path.contains(tasks[i].id)),
        forall|p: int| 0 <= p < r.critical_path.len() ==> is_known(tasks, #[trigger] r.critical_path[p]),
        forall|p: int, q: int, i: int, j: int| 0 <= p < q < r.critical_path.len() && 0 <= i < tasks.len() && 0 <= j < tasks.len()
            && #[trigger] r.critical_path[p] == (#[trigger] tasks[i]).id && #[trigger] r.critical_path[q] == (#[trigger] tasks[j]).id ==> tasks[i].earliest_start <= tasks[j].earliest_start,
{
    let ids = task_ids(tasks);
    let path = r.critical_path;
    let order = choose|o: Seq<int>| #[trigger] critical_order(tasks, o) && path == ids_at(ids, o);
    let member = |i: int| is_critical(tasks, i);
    let ahead = |i: int, j: int| starts_ahead(tasks, i, j);
    assert forall|p: int| 0 <= p < order.len() implies 0 <= #[trigger] order[p] < tasks.len() && tasks[order[p]].is_critical by {
        assert(member(order[p]));
    }
    assert forall|p: int, q: int| 0 <= p < path.len() && 0 <= q < path.len() && p != q implies path[p] != path[q] by {
        if path[p] == path[q] {
            assert(ids[order[p]] == ids[order[q]]);
            if p < q {
                assert(ahead(order[p], order[q]));
            } else {
                assert(ahead(order[q], order[p]));
            }
        }
    }
    assert forall|i: int| 0 <= i < tasks.len() implies ((#[trigger] tasks[i]).is_critical <==> path.contains(tasks[i].id)) by {
        if tasks[i].is_critical {
            assert(member(i));
            let p = choose|p: int| 0 <= p < order.len() && order[p] == i;
            assert(path[p] == tasks[i].id);
        }
        if path.contains(tasks[i].id) {
            let p = choose|p: int| 0 <= p < path.len() && path[p] == tasks[i].id;
            assert(ids[order[p]] == ids[i]);
        }
    }
    assert forall|p: int| 0 <= p < path.len() implies is_known(tasks, #[trigger] path[p]) by {
        assert(tasks[order[p]].id == path[p]);
    }
    assert forall|p: int, q: int, i: int, j: int| 0 <= p < q < path.len() && 0 <= i < tasks.len() && 0 <= j < tasks.len()
        && #[trigger] path[p] == (#[trigger] tasks[i]).id && #[trigger] path[q] == (#[trigger] tasks[j]).id implies tasks[i].earliest_start <= tasks[j].earliest_start by {
        assert(ids[order[p]] == ids[i] && ids[order[q]] == ids[j]);
        assert(ahead(order[p], order[q]));
    }
}

/// What listing marked ids gives: the marked ones, once each, in order.
proof fn lemma_marked_ids(ids: Seq<Seq<char>>, marks: Seq<bool>)
    requires
        ids.no_duplicates(),
        marks.len() <= ids.len(),
    ensures
        forall|i: int| 0 <= i < marks.len() && #[trigger] marks[i] ==> marked_ids(marks, ids).contains(ids[i]),
        forall|p: int| 0 <= p < marked_ids(marks, ids).len() ==> marked_at(ids, marks, #[trigger] marked_ids(marks, ids)[p]),
        forall|p: int, q: int, i: int, j: int| 0 <= p < q < marked_ids(marks, ids).len() && 0 <= i < ids.len() && 0 <= j < ids.len()
            && #[trigger] marked_ids(marks, ids)[p] == #[trigger] ids[i] && #[trigger] marked_ids(marks, ids)[q] == #[trigger] ids[j] ==> i < j,
    decreases marks.len(),
{
    if marks.len() > 0 {
        let head = marks.drop_last();
        let last = marks.len() - 1;
        lemma_marked_ids(ids, head);
        let rest = marked_ids(head, ids);
        let all = marked_ids(marks, ids);
        assert forall|i: int| 0 <= i < marks.len() && #[trigger] marks[i] implies all.contains(ids[i]) by {
            if i < last {
                assert(head[i]);
                let p = choose|p: int| 0 <= p < rest.len() && rest[p] == ids[i];
                assert(all[p] == ids[i]);
            } else {
                assert(all[rest.len() as int] == ids[last]);
            }
        }
        assert forall|p: int| 0 <= p < all.len() implies marked_at(ids, marks, #[trigger] all[p]) by {
            if p < rest.len() {
                assert(all[p] == rest[p]);
                let i = choose|i: int| 0 <= i < head.len() && #[trigger] head[i] && ids[i] == rest[p];
                assert(marks[i] && ids[i] == all[p]);
            } else {
                assert(marks[last] && ids[last] == all[p]);
            }
        }
        assert forall|p: int, q: int, i: int, j: int| 0 <= p < q < all.len() && 0 <= i < ids.len() && 0 <= j < ids.len()
            && #[trigger] all[p] == #[trigger] ids[i] && #[trigger] all[q] == #[trigger] ids[j] implies i < j by {
            assert(all[p] == rest[p]);
            if q < rest.len() {
                assert(all[q] == rest[q]);
            } else {
                assert(marked_at(ids, head, rest[p]));
                let x = choose|x: int| 0 <= x < head.len() && #[trigger] head[x] && ids[x] == rest[p];
                assert(ids[x] == ids[i]);
                assert(ids[last] == ids[j]);
            }
        }
    }
}

/// The id is that of a marked position.
spec fn marked_at(ids: Seq<Seq<char>>, marks: Seq<bool>, id: Seq<char>) -> bool {
    exists|i: int| 0 <= i < marks.len() && #[trigger] marks[i] && ids[i] == id
}

/// The largest marked value is one that is marked, or zero.
proof fn lemma_largest(tasks: Seq<TaskView>, marks: Seq<bool>)
    requires
        marks.len() <= tasks.len(),
    ensures
        marked_max(marks, task_efforts(tasks)) >= 0,
        forall|i: int| 0 <= i < marks.len() && #[trigger] marks[i] ==> tasks[i].effort <= marked_max(marks, task_efforts(tasks)),
        marked_max(marks, task_efforts(tasks)) == 0 || exists|i: int| 0 <= i < marks.len() && #[trigger] marks[i] && tasks[i].effort == marked_max(marks, task_efforts(tasks)),
    decreases marks.len(),
{
    if marks.len() > 0 {
        let head = marks.drop_last();
        lemma_largest(tasks, head);
        let top = marked_max(marks, task_efforts(tasks));
        assert forall|i: int| 0 <= i < marks.len() && #[trigger] marks[i] implies tasks[i].effort <= top by {
            if i < head.len() {
                assert(head[i]);
            }
        }
        if top > 0 {
            if top == marked_max(head, task_efforts(tasks)) {
                let i = choose|i: int| 0 <= i < head.len() && #[trigger] head[i] && tasks[i].effort == top;
                assert(marks[i]);
            } else {
                assert(marks[marks.len() - 1]);
            }
        }
    }
}

/// A batch has its number in its id, and lists its tasks once each in the
/// order in which they were given. Its effort is that of its tasks together,
/// and it lasts as long as the longest of them.
pub proof fn batches_describe_their_tasks(tasks: Seq<TaskView>, r: ResultView, k: int)
    requires
        analysed(tasks, r),
        task_ids(tasks).no_duplicates(),
        0 <= k < r.batches.len(),
    ensures
        ({
            let b = r.batches[k];
            &&& b.id == "Batch-"@ + numeral(k as nat)
            &&& b.tasks.len() > 0
            &&& b.tasks.no_duplicates()
            &&& forall|p: int| 0 <= p < b.tasks.len() ==> is_known(tasks, #[trigger] b.tasks[p])
            &&& forall|p: int, q: int, i: int, j: int| 0 <= p < q < b.tasks.len() && 0 <= i < tasks.len() && 0 <= j < tasks.len()
                && #[trigger] b.tasks[p] == (#[trigger] tasks[i]).id && #[trigger] b.tasks[q] == (#[trigger] tasks[j]).id ==> i < j
            &&& b.total_effort == effort_of(tasks, tasks.len(), |i: int| b.tasks.contains(tasks[i].id))
            &&& b.duration >= 0
            &&& forall|i: int| 0 <= i < tasks.len() && b.tasks.contains((#[trigger] tasks[i]).id) ==> tasks[i].effort <= b.duration
            &&& b.duration == 0 || exists|i: int| 0 <= i < tasks.len() && b.tasks.contains((#[trigger] tasks[i]).id) && tasks[i].effort == b.duration
        }),
{
    let firsts = choose|o: Seq<int>| #[trigger] batch_order(tasks, o) && r.batches == Seq::new(o.len(), |k: int| batch_view(tasks, k, o[k]));
    let lead = firsts[k];
    let b = r.batches[k];
    let ids = task_ids(tasks);
    let marks = in_batch(tasks, lead);
    let member = |i: int| leads_batch(tasks, i);
    assert(member(lead));
    lemma_marked_ids(ids, marks);
    assert(b.tasks == marked_ids(marks, ids));
    assert forall|i: int| 0 <= i < tasks.len() implies (#[trigger] marks[i] <==> b.tasks.contains(tasks[i].id)) by {
        if marks[i] {
            assert(b.tasks.contains(ids[i]));
        }
        if b.tasks.contains(tasks[i].id) {
            let p = choose|p: int| 0 <= p < b.tasks.len() && b.tasks[p] == tasks[i].id;
            assert(marked_at(ids, marks, b.tasks[p]));
            let x = choose|x: int| 0 <= x < marks.len() && #[trigger] marks[x] && ids[x] == b.tasks[p];
            assert(ids[x] == ids[i]);
        }
    }
    assert(marks[lead]);
    assert(b.tasks.contains(ids[lead]));
    assert forall|p: int| 0 <= p < b.tasks.len() implies is_known(tasks, #[trigger] b.tasks[p]) by {
        assert(marked_at(ids, marks, b.tasks[p]));
        let x = choose|x: int| 0 <= x < marks.len() && #[trigger] marks[x] && ids[x] == b.tasks[p];
        assert(tasks[x].id == b.tasks[p]);
    }
    assert forall|p: int, q: int, i: int, j: int| 0 <= p < q < b.tasks.len() && 0 <= i < tasks.len() && 0 <= j < tasks.len()
        && #[trigger] b.tasks[p] == (#[trigger] tasks[i]).id && #[trigger] b.tasks[q] == (#[trigger] tasks[j]).id implies i < j by {
        assert(b.tasks[p] == ids[i] && b.tasks[q] == ids[j]);
    }
    assert forall|p: int, q: int| 0 <= p < b.tasks.len() && 0 <= q < b.tasks.len() && p != q implies b.tasks[p] != b.tasks[q] by {
        let x = choose|x: int| 0 <= x < tasks.len() && (#[trigger] tasks[x]).id == b.tasks[p];
        assert(is_known(tasks, b.tasks[p]));
        if b.tasks[p] == b.tasks[q] {
            assert(tasks[x].id == b.tasks[q]);
            if p < q {
                assert(x < x);
            } else {
                assert(x < x);
            }
        }
    }
    let p = |i: int| b.tasks.contains(tasks[i].id);
    assert forall|i: int| 0 <= i < marks.len() implies #[trigger] marks[i] == p(i) by {}
    lemma_marks(tasks, marks, p);
    lemma_largest(tasks, marks);
    assert forall|i: int| 0 <= i < tasks.len() && b.tasks.contains((#[trigger] tasks[i]).id) implies tasks[i].effort <= b.duration by {
        assert(marks[i]);
    }
    if b.duration > 0 {
        let i = choose|i: int| 0 <= i < marks.len() && #[trigger] marks[i] && tasks[i].effort == b.duration;
        assert(b.tasks.contains(tasks[i].id));
    }
}

/// Tasks that start at the same time are parted only for what depends on the
/// other: a task is in a later batch than the first of its start time only if
/// it depends on a task of the batch just before.
pub proof fn batches_are_parted_only_by_dependencies(tasks: Seq<TaskView>, r: ResultView, k: int, i: int)
    requires
        analysed(tasks, r),
        task_ids(tasks).no_duplicates(),
        tasks.len() <= usize::MAX,
        0 <= k < r.batches.len(),
        0 <= i < tasks.len(),
        r.batches[k].tasks.contains(tasks[i].id),
    ensures
        k == 0 || r.batches[k - 1].start_time < r.batches[k].start_time || exists|d: int| 0 <= d < tasks.len() && #[trigger] depends_on(tasks, i, d) && r.batches[k - 1].tasks.contains(tasks[d].id) && tasks[d].earliest_start == tasks[i].earliest_start,
{
    let firsts = choose|o: Seq<int>| #[trigger] batch_order(tasks, o) && r.batches == Seq::new(o.len(), |k: int| batch_view(tasks, k, o[k]));
    let member = |i: int| leads_batch(tasks, i);
    let earlier = |i: int, j: int| starts_before(tasks, i, j);
    crate::batch_laws::lemma_batch_holds(tasks, k, firsts[k], i);
    assert(member(firsts[k]));
    turns_count_up(tasks, i);
    if k > 0 {
        assert(member(firsts[k - 1]));
        assert(earlier(firsts[k - 1], firsts[k]));
        if tasks[firsts[k - 1]].earliest_start == tasks[firsts[k]].earliest_start {
            turns_count_up(tasks, firsts[k - 1]);
            assert(turn(tasks, i) > 1);
            let d = choose|d: usize| #[trigger] ties_with(tasks, i, d) && lists(task_deps(tasks)[i], d as int) && turn(tasks, d as int) + 1 == turn(tasks, i);
            let lead = crate::batch_laws::lemma_lead(tasks, d as int, d as int);
            assert(member(lead));
            let l = choose|l: int| 0 <= l < firsts.len() && firsts[l] == lead;
            assert(starts_with(tasks, lead, d as int));
            if l < k - 1 {
                assert(earlier(firsts[l], firsts[k - 1]));
                assert(earlier(firsts[k - 1], firsts[k]));
            }
            if l > k {
                assert(earlier(firsts[k], firsts[l]));
            }
            assert(l == k - 1);
            crate::batch_laws::lemma_batch_holds(tasks, k - 1, firsts[k - 1], d as int);
            lemma_depends(tasks, i, d as int);
            assert(depends_on(tasks, i, d as int));
        }
    }
}

/// The set holds tasks that wait for each other or for what there is not: each
/// of them has a dependency that is not known or is in the set.
pub open spec fn stuck_together(tasks: Seq<TaskView>, set: Set<int>) -> bool {
    forall|i: int| #[trigger] set.contains(i) ==> 0 <= i < tasks.len() && exists|a: int| 0 <= a < tasks[i].dependencies.len() && held_back(tasks, set, #[trigger] tasks[i].dependencies[a])
}

/// The id is not known, or that of a task in the set.
pub open spec fn held_back(tasks: Seq<TaskView>, set: Set<int>, id: Seq<char>) -> bool {
    !is_known(tasks, id) || exists|j: int| set.contains(j) && 0 <= j < tasks.len() && (#[trigger] tasks[j]).id == id
}

/// No task of a set that is stuck together can be settled.
proof fn lemma_stuck(tasks: Seq<TaskView>, set: Set<int>, k: nat, i: int)
    requires
        task_ids(tasks).no_duplicates(),
        tasks.len() <= usize::MAX,
        stuck_together(tasks, set),
        set.contains(i),
    ensures
        !settles(task_deps(tasks), k, i),
    decreases k,
{
    let deps = task_deps(tasks);
    let ids = task_ids(tasks);
    let a = choose|a: int| 0 <= a < tasks[i].dependencies.len() && held_back(tasks, set, #[trigger] tasks[i].dependencies[a]);
    let id = tasks[i].dependencies[a];
    lemma_known(tasks, i, a);
    if k > 0 {
        if is_known(tasks, id) {
            let j = choose|j: int| set.contains(j) && 0 <= j < tasks.len() && (#[trigger] tasks[j]).id == id;
            lemma_stuck(tasks, set, (k - 1) as nat, j);
            lemma_position(ids, j);
            assert(ids[j] == id);
            assert(deps[i][a] == j);
        } else {
            assert(deps[i][a] == tasks.len());
        }
        assert(!settles(deps, (k - 1) as nat, deps[i][a] as int));
    }
}

/// What cannot be scheduled: exactly the tasks with a dependency that is not
/// known or cannot be scheduled either. Tasks that wait for each other are
/// among them, and no task is unless it must be. They are listed once each, by
/// the text of their ids.
pub proof fn unscheduled_tasks_are_stuck(tasks: Seq<TaskView>, r: ResultView, set: Set<int>)
    requires
        analysed(tasks, r),
        task_ids(tasks).no_duplicates(),
        tasks.len() <= usize::MAX,
    ensures
        forall|p: int, q: int| 0 <= p < q < r.unscheduled.len() ==> text_less(#[trigger] r.unscheduled[p], #[trigger] r.unscheduled[q]),
        forall|p: int| 0 <= p < r.unscheduled.len() ==> is_known(tasks, #[trigger] r.unscheduled[p]),
        forall|i: int| 0 <= i < tasks.len() ==> (r.unscheduled.contains((#[trigger] tasks[i]).id) <==> waits_in_vain(tasks, r.unscheduled, i)),
        stuck_together(tasks, set) ==> forall|i: int| #[trigger] set.contains(i) ==> r.unscheduled.contains(tasks[i].id),
{
    let deps = task_deps(tasks);
    let ids = task_ids(tasks);
    let missing = unscheduled_flags(tasks);
    let listed = lemma_text_order_exists(ids, missing);
    let o = choose|o: Seq<int>| text_order(ids, missing, o);
    assert(text_order(ids, missing, o));
    let member = |i: int| is_marked(missing, i);
    let before = |i: int, j: int| text_less(ids[i], ids[j]);
    let list = r.unscheduled;
    assert(list == ids_at(ids, o));
    assert forall|i: int| 0 <= i < tasks.len() implies (list.contains((#[trigger] tasks[i]).id) <==> !settled(deps, i)) by {
        if !settled(deps, i) {
            assert(member(i));
            let p = choose|p: int| 0 <= p < o.len() && o[p] == i;
            assert(list[p] == tasks[i].id);
        }
        if list.contains(tasks[i].id) {
            let p = choose|p: int| 0 <= p < list.len() && list[p] == tasks[i].id;
            assert(member(o[p]));
            assert(ids[o[p]] == ids[i]);
        }
    }
    assert forall|p: int, q: int| 0 <= p < q < list.len() implies text_less(#[trigger] list[p], #[trigger] list[q]) by {
        assert(before(o[p], o[q]));
    }
    assert forall|p: int| 0 <= p < list.len() implies is_known(tasks, #[trigger] list[p]) by {
        assert(member(o[p]));
        assert(tasks[o[p]].id == list[p]);
    }
    assert forall|i: int| 0 <= i < tasks.len() implies (list.contains((#[trigger] tasks[i]).id) <==> waits_in_vain(tasks, list, i)) by {
        let wanted = tasks[i].dependencies;
        assert forall|a: int| 0 <= a < wanted.len() implies (settled(deps, (#[trigger] deps[i][a]) as int) <==> is_known(tasks, wanted[a]) && !list.contains(wanted[a])) by {
            lemma_known(tasks, i, a);
            let d = deps[i][a] as int;
            lemma_position_found(ids, wanted[a]);
            if d < tasks.len() {
                assert(ids[d] == wanted[a]);
                assert(tasks[d].id == wanted[a]);
            } else {
                assert forall|k: nat| !settles(deps, k, d) by {}
            }
        }
        if !settled(deps, i) {
            if forall|a: int| 0 <= a < deps[i].len() ==> settled(deps, #[trigger] deps[i][a] as int) {
                lemma_settled_intro(deps, i);
            }
            let a = choose|a: int| 0 <= a < deps[i].len() && !settled(deps, #[trigger] deps[i][a] as int);
            assert(!is_known(tasks, wanted[a]) || list.contains(wanted[a]));
        }
        if waits_in_vain(tasks, list, i) {
            let a = choose|a: int| 0 <= a < wanted.len() && (!is_known(tasks, #[trigger] wanted[a]) || list.contains(wanted[a]));
            assert(!settled(deps, deps[i][a] as int));
            if settled(deps, i) {
                let k = choose|k: nat| settles(deps, k, i);
                assert(settles(deps, (k - 1) as nat, deps[i][a] as int));
            }
        }
    }
    if stuck_together(tasks, set) {
        assert forall|i: int| #[trigger] set.contains(i) implies list.contains(tasks[i].id) by {
            if settled(deps, i) {
                let k = choose|k: nat| settles(deps, k, i);
                lemma_stuck(tasks, set, k, i);
            }
        }
    }
}

/// Task `i` has a dependency that is not known, or is on the list.
pub open spec fn waits_in_vain(tasks: Seq<TaskView>, list: Seq<Seq<char>>, i: int) -> bool {
    exists|a: int| 0 <= a < tasks[i].dependencies.len() && (!is_known(tasks, #[trigger] tasks[i].dependencies[a]) || list.contains(tasks[i].dependencies[a]))
}

/// The times of any tasks, also of those that cannot be scheduled: a task
/// starts when the last of its dependencies that can be scheduled finishes, and
/// finishes after its effort, unless it cannot be scheduled and nothing delays
/// it; such a task has no finish. Whatever must finish last is bound by the end
/// or by the start of something that depends on it.
pub proof fn stuck_tasks_wait_for_what_can_finish(before: Seq<TaskView>, after: Seq<TaskView>, r: ResultView, i: int)
    requires
        scheduled(before, after),
        analysed(after, r),
        task_ids(before).no_duplicates(),
        before.len() <= usize::MAX,
        0 <= i < before.len(),
    ensures
        forall|j: int| 0 <= j < before.len() && #[trigger] depends_on(before, i, j) && !r.unscheduled.contains(before[j].id) ==> after[j].earliest_finish <= after[i].earliest_start,
        after[i].earliest_start == 0 || exists|j: int| 0 <= j < before.len() && #[trigger] depends_on(before, i, j) && !r.unscheduled.contains(before[j].id) && after[j].earliest_finish == after[i].earliest_start,
        after[i].earliest_start >= 0,
        after[i].earliest_finish == (if r.unscheduled.contains(before[i].id) && after[i].earliest_start == 0 { 0 } else { after[i].earliest_start + before[i].effort }),
        after[i].latest_start == after[i].latest_finish - before[i].effort,
        after[i].latest_finish == r.parallel || exists|j: int| 0 <= j < before.len() && #[trigger] depends_on(before, j, i) && after[i].latest_finish == after[j].latest_start,
        after[i].float == after[i].latest_start - after[i].earliest_start,
        after[i].is_critical <==> after[i].float == 0,
{
    let deps = task_deps(before);
    let done = schedulable(before);
    let ef = early_finishes(after);
    let ls = late_starts(after);
    let lf = late_finishes(after);
    let ids = task_ids(before);
    lemma_same_network(before, after);
    assert forall|x: int| 0 <= x < before.len() implies (#[trigger] done[x] <==> !r.unscheduled.contains(before[x].id)) by {
        lemma_unscheduled(after, r, x);
        assert(same_at(before, after, x));
        assert(ids[x] == task_ids(after)[x]);
    }
    assert(same_at(before, after, i));
    assert(early_starts(after)[i] == greatest_finish(ef, done, deps[i]));
    assert(ef[i] == after[i].earliest_finish);
    lemma_greatest_finish_nonnegative(ef, done, deps[i]);
    assert forall|j: int| 0 <= j < before.len() && #[trigger] depends_on(before, i, j) && !r.unscheduled.contains(before[j].id) implies after[j].earliest_finish <= after[i].earliest_start by {
        lemma_depends(before, i, j);
        let a = choose|a: int| 0 <= a < deps[i].len() && #[trigger] deps[i][a] == j;
        assert(done[j]);
        lemma_greatest_finish_bounds(ef, done, deps[i], a);
        assert(ef[j] == after[j].earliest_finish);
    }
    if after[i].earliest_start > 0 {
        let a = lemma_greatest_finish_witness(ef, done, deps[i]);
        let j = deps[i][a] as int;
        lemma_depends(before, i, j);
        assert(depends_on(before, i, j) && done[j]);
        assert(ef[j] == after[j].earliest_finish);
    }
    assert(ls[i] == lf[i] - task_efforts(before)[i]);
    assert(lf[i] == crate::latest::late_finish(deps, project_end(ef), ls, i));
    let next = followers(deps)[i];
    if lf[i] != project_end(ef) {
        let a = lemma_least_start_witness(ls, next);
        let j = next[a] as int;
        assert(lists(next, j));
        lemma_followers(deps, i, j);
        lemma_depends(before, j, i);
        assert(depends_on(before, j, i));
        assert(ls[j] == after[j].latest_start);
    }
}

/// A task is listed as unscheduled exactly when it is.
proof fn lemma_unscheduled(tasks: Seq<TaskView>, r: ResultView, i: int)
    requires
        analysed(tasks, r),
        task_ids(tasks).no_duplicates(),
        0 <= i < tasks.len(),
    ensures
        schedulable(tasks)[i] <==> !r.unscheduled.contains(tasks[i].id),
{
    let ids = task_ids(tasks);
    let missing = unscheduled_flags(tasks);
    let listed = lemma_text_order_exists(ids, missing);
    let o = choose|o: Seq<int>| text_order(ids, missing, o);
    assert(text_order(ids, missing, o));
    let member = |i: int| is_marked(missing, i);
    let list = r.unscheduled;
    assert(list == ids_at(ids, o));
    if !schedulable(tasks)[i] {
        assert(member(i));
        let p = choose|p: int| 0 <= p < o.len() && o[p] == i;
        assert(list[p] == tasks[i].id);
    }
    if list.contains(tasks[i].id) {
        let p = choose|p: int| 0 <= p < list.len() && list[p] == tasks[i].id;
        assert(member(o[p]));
        assert(ids[o[p]] == ids[i]);
    }
}

/// The critical path runs through the batches in their order, and through the
/// tasks of one batch in the order in which they were given.
pub proof fn the_critical_path_runs_through_the_batches(tasks: Seq<TaskView>, r: ResultView, p: int, q: int, i: int, j: int, k: int, l: int)
    requires
        analysed(tasks, r),
        task_ids(tasks).no_duplicates(),
        0 <= p < q < r.critical_path.len(),
        0 <= i < tasks.len(),
        0 <= j < tasks.len(),
        r.critical_path[p] == tasks[i].id,
        r.critical_path[q] == tasks[j].id,
        0 <= k < r.batches.len(),
        0 <= l < r.batches.len(),
        r.batches[k].tasks.contains(tasks[i].id),
        r.batches[l].tasks.contains(tasks[j].id),
    ensures
        k < l || (k == l && i < j),
{
    let ids = task_ids(tasks);
    let path = r.critical_path;
    let order = choose|o: Seq<int>| #[trigger] critical_order(tasks, o) && path == ids_at(ids, o);
    let member = |i: int| is_critical(tasks, i);
    let ahead = |i: int, j: int| starts_ahead(tasks, i, j);
    assert(member(order[p]) && member(order[q]));
    assert(ids[order[p]] == ids[i] && ids[order[q]] == ids[j]);
    assert(order[p] == i && order[q] == j);
    assert(ahead(order[p], order[q]));
    let firsts = choose|o: Seq<int>| #[trigger] batch_order(tasks, o) && r.batches == Seq::new(o.len(), |k: int| batch_view(tasks, k, o[k]));
    let earlier = |i: int, j: int| starts_before(tasks, i, j);
    crate::batch_laws::lemma_batch_holds(tasks, k, firsts[k], i);
    crate::batch_laws::lemma_batch_holds(tasks, l, firsts[l], j);
    if l < k {
        assert(earlier(firsts[l], firsts[k]));
    }
    if k < l {
        assert(earlier(firsts[k], firsts[l]));
    }
}

} // verus!
