//! What holds of every critical path analysis.

use vstd::prelude::*;

use crate::algorithm::{
    analysed, batch_order, batch_view, bottleneck_view, critical_order, early_finishes, early_starts, is_bottleneck,
    is_critical, late_finishes, leads_batch, late_starts, lemma_same_network, return_order, same_work,
    schedulable, scheduled, starts_ahead, starts_before, task_deps, task_efforts, task_ids, unscheduled_flags, better_return,
};
use crate::cycles::{acyclic, all_known, settles_exactly_when_acyclic};
use crate::drag::{diameter_is_project_end, latest_finish};
use crate::latest::{
    late_times_unique, nothing_may_finish_after_the_end, settled_onwards, slack_is_never_negative, tight_chains_have_no_slack,
};
use crate::network::{lemma_settled_deps, lists, settled};
use crate::ranking::{ids_at, is_marked, lemma_listing_unique, lemma_text_order_exists, strict_order, text_order};
use crate::ratio::{lemma_at_most_transitive, lemma_below_transitive, Ratio};
use crate::schedule::{
    chain, chain_effort, early_times_unique, greatest_finish, lemma_greatest_finish_bounds, lemma_project_end,
    no_chain_outlasts_finish, project_end, some_chain_reaches_finish,
};
use crate::task::{ResultView, TaskView};

verus! {

/// The calculated times are determined by the work to be done.
pub proof fn schedule_is_unique(before: Seq<TaskView>, a: Seq<TaskView>, b: Seq<TaskView>)
    requires
        scheduled(before, a),
        scheduled(before, b),
    ensures
        a == b,
{
    let deps = task_deps(before);
    let effort = task_efforts(before);
    early_times_unique(deps, effort, early_starts(a), early_finishes(a), early_starts(b), early_finishes(b));
    late_times_unique(
        deps,
        effort,
        project_end(early_finishes(a)),
        late_starts(a),
        late_finishes(a),
        late_starts(b),
        late_finishes(b),
    );
    assert forall|i: int| 0 <= i < a.len() implies a[i] == b[i] by {
        assert(same_work(before[i], a[i]));
        assert(same_work(before[i], b[i]));
        assert(early_starts(a)[i] == early_starts(b)[i]);
        assert(early_finishes(a)[i] == early_finishes(b)[i]);
        assert(late_starts(a)[i] == late_starts(b)[i]);
        assert(late_finishes(a)[i] == late_finishes(b)[i]);
    }
    assert(a =~= b);
}

/// Scheduling a schedule again changes nothing.
pub proof fn rescheduling_changes_nothing(before: Seq<TaskView>, after: Seq<TaskView>, again: Seq<TaskView>)
    requires
        scheduled(before, after),
        scheduled(after, again),
    ensures
        again == after,
{
    lemma_same_network(before, after);
    assert forall|i: int| 0 <= i < after.len() implies same_work(after[i], #[trigger] after[i]) by {
    }
    assert(scheduled(after, after));
    schedule_is_unique(after, again, after);
}

/// Every effort is one that a task can hold.
pub open spec fn holdable(tasks: Seq<TaskView>) -> bool {
    forall|i: int| 0 <= i < tasks.len() ==> i64::MIN <= (#[trigger] tasks[i]).effort <= i64::MAX
}

/// The analysis is determined by the schedule.
pub proof fn analysis_is_unique(tasks: Seq<TaskView>, r: ResultView, s: ResultView)
    requires
        holdable(tasks),
        analysed(tasks, r),
        analysed(tasks, s),
    ensures
        r == s,
{
    let (c1, c2) = (
        choose|o: Seq<int>| #[trigger] critical_order(tasks, o) && r.critical_path == ids_at(task_ids(tasks), o),
        choose|o: Seq<int>| #[trigger] critical_order(tasks, o) && s.critical_path == ids_at(task_ids(tasks), o),
    );
    let cm = |i: int| is_critical(tasks, i);
    let cb = |i: int, j: int| starts_ahead(tasks, i, j);
    assert(strict_order(cm, cb));
    lemma_listing_unique(c1, c2, cm, cb);

    let (k1, k2) = (
        choose|o: Seq<int>| #[trigger] batch_order(tasks, o) && r.batches == Seq::new(o.len(), |k: int| batch_view(tasks, k, o[k])),
        choose|o: Seq<int>| #[trigger] batch_order(tasks, o) && s.batches == Seq::new(o.len(), |k: int| batch_view(tasks, k, o[k])),
    );
    let km = |i: int| leads_batch(tasks, i);
    let kb = |i: int, j: int| starts_before(tasks, i, j);
    assert(strict_order(km, kb));
    lemma_listing_unique(k1, k2, km, kb);

    let (b1, b2) = (
        choose|o: Seq<int>| #[trigger] return_order(tasks, o) && r.bottlenecks == Seq::new(o.len(), |k: int| bottleneck_view(tasks, o[k])),
        choose|o: Seq<int>| #[trigger] return_order(tasks, o) && s.bottlenecks == Seq::new(o.len(), |k: int| bottleneck_view(tasks, o[k])),
    );
    let bm = |i: int| is_bottleneck(tasks, i);
    let bb = |i: int, j: int| better_return(tasks, i, j);
    assert(r.bottlenecks.len() == b1.len());
    lemma_better_return_strict(tasks);
    assert(strict_order(bm, bb));
    lemma_listing_unique(b1, b2, bm, bb);

    assert(r =~= s);
}

/// Order by return is a strict order.
pub proof fn lemma_better_return_strict(tasks: Seq<TaskView>)
    requires
        holdable(tasks),
    ensures
        strict_order(|i: int| is_bottleneck(tasks, i), |i: int, j: int| better_return(tasks, i, j)),
{
    let bm = |i: int| is_bottleneck(tasks, i);
    let bb = |i: int, j: int| better_return(tasks, i, j);
    assert forall|i: int, j: int, k: int| bm(i) && bm(j) && bm(k) && #[trigger] bb(i, j) && #[trigger] bb(j, k) implies bb(i, k) by {
        let a = bottleneck_view(tasks, i).roi;
        let b = bottleneck_view(tasks, j).roi;
        let c = bottleneck_view(tasks, k).roi;
        assert(i64::MIN <= tasks[i].effort <= i64::MAX);
        assert(i64::MIN <= tasks[j].effort <= i64::MAX);
        assert(i64::MIN <= tasks[k].effort <= i64::MAX);
        lemma_return_chain(a, b, c, i, j, k);
    }
}

proof fn lemma_return_chain(a: Ratio, b: Ratio, c: Ratio, i: int, j: int, k: int)
    requires
        a.valid(),
        b.valid(),
        c.valid(),
        b.below(a) || (!a.below(b) && i < j),
        c.below(b) || (!b.below(c) && j < k),
    ensures
        c.below(a) || (!a.below(c) && i < k),
{
    if b.below(a) && c.below(b) {
        lemma_below_transitive(c, b, a);
    } else if b.below(a) {
        // c is at most b, which is below a.
        if !c.below(a) {
            lemma_at_most_transitive(a, c, b);
        }
    } else if c.below(b) {
        if !c.below(a) {
            lemma_at_most_transitive(b, a, c);
        }
    } else {
        lemma_at_most_transitive(c, b, a);
    }
}

/// Nothing is reported as unscheduled exactly when every dependency is known
/// and no task depends on itself, however indirectly.
pub proof fn unscheduled_exactly_when_cyclic(tasks: Seq<TaskView>, r: ResultView)
    requires
        tasks.len() <= usize::MAX,
        task_ids(tasks).no_duplicates(),
        analysed(tasks, r),
    ensures
        r.unscheduled.len() == 0 <==> all_known(task_deps(tasks)) && acyclic(task_deps(tasks)),
{
    let deps = task_deps(tasks);
    settles_exactly_when_acyclic(deps);
    let ids = task_ids(tasks);
    let missing = unscheduled_flags(tasks);
    let listed = lemma_text_order_exists(ids, missing);
    let o = choose|o: Seq<int>| text_order(ids, missing, o);
    assert(text_order(ids, missing, o));
    let um = |i: int| is_marked(missing, i);
    if r.unscheduled.len() == 0 {
        assert forall|i: int| 0 <= i < deps.len() implies #[trigger] settled(deps, i) by {
            if !settled(deps, i) {
                assert(um(i));
                assert(o.contains(i));
            }
        }
    }
    if forall|i: int| 0 <= i < deps.len() ==> #[trigger] settled(deps, i) {
        if o.len() > 0 {
            assert(um(o[0]));
            assert(settled(deps, o[0]));
        }
    }
}

/// A schedulable task starts no earlier than everything it depends on has
/// finished.
pub proof fn dependencies_finish_first(before: Seq<TaskView>, after: Seq<TaskView>, i: int, d: int)
    requires
        scheduled(before, after),
        0 <= i < before.len(),
        schedulable(before)[i],
        lists(task_deps(before)[i], d),
    ensures
        0 <= d < before.len(),
        after[d].earliest_finish <= after[i].earliest_start,
{
    let deps = task_deps(before);
    let a = choose|a: int| 0 <= a < deps[i].len() && deps[i][a] == d;
    assert(settled(deps, i));
    lemma_settled_deps(deps, i, a);
    assert(settled(deps, d));
    lemma_greatest_finish_bounds(early_finishes(after), schedulable(before), deps[i], a);
    assert(early_starts(after)[i] == greatest_finish(early_finishes(after), schedulable(before), deps[i]));
}

/// A task has no negative float where it and everything that waits for it,
/// directly or through others, is schedulable.
pub proof fn float_is_never_negative(before: Seq<TaskView>, after: Seq<TaskView>, i: int)
    requires
        before.len() <= usize::MAX,
        scheduled(before, after),
        0 <= i < before.len(),
        settled_onwards(task_deps(before), i),
    ensures
        after[i].float >= 0,
{
    let deps = task_deps(before);
    slack_is_never_negative(
        deps,
        task_efforts(before),
        early_starts(after),
        early_finishes(after),
        late_starts(after),
        late_finishes(after),
        i,
    );
    assert(after[i].float == after[i].latest_start - after[i].earliest_start);
    assert(early_starts(after)[i] == after[i].earliest_start);
    assert(late_starts(after)[i] == after[i].latest_start);
}

/// The earliest finish of a schedulable task is the effort of the longest chain
/// of dependencies that ends in it.
pub proof fn finish_is_longest_chain(before: Seq<TaskView>, after: Seq<TaskView>, i: int)
    requires
        scheduled(before, after),
        0 <= i < before.len(),
        schedulable(before)[i],
    ensures
        forall|path: Seq<int>| #[trigger] chain(task_deps(before), path) && path.last() == i ==> chain_effort(task_efforts(before), path) <= after[i].earliest_finish,
        exists|path: Seq<int>| #[trigger] chain(task_deps(before), path) && path.last() == i && chain_effort(task_efforts(before), path) == after[i].earliest_finish,
{
    let deps = task_deps(before);
    let effort = task_efforts(before);
    assert(settled(deps, i));
    assert(early_finishes(after)[i] == after[i].earliest_finish);
    assert forall|path: Seq<int>| #[trigger] chain(deps, path) && path.last() == i implies chain_effort(effort, path) <= after[i].earliest_finish by {
        no_chain_outlasts_finish(deps, effort, early_starts(after), early_finishes(after), path);
    }
    let path = some_chain_reaches_finish(deps, effort, early_starts(after), early_finishes(after), i);
    assert(chain(deps, path));
}

/// Where everything is schedulable and takes time, the project ends with its
/// longest chain of dependencies.
pub proof fn project_lasts_longest_chain(before: Seq<TaskView>, after: Seq<TaskView>)
    requires
        scheduled(before, after),
        before.len() > 0,
        forall|i: int| 0 <= i < before.len() ==> #[trigger] schedulable(before)[i],
        forall|i: int| 0 <= i < before.len() ==> (#[trigger] before[i]).effort >= 0,
    ensures
        forall|path: Seq<int>| #[trigger] chain(task_deps(before), path) ==> chain_effort(task_efforts(before), path) <= project_end(early_finishes(after)),
        exists|path: Seq<int>| #[trigger] chain(task_deps(before), path) && chain_effort(task_efforts(before), path) == project_end(early_finishes(after)),
{
    let deps = task_deps(before);
    let effort = task_efforts(before);
    let ef = early_finishes(after);
    let end = project_end(ef);
    lemma_project_end(ef);
    assert forall|path: Seq<int>| #[trigger] chain(deps, path) implies chain_effort(effort, path) <= end by {
        let i = path.last();
        assert(path[path.len() - 1] == i);
        assert(schedulable(before)[i]);
        finish_is_longest_chain(before, after, i);
        assert(ef[i] == after[i].earliest_finish);
    }
    let top = if ef.contains(end) { ef.index_of(end) } else { 0 };
    assert(schedulable(before)[top]);
    finish_is_longest_chain(before, after, top);
    let path = choose|path: Seq<int>| #[trigger] chain(deps, path) && path.last() == top && chain_effort(effort, path) == after[top].earliest_finish;
    assert(ef[top] == after[top].earliest_finish);
    if !ef.contains(end) {
        // Then the end is zero, and no finish is negative.
        assert(before[0].effort >= 0);
        assert(settled(deps, 0));
        assert(early_starts(after)[0] >= 0) by {
            assert(early_starts(after)[0] == greatest_finish(ef, schedulable(before), deps[0]));
            crate::schedule::lemma_greatest_finish_nonnegative(ef, schedulable(before), deps[0]);
        }
        assert(ef[0] == early_starts(after)[0] + effort[0]);
        assert(effort[0] == before[0].effort);
        assert(ef[0] == end);
        assert(ef.contains(end));
    }
    assert(chain(deps, path) && chain_effort(effort, path) == end);
}

/// Where everything is schedulable and takes time, some chain of critical
/// tasks, none of which has any float, takes as long as the project.
pub proof fn a_critical_chain_spans_the_project(before: Seq<TaskView>, after: Seq<TaskView>)
    requires
        before.len() <= usize::MAX,
        scheduled(before, after),
        before.len() > 0,
        forall|i: int| 0 <= i < before.len() ==> #[trigger] schedulable(before)[i],
        forall|i: int| 0 <= i < before.len() ==> (#[trigger] before[i]).effort >= 0,
    ensures
        exists|path: Seq<int>| #[trigger] chain(task_deps(before), path) && chain_effort(task_efforts(before), path) == project_end(early_finishes(after)) && (forall|k: int| 0 <= k < path.len() ==> after[#[trigger] path[k]].float == 0 && after[path[k]].is_critical),
{
    let deps = task_deps(before);
    let effort = task_efforts(before);
    let (es, ef) = (early_starts(after), early_finishes(after));
    let (ls, lf) = (late_starts(after), late_finishes(after));
    let end = project_end(ef);
    project_lasts_longest_chain(before, after);
    let path = choose|path: Seq<int>| #[trigger] chain(deps, path) && chain_effort(effort, path) == end;
    let top = path.last();
    assert(path[path.len() - 1] == top);
    assert forall|x: int| 0 <= x < deps.len() implies #[trigger] settled(deps, x) by {
        assert(schedulable(before)[x]);
    }
    assert forall|x: int| 0 <= x < deps.len() implies #[trigger] effort[x] >= 0 by {
        assert(before[x].effort >= 0);
    }
    assert(settled(deps, top));
    no_chain_outlasts_finish(deps, effort, es, ef, path);
    lemma_project_end(ef);
    assert(ef[top] <= end);
    nothing_may_finish_after_the_end(deps, effort, end, ls, lf, top);
    assert(settled_onwards(deps, top)) by {
        assert forall|q: Seq<int>| #[trigger] chain(deps, q) && q[0] == top implies settled(deps, q.last()) by {
            assert(0 <= q[q.len() - 1] < deps.len());
        }
    }
    slack_is_never_negative(deps, effort, es, ef, ls, lf, top);
    assert(schedulable(before)[top]);
    assert(ef[top] == es[top] + effort[top]);
    assert(ls[top] == lf[top] - effort[top]);
    assert forall|k: int| 0 <= k < path.len() implies after[#[trigger] path[k]].float == 0 && after[path[k]].is_critical by {
        tight_chains_have_no_slack(deps, effort, es, ef, ls, lf, path, k);
        let i = path[k];
        assert(after[i].float == after[i].latest_start - after[i].earliest_start);
        assert(es[i] == after[i].earliest_start);
        assert(ls[i] == after[i].latest_start);
    }
}

/// Where everything is schedulable and takes time, the diameter is the effort
/// of the longest chain of dependencies.
pub proof fn diameter_is_the_longest_chain(before: Seq<TaskView>, after: Seq<TaskView>)
    requires
        scheduled(before, after),
        before.len() > 0,
        forall|i: int| 0 <= i < before.len() ==> #[trigger] schedulable(before)[i],
        forall|i: int| 0 <= i < before.len() ==> (#[trigger] before[i]).effort >= 0,
    ensures
        forall|path: Seq<int>| #[trigger] chain(task_deps(before), path) ==> chain_effort(task_efforts(before), path) <= latest_finish(after),
        exists|path: Seq<int>| #[trigger] chain(task_deps(before), path) && chain_effort(task_efforts(before), path) == latest_finish(after),
{
    diameter_is_project_end(after);
    project_lasts_longest_chain(before, after);
}

} // verus!
