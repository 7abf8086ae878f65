//! What holds of the order of work in every critical path analysis.

use vstd::prelude::*;

use crate::algorithm::{
    analysed, batch_order, batch_view, critical_order, early_finishes, early_starts, in_batch, is_critical, leads_batch,
    lemma_same_network, marked_ids, marked_max, schedulable, scheduled, starts_ahead, starts_before, starts_with, task_deps,
    task_efforts, task_ids, total_effort,
};
use crate::cpm_laws::dependencies_finish_first;
use crate::network::{lemma_settled_deps, lemma_settles_monotone, lemma_uniform_bound, lists, settled, settles};
use crate::ranking::ids_at;
use crate::reach::marked_total;
use crate::schedule::{greatest_finish, lemma_greatest_finish_at_most, lemma_project_end};
use crate::task::{BatchView, ResultView, TaskView};
use crate::turns::turns_follow_dependencies;

verus! {

/// A marked id is listed.
proof fn lemma_marked_listed(marks: Seq<bool>, ids: Seq<Seq<char>>, i: int)
    requires
        marks.len() <= ids.len(),
        0 <= i < marks.len(),
        marks[i],
    ensures
        marked_ids(marks, ids).contains(ids[i]),
    decreases marks.len(),
{
    let all = marked_ids(marks, ids);
    if i == marks.len() - 1 {
        assert(all.last() == ids[i]);
    } else {
        let head = marks.drop_last();
        assert(head[i]);
        lemma_marked_listed(head, ids, i);
        let rest = marked_ids(head, ids);
        let k = choose|k: int| 0 <= k < rest.len() && rest[k] == ids[i];
        assert(all[k] == ids[i]);
    }
}

/// A listed id is marked.
proof fn lemma_listed_marked(marks: Seq<bool>, ids: Seq<Seq<char>>, x: Seq<char>)
    requires
        marks.len() <= ids.len(),
        marked_ids(marks, ids).contains(x),
    ensures
        exists|i: int| 0 <= i < marks.len() && #[trigger] marks[i] && ids[i] == x,
    decreases marks.len(),
{
    let all = marked_ids(marks, ids);
    if marks.len() > 0 {
        let head = marks.drop_last();
        let rest = marked_ids(head, ids);
        let k = choose|k: int| 0 <= k < all.len() && all[k] == x;
        if k < rest.len() {
            assert(rest[k] == x);
            lemma_listed_marked(head, ids, x);
            let i = choose|i: int| 0 <= i < head.len() && #[trigger] head[i] && ids[i] == x;
            assert(marks[i]);
        } else {
            assert(marks[marks.len() - 1]);
        }
    }
}

/// The task that leads the batch of task `i`.
pub proof fn lemma_lead(tasks: Seq<TaskView>, i: int, m: int) -> (lead: int)
    requires
        0 <= i < tasks.len(),
        i <= m < tasks.len(),
        starts_with(tasks, i, m),
    ensures
        leads_batch(tasks, lead),
        starts_with(tasks, lead, m),
    decreases i,
{
    if leads_batch(tasks, i) {
        i
    } else {
        let j = choose|j: int| 0 <= j < i && #[trigger] starts_with(tasks, j, i);
        lemma_lead(tasks, j, m)
    }
}

/// A batch lists a task exactly when the task starts with the batch.
pub proof fn lemma_batch_holds(tasks: Seq<TaskView>, number: int, lead: int, i: int)
    requires
        task_ids(tasks).no_duplicates(),
        0 <= i < tasks.len(),
    ensures
        batch_view(tasks, number, lead).tasks.contains(tasks[i].id) <==> starts_with(tasks, lead, i),
{
    let ids = task_ids(tasks);
    let marks = in_batch(tasks, lead);
    assert(ids[i] == tasks[i].id);
    if marks[i] {
        lemma_marked_listed(marks, ids, i);
    }
    if marked_ids(marks, ids).contains(tasks[i].id) {
        lemma_listed_marked(marks, ids, tasks[i].id);
        let j = choose|j: int| 0 <= j < marks.len() && #[trigger] marks[j] && ids[j] == tasks[i].id;
        assert(ids[j] == ids[i]);
        assert(j == i);
    }
}

/// Every task is in exactly one batch.
pub proof fn batches_partition_tasks(tasks: Seq<TaskView>, r: ResultView, i: int)
    requires
        analysed(tasks, r),
        task_ids(tasks).no_duplicates(),
        0 <= i < tasks.len(),
    ensures
        exists|k: int| 0 <= k < r.batches.len() && (#[trigger] r.batches[k]).tasks.contains(tasks[i].id),
        forall|k: int, l: int| 0 <= k < r.batches.len() && 0 <= l < r.batches.len() && (#[trigger] r.batches[k]).tasks.contains(tasks[i].id) && (#[trigger] r.batches[l]).tasks.contains(tasks[i].id) ==> k == l,
{
    let leads = choose|o: Seq<int>| #[trigger] batch_order(tasks, o) && r.batches == Seq::new(o.len(), |k: int| batch_view(tasks, k, o[k]));
    let member = |i: int| leads_batch(tasks, i);
    let before = |i: int, j: int| starts_before(tasks, i, j);
    let lead = lemma_lead(tasks, i, i);
    assert(member(lead));
    assert(leads.contains(lead));
    let at = choose|k: int| 0 <= k < leads.len() && leads[k] == lead;
    lemma_batch_holds(tasks, at, lead, i);
    assert(r.batches[at].tasks.contains(tasks[i].id));
    assert forall|k: int| 0 <= k < r.batches.len() && (#[trigger] r.batches[k]).tasks.contains(tasks[i].id) implies starts_with(tasks, leads[k], i) by {
        lemma_batch_holds(tasks, k, leads[k], i);
    }
    assert forall|k: int, l: int| 0 <= k < r.batches.len() && 0 <= l < r.batches.len() && (#[trigger] r.batches[k]).tasks.contains(tasks[i].id) && (#[trigger] r.batches[l]).tasks.contains(tasks[i].id) implies k == l by {
        if k < l {
            assert(before(leads[k], leads[l]));
        } else if l < k {
            assert(before(leads[l], leads[k]));
        }
    }
}

/// All tasks of a batch have the same earliest start, which is the start of
/// the batch, and later batches start no earlier.
pub proof fn batches_start_together(tasks: Seq<TaskView>, r: ResultView)
    requires
        analysed(tasks, r),
        task_ids(tasks).no_duplicates(),
    ensures
        forall|k: int, i: int| 0 <= k < r.batches.len() && 0 <= i < tasks.len() && (#[trigger] r.batches[k]).tasks.contains((#[trigger] tasks[i]).id) ==> tasks[i].earliest_start == r.batches[k].start_time,
        forall|k: int, l: int| 0 <= k < l < r.batches.len() ==> (#[trigger] r.batches[k]).start_time <= (#[trigger] r.batches[l]).start_time,
{
    let leads = choose|o: Seq<int>| #[trigger] batch_order(tasks, o) && r.batches == Seq::new(o.len(), |k: int| batch_view(tasks, k, o[k]));
    let before = |i: int, j: int| starts_before(tasks, i, j);
    assert forall|k: int, i: int| 0 <= k < r.batches.len() && 0 <= i < tasks.len() && (#[trigger] r.batches[k]).tasks.contains((#[trigger] tasks[i]).id) implies tasks[i].earliest_start == r.batches[k].start_time by {
        lemma_batch_holds(tasks, k, leads[k], i);
    }
    assert forall|k: int, l: int| 0 <= k < l < r.batches.len() implies (#[trigger] r.batches[k]).start_time <= (#[trigger] r.batches[l]).start_time by {
        assert(before(leads[k], leads[l]));
    }
}

/// A schedulable task never starts with something it depends on, and starts
/// after it where that does not take negative time.
proof fn lemma_dependencies_start_first(before: Seq<TaskView>, after: Seq<TaskView>, i: int, d: int)
    requires
        scheduled(before, after),
        0 <= i < before.len(),
        schedulable(before)[i],
        lists(task_deps(before)[i], d),
    ensures
        0 <= d < before.len(),
        !starts_with(after, d, i),
        before[d].effort >= 0 ==> starts_before(after, d, i),
{
    dependencies_finish_first(before, after, i, d);
    lemma_same_network(before, after);
    let deps = task_deps(before);
    let a = choose|a: int| 0 <= a < deps[i].len() && #[trigger] deps[i][a] == d;
    assert(settled(deps, i));
    lemma_settled_deps(deps, i, a);
    assert(settled(deps, d));
    assert(schedulable(before)[d]);
    assert(early_finishes(after)[d] == early_starts(after)[d] + task_efforts(before)[d]);
    assert(early_finishes(after)[d] == after[d].earliest_finish);
    assert(early_starts(after)[d] == after[d].earliest_start);
    if after[d].earliest_start == after[i].earliest_start {
        turns_follow_dependencies(after, i, d);
    }
}

/// A schedulable task is never in one batch with something it depends on, and
/// what does not take negative time is in an earlier batch than anything that
/// depends on it.
pub proof fn batches_respect_dependencies(before: Seq<TaskView>, after: Seq<TaskView>, r: ResultView, i: int, d: int, k: int, l: int)
    requires
        scheduled(before, after),
        analysed(after, r),
        task_ids(before).no_duplicates(),
        0 <= i < before.len(),
        schedulable(before)[i],
        lists(task_deps(before)[i], d),
        0 <= k < r.batches.len(),
        0 <= l < r.batches.len(),
        r.batches[k].tasks.contains(after[d].id),
        r.batches[l].tasks.contains(after[i].id),
    ensures
        k != l,
        before[d].effort >= 0 ==> k < l,
{
    lemma_dependencies_start_first(before, after, i, d);
    lemma_same_network(before, after);
    let leads = choose|o: Seq<int>| #[trigger] batch_order(after, o) && r.batches == Seq::new(o.len(), |k: int| batch_view(after, k, o[k]));
    let earlier = |i: int, j: int| starts_before(after, i, j);
    lemma_batch_holds(after, k, leads[k], d);
    lemma_batch_holds(after, l, leads[l], i);
    if l < k {
        assert(earlier(leads[l], leads[k]));
    }
}

/// On the critical path no task stands before one of its dependencies, where
/// the task is schedulable and the dependency does not take negative time.
pub proof fn critical_path_respects_dependencies(before: Seq<TaskView>, after: Seq<TaskView>, r: ResultView, i: int, d: int, p: int, q: int)
    requires
        scheduled(before, after),
        analysed(after, r),
        task_ids(before).no_duplicates(),
        0 <= i < before.len(),
        schedulable(before)[i],
        lists(task_deps(before)[i], d),
        before[d].effort >= 0,
        0 <= p < r.critical_path.len(),
        0 <= q < r.critical_path.len(),
        r.critical_path[p] == after[d].id,
        r.critical_path[q] == after[i].id,
    ensures
        p < q,
{
    lemma_dependencies_start_first(before, after, i, d);
    lemma_same_network(before, after);
    let ids = task_ids(after);
    let order = choose|o: Seq<int>| #[trigger] critical_order(after, o) && r.critical_path == ids_at(ids, o);
    let member = |i: int| is_critical(after, i);
    let ahead = |i: int, j: int| starts_ahead(after, i, j);
    assert(member(order[p]) && member(order[q]));
    assert(ids[order[p]] == ids[d]);
    assert(ids[order[q]] == ids[i]);
    assert(order[p] == d && order[q] == i);
    if q < p {
        assert(ahead(order[q], order[p]));
    }
}

/// The total over two groups that share nothing is the total over both.
proof fn lemma_totals_add(a: Seq<bool>, b: Seq<bool>, c: Seq<bool>, values: Seq<int>)
    requires
        a.len() == c.len(),
        b.len() == c.len(),
        forall|i: int| 0 <= i < c.len() ==> #[trigger] c[i] == (a[i] || b[i]) && !(a[i] && b[i]),
    ensures
        marked_total(a, values) + marked_total(b, values) == marked_total(c, values),
    decreases c.len(),
{
    if c.len() > 0 {
        let (x, y, z) = (a.drop_last(), b.drop_last(), c.drop_last());
        assert forall|i: int| 0 <= i < z.len() implies #[trigger] z[i] == (x[i] || y[i]) && !(x[i] && y[i]) by {
            assert(c[i] == z[i]);
        }
        lemma_totals_add(x, y, z, values);
        assert(c[c.len() - 1] == c.last());
    }
}

/// Of values that are not negative, the largest is at most the total, and the
/// total over a group at most the total over all.
proof fn lemma_total_bounds(marks: Seq<bool>, values: Seq<int>)
    requires
        marks.len() <= values.len(),
        forall|i: int| 0 <= i < values.len() ==> #[trigger] values[i] >= 0,
    ensures
        0 <= marked_max(marks, values) <= marked_total(marks, values) <= total_effort(values.take(marks.len() as int)),
    decreases marks.len(),
{
    let part = values.take(marks.len() as int);
    if marks.len() > 0 {
        lemma_total_bounds(marks.drop_last(), values);
        assert(part.drop_last() =~= values.take(marks.len() - 1));
        assert(values[marks.len() - 1] >= 0);
        assert(part.last() == values[marks.len() - 1]);
    }
}

/// For each node, whether it can be settled within `k` steps.
spec fn settled_within(deps: Seq<Seq<usize>>, k: nat) -> Seq<bool> {
    Seq::new(deps.len(), |i: int| settles(deps, k, i))
}

/// A group and one more value are at most the total over all.
proof fn lemma_one_more(marks: Seq<bool>, values: Seq<int>, i: int)
    requires
        marks.len() == values.len(),
        0 <= i < marks.len(),
        !marks[i],
        forall|x: int| 0 <= x < values.len() ==> #[trigger] values[x] >= 0,
    ensures
        marked_total(marks, values) + values[i] == marked_total(marks.update(i, true), values),
        marked_total(marks, values) + values[i] <= total_effort(values),
{
    let one = Seq::new(marks.len(), |x: int| x == i);
    let both = marks.update(i, true);
    lemma_totals_add(marks, one, both, values);
    lemma_single_total(one, values, i);
    lemma_total_bounds(both, values);
    assert(values.take(marks.len() as int) =~= values);
}

proof fn lemma_single_total(one: Seq<bool>, values: Seq<int>, i: int)
    requires
        0 <= i < values.len(),
        forall|x: int| 0 <= x < one.len() ==> #[trigger] one[x] == (x == i),
    ensures
        marked_total(one, values) == (if i < one.len() { values[i] } else { 0 }),
    decreases one.len(),
{
    if one.len() > 0 {
        let head = one.drop_last();
        assert forall|x: int| 0 <= x < head.len() implies #[trigger] head[x] == (x == i) by {
            assert(one[x] == head[x]);
        }
        lemma_single_total(head, values, i);
        assert(one[one.len() - 1] == one.last());
    }
}

/// A larger group has at least the total of a smaller one.
proof fn lemma_total_grows(a: Seq<bool>, b: Seq<bool>, values: Seq<int>)
    requires
        a.len() == b.len(),
        b.len() <= values.len(),
        forall|x: int| 0 <= x < a.len() && #[trigger] a[x] ==> b[x],
        forall|x: int| 0 <= x < values.len() ==> #[trigger] values[x] >= 0,
    ensures
        marked_total(a, values) <= marked_total(b, values),
    decreases a.len(),
{
    if a.len() > 0 {
        let (x, y) = (a.drop_last(), b.drop_last());
        assert forall|k: int| 0 <= k < x.len() && #[trigger] x[k] implies y[k] by {
            assert(a[k]);
        }
        lemma_total_grows(x, y, values);
        assert(values[a.len() - 1] >= 0);
        assert(a[a.len() - 1] == a.last());
    }
}

/// What is settled within `k` steps finishes within the effort of everything
/// that is.
proof fn lemma_finish_within(tasks: Seq<TaskView>, after: Seq<TaskView>, k: nat, i: int)
    requires
        scheduled(tasks, after),
        settles(task_deps(tasks), k, i),
        forall|x: int| 0 <= x < tasks.len() ==> (#[trigger] tasks[x]).effort >= 0,
    ensures
        after[i].earliest_finish <= marked_total(settled_within(task_deps(tasks), k), task_efforts(tasks)),
    decreases k,
{
    let deps = task_deps(tasks);
    let values = task_efforts(tasks);
    let done = schedulable(tasks);
    let now = settled_within(deps, k);
    let earlier = settled_within(deps, (k - 1) as nat);
    assert forall|x: int| 0 <= x < values.len() implies #[trigger] values[x] >= 0 by {
        assert(tasks[x].effort >= 0);
    }
    assert forall|x: int| 0 <= x < earlier.len() && #[trigger] earlier[x] implies now[x] by {
        lemma_settles_monotone(deps, (k - 1) as nat, k, x);
    }
    if earlier[i] {
        lemma_finish_within(tasks, after, (k - 1) as nat, i);
        lemma_total_grows(earlier, now, values);
    } else {
        let ef = early_finishes(after);
        let top = marked_total(earlier, values);
        lemma_total_bounds(earlier, values);
        assert forall|j: int| 0 <= j < deps[i].len() && (#[trigger] deps[i][j]) < done.len() && done[deps[i][j] as int] implies ef[deps[i][j] as int] <= top by {
            lemma_finish_within(tasks, after, (k - 1) as nat, deps[i][j] as int);
        }
        lemma_greatest_finish_at_most(ef, done, deps[i], top);
        lemma_one_more(earlier, values, i);
        let both = earlier.update(i, true);
        assert forall|x: int| 0 <= x < both.len() && #[trigger] both[x] implies now[x] by {
            if x != i {
                assert(earlier[x]);
            }
        }
        lemma_total_grows(both, now, values);
        assert(settled(deps, i));
        assert(done[i]);
        assert(early_starts(after)[i] == greatest_finish(ef, done, deps[i]));
        assert(ef[i] == early_starts(after)[i] + values[i]);
        assert(ef[i] == after[i].earliest_finish);
    }
}

/// Where no effort is negative, working in parallel takes no longer than doing
/// everything one by one.
pub proof fn parallel_never_takes_longer(before: Seq<TaskView>, after: Seq<TaskView>, r: ResultView)
    requires
        scheduled(before, after),
        analysed(after, r),
        forall|i: int| 0 <= i < before.len() ==> (#[trigger] before[i]).effort >= 0,
    ensures
        0 <= r.parallel <= r.sequential,
{
    lemma_same_network(before, after);
    let deps = task_deps(before);
    let values = task_efforts(before);
    let done = schedulable(before);
    let ef = early_finishes(after);
    assert forall|x: int| 0 <= x < values.len() implies #[trigger] values[x] >= 0 by {
        assert(before[x].effort >= 0);
    }
    assert(values.take(values.len() as int) =~= values);
    let bound = lemma_uniform_bound(deps);
    let all = settled_within(deps, bound);
    lemma_total_bounds(all, values);
    let top = marked_total(all, values);
    assert forall|i: int| 0 <= i < ef.len() implies #[trigger] ef[i] <= total_effort(values) by {
        assert(ef[i] == after[i].earliest_finish);
        if done[i] {
            assert(settled(deps, i));
            lemma_finish_within(before, after, bound, i);
        } else {
            assert(!all[i]) by {
                if settles(deps, bound, i) {
                    assert(settled(deps, i));
                }
            }
            assert forall|j: int| 0 <= j < deps[i].len() && (#[trigger] deps[i][j]) < done.len() && done[deps[i][j] as int] implies ef[deps[i][j] as int] <= top by {
                assert(settled(deps, deps[i][j] as int));
                lemma_finish_within(before, after, bound, deps[i][j] as int);
            }
            lemma_greatest_finish_at_most(ef, done, deps[i], top);
            lemma_one_more(all, values, i);
            assert(early_starts(after)[i] == greatest_finish(ef, done, deps[i]));
        }
    }
    lemma_project_end(ef);
}

/// Sum of the batch durations.
pub open spec fn total_duration(batches: Seq<BatchView>) -> int
    decreases batches.len(),
{
    if batches.len() == 0 {
        0
    } else {
        total_duration(batches.drop_last()) + batches.last().duration
    }
}

/// The batches led by the given tasks.
spec fn batches_of(tasks: Seq<TaskView>, leads: Seq<int>) -> Seq<BatchView> {
    Seq::new(leads.len(), |k: int| batch_view(tasks, k, leads[k]))
}

/// One of the tasks leads the batch of task `i`.
spec fn led(tasks: Seq<TaskView>, leads: Seq<int>, i: int) -> bool {
    exists|k: int| 0 <= k < leads.len() && starts_with(tasks, #[trigger] leads[k], i)
}

/// For each task, whether its batch is led by one of the given tasks.
spec fn in_batches(tasks: Seq<TaskView>, leads: Seq<int>) -> Seq<bool> {
    Seq::new(tasks.len(), |i: int| led(tasks, leads, i))
}

/// The batches together last no longer than their tasks do one by one.
proof fn lemma_batches_last(tasks: Seq<TaskView>, leads: Seq<int>)
    requires
        forall|x: int, y: int| 0 <= x < y < leads.len() ==> starts_before(tasks, #[trigger] leads[x], #[trigger] leads[y]),
        forall|i: int| 0 <= i < tasks.len() ==> (#[trigger] tasks[i]).effort >= 0,
    ensures
        0 <= total_duration(batches_of(tasks, leads)) <= marked_total(in_batches(tasks, leads), task_efforts(tasks)),
    decreases leads.len(),
{
    let values = task_efforts(tasks);
    let batches = batches_of(tasks, leads);
    assert forall|i: int| 0 <= i < values.len() implies #[trigger] values[i] >= 0 by {
        assert(tasks[i].effort >= 0);
    }
    lemma_total_bounds(in_batches(tasks, leads), values);
    if leads.len() > 0 {
        let rest = leads.drop_last();
        let lead = leads.last();
        assert forall|x: int, y: int| 0 <= x < y < rest.len() implies starts_before(tasks, #[trigger] rest[x], #[trigger] rest[y]) by {
            assert(starts_before(tasks, leads[x], leads[y]));
        }
        lemma_batches_last(tasks, rest);
        assert(batches.drop_last() =~= batches_of(tasks, rest));
        let (a, b, c) = (in_batches(tasks, rest), in_batch(tasks, lead), in_batches(tasks, leads));
        assert forall|i: int| 0 <= i < c.len() implies #[trigger] c[i] == (a[i] || b[i]) && !(a[i] && b[i]) by {
            if led(tasks, rest, i) {
                let x = choose|x: int| 0 <= x < rest.len() && starts_with(tasks, #[trigger] rest[x], i);
                assert(leads[x] == rest[x]);
                assert(starts_before(tasks, leads[x], leads[leads.len() - 1]));
                assert(led(tasks, leads, i));
            }
            if led(tasks, leads, i) && !b[i] {
                let x = choose|x: int| 0 <= x < leads.len() && starts_with(tasks, #[trigger] leads[x], i);
                assert(rest[x] == leads[x]);
            }
            if b[i] {
                assert(leads[leads.len() - 1] == lead);
                assert(led(tasks, leads, i));
            }
        }
        lemma_totals_add(a, b, c, values);
        lemma_total_bounds(b, values);
        assert(batches.last() == batch_view(tasks, leads.len() - 1, lead));
    }
}

/// A marked value is at most the largest.
proof fn lemma_marked_max(marks: Seq<bool>, values: Seq<int>, i: int)
    requires
        0 <= i < marks.len(),
        marks[i],
    ensures
        values[i] <= marked_max(marks, values),
    decreases marks.len(),
{
    if i < marks.len() - 1 {
        assert(marks.drop_last()[i]);
        lemma_marked_max(marks.drop_last(), values, i);
    }
}

/// Whatever starts with batch `k` can finish by the end of that batch.
proof fn lemma_finish_by_batch(before: Seq<TaskView>, after: Seq<TaskView>, leads: Seq<int>, k: int, i: int)
    requires
        scheduled(before, after),
        batch_order(after, leads),
        forall|x: int| 0 <= x < before.len() ==> (#[trigger] before[x]).effort >= 0,
        forall|x: int| 0 <= x < before.len() ==> #[trigger] schedulable(before)[x],
        0 <= k < leads.len(),
        0 <= i < before.len(),
        starts_with(after, leads[k], i),
    ensures
        after[i].earliest_finish <= total_duration(batches_of(after, leads.take(k + 1))),
    decreases k,
{
    lemma_same_network(before, after);
    let deps = task_deps(before);
    let values = task_efforts(before);
    let done = schedulable(before);
    let ef = early_finishes(after);
    let member = |i: int| leads_batch(after, i);
    let earlier = |i: int, j: int| starts_before(after, i, j);
    let (first, upto) = (leads.take(k), leads.take(k + 1));
    assert(upto.drop_last() =~= first);
    assert(batches_of(after, upto).drop_last() =~= batches_of(after, first));
    lemma_prefix_grows(before, after, leads, 0, k);
    let top = total_duration(batches_of(after, first));
    assert forall|j: int| 0 <= j < deps[i].len() && (#[trigger] deps[i][j]) < done.len() && done[deps[i][j] as int] implies ef[deps[i][j] as int] <= top by {
        let d = deps[i][j] as int;
        assert(lists(deps[i], d));
        assert(done[i]);
        lemma_dependencies_start_first(before, after, i, d);
        assert(before[d].effort >= 0);
        let lead = lemma_lead(after, d, d);
        assert(member(lead));
        assert(leads.contains(lead));
        let l = choose|l: int| 0 <= l < leads.len() && leads[l] == lead;
        if k < l {
            assert(earlier(leads[k], leads[l]));
        }
        assert(l < k);
        lemma_finish_by_batch(before, after, leads, l, d);
        lemma_prefix_grows(before, after, leads, l + 1, k);
        assert(ef[d] == after[d].earliest_finish);
    }
    lemma_greatest_finish_at_most(ef, done, deps[i], top);
    assert(done[i]);
    assert(early_starts(after)[i] == greatest_finish(ef, done, deps[i]));
    assert(ef[i] == early_starts(after)[i] + values[i]);
    assert(ef[i] == after[i].earliest_finish);
    lemma_marked_max(in_batch(after, leads[k]), values, i);
    assert(batches_of(after, upto).last() == batch_view(after, k, leads[k]));
}

/// More batches last longer.
proof fn lemma_prefix_grows(before: Seq<TaskView>, after: Seq<TaskView>, leads: Seq<int>, a: int, b: int)
    requires
        scheduled(before, after),
        forall|x: int| 0 <= x < before.len() ==> (#[trigger] before[x]).effort >= 0,
        0 <= a <= b <= leads.len(),
    ensures
        0 <= total_duration(batches_of(after, leads.take(a))) <= total_duration(batches_of(after, leads.take(b))),
    decreases b,
{
    lemma_same_network(before, after);
    let values = task_efforts(after);
    assert forall|x: int| 0 <= x < values.len() implies #[trigger] values[x] >= 0 by {
        assert(before[x].effort >= 0);
        assert(task_efforts(before)[x] == values[x]);
    }
    if b > 0 {
        let (first, upto) = (leads.take(b - 1), leads.take(b));
        assert(batches_of(after, upto).drop_last() =~= batches_of(after, first));
        lemma_total_bounds(in_batch(after, leads[b - 1]), values);
        assert(batches_of(after, upto).last() == batch_view(after, b - 1, leads[b - 1]));
        lemma_prefix_grows(before, after, leads, if a < b { a } else { b - 1 }, b - 1);
    }
}

/// Where no effort is negative, running the batches one after the other takes
/// no longer than doing everything one by one, and, where everything is
/// schedulable, no less than the optimum.
pub proof fn batches_lie_between(before: Seq<TaskView>, after: Seq<TaskView>, r: ResultView)
    requires
        scheduled(before, after),
        analysed(after, r),
        forall|i: int| 0 <= i < before.len() ==> (#[trigger] before[i]).effort >= 0,
    ensures
        0 <= total_duration(r.batches) <= r.sequential,
        (forall|i: int| 0 <= i < before.len() ==> #[trigger] schedulable(before)[i]) ==> r.parallel <= total_duration(r.batches),
{
    lemma_same_network(before, after);
    let leads = choose|o: Seq<int>| #[trigger] batch_order(after, o) && r.batches == Seq::new(o.len(), |k: int| batch_view(after, k, o[k]));
    let member = |i: int| leads_batch(after, i);
    let earlier = |i: int, j: int| starts_before(after, i, j);
    assert(r.batches =~= batches_of(after, leads));
    let values = task_efforts(after);
    assert forall|i: int| 0 <= i < after.len() implies (#[trigger] after[i]).effort >= 0 by {
        assert(before[i].effort >= 0);
        assert(task_efforts(before)[i] == values[i]);
    }
    assert forall|i: int| 0 <= i < values.len() implies #[trigger] values[i] >= 0 by {
        assert(after[i].effort >= 0);
    }
    assert forall|x: int, y: int| 0 <= x < y < leads.len() implies starts_before(after, #[trigger] leads[x], #[trigger] leads[y]) by {
        assert(earlier(leads[x], leads[y]));
    }
    lemma_batches_last(after, leads);
    lemma_total_bounds(in_batches(after, leads), values);
    assert(values.take(after.len() as int) =~= values);
    if forall|i: int| 0 <= i < before.len() ==> #[trigger] schedulable(before)[i] {
        let ef = early_finishes(after);
        assert forall|i: int| 0 <= i < ef.len() implies #[trigger] ef[i] <= total_duration(r.batches) by {
            let lead = lemma_lead(after, i, i);
            assert(member(lead));
            assert(leads.contains(lead));
            let k = choose|k: int| 0 <= k < leads.len() && leads[k] == lead;
            lemma_finish_by_batch(before, after, leads, k, i);
            lemma_prefix_grows(before, after, leads, k + 1, leads.len() as int);
            assert(leads.take(leads.len() as int) =~= leads);
            assert(ef[i] == after[i].earliest_finish);
        }
        lemma_project_end(ef);
    }
}

} // verus!
