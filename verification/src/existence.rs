//! Every list of tasks has a schedule, and every schedule an analysis.

use vstd::prelude::*;

use crate::algorithm::{
    analysed, batch_order, batch_view, batched, better_return, bottleneck_view, bottlenecked, critical_listed, critical_order,
    early_finishes, early_starts, is_bottleneck, is_critical, late_finishes, late_starts, leads_batch, return_order,
    same_work, scheduled, starts_ahead, starts_before, starts_with, task_deps, task_efforts, task_ids,
    total_effort, unscheduled_flags,
};
use crate::cpm_laws::{holdable, lemma_better_return_strict};
use crate::latest::{followers, late_finish, late_times, lemma_least_start_frame};
use crate::network::{lemma_settles_monotone, lemma_uniform_bound, settled, settled_flags, settles};
use crate::ranking::{ids_at, lemma_listing_exists, lists_in_order, sorted_ids, strict_order, total_order};
use crate::ratio::Ratio;
use crate::schedule::{
    early_times, greatest_finish, lemma_greatest_finish_frame, project_end,
};
use crate::task::{ResultView, TaskView};

verus! {

/// Applies `f` to every position, `k` times over, from zero.
spec fn iterate(n: nat, f: spec_fn(Seq<int>, int) -> int, k: nat) -> Seq<int>
    decreases k,
{
    if k == 0 {
        Seq::new(n, |i: int| 0)
    } else {
        Seq::new(n, |i: int| f(iterate(n, f, (k - 1) as nat), i))
    }
}

/// The value of `f` at a position known by stage `k + 1` depends only on the
/// positions known by stage `k`.
spec fn staged(n: nat, f: spec_fn(Seq<int>, int) -> int, known: spec_fn(nat, int) -> bool) -> bool {
    &&& forall|i: int| !#[trigger] known(0, i)
    &&& forall|k: nat, i: int, s: Seq<int>, t: Seq<int>|
        #![trigger known(k, i), f(s, i), f(t, i)]
        k > 0 && 0 <= i < n && known(k, i) && s.len() == n && t.len() == n && agree(n, known, (k - 1) as nat, s, t) ==> f(s, i) == f(t, i)
}

/// Two sequences agree on what is known by stage `k`.
spec fn agree(n: nat, known: spec_fn(nat, int) -> bool, k: nat, s: Seq<int>, t: Seq<int>) -> bool {
    forall|j: int| 0 <= j < n && #[trigger] known(k, j) ==> s[j] == t[j]
}

proof fn lemma_stable(n: nat, f: spec_fn(Seq<int>, int) -> int, known: spec_fn(nat, int) -> bool, k: nat, a: nat, b: nat, i: int)
    requires
        staged(n, f, known),
        known(k, i),
        0 <= i < n,
        k <= a,
        k <= b,
    ensures
        iterate(n, f, a)[i] == iterate(n, f, b)[i],
    decreases k,
{
    assert(!known(0, i));
    let s = iterate(n, f, (a - 1) as nat);
    let t = iterate(n, f, (b - 1) as nat);
    assert forall|j: int| 0 <= j < n && #[trigger] known((k - 1) as nat, j) implies s[j] == t[j] by {
        lemma_stable(n, f, known, (k - 1) as nat, (a - 1) as nat, (b - 1) as nat, j);
    }
    assert(agree(n, known, (k - 1) as nat, s, t));
    assert(f(s, i) == f(t, i));
}

/// Where everything is known by some stage, the equations `s[i] == f(s, i)`
/// have a solution.
proof fn lemma_solution(n: nat, f: spec_fn(Seq<int>, int) -> int, known: spec_fn(nat, int) -> bool, stages: nat) -> (s: Seq<int>)
    requires
        staged(n, f, known),
        forall|i: int| 0 <= i < n ==> #[trigger] known(stages, i),
    ensures
        s.len() == n,
        forall|i: int| 0 <= i < n ==> #[trigger] s[i] == f(s, i),
{
    let s = iterate(n, f, stages);
    assert forall|i: int| 0 <= i < n implies #[trigger] s[i] == f(s, i) by {
        assert(known(stages, i));
        lemma_stable(n, f, known, stages, stages, (stages + 1) as nat, i);
        assert(iterate(n, f, (stages + 1) as nat)[i] == f(s, i));
    }
    s
}

/// The finishes that follow from the starts.
spec fn finishes(done: Seq<bool>, effort: Seq<int>, es: Seq<int>) -> Seq<int> {
    Seq::new(es.len(), |i: int| if done[i] || es[i] > 0 { es[i] + effort[i] } else { 0 })
}

/// Every network has earliest times.
pub proof fn early_times_exist(deps: Seq<Seq<usize>>, effort: Seq<int>) -> (r: (Seq<int>, Seq<int>))
    ensures
        early_times(deps, settled_flags(deps), effort, r.0, r.1),
{
    let n = deps.len();
    let done = settled_flags(deps);
    let bound = lemma_uniform_bound(deps);
    let f = |es: Seq<int>, i: int| greatest_finish(finishes(done, effort, es), done, deps[i]);
    let known = |k: nat, i: int| k > bound || settles(deps, k, i);
    assert(staged(n, f, known)) by {
        assert forall|k: nat, i: int, s: Seq<int>, t: Seq<int>|
            #![trigger known(k, i), f(s, i), f(t, i)]
            k > 0 && 0 <= i < n && known(k, i) && s.len() == n && t.len() == n && agree(n, known, (k - 1) as nat, s, t) implies f(s, i) == f(t, i) by {
            let (a, b) = (finishes(done, effort, s), finishes(done, effort, t));
            let list = deps[i];
            assert forall|j: int| 0 <= j < list.len() && (#[trigger] list[j]) < done.len() && done[list[j] as int] implies a[list[j] as int] == b[list[j] as int] by {
                let d = list[j] as int;
                assert(settled(deps, d));
                assert(settles(deps, bound, d));
                if k > bound {
                    lemma_settles_monotone(deps, bound, (if k - 1 > bound { k - 1 } else { bound as int }) as nat, d);
                    assert(known((k - 1) as nat, d));
                } else {
                    assert(settles(deps, (k - 1) as nat, deps[i][j] as int));
                    assert(known((k - 1) as nat, d));
                }
                assert(s[d] == t[d]);
            }
            lemma_greatest_finish_frame(a, b, done, list);
        }
    }
    let es = lemma_solution(n, f, known, (bound + 1) as nat);
    let ef = finishes(done, effort, es);
    assert forall|i: int| 0 <= i < n implies #[trigger] es[i] == greatest_finish(ef, done, deps[i]) by {
        assert(es[i] == f(es, i));
    }
    (es, ef)
}

/// Every network has latest times.
pub proof fn late_times_exist(deps: Seq<Seq<usize>>, effort: Seq<int>, end: int) -> (r: (Seq<int>, Seq<int>))
    ensures
        late_times(deps, effort, end, r.0, r.1),
{
    let n = deps.len();
    let after = followers(deps);
    let bound = lemma_uniform_bound(after);
    let f = |ls: Seq<int>, i: int| late_finish(deps, end, ls, i) - effort[i];
    let known = |k: nat, i: int| k > bound || settles(after, k, i);
    assert(staged(n, f, known)) by {
        assert forall|k: nat, i: int, s: Seq<int>, t: Seq<int>|
            #![trigger known(k, i), f(s, i), f(t, i)]
            k > 0 && 0 <= i < n && known(k, i) && s.len() == n && t.len() == n && agree(n, known, (k - 1) as nat, s, t) implies f(s, i) == f(t, i) by {
            if settled(after, i) {
                let list = after[i];
                assert(settles(after, bound, i));
                assert forall|j: int| 0 <= j < list.len() implies s[#[trigger] list[j] as int] == t[list[j] as int] by {
                    let d = list[j] as int;
                    if k > bound {
                        assert(settles(after, (bound - 1) as nat, after[i][j] as int));
                        lemma_settles_monotone(after, (bound - 1) as nat, (k - 1) as nat, d);
                    } else {
                        assert(settles(after, (k - 1) as nat, after[i][j] as int));
                    }
                    assert(known((k - 1) as nat, d));
                }
                lemma_least_start_frame(s, t, list);
            }
        }
    }
    let ls = lemma_solution(n, f, known, (bound + 1) as nat);
    let lf = Seq::new(n, |i: int| late_finish(deps, end, ls, i));
    assert forall|i: int| 0 <= i < n implies #[trigger] ls[i] == lf[i] - effort[i] by {
        assert(ls[i] == f(ls, i));
    }
    (ls, lf)
}

/// Every list of tasks has a schedule.
pub proof fn schedule_exists(before: Seq<TaskView>) -> (after: Seq<TaskView>)
    ensures
        scheduled(before, after),
{
    let deps = task_deps(before);
    let effort = task_efforts(before);
    let (es, ef) = early_times_exist(deps, effort);
    let (ls, lf) = late_times_exist(deps, effort, project_end(ef));
    let after = Seq::new(
        before.len(),
        |i: int|
            TaskView {
                earliest_start: es[i],
                earliest_finish: ef[i],
                latest_start: ls[i],
                latest_finish: lf[i],
                float: ls[i] - es[i],
                is_critical: ls[i] - es[i] == 0,
                ..before[i]
            },
    );
    assert forall|i: int| 0 <= i < before.len() implies same_work(before[i], #[trigger] after[i]) by {
    }
    assert(early_starts(after) =~= es);
    assert(early_finishes(after) =~= ef);
    assert(late_starts(after) =~= ls);
    assert(late_finishes(after) =~= lf);
    after
}

/// The members below `n` can be listed, where there are no others.
proof fn lemma_list_all(n: nat, member: spec_fn(int) -> bool, before: spec_fn(int, int) -> bool) -> (order: Seq<int>)
    requires
        strict_order(member, before),
        total_order(member, before),
        forall|i: int| #[trigger] member(i) ==> 0 <= i < n,
    ensures
        lists_in_order(order, member, before),
{
    let order = lemma_listing_exists(n, member, before);
    let below = |i: int| 0 <= i < n && member(i);
    assert forall|k: int| #[trigger] member(k) implies order.contains(k) by {
        assert(below(k));
    }
    assert forall|k: int| 0 <= k < order.len() implies member(#[trigger] order[k]) by {
        assert(below(order[k]));
    }
    order
}

/// Every schedule has an analysis.
pub proof fn analysis_exists(tasks: Seq<TaskView>) -> (r: ResultView)
    requires
        holdable(tasks),
    ensures
        analysed(tasks, r),
{
    let n = tasks.len();
    let cm = |i: int| is_critical(tasks, i);
    let cb = |i: int, j: int| starts_ahead(tasks, i, j);
    let critical = lemma_list_all(n, cm, cb);
    assert(critical_order(tasks, critical));
    let km = |i: int| leads_batch(tasks, i);
    let kb = |i: int, j: int| starts_before(tasks, i, j);
    assert forall|i: int, j: int| #![trigger kb(i, j)] km(i) && km(j) && i != j implies kb(i, j) || kb(j, i) by {
        assert(!(i < j && starts_with(tasks, i, j)));
        assert(!(j < i && starts_with(tasks, j, i)));
    }
    let leads = lemma_list_all(n, km, kb);
    assert(batch_order(tasks, leads));
    let bm = |i: int| is_bottleneck(tasks, i);
    let bb = |i: int, j: int| better_return(tasks, i, j);
    lemma_better_return_strict(tasks);
    let holding = lemma_list_all(n, bm, bb);
    assert(return_order(tasks, holding));
    let sequential = total_effort(task_efforts(tasks));
    let parallel = project_end(early_finishes(tasks));
    let r = ResultView {
        total_tasks: n as int,
        critical_path: ids_at(task_ids(tasks), critical),
        critical_path_duration: parallel,
        sequential,
        parallel,
        speedup: if parallel > 0 {
            Ratio { num: sequential as i128, den: parallel as i128 }
        } else {
            Ratio { num: 1, den: 1 }
        },
        batches: Seq::new(leads.len(), |k: int| batch_view(tasks, k, leads[k])),
        bottlenecks: Seq::new(holding.len(), |k: int| bottleneck_view(tasks, holding[k])),
        tasks,
        unscheduled: sorted_ids(task_ids(tasks), unscheduled_flags(tasks)),
    };
    assert(critical_listed(tasks, r.critical_path));
    assert(batched(tasks, r.batches));
    assert(bottlenecked(tasks, r.bottlenecks));
    r
}

} // verus!
