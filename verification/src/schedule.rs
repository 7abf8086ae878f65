//! Earliest and latest times in a dependency network, and reachability.

use vstd::prelude::*;

use crate::algorithm::CpmAlgorithm;
use crate::network::{
    lemma_settled_deps, lists, settled, settled_flags, settles, topological,
};

verus! {

/// Numbers as mathematical integers.
pub open spec fn wide(v: Seq<i128>) -> Seq<int> {
    Seq::new(v.len(), |i: int| v[i] as int)
}

/// Efforts as mathematical integers.
pub open spec fn efforts(v: Seq<i64>) -> Seq<int> {
    Seq::new(v.len(), |i: int| v[i] as int)
}

/// Latest earliest finish among the settled nodes of a list; zero when there
/// is none later.
pub open spec fn greatest_finish(ef: Seq<int>, done: Seq<bool>, list: Seq<usize>) -> int
    decreases list.len(),
{
    if list.len() == 0 {
        0
    } else {
        let rest = greatest_finish(ef, done, list.drop_last());
        let d = list.last() as int;
        if d < done.len() && done[d] && ef[d] > rest {
            ef[d]
        } else {
            rest
        }
    }
}

/// The equations of the forward pass: a node starts when the last of its
/// settled predecessors finishes, and finishes after its effort. A node that
/// cannot be settled keeps a zero finish while nothing delays it.
pub open spec fn early_times(deps: Seq<Seq<usize>>, done: Seq<bool>, effort: Seq<int>, es: Seq<int>, ef: Seq<int>) -> bool {
    &&& es.len() == deps.len()
    &&& ef.len() == deps.len()
    &&& forall|i: int| 0 <= i < deps.len() ==> #[trigger] es[i] == greatest_finish(ef, done, deps[i])
    &&& forall|i: int| 0 <= i < deps.len() ==> #[trigger] ef[i] == (if done[i] || es[i] > 0 { es[i] + effort[i] } else { 0 })
}

/// The latest finish, or zero.
pub open spec fn project_end(ef: Seq<int>) -> int
    decreases ef.len(),
{
    if ef.len() == 0 {
        0
    } else {
        let rest = project_end(ef.drop_last());
        if ef.last() > rest {
            ef.last()
        } else {
            rest
        }
    }
}

/// The latest finish depends only on the settled nodes of the list.
pub proof fn lemma_greatest_finish_frame(ef: Seq<int>, ef2: Seq<int>, done: Seq<bool>, list: Seq<usize>)
    requires
        forall|j: int| 0 <= j < list.len() && (#[trigger] list[j]) < done.len() && done[list[j] as int] ==> ef[list[j] as int] == ef2[list[j] as int],
    ensures
        greatest_finish(ef, done, list) == greatest_finish(ef2, done, list),
    decreases list.len(),
{
    if list.len() > 0 {
        let rest = list.drop_last();
        assert forall|j: int| 0 <= j < rest.len() && (#[trigger] rest[j]) < done.len() && done[rest[j] as int] implies ef[rest[j] as int] == ef2[rest[j] as int] by {
            assert(list[j] == rest[j]);
        }
        lemma_greatest_finish_frame(ef, ef2, done, rest);
        assert(list[list.len() - 1] == list.last());
    }
}

/// The latest finish of a list bounds each finish in it.
pub proof fn lemma_greatest_finish_bounds(ef: Seq<int>, done: Seq<bool>, list: Seq<usize>, j: int)
    requires
        0 <= j < list.len(),
        list[j] < done.len(),
        done[list[j] as int],
    ensures
        greatest_finish(ef, done, list) >= ef[list[j] as int],
    decreases list.len(),
{
    if j < list.len() - 1 {
        assert(list.drop_last()[j] == list[j]);
        lemma_greatest_finish_bounds(ef, done, list.drop_last(), j);
    }
}

/// A bound on each finish of a list bounds the latest.
pub proof fn lemma_greatest_finish_at_most(ef: Seq<int>, done: Seq<bool>, list: Seq<usize>, top: int)
    requires
        top >= 0,
        forall|j: int| 0 <= j < list.len() && (#[trigger] list[j]) < done.len() && done[list[j] as int] ==> ef[list[j] as int] <= top,
    ensures
        0 <= greatest_finish(ef, done, list) <= top,
    decreases list.len(),
{
    if list.len() > 0 {
        let rest = list.drop_last();
        assert forall|j: int| 0 <= j < rest.len() && (#[trigger] rest[j]) < done.len() && done[rest[j] as int] implies ef[rest[j] as int] <= top by {
            assert(list[j] == rest[j]);
        }
        lemma_greatest_finish_at_most(ef, done, rest, top);
        assert(list[list.len() - 1] == list.last());
    }
}

/// No finish is later than the end of the project.
pub proof fn lemma_project_end(ef: Seq<int>)
    ensures
        project_end(ef) >= 0,
        forall|i: int| 0 <= i < ef.len() ==> #[trigger] ef[i] <= project_end(ef),
        project_end(ef) == 0 || ef.contains(project_end(ef)),
    decreases ef.len(),
{
    if ef.len() > 0 {
        let rest = ef.drop_last();
        lemma_project_end(rest);
        assert forall|i: int| 0 <= i < ef.len() implies #[trigger] ef[i] <= project_end(ef) by {
            if i < ef.len() - 1 {
                assert(rest[i] == ef[i]);
            }
        }
        if project_end(ef) != 0 {
            if ef.last() > project_end(rest) {
                assert(ef[ef.len() - 1] == project_end(ef));
            } else {
                let k = choose|k: int| 0 <= k < rest.len() && rest[k] == project_end(rest);
                assert(ef[k] == project_end(ef));
            }
        }
    }
}

/// Largest magnitude of an effort.
pub const EFFORT_SPAN: i128 = 0x8000_0000_0000_0000;

/// A list of `n` zeros.
fn zeros(n: usize) -> (r: Vec<i128>)
    ensures
        r.len() == n,
        forall|i: int| 0 <= i < n ==> r@[i] == 0,
{
    let mut r: Vec<i128> = Vec::new();
    for i in 0..n
        invariant
            r.len() == i,
            forall|k: int| 0 <= k < i ==> r@[k] == 0,
    {
        r.push(0);
    }
    r
}

/// Executable form of [`greatest_finish`].
fn latest_of(ef: &Vec<i128>, done: &Vec<bool>, list: &Vec<usize>) -> (r: i128)
    requires
        ef.len() == done.len(),
    ensures
        r == greatest_finish(wide(ef@), done@, list@),
{
    let mut best: i128 = 0;
    for j in 0..list.len()
        invariant
            ef.len() == done.len(),
            best == greatest_finish(wide(ef@), done@, list@.take(j as int)),
    {
        assert(list@.take(j + 1).drop_last() =~= list@.take(j as int));
        let d: usize = list[j];
        if d < done.len() && done[d] && ef[d] > best {
            best = ef[d];
        }
    }
    assert(list@.take(list@.len() as int) =~= list@);
    best
}

impl CpmAlgorithm {
    /// The forward pass: earliest start and finish of every node.
    pub fn forward_pass(deps: &Vec<Vec<usize>>, order: &Vec<usize>, done: &Vec<bool>, effort: &Vec<i64>) -> (r: (Vec<i128>, Vec<i128>))
        requires
            effort.len() == deps.len(),
            deps.len() <= isize::MAX,
            order.len() <= deps.len(),
            topological(deps.deep_view(), order@),
            done@ == settled_flags(deps.deep_view()),
        ensures
            early_times(deps.deep_view(), done@, efforts(effort@), wide(r.0@), wide(r.1@)),
            forall|i: int| 0 <= i < deps.len() ==> 0 <= #[trigger] r.0@[i] <= deps.len() * (EFFORT_SPAN - 1),
            forall|i: int| 0 <= i < deps.len() ==> -EFFORT_SPAN <= #[trigger] r.1@[i] <= (deps.len() + 1) * (EFFORT_SPAN - 1),
    {
        let ghost d = deps.deep_view();
        let n: usize = deps.len();
        let mut es = zeros(n);
        let mut ef = zeros(n);
        for p in 0..order.len()
            invariant
                d == deps.deep_view(),
                n == deps.len(),
                n <= isize::MAX,
                order.len() <= n,
                effort.len() == n,
                es.len() == n,
                ef.len() == n,
                topological(d, order@),
                done@ == settled_flags(d),
                forall|q: int| 0 <= q < p ==> es@[#[trigger] order@[q] as int] == greatest_finish(wide(ef@), done@, d[order@[q] as int]),
                forall|q: int| 0 <= q < p ==> ef@[#[trigger] order@[q] as int] == es@[order@[q] as int] + effort@[order@[q] as int],
                forall|q: int| 0 <= q < p ==> 0 <= es@[#[trigger] order@[q] as int] <= q * (EFFORT_SPAN - 1),
                forall|i: int| 0 <= i < n && !order@.take(p as int).contains(i as usize) ==> #[trigger] es@[i] == 0 && ef@[i] == 0,
        {
            let i: usize = order[p];
            let ghost before = order@.take(p as int);
            let ghost di = d[i as int];
            assert(deps[i as int].deep_view() =~= deps[i as int]@);
            assert(di == deps[i as int]@);
            proof {
                assert forall|j: int| 0 <= j < di.len() && (#[trigger] di[j]) < done@.len() && done@[di[j] as int] implies wide(ef@)[di[j] as int] <= p * (EFFORT_SPAN - 1) by {
                    assert(before.contains(d[order@[p as int] as int][j]));
                    let q = choose|q: int| 0 <= q < before.len() && before[q] == di[j];
                    assert(order@[q] == di[j]);
                    assert(es@[order@[q] as int] <= q * (EFFORT_SPAN - 1));
                }
                lemma_greatest_finish_at_most(wide(ef@), done@, di, p * (EFFORT_SPAN - 1));
            }
            let start: i128 = latest_of(&ef, done, &deps[i]);
            let ghost old_ef = ef@;
            let ghost old_es = es@;
            es.set(i, start);
            ef.set(i, start + effort[i] as i128);
            proof {
                assert forall|q: int| 0 <= q < p + 1 implies es@[#[trigger] order@[q] as int] == greatest_finish(wide(ef@), done@, d[order@[q] as int]) by {
                    let list = d[order@[q] as int];
                    // Every predecessor of order[q] stands before q, so before p.
                    assert forall|j: int| 0 <= j < list.len() && (#[trigger] list[j]) < done@.len() && done@[list[j] as int] implies wide(old_ef)[list[j] as int] == wide(ef@)[list[j] as int] by {
                        assert(order@.take(q).contains(d[order@[q] as int][j]));
                        let x = choose|x: int| 0 <= x < order@.take(q).len() && order@.take(q)[x] == list[j];
                        assert(order@[x] == list[j]);
                        assert(order@[x] != order@[p as int]);
                    }
                    lemma_greatest_finish_frame(wide(old_ef), wide(ef@), done@, list);
                }
                assert forall|q: int| 0 <= q < p + 1 implies ef@[#[trigger] order@[q] as int] == es@[order@[q] as int] + effort@[order@[q] as int] by {
                    assert(q == p || order@[q] != order@[p as int]);
                }
                assert forall|q: int| 0 <= q < p + 1 implies 0 <= es@[#[trigger] order@[q] as int] <= q * (EFFORT_SPAN - 1) by {
                    assert(q == p || order@[q] != order@[p as int]);
                }
                assert forall|k: int| 0 <= k < n && !order@.take(p + 1).contains(k as usize) implies #[trigger] es@[k] == 0 && ef@[k] == 0 by {
                    assert(order@.take(p + 1)[p as int] == i);
                    if before.contains(k as usize) {
                        let q = choose|q: int| 0 <= q < before.len() && before[q] == k as usize;
                        assert(order@.take(p + 1)[q] == k as usize);
                    }
                    assert(k != i);
                    assert(old_es[k] == 0);
                }
            }
        }
        assert(order@.take(order@.len() as int) =~= order@);
        proof {
            assert forall|i: int| 0 <= i < n && done@[i] implies #[trigger] es@[i] == greatest_finish(wide(ef@), done@, d[i]) && ef@[i] == es@[i] + effort@[i] && 0 <= es@[i] <= n * (EFFORT_SPAN - 1) && ef@[i] <= n * (EFFORT_SPAN - 1) by {
                assert(settled(d, i));
                let q = choose|q: int| 0 <= q < order@.len() && order@[q] == i;
                assert(es@[order@[q] as int] <= q * (EFFORT_SPAN - 1));
                assert(q + 1 <= n);
                assert((q + 1) * (EFFORT_SPAN - 1) <= n * (EFFORT_SPAN - 1)) by (nonlinear_arith)
                    requires
                        q + 1 <= n,
                ;
                assert((q + 1) * (EFFORT_SPAN - 1) == q * (EFFORT_SPAN - 1) + (EFFORT_SPAN - 1)) by (nonlinear_arith);
            }
        }
        let ghost settled_ef = ef@;
        for i in 0..n
            invariant
                d == deps.deep_view(),
                n == deps.len(),
                n <= isize::MAX,
                effort.len() == n,
                es.len() == n,
                ef.len() == n,
                done.len() == n,
                settled_ef.len() == n,
                forall|k: int| 0 <= k < n && done@[k] ==> #[trigger] settled_ef[k] == ef@[k],
                forall|k: int| 0 <= k < n && done@[k] ==> #[trigger] es@[k] == greatest_finish(wide(settled_ef), done@, d[k]) && ef@[k] == es@[k] + effort@[k] && 0 <= es@[k] <= n * (EFFORT_SPAN - 1),
                forall|k: int| 0 <= k < i && !done@[k] ==> #[trigger] es@[k] == greatest_finish(wide(settled_ef), done@, d[k]) && 0 <= es@[k] <= n * (EFFORT_SPAN - 1) && ef@[k] <= (n + 1) * (EFFORT_SPAN - 1) && ef@[k] == (if es@[k] > 0 { es@[k] + effort@[k] } else { 0 }),
                forall|k: int| 0 <= k < n && done@[k] ==> #[trigger] ef@[k] <= n * (EFFORT_SPAN - 1),
        {
            if !done[i] {
                assert(deps[i as int].deep_view() =~= deps[i as int]@);
                let start: i128 = latest_of(&ef, done, &deps[i]);
                proof {
                    lemma_greatest_finish_frame(wide(settled_ef), wide(ef@), done@, d[i as int]);
                    lemma_greatest_finish_at_most(wide(ef@), done@, d[i as int], n * (EFFORT_SPAN - 1));
                }
                let finish: i128 = if start > 0 { start + effort[i] as i128 } else { 0 };
                es.set(i, start);
                ef.set(i, finish);
            }
        }
        proof {
            assert forall|i: int| 0 <= i < d.len() implies #[trigger] wide(es@)[i] == greatest_finish(wide(ef@), done@, d[i]) by {
                assert(es@[i] == greatest_finish(wide(settled_ef), done@, d[i]));
                lemma_greatest_finish_frame(wide(settled_ef), wide(ef@), done@, d[i]);
            }
            assert forall|i: int| 0 <= i < d.len() implies #[trigger] wide(ef@)[i] == (if done@[i] || wide(es@)[i] > 0 { wide(es@)[i] + efforts(effort@)[i] } else { 0 }) by {
                assert(es@[i] >= 0);
            }
            assert forall|i: int| 0 <= i < n implies -EFFORT_SPAN <= #[trigger] ef@[i] by {
                assert(es@[i] >= 0);
            }
            assert((n + 1) * (EFFORT_SPAN - 1) == n * (EFFORT_SPAN - 1) + (EFFORT_SPAN - 1)) by (nonlinear_arith);
            assert forall|i: int| 0 <= i < n implies #[trigger] ef@[i] <= (n + 1) * (EFFORT_SPAN - 1) by {
                assert(es@[i] >= 0);
            }
        }
        (es, ef)
    }
}

/// The latest finish of all.
pub fn latest_finish_of_all(ef: &Vec<i128>) -> (r: i128)
    ensures
        r == project_end(wide(ef@)),
{
    let mut end: i128 = 0;
    for i in 0..ef.len()
        invariant
            end == project_end(wide(ef@).take(i as int)),
    {
        assert(wide(ef@).take(i + 1).drop_last() =~= wide(ef@).take(i as int));
        if ef[i] > end {
            end = ef[i];
        }
    }
    assert(wide(ef@).take(ef.len() as int) =~= wide(ef@));
    end
}

/// The equations of the forward pass have one solution.
pub proof fn early_times_unique(deps: Seq<Seq<usize>>, effort: Seq<int>, es: Seq<int>, ef: Seq<int>, es2: Seq<int>, ef2: Seq<int>)
    requires
        early_times(deps, settled_flags(deps), effort, es, ef),
        early_times(deps, settled_flags(deps), effort, es2, ef2),
    ensures
        es == es2,
        ef == ef2,
{
    let done = settled_flags(deps);
    assert forall|i: int| 0 <= i < deps.len() && done[i] implies #[trigger] ef[i] == ef2[i] by {
        let k = choose|k: nat| settles(deps, k, i);
        lemma_early_agree(deps, effort, es, ef, es2, ef2, k, i);
    }
    assert forall|i: int| 0 <= i < deps.len() implies #[trigger] es[i] == es2[i] && ef[i] == ef2[i] by {
        lemma_greatest_finish_frame(ef, ef2, done, deps[i]);
        assert(ef[i] == (if done[i] || es[i] > 0 { es[i] + effort[i] } else { 0 }));
        assert(es2[i] == greatest_finish(ef2, done, deps[i]));
    }
    assert(es =~= es2);
    assert(ef =~= ef2) by {
        assert forall|i: int| 0 <= i < deps.len() implies ef[i] == ef2[i] by {
            assert(es[i] == es2[i]);
        }
    }
}

proof fn lemma_early_agree(deps: Seq<Seq<usize>>, effort: Seq<int>, es: Seq<int>, ef: Seq<int>, es2: Seq<int>, ef2: Seq<int>, k: nat, i: int)
    requires
        early_times(deps, settled_flags(deps), effort, es, ef),
        early_times(deps, settled_flags(deps), effort, es2, ef2),
        settles(deps, k, i),
    ensures
        ef[i] == ef2[i],
    decreases k,
{
    let done = settled_flags(deps);
    let list = deps[i];
    assert forall|j: int| 0 <= j < list.len() && (#[trigger] list[j]) < done.len() && done[list[j] as int] implies ef[list[j] as int] == ef2[list[j] as int] by {
        assert(settles(deps, (k - 1) as nat, deps[i][j] as int));
        lemma_early_agree(deps, effort, es, ef, es2, ef2, (k - 1) as nat, list[j] as int);
    }
    lemma_greatest_finish_frame(ef, ef2, done, list);
    assert(settled(deps, i));
    assert(done[i]);
    assert(es[i] == greatest_finish(ef, done, list));
    assert(es2[i] == greatest_finish(ef2, done, list));
}

/// A path of nodes, each of which waits for the one before it.
pub open spec fn chain(deps: Seq<Seq<usize>>, path: Seq<int>) -> bool {
    &&& path.len() > 0
    &&& forall|k: int| 0 <= k < path.len() ==> 0 <= #[trigger] path[k] < deps.len()
    &&& forall|k: int| 0 < k < path.len() ==> lists(deps[#[trigger] path[k]], path[k - 1])
}

/// Total effort along a path.
pub open spec fn chain_effort(effort: Seq<int>, path: Seq<int>) -> int
    decreases path.len(),
{
    if path.len() == 0 {
        0
    } else {
        chain_effort(effort, path.drop_last()) + effort[path.last()]
    }
}

/// No path that ends in a settled node takes longer than its earliest finish.
pub proof fn no_chain_outlasts_finish(deps: Seq<Seq<usize>>, effort: Seq<int>, es: Seq<int>, ef: Seq<int>, path: Seq<int>)
    requires
        early_times(deps, settled_flags(deps), effort, es, ef),
        chain(deps, path),
        settled(deps, path.last()),
    ensures
        chain_effort(effort, path) <= ef[path.last()],
    decreases path.len(),
{
    let done = settled_flags(deps);
    let i = path.last();
    assert(path[path.len() - 1] == i);
    assert(done[i]);
    assert(es[i] == greatest_finish(ef, done, deps[i]));
    assert(ef[i] == es[i] + effort[i]);
    if path.len() == 1 {
        lemma_greatest_finish_nonnegative(ef, done, deps[i]);
        assert(chain_effort(effort, path.drop_last()) == 0);
    } else {
        let rest = path.drop_last();
        let p = rest.last();
        assert(p == path[path.len() - 2]);
        assert(lists(deps[path[path.len() - 1]], path[path.len() - 2]));
        let a = choose|a: int| 0 <= a < deps[i].len() && deps[i][a] == p;
        lemma_settled_deps(deps, i, a);
        assert(chain(deps, rest)) by {
            assert forall|k: int| 0 <= k < rest.len() implies 0 <= #[trigger] rest[k] < deps.len() by {
                assert(rest[k] == path[k]);
            }
            assert forall|k: int| 0 < k < rest.len() implies lists(deps[#[trigger] rest[k]], rest[k - 1]) by {
                assert(rest[k] == path[k]);
            }
        }
        no_chain_outlasts_finish(deps, effort, es, ef, rest);
        assert(done[p]);
        lemma_greatest_finish_bounds(ef, done, deps[i], a);
    }
}

/// The latest finish of a list is never negative.
pub proof fn lemma_greatest_finish_nonnegative(ef: Seq<int>, done: Seq<bool>, list: Seq<usize>)
    ensures
        greatest_finish(ef, done, list) >= 0,
    decreases list.len(),
{
    if list.len() > 0 {
        lemma_greatest_finish_nonnegative(ef, done, list.drop_last());
    }
}

pub proof fn lemma_greatest_finish_witness(ef: Seq<int>, done: Seq<bool>, list: Seq<usize>) -> (j: int)
    requires
        greatest_finish(ef, done, list) > 0,
    ensures
        0 <= j < list.len(),
        list[j] < done.len(),
        done[list[j] as int],
        greatest_finish(ef, done, list) == ef[list[j] as int],
    decreases list.len(),
{
    let rest = greatest_finish(ef, done, list.drop_last());
    let d = list.last() as int;
    if d < done.len() && done[d] && ef[d] > rest {
        list.len() - 1
    } else {
        let j = lemma_greatest_finish_witness(ef, done, list.drop_last());
        assert(list.drop_last()[j] == list[j]);
        j
    }
}

/// Some path that ends in a settled node takes exactly as long as its earliest
/// finish.
pub proof fn some_chain_reaches_finish(deps: Seq<Seq<usize>>, effort: Seq<int>, es: Seq<int>, ef: Seq<int>, i: int) -> (path: Seq<int>)
    requires
        early_times(deps, settled_flags(deps), effort, es, ef),
        settled(deps, i),
    ensures
        chain(deps, path),
        path.last() == i,
        chain_effort(effort, path) == ef[i],
{
    let k = choose|k: nat| settles(deps, k, i);
    lemma_chain_of(deps, effort, es, ef, k, i)
}

proof fn lemma_chain_of(deps: Seq<Seq<usize>>, effort: Seq<int>, es: Seq<int>, ef: Seq<int>, k: nat, i: int) -> (path: Seq<int>)
    requires
        early_times(deps, settled_flags(deps), effort, es, ef),
        settles(deps, k, i),
    ensures
        chain(deps, path),
        path.last() == i,
        chain_effort(effort, path) == ef[i],
    decreases k,
{
    let done = settled_flags(deps);
    assert(settled(deps, i));
    assert(done[i]);
    assert(es[i] == greatest_finish(ef, done, deps[i]));
    assert(ef[i] == es[i] + effort[i]);
    lemma_greatest_finish_nonnegative(ef, done, deps[i]);
    if es[i] == 0 {
        let path = seq![i];
        assert(path.drop_last().len() == 0);
        assert(chain_effort(effort, path.drop_last()) == 0);
        path
    } else {
        let j = lemma_greatest_finish_witness(ef, done, deps[i]);
        let d = deps[i][j] as int;
        assert(settles(deps, (k - 1) as nat, deps[i][j] as int));
        let head = lemma_chain_of(deps, effort, es, ef, (k - 1) as nat, d);
        let path = head.push(i);
        assert(path.drop_last() =~= head);
        assert(head[head.len() - 1] == d);
        assert forall|x: int| 0 < x < path.len() implies lists(deps[#[trigger] path[x]], path[x - 1]) by {
            if x < head.len() {
                assert(path[x] == head[x] && path[x - 1] == head[x - 1]);
            } else {
                assert(deps[i][j] == d);
            }
        }
        path
    }
}

} // verus!
