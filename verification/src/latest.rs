//! Latest times in a dependency network.

use vstd::prelude::*;

use crate::algorithm::CpmAlgorithm;
use crate::network::{
    lemma_distinct_len, lemma_uniform_bound, lists, settled, settled_flags, settles, topological, topological_order, unmarked,
};
use crate::reach::{lemma_successor_row, reversed, successor_row};
use crate::schedule::{
    chain, chain_effort, early_times, efforts, greatest_finish, lemma_greatest_finish_bounds, lemma_project_end,
    no_chain_outlasts_finish, project_end, wide, EFFORT_SPAN,
};

verus! {

/// Node `i` is at most `k` nodes from an end: nothing waits for it, or some
/// node that waits for it is nearer to an end.
pub open spec fn nears_end(next: Seq<Seq<usize>>, k: nat, i: int) -> bool
    decreases k,
{
    &&& k > 0
    &&& 0 <= i < next.len()
    &&& next[i].len() == 0 || exists|j: int| 0 <= j < next[i].len() && nears_end(next, (k - 1) as nat, #[trigger] next[i][j] as int)
}

/// Node `i` leads to an end, not only round and round.
pub open spec fn ends(next: Seq<Seq<usize>>, i: int) -> bool {
    exists|k: nat| nears_end(next, k, i)
}

/// The nodes of a list that lead to an end.
pub open spec fn ending(next: Seq<Seq<usize>>, list: Seq<usize>) -> Seq<usize>
    decreases list.len(),
{
    if list.len() == 0 {
        Seq::empty()
    } else {
        let rest = ending(next, list.drop_last());
        if ends(next, list.last() as int) {
            rest.push(list.last())
        } else {
            rest
        }
    }
}

/// For each node, the nodes that wait for it and lead to an end. Where no
/// nodes wait for each other in a circle, these are all that wait for it.
pub open spec fn followers(deps: Seq<Seq<usize>>) -> Seq<Seq<usize>> {
    let next = reversed(deps);
    Seq::new(deps.len(), |i: int| ending(next, next[i]))
}

/// Smallest latest start in a list.
pub open spec fn least_start(ls: Seq<int>, list: Seq<usize>) -> Option<int>
    decreases list.len(),
{
    if list.len() == 0 {
        None
    } else {
        let x = ls[list.last() as int];
        match least_start(ls, list.drop_last()) {
            None => Some(x),
            Some(y) => Some(if x < y { x } else { y }),
        }
    }
}

/// The equations of the backward pass: a node must finish before the first of
/// all the nodes that wait for it has to start, or by the end of the project
/// where none waits. Nodes that only lead round and round have no latest start
/// to observe. A node that leads both out and into a circle would have to
/// finish ever earlier; it gets the end of the project.
pub open spec fn late_times(deps: Seq<Seq<usize>>, effort: Seq<int>, end: int, ls: Seq<int>, lf: Seq<int>) -> bool {
    &&& ls.len() == deps.len()
    &&& lf.len() == deps.len()
    &&& forall|i: int| 0 <= i < deps.len() ==> #[trigger] lf[i] == late_finish(deps, end, ls, i)
    &&& forall|i: int| 0 <= i < deps.len() ==> #[trigger] ls[i] == lf[i] - effort[i]
}

/// The latest finish of node `i` that follows from the latest starts.
pub open spec fn late_finish(deps: Seq<Seq<usize>>, end: int, ls: Seq<int>, i: int) -> int {
    if settled(followers(deps), i) {
        match least_start(ls, followers(deps)[i]) {
            Some(x) => x,
            None => end,
        }
    } else {
        end
    }
}

/// The smallest latest start depends only on the nodes of the list.
pub proof fn lemma_least_start_frame(ls: Seq<int>, ls2: Seq<int>, list: Seq<usize>)
    requires
        forall|j: int| 0 <= j < list.len() ==> ls[#[trigger] list[j] as int] == ls2[list[j] as int],
    ensures
        least_start(ls, list) == least_start(ls2, list),
    decreases list.len(),
{
    if list.len() > 0 {
        let rest = list.drop_last();
        assert forall|j: int| 0 <= j < rest.len() implies ls[#[trigger] rest[j] as int] == ls2[rest[j] as int] by {
            assert(rest[j] == list[j]);
        }
        lemma_least_start_frame(ls, ls2, rest);
        assert(ls[list[list.len() - 1] as int] == ls2[list[list.len() - 1] as int]);
    }
}

/// The smallest latest start is no later than any of the list.
pub proof fn lemma_least_start_bounds(ls: Seq<int>, list: Seq<usize>, j: int)
    requires
        0 <= j < list.len(),
    ensures
        least_start(ls, list) is Some,
        least_start(ls, list)->0 <= ls[list[j] as int],
    decreases list.len(),
{
    if j < list.len() - 1 {
        assert(list.drop_last()[j] == list[j]);
        lemma_least_start_bounds(ls, list.drop_last(), j);
    }
}

/// The smallest latest start is one of the list.
pub proof fn lemma_least_start_witness(ls: Seq<int>, list: Seq<usize>) -> (j: int)
    requires
        least_start(ls, list) is Some,
    ensures
        0 <= j < list.len(),
        least_start(ls, list) == Some(ls[list[j] as int]),
    decreases list.len(),
{
    let rest = list.drop_last();
    if least_start(ls, rest) is Some {
        let j = lemma_least_start_witness(ls, rest);
        assert(rest[j] == list[j]);
        if ls[list.last() as int] < least_start(ls, rest)->0 {
            list.len() - 1
        } else {
            j
        }
    } else {
        list.len() - 1
    }
}

/// What leads to an end among the nodes of a list.
proof fn lemma_ending(next: Seq<Seq<usize>>, list: Seq<usize>, x: int)
    ensures
        lists(ending(next, list), x) <==> lists(list, x) && ends(next, x),
    decreases list.len(),
{
    if list.len() > 0 {
        let rest = list.drop_last();
        let kept = ending(next, rest);
        let row = ending(next, list);
        lemma_ending(next, rest, x);
        if lists(row, x) {
            let a = choose|a: int| 0 <= a < row.len() && row[a] == x;
            if a < kept.len() {
                assert(kept[a] == x);
                let b = choose|b: int| 0 <= b < rest.len() && rest[b] == x;
                assert(list[b] == x);
            } else {
                assert(list[list.len() - 1] == x);
            }
        }
        if lists(list, x) && ends(next, x) {
            let b = choose|b: int| 0 <= b < list.len() && list[b] == x;
            if b < rest.len() {
                assert(rest[b] == x);
                let a = choose|a: int| 0 <= a < kept.len() && kept[a] == x;
                assert(row[a] == x);
            } else {
                assert(row[kept.len() as int] == x);
            }
        }
    }
}

/// What follows a node waits for it and leads to an end.
pub proof fn lemma_followers(deps: Seq<Seq<usize>>, i: int, j: int)
    requires
        0 <= i < deps.len(),
        deps.len() <= usize::MAX,
    ensures
        lists(followers(deps)[i], j) <==> 0 <= j < deps.len() && lists(deps[j], i) && ends(reversed(deps), j),
{
    let next = reversed(deps);
    lemma_ending(next, next[i], j);
    lemma_successor_row(deps, i, deps.len(), j);
    assert(next[i] == successor_row(deps, i, deps.len()));
}

/// Where everything can be settled, everything leads to an end.
proof fn lemma_all_end(deps: Seq<Seq<usize>>, bound: nat, k: nat, i: int)
    requires
        deps.len() <= usize::MAX,
        forall|x: int| 0 <= x < deps.len() ==> #[trigger] settles(deps, bound, x),
        0 <= i < deps.len(),
        k <= bound,
        !settles(deps, k, i),
    ensures
        k < bound,
        nears_end(reversed(deps), (bound - k) as nat, i),
        settles(followers(deps), (bound - k) as nat, i),
    decreases bound - k,
{
    let next = reversed(deps);
    let after = followers(deps);
    assert(settles(deps, bound, i));
    assert forall|j: int| 0 <= j < next[i].len() implies nears_end(next, (bound - k - 1) as nat, #[trigger] next[i][j] as int) && settles(after, (bound - k - 1) as nat, next[i][j] as int) by {
        let x = next[i][j] as int;
        assert(lists(next[i], x));
        lemma_successor_row(deps, i, deps.len(), x);
        let a = choose|a: int| 0 <= a < deps[x].len() && deps[x][a] == i;
        if settles(deps, (k + 1) as nat, x) {
            assert(settles(deps, k, deps[x][a] as int));
            assert(false);
        }
        lemma_all_end(deps, bound, (k + 1) as nat, x);
    }
    if next[i].len() > 0 {
        assert(nears_end(next, (bound - k - 1) as nat, next[i][0] as int));
    }
    assert forall|j: int| 0 <= j < after[i].len() implies settles(after, (bound - k - 1) as nat, #[trigger] after[i][j] as int) by {
        let x = after[i][j] as int;
        assert(lists(after[i], x));
        lemma_ending(next, next[i], x);
        let b = choose|b: int| 0 <= b < next[i].len() && next[i][b] == x;
        assert(nears_end(next, (bound - k - 1) as nat, next[i][b] as int));
    }
}

/// Where everything can be settled, every node follows each node it waits for,
/// and the latest times can be settled too.
pub proof fn lemma_all_follow(deps: Seq<Seq<usize>>, i: int)
    requires
        deps.len() <= usize::MAX,
        forall|x: int| 0 <= x < deps.len() ==> #[trigger] settled(deps, x),
        0 <= i < deps.len(),
    ensures
        ends(reversed(deps), i),
        settled(followers(deps), i),
{
    let bound = lemma_uniform_bound(deps);
    assert forall|x: int| 0 <= x < deps.len() implies #[trigger] settles(deps, bound, x) by {
        assert(settled(deps, x));
    }
    lemma_all_end(deps, bound, 0, i);
}

/// Executable form of [`least_start`].
fn earliest_of(ls: &Vec<i128>, list: &Vec<usize>) -> (r: Option<i128>)
    requires
        forall|j: int| 0 <= j < list.len() ==> #[trigger] list@[j] < ls.len(),
    ensures
        match r {
            Some(x) => least_start(wide(ls@), list@) == Some(x as int),
            None => least_start(wide(ls@), list@) is None,
        },
{
    let mut best: Option<i128> = None;
    for j in 0..list.len()
        invariant
            forall|k: int| 0 <= k < list.len() ==> #[trigger] list@[k] < ls.len(),
            match best {
                Some(x) => least_start(wide(ls@), list@.take(j as int)) == Some(x as int),
                None => least_start(wide(ls@), list@.take(j as int)) is None,
            },
    {
        assert(list@.take(j + 1).drop_last() =~= list@.take(j as int));
        let x: i128 = ls[list[j]];
        best = match best {
            None => Some(x),
            Some(y) => Some(if x < y { x } else { y }),
        };
    }
    assert(list@.take(list@.len() as int) =~= list@);
    best
}

/// Whether some node of a list is marked.
fn any_marked(list: &Vec<usize>, marks: &Vec<bool>) -> (r: bool)
    requires
        forall|j: int| 0 <= j < list.len() ==> #[trigger] list@[j] < marks.len(),
    ensures
        r == exists|j: int| 0 <= j < list.len() && marks@[#[trigger] list@[j] as int],
{
    for j in 0..list.len()
        invariant
            forall|k: int| 0 <= k < list.len() ==> #[trigger] list@[k] < marks.len(),
            forall|k: int| 0 <= k < j ==> !marks@[#[trigger] list@[k] as int],
    {
        if marks[list[j]] {
            assert(marks@[list@[j as int] as int]);
            return true;
        }
    }
    false
}

/// Whether node `x` is an end or leads to a marked node.
spec fn near_mark(next: Seq<Seq<usize>>, marks: Seq<bool>, x: int) -> bool {
    next[x].len() == 0 || exists|j: int| 0 <= j < next[x].len() && marks[#[trigger] next[x][j] as int]
}

/// When no further node can be marked, everything that leads to an end is.
proof fn lemma_marks_complete(next: Seq<Seq<usize>>, marks: Seq<bool>, k: nat, i: int)
    requires
        forall|x: int| 0 <= x < next.len() && near_mark(next, marks, x) ==> #[trigger] marks[x],
        nears_end(next, k, i),
    ensures
        marks[i],
    decreases k,
{
    if next[i].len() > 0 {
        let j = choose|j: int| 0 <= j < next[i].len() && nears_end(next, (k - 1) as nat, #[trigger] next[i][j] as int);
        lemma_marks_complete(next, marks, (k - 1) as nat, next[i][j] as int);
    }
    assert(near_mark(next, marks, i));
}

/// Marks the nodes that lead to an end.
fn mark_ends(next: &Vec<Vec<usize>>) -> (marks: Vec<bool>)
    requires
        forall|i: int, j: int| 0 <= i < next.len() && 0 <= j < next[i].len() ==> #[trigger] next[i][j] < next.len(),
    ensures
        marks@ == Seq::new(next.len() as nat, |i: int| ends(next.deep_view(), i)),
{
    let ghost d = next.deep_view();
    let n: usize = next.len();
    let mut marks = unmarked(n);
    let ghost mut found: Seq<usize> = Seq::empty();
    let mut progress = true;
    while progress
        invariant
            d == next.deep_view(),
            n == next.len(),
            marks.len() == n,
            forall|i: int, j: int| 0 <= i < next.len() && 0 <= j < next[i].len() ==> #[trigger] next[i][j] < next.len(),
            found.no_duplicates(),
            forall|p: int| 0 <= p < found.len() ==> (#[trigger] found[p]) < n && marks@[found[p] as int],
            forall|i: int| 0 <= i < n && #[trigger] marks@[i] ==> ends(d, i),
            !progress ==> forall|x: int| 0 <= x < n && near_mark(d, marks@, x) ==> #[trigger] marks@[x],
        decreases n - found.len() + (if progress { 1int } else { 0int }),
    {
        progress = false;
        let ghost before = found.len();
        for i in 0..n
            invariant
                d == next.deep_view(),
                n == next.len(),
                marks.len() == n,
                forall|i: int, j: int| 0 <= i < next.len() && 0 <= j < next[i].len() ==> #[trigger] next[i][j] < next.len(),
                found.no_duplicates(),
                forall|p: int| 0 <= p < found.len() ==> (#[trigger] found[p]) < n && marks@[found[p] as int],
                forall|i: int| 0 <= i < n && #[trigger] marks@[i] ==> ends(d, i),
                found.len() >= before,
                progress ==> found.len() > before,
                !progress ==> found.len() == before,
                !progress ==> forall|x: int| 0 <= x < i && near_mark(d, marks@, x) ==> #[trigger] marks@[x],
        {
            assert(d[i as int] =~= next[i as int]@) by {
                assert(next[i as int].deep_view() =~= next[i as int]@);
            }
            if !marks[i] && (next[i].len() == 0 || any_marked(&next[i], &marks)) {
                proof {
                    if d[i as int].len() == 0 {
                        assert(nears_end(d, 1, i as int));
                    } else {
                        let j = choose|j: int| 0 <= j < next[i as int].len() && marks@[#[trigger] next[i as int]@[j] as int];
                        let x = d[i as int][j] as int;
                        assert(marks@[x]);
                        let k = choose|k: nat| nears_end(d, k, x);
                        assert(nears_end(d, k, d[i as int][j] as int));
                        assert(nears_end(d, (k + 1) as nat, i as int));
                    }
                    assert(ends(d, i as int));
                    found = found.push(i);
                }
                marks.set(i, true);
                progress = true;
            } else {
                assert(near_mark(d, marks@, i as int) ==> marks@[i as int]);
            }
        }
        proof {
            lemma_distinct_len(found, n as nat);
        }
    }
    proof {
        assert forall|i: int| 0 <= i < n implies marks@[i] == ends(d, i) by {
            if ends(d, i) {
                let k = choose|k: nat| nears_end(d, k, i);
                lemma_marks_complete(d, marks@, k, i);
            }
        }
        assert(marks@ =~= Seq::new(n as nat, |i: int| ends(d, i)));
    }
    marks
}

/// Keeps the nodes of a list that lead to an end.
fn keep_ending(Ghost(next): Ghost<Seq<Seq<usize>>>, marks: &Vec<bool>, list: &Vec<usize>) -> (r: Vec<usize>)
    requires
        marks@ == Seq::new(next.len(), |i: int| ends(next, i)),
        forall|j: int| 0 <= j < list.len() ==> #[trigger] list@[j] < marks.len(),
    ensures
        r@ == ending(next, list@),
        forall|j: int| 0 <= j < r.len() ==> #[trigger] r@[j] < marks.len(),
{
    let mut r: Vec<usize> = Vec::new();
    for j in 0..list.len()
        invariant
            marks@ == Seq::new(next.len(), |i: int| ends(next, i)),
            forall|k: int| 0 <= k < list.len() ==> #[trigger] list@[k] < marks.len(),
            r@ == ending(next, list@.take(j as int)),
            forall|k: int| 0 <= k < r.len() ==> #[trigger] r@[k] < marks.len(),
    {
        assert(list@.take(j + 1).drop_last() =~= list@.take(j as int));
        let x: usize = list[j];
        if marks[x] {
            r.push(x);
        }
    }
    assert(list@.take(list@.len() as int) =~= list@);
    r
}

/// Executable form of [`followers`].
fn followers_of(deps: &Vec<Vec<usize>>) -> (after: Vec<Vec<usize>>)
    ensures
        after.deep_view() == followers(deps.deep_view()),
        after.len() == deps.len(),
        forall|i: int, j: int| 0 <= i < after.len() && 0 <= j < after[i].len() ==> #[trigger] after[i][j] < after.len(),
{
    let next = CpmAlgorithm::build_dependency_graphs(deps);
    let ghost d = next.deep_view();
    assert(d.len() == deps.len());
    let marks = mark_ends(&next);
    let mut after: Vec<Vec<usize>> = Vec::new();
    for i in 0..next.len()
        invariant
            d == next.deep_view(),
            marks@ == Seq::new(d.len(), |i: int| ends(d, i)),
            marks.len() == next.len(),
            forall|i: int, j: int| 0 <= i < next.len() && 0 <= j < next[i].len() ==> #[trigger] next[i][j] < next.len(),
            after.len() == i,
            forall|a: int| 0 <= a < i ==> (#[trigger] after[a])@ == ending(d, d[a]),
            forall|a: int, j: int| 0 <= a < i && 0 <= j < after[a].len() ==> #[trigger] after[a][j] < next.len(),
    {
        assert(next[i as int].deep_view() =~= next[i as int]@);
        let row = keep_ending(Ghost(d), &marks, &next[i]);
        after.push(row);
    }
    proof {
        assert forall|i: int| 0 <= i < after.len() implies #[trigger] after.deep_view()[i] == followers(deps.deep_view())[i] by {
            assert(after[i].deep_view() =~= after[i]@);
        }
        assert(after.deep_view() =~= followers(deps.deep_view()));
    }
    after
}

impl CpmAlgorithm {
    /// The backward pass: latest start and finish of every node.
    pub fn backward_pass(deps: &Vec<Vec<usize>>, effort: &Vec<i64>, end: i128) -> (r: (Vec<i128>, Vec<i128>))
        requires
            effort.len() == deps.len(),
            deps.len() <= isize::MAX,
            0 <= end <= (deps.len() + 1) * (EFFORT_SPAN - 1),
        ensures
            late_times(deps.deep_view(), efforts(effort@), end as int, wide(r.0@), wide(r.1@)),
            forall|i: int| 0 <= i < deps.len() ==> -(deps.len() + 1) * EFFORT_SPAN <= #[trigger] r.0@[i],
    {
        let after = followers_of(deps);
        let (order, done) = topological_order(&after);
        let ghost d = after.deep_view();
        let n: usize = deps.len();
        let mut ls: Vec<i128> = Vec::new();
        let mut lf: Vec<i128> = Vec::new();
        assert(0 <= end <= 0x4000_0000_0000_0000_0000_0000_0000_0000) by {
            assert((n + 1) * (EFFORT_SPAN - 1) <= 0x4000_0000_0000_0000_0000_0000_0000_0000) by (nonlinear_arith)
                requires
                    n <= 0x7fff_ffff_ffff_ffff,
                    EFFORT_SPAN == 0x8000_0000_0000_0000,
            ;
        }
        for i in 0..n
            invariant
                n == deps.len(),
                effort.len() == n,
                ls.len() == i,
                lf.len() == i,
                0 <= end <= 0x4000_0000_0000_0000_0000_0000_0000_0000,
                forall|k: int| 0 <= k < i ==> #[trigger] lf@[k] == end,
                forall|k: int| 0 <= k < i ==> #[trigger] ls@[k] == end - effort@[k],
        {
            lf.push(end);
            ls.push(end - effort[i] as i128);
        }
        for p in 0..order.len()
            invariant
                d == after.deep_view(),
                n == after.len(),
                n <= isize::MAX,
                order.len() <= n,
                effort.len() == n,
                ls.len() == n,
                lf.len() == n,
                topological(d, order@),
                done@ == settled_flags(d),
                forall|i: int, j: int| 0 <= i < after.len() && 0 <= j < after[i].len() ==> #[trigger] after[i][j] < after.len(),
                0 <= end <= 0x4000_0000_0000_0000_0000_0000_0000_0000,
                forall|q: int| 0 <= q < p ==> lf@[#[trigger] order@[q] as int] == (match least_start(wide(ls@), d[order@[q] as int]) {
                    Some(x) => x,
                    None => end as int,
                }),
                forall|q: int| 0 <= q < p ==> -(q + 1) * EFFORT_SPAN <= ls@[#[trigger] order@[q] as int] <= end + (q + 1) * EFFORT_SPAN,
                forall|k: int| 0 <= k < n ==> #[trigger] ls@[k] == lf@[k] - effort@[k],
                forall|k: int| 0 <= k < n && !done@[k] ==> #[trigger] lf@[k] == end,
        {
            let i: usize = order[p];
            assert(after[i as int].deep_view() =~= after[i as int]@);
            assert(lists(order@, i as int)) by {
                assert(order@[p as int] == i);
            }
            assert(settled(d, i as int));
            let found = earliest_of(&ls, &after[i]);
            let finish: i128 = match found {
                Some(x) => x,
                None => end,
            };
            proof {
                if found is Some {
                    let j = lemma_least_start_witness(wide(ls@), d[i as int]);
                    assert(order@.take(p as int).contains(d[order@[p as int] as int][j]));
                    let x = choose|x: int| 0 <= x < order@.take(p as int).len() && order@.take(p as int)[x] == d[i as int][j];
                    assert(-(x + 1) * EFFORT_SPAN <= ls@[order@[x] as int] <= end + (x + 1) * EFFORT_SPAN);
                    assert((x + 1) * EFFORT_SPAN <= p * EFFORT_SPAN) by (nonlinear_arith)
                        requires
                            x + 1 <= p,
                            EFFORT_SPAN == 0x8000_0000_0000_0000,
                    ;
                }
                assert(0 <= p * EFFORT_SPAN <= 0x3fff_ffff_ffff_ffff_8000_0000_0000_0000 - EFFORT_SPAN) by (nonlinear_arith)
                    requires
                        0 <= p <= 0x7fff_ffff_ffff_fffe,
                        EFFORT_SPAN == 0x8000_0000_0000_0000,
                ;
                assert((p + 1) * EFFORT_SPAN == p * EFFORT_SPAN + EFFORT_SPAN) by (nonlinear_arith);
            }
            let ghost old_ls = ls@;
            lf.set(i, finish);
            ls.set(i, finish - effort[i] as i128);
            proof {
                assert forall|q: int| 0 <= q < p + 1 implies lf@[#[trigger] order@[q] as int] == (match least_start(wide(ls@), d[order@[q] as int]) {
                    Some(x) => x,
                    None => end as int,
                }) by {
                    let list = d[order@[q] as int];
                    assert forall|j: int| 0 <= j < list.len() implies wide(old_ls)[#[trigger] list[j] as int] == wide(ls@)[list[j] as int] by {
                        assert(order@.take(q).contains(d[order@[q] as int][j]));
                        let x = choose|x: int| 0 <= x < order@.take(q).len() && order@.take(q)[x] == list[j];
                        assert(order@[x] != order@[p as int]);
                        assert(order@[x] < d.len());
                    }
                    lemma_least_start_frame(wide(old_ls), wide(ls@), list);
                    assert(q == p || order@[q] != order@[p as int]);
                }
                assert forall|q: int| 0 <= q < p + 1 implies -(q + 1) * EFFORT_SPAN <= ls@[#[trigger] order@[q] as int] <= end + (q + 1) * EFFORT_SPAN by {
                    assert(q == p || order@[q] != order@[p as int]);
                }
            }
        }
        proof {
            assert forall|i: int| 0 <= i < n implies #[trigger] wide(lf@)[i] == late_finish(deps.deep_view(), end as int, wide(ls@), i) by {
                if done@[i] {
                    assert(settled(d, i));
                    let q = choose|q: int| 0 <= q < order@.len() && order@[q] == i;
                    assert(lf@[order@[q] as int] == lf@[i]);
                } else {
                    assert(lf@[i] == end);
                }
            }
            assert forall|i: int| 0 <= i < n implies #[trigger] wide(ls@)[i] == wide(lf@)[i] - efforts(effort@)[i] by {
                assert(ls@[i] == lf@[i] - effort@[i]);
            }
            assert forall|i: int| 0 <= i < n implies -(n + 1) * EFFORT_SPAN <= #[trigger] ls@[i] by {
                if done@[i] {
                    assert(settled(d, i));
                    let q = choose|q: int| 0 <= q < order@.len() && order@[q] == i;
                    assert(-(q + 1) * EFFORT_SPAN <= ls@[order@[q] as int]);
                    assert(-(n + 1) * EFFORT_SPAN <= -(q + 1) * EFFORT_SPAN) by (nonlinear_arith)
                        requires
                            q + 1 <= n + 1,
                            EFFORT_SPAN == 0x8000_0000_0000_0000,
                    ;
                } else {
                    assert(lf@[i] == end);
                    assert(-(n + 1) * EFFORT_SPAN <= -EFFORT_SPAN) by (nonlinear_arith)
                        requires
                            n >= 0,
                            EFFORT_SPAN == 0x8000_0000_0000_0000,
                    ;
                }
            }
        }
        (ls, lf)
    }
}

/// The equations of the backward pass have one solution.
pub proof fn late_times_unique(deps: Seq<Seq<usize>>, effort: Seq<int>, end: int, ls: Seq<int>, lf: Seq<int>, ls2: Seq<int>, lf2: Seq<int>)
    requires
        late_times(deps, effort, end, ls, lf),
        late_times(deps, effort, end, ls2, lf2),
    ensures
        ls == ls2,
        lf == lf2,
{
    let after = followers(deps);
    assert forall|i: int| 0 <= i < deps.len() implies #[trigger] lf[i] == lf2[i] by {
        if settled(after, i) {
            let k = choose|k: nat| settles(after, k, i);
            lemma_late_agree(deps, effort, end, ls, lf, ls2, lf2, k, i);
        } else {
            assert(lf2[i] == late_finish(deps, end, ls2, i));
        }
    }
    assert(lf =~= lf2);
    assert forall|i: int| 0 <= i < deps.len() implies ls[i] == ls2[i] by {
        assert(lf[i] == lf2[i]);
    }
    assert(ls =~= ls2);
}

proof fn lemma_late_agree(deps: Seq<Seq<usize>>, effort: Seq<int>, end: int, ls: Seq<int>, lf: Seq<int>, ls2: Seq<int>, lf2: Seq<int>, k: nat, i: int)
    requires
        late_times(deps, effort, end, ls, lf),
        late_times(deps, effort, end, ls2, lf2),
        settles(followers(deps), k, i),
    ensures
        lf[i] == lf2[i],
        ls[i] == ls2[i],
    decreases k,
{
    let list = followers(deps)[i];
    assert forall|j: int| 0 <= j < list.len() implies ls[#[trigger] list[j] as int] == ls2[list[j] as int] by {
        assert(settles(followers(deps), (k - 1) as nat, followers(deps)[i][j] as int));
        lemma_late_agree(deps, effort, end, ls, lf, ls2, lf2, (k - 1) as nat, list[j] as int);
    }
    lemma_least_start_frame(ls, ls2, list);
    assert(lf[i] == late_finish(deps, end, ls, i));
    assert(lf2[i] == late_finish(deps, end, ls2, i));
    assert(ls[i] == lf[i] - effort[i]);
    assert(ls2[i] == lf2[i] - effort[i]);
}

/// Everything that waits for node `i`, directly or through others, and node
/// `i` itself can be settled.
pub open spec fn settled_onwards(deps: Seq<Seq<usize>>, i: int) -> bool {
    forall|path: Seq<int>| #[trigger] chain(deps, path) && path[0] == i ==> settled(deps, path.last())
}

/// What is settled onwards is settled, and so is what waits for it.
proof fn lemma_onwards(deps: Seq<Seq<usize>>, i: int, j: int)
    requires
        0 <= i < deps.len(),
        0 <= j < deps.len(),
        settled_onwards(deps, i),
        lists(deps[j], i),
    ensures
        settled_onwards(deps, j),
{
    assert forall|path: Seq<int>| #[trigger] chain(deps, path) && path[0] == j implies settled(deps, path.last()) by {
        let long = seq![i] + path;
        assert forall|k: int| 0 <= k < long.len() implies 0 <= #[trigger] long[k] < deps.len() by {
            if k > 0 {
                assert(long[k] == path[k - 1]);
            }
        }
        assert forall|k: int| 0 < k < long.len() implies lists(deps[#[trigger] long[k]], long[k - 1]) by {
            assert(long[k] == path[k - 1]);
            if k > 1 {
                assert(long[k - 1] == path[k - 2]);
                assert(lists(deps[path[k - 1]], path[k - 2]));
            }
        }
        assert(chain(deps, long));
        assert(long.last() == path.last());
    }
}

/// A node never has to start before it can, where everything that waits for it
/// can be settled.
pub proof fn slack_is_never_negative(deps: Seq<Seq<usize>>, effort: Seq<int>, es: Seq<int>, ef: Seq<int>, ls: Seq<int>, lf: Seq<int>, i: int)
    requires
        deps.len() <= usize::MAX,
        early_times(deps, settled_flags(deps), effort, es, ef),
        late_times(deps, effort, project_end(ef), ls, lf),
        0 <= i < deps.len(),
        settled_onwards(deps, i),
    ensures
        ls[i] >= es[i],
{
    let after = followers(deps);
    if settled(after, i) {
        let k = choose|k: nat| settles(after, k, i);
        lemma_slack(deps, effort, es, ef, ls, lf, k, i);
    } else {
        lemma_slack_at_end(deps, effort, es, ef, ls, lf, i);
    }
}

/// A settled node that may finish with the project has slack.
proof fn lemma_slack_at_end(deps: Seq<Seq<usize>>, effort: Seq<int>, es: Seq<int>, ef: Seq<int>, ls: Seq<int>, lf: Seq<int>, i: int)
    requires
        early_times(deps, settled_flags(deps), effort, es, ef),
        late_times(deps, effort, project_end(ef), ls, lf),
        0 <= i < deps.len(),
        settled_onwards(deps, i),
    ensures
        settled(deps, i),
        ef[i] == es[i] + effort[i],
        lf[i] == project_end(ef) ==> ls[i] >= es[i],
{
    assert(chain(deps, seq![i]));
    assert(seq![i].last() == i);
    assert(settled(deps, i));
    assert(settled_flags(deps)[i]);
    assert(ef[i] == es[i] + effort[i]);
    assert(ls[i] == lf[i] - effort[i]);
    lemma_project_end(ef);
}

proof fn lemma_slack(deps: Seq<Seq<usize>>, effort: Seq<int>, es: Seq<int>, ef: Seq<int>, ls: Seq<int>, lf: Seq<int>, k: nat, i: int)
    requires
        deps.len() <= usize::MAX,
        early_times(deps, settled_flags(deps), effort, es, ef),
        late_times(deps, effort, project_end(ef), ls, lf),
        settles(followers(deps), k, i),
        settled_onwards(deps, i),
    ensures
        ls[i] >= es[i],
    decreases k,
{
    let after = followers(deps);
    let done = settled_flags(deps);
    lemma_slack_at_end(deps, effort, es, ef, ls, lf, i);
    assert(lf[i] == late_finish(deps, project_end(ef), ls, i));
    assert(ls[i] == lf[i] - effort[i]);
    if least_start(ls, after[i]) is Some {
        let a = lemma_least_start_witness(ls, after[i]);
        let j = after[i][a] as int;
        assert(lists(after[i], j));
        lemma_followers(deps, i, j);
        assert(settles(after, (k - 1) as nat, after[i][a] as int));
        lemma_onwards(deps, i, j);
        lemma_slack(deps, effort, es, ef, ls, lf, (k - 1) as nat, j);
        assert(settled(after, i));
        let b = choose|b: int| 0 <= b < deps[j].len() && deps[j][b] == i;
        assert(done[i]);
        lemma_greatest_finish_bounds(ef, done, deps[j], b);
        assert(es[j] == greatest_finish(ef, done, deps[j]));
    }
}

/// Where no effort is negative, nothing may finish later than the project.
pub proof fn nothing_may_finish_after_the_end(deps: Seq<Seq<usize>>, effort: Seq<int>, end: int, ls: Seq<int>, lf: Seq<int>, i: int)
    requires
        late_times(deps, effort, end, ls, lf),
        0 <= i < deps.len(),
        forall|x: int| 0 <= x < deps.len() ==> #[trigger] effort[x] >= 0,
    ensures
        lf[i] <= end,
{
    let after = followers(deps);
    assert(lf[i] == late_finish(deps, end, ls, i));
    if settled(after, i) {
        let k = choose|k: nat| settles(after, k, i);
        lemma_late_by_end(deps, effort, end, ls, lf, k, i);
    }
}

proof fn lemma_late_by_end(deps: Seq<Seq<usize>>, effort: Seq<int>, end: int, ls: Seq<int>, lf: Seq<int>, k: nat, i: int)
    requires
        late_times(deps, effort, end, ls, lf),
        forall|x: int| 0 <= x < deps.len() ==> #[trigger] effort[x] >= 0,
        settles(followers(deps), k, i),
    ensures
        lf[i] <= end,
    decreases k,
{
    let after = followers(deps);
    assert(lf[i] == late_finish(deps, end, ls, i));
    if least_start(ls, after[i]) is Some {
        let a = lemma_least_start_witness(ls, after[i]);
        let j = after[i][a] as int;
        assert(settles(after, (k - 1) as nat, after[i][a] as int));
        lemma_late_by_end(deps, effort, end, ls, lf, (k - 1) as nat, j);
        assert(ls[j] == lf[j] - effort[j]);
        assert(effort[j] >= 0);
    }
}

/// A chain that takes all the time until the earliest finish of its last node
/// has no slack anywhere if its last node has none.
pub proof fn tight_chains_have_no_slack(deps: Seq<Seq<usize>>, effort: Seq<int>, es: Seq<int>, ef: Seq<int>, ls: Seq<int>, lf: Seq<int>, path: Seq<int>, k: int)
    requires
        deps.len() <= usize::MAX,
        early_times(deps, settled_flags(deps), effort, es, ef),
        late_times(deps, effort, project_end(ef), ls, lf),
        chain(deps, path),
        forall|x: int| 0 <= x < deps.len() ==> #[trigger] settled(deps, x),
        chain_effort(effort, path) == ef[path.last()],
        ls[path.last()] == es[path.last()],
        0 <= k < path.len(),
    ensures
        ls[path[k]] == es[path[k]],
    decreases path.len(),
{
    let done = settled_flags(deps);
    let i = path.last();
    assert(path[path.len() - 1] == i);
    assert(settled(deps, i));
    assert(done[i]);
    if k < path.len() - 1 {
        let head = path.drop_last();
        let p = head.last();
        assert(head[head.len() - 1] == p);
        assert(path[path.len() - 2] == p);
        assert(lists(deps[path[path.len() - 1]], path[path.len() - 2]));
        assert forall|x: int| 0 <= x < head.len() implies 0 <= #[trigger] head[x] < deps.len() by {
            assert(head[x] == path[x]);
        }
        assert forall|x: int| 0 < x < head.len() implies lists(deps[#[trigger] head[x]], head[x - 1]) by {
            assert(head[x] == path[x] && head[x - 1] == path[x - 1]);
        }
        assert(settled(deps, p));
        assert(done[p]);
        let a = choose|a: int| 0 <= a < deps[i].len() && deps[i][a] == p;
        no_chain_outlasts_finish(deps, effort, es, ef, head);
        lemma_greatest_finish_bounds(ef, done, deps[i], a);
        assert(es[i] == greatest_finish(ef, done, deps[i]));
        assert(ef[i] == es[i] + effort[i]);
        assert(ef[p] == es[p] + effort[p]);
        assert(chain_effort(effort, head) == ef[p]);
        lemma_all_follow(deps, i);
        lemma_all_follow(deps, p);
        lemma_followers(deps, p, i);
        let row = followers(deps)[p];
        let b = choose|b: int| 0 <= b < row.len() && row[b] == i;
        lemma_least_start_bounds(ls, row, b);
        assert(lf[p] == late_finish(deps, project_end(ef), ls, p));
        assert(lf[p] <= ls[i]);
        assert(ls[p] == lf[p] - effort[p]);
        assert(settled_onwards(deps, p)) by {
            assert forall|q: Seq<int>| #[trigger] chain(deps, q) && q[0] == p implies settled(deps, q.last()) by {
                assert(0 <= q[q.len() - 1] < deps.len());
            }
        }
        slack_is_never_negative(deps, effort, es, ef, ls, lf, p);
        tight_chains_have_no_slack(deps, effort, es, ef, ls, lf, head, k);
        assert(head[k] == path[k]);
    }
}

} // verus!
