//! Which nodes a node blocks, and totals over marked nodes.

use vstd::prelude::*;

use crate::algorithm::CpmAlgorithm;
use crate::network::{holds, lists, unmarked};
use crate::schedule::{efforts, EFFORT_SPAN};

verus! {

/// Node `j` can be reached from node `i` over at most `k` edges and at least
/// one, where `succ` lists the direct successors of each node.
pub open spec fn leads(succ: Seq<Seq<usize>>, k: nat, i: int, j: int) -> bool
    decreases k,
{
    k > 0 && (lists(succ[i], j) || exists|m: int| 0 <= m < succ.len() && leads(succ, (k - 1) as nat, i, m) && #[trigger] lists(succ[m], j))
}

/// Node `i` blocks node `j`, directly or transitively.
pub open spec fn blocks(succ: Seq<Seq<usize>>, i: int, j: int) -> bool {
    exists|k: nat| leads(succ, k, i, j)
}

/// Marks for every node that node `i` blocks.
pub open spec fn blocked_flags(succ: Seq<Seq<usize>>, i: int) -> Seq<bool> {
    Seq::new(succ.len(), |j: int| blocks(succ, i, j))
}

/// Number of marks that are set.
pub open spec fn marked_count(marks: Seq<bool>) -> nat
    decreases marks.len(),
{
    if marks.len() == 0 {
        0
    } else {
        marked_count(marks.drop_last()) + (if marks.last() { 1nat } else { 0nat })
    }
}

/// Sum of the values whose mark is set.
pub open spec fn marked_total(marks: Seq<bool>, values: Seq<int>) -> int
    decreases marks.len(),
{
    if marks.len() == 0 {
        0
    } else {
        marked_total(marks.drop_last(), values) + (if marks.last() { values[marks.len() - 1] } else { 0 })
    }
}

proof fn lemma_marked_count_update(marks: Seq<bool>, i: int)
    requires
        0 <= i < marks.len(),
        !marks[i],
    ensures
        marked_count(marks.update(i, true)) == marked_count(marks) + 1,
    decreases marks.len(),
{
    let changed = marks.update(i, true);
    if i == marks.len() - 1 {
        assert(changed.drop_last() =~= marks.drop_last());
    } else {
        lemma_marked_count_update(marks.drop_last(), i);
        assert(changed.drop_last() =~= marks.drop_last().update(i, true));
        assert(changed.last() == marks.last());
    }
}

/// No more marks are set than there are.
pub proof fn lemma_marked_count_bound(marks: Seq<bool>)
    ensures
        marked_count(marks) <= marks.len(),
    decreases marks.len(),
{
    if marks.len() > 0 {
        lemma_marked_count_bound(marks.drop_last());
    }
}

proof fn lemma_unmarked_count(marks: Seq<bool>)
    requires
        forall|i: int| 0 <= i < marks.len() ==> !#[trigger] marks[i],
    ensures
        marked_count(marks) == 0,
    decreases marks.len(),
{
    if marks.len() > 0 {
        assert(!marks[marks.len() - 1]);
        lemma_unmarked_count(marks.drop_last());
    }
}

impl CpmAlgorithm {
    /// Marks the nodes that `start` blocks, directly or transitively, and counts
    /// them.
    pub fn get_transitive_successors(start: usize, successors: &Vec<Vec<usize>>) -> (r: (Vec<bool>, usize))
        requires
            start < successors.len(),
            forall|i: int, j: int| 0 <= i < successors.len() && 0 <= j < successors[i].len() ==> #[trigger] successors[i][j] < successors.len(),
        ensures
            r.0@ == blocked_flags(successors.deep_view(), start as int),
            r.1 == marked_count(r.0@),
    {
        let ghost succ = successors.deep_view();
        let n: usize = successors.len();
        let mut visited = unmarked(n);
        let mut found: usize = 0;
        let mut stack: Vec<usize> = Vec::new();
        stack.push(start);
        assert(stack@[0] == start);
        proof {
            lemma_unmarked_count(visited@);
        }
        while stack.len() > 0
            invariant
                succ == successors.deep_view(),
                n == successors.len(),
                start < n,
                visited.len() == n,
                found == marked_count(visited@),
                found <= n,
                forall|i: int, j: int| 0 <= i < successors.len() && 0 <= j < successors[i].len() ==> #[trigger] successors[i][j] < successors.len(),
                forall|a: int| 0 <= a < stack.len() ==> (#[trigger] stack@[a]) < n && (stack@[a] == start || visited@[stack@[a] as int]),
                forall|j: int| 0 <= j < n && #[trigger] visited@[j] ==> blocks(succ, start as int, j),
                forall|i: int, j: int| #![trigger lists(succ[i], j)] 0 <= i < n && (i == start || visited@[i]) && !lists(stack@, i) && lists(succ[i], j) ==> visited@[j],
            decreases 2 * (n - found) + stack.len(),
        {
            let ghost full = stack@;
            let current: usize = stack.pop().unwrap();
            let ghost popped = stack@;
            let ghost found0 = found;
            assert(full[full.len() - 1] == current);
            assert(successors[current as int].deep_view() =~= successors[current as int]@);
            assert forall|i: int| lists(full, i) implies i == current || lists(popped, i) by {
                let a = choose|a: int| 0 <= a < full.len() && full[a] == i;
                if a < popped.len() {
                    assert(popped[a] == i);
                }
            }
            assert forall|a: int| 0 <= a < stack.len() implies (#[trigger] stack@[a]) < n && (stack@[a] == start || visited@[stack@[a] as int]) by {
                assert(stack@[a] == full[a]);
            }
            let count: usize = successors[current].len();
            for s in 0..count
                invariant
                    succ == successors.deep_view(),
                    n == successors.len(),
                    start < n,
                    current < n,
                    count == successors[current as int].len(),
                    current == start || visited@[current as int],
                    succ[current as int] == successors[current as int]@,
                    visited.len() == n,
                    found == marked_count(visited@),
                    found <= n,
                    found >= found0,
                    stack.len() - popped.len() == found - found0,
                    forall|i: int, j: int| 0 <= i < successors.len() && 0 <= j < successors[i].len() ==> #[trigger] successors[i][j] < successors.len(),
                    forall|a: int| 0 <= a < stack.len() ==> (#[trigger] stack@[a]) < n && (stack@[a] == start || visited@[stack@[a] as int]),
                    forall|j: int| 0 <= j < n && #[trigger] visited@[j] ==> blocks(succ, start as int, j),
                    forall|a: int| 0 <= a < s ==> visited@[#[trigger] succ[current as int][a] as int],
                    forall|i: int, j: int| #![trigger lists(succ[i], j)] 0 <= i < n && i != current && (i == start || visited@[i]) && !lists(stack@, i) && lists(succ[i], j) ==> visited@[j],
            {
                let next: usize = successors[current][s];
                assert(successors[current as int][s as int] < n);
                assert(succ[current as int][s as int] == next);
                if !visited[next] {
                    proof {
                        assert(lists(succ[current as int], next as int));
                        if current == start {
                            assert(leads(succ, 1, start as int, next as int));
                        } else {
                            let k = choose|k: nat| leads(succ, k, start as int, current as int);
                            assert(leads(succ, ((k + 1) - 1) as nat, start as int, current as int));
                            assert(leads(succ, (k + 1) as nat, start as int, next as int));
                        }
                        lemma_marked_count_update(visited@, next as int);
                        lemma_marked_count_bound(visited@.update(next as int, true));
                    }
                    let ghost prev = stack@;
                    let ghost seen = visited@;
                    visited.set(next, true);
                    stack.push(next);
                    found = found + 1;
                    proof {
                        assert forall|i: int, j: int| #![trigger lists(succ[i], j)] 0 <= i < n && i != current && (i == start || visited@[i]) && !lists(stack@, i) && lists(succ[i], j) implies visited@[j] by {
                            if lists(prev, i) {
                                let a = choose|a: int| 0 <= a < prev.len() && prev[a] == i;
                                assert(stack@[a] == i);
                            }
                            if i == next {
                                assert(stack@[prev.len() as int] == i);
                            }
                            assert(i == start || seen[i]);
                            assert(seen[j]);
                        }
                        assert forall|a: int| 0 <= a < stack.len() implies (#[trigger] stack@[a]) < n && (stack@[a] == start || visited@[stack@[a] as int]) by {
                            if a < prev.len() {
                                assert(stack@[a] == prev[a]);
                            }
                        }
                    }
                }
            }
            proof {
                assert forall|i: int, j: int| #![trigger lists(succ[i], j)] 0 <= i < n && (i == start || visited@[i]) && !lists(stack@, i) && lists(succ[i], j) implies visited@[j] by {
                    if i == current {
                        let a = choose|a: int| 0 <= a < succ[i].len() && succ[i][a] == j;
                        assert(visited@[succ[current as int][a] as int]);
                    }
                }
            }
        }
        proof {
            assert forall|j: int| 0 <= j < n implies visited@[j] == blocks(succ, start as int, j) by {
                if blocks(succ, start as int, j) {
                    let k = choose|k: nat| leads(succ, k, start as int, j);
                    lemma_closed(succ, visited@, start as int, k, j);
                }
            }
            assert(visited@ =~= blocked_flags(succ, start as int));
        }
        (visited, found)
    }
}

proof fn lemma_closed(succ: Seq<Seq<usize>>, visited: Seq<bool>, start: int, k: nat, j: int)
    requires
        0 <= start < succ.len(),
        visited.len() == succ.len(),
        forall|i: int, x: int| #![trigger lists(succ[i], x)] 0 <= i < succ.len() && (i == start || visited[i]) && lists(succ[i], x) ==> visited[x],
        leads(succ, k, start, j),
    ensures
        visited[j],
    decreases k,
{
    if !lists(succ[start], j) {
        let m = choose|m: int| 0 <= m < succ.len() && leads(succ, (k - 1) as nat, start, m) && #[trigger] lists(succ[m], j);
        lemma_closed(succ, visited, start, (k - 1) as nat, m);
    }
}

/// The nodes among the first `m` that wait for node `i`, in order.
pub open spec fn successor_row(deps: Seq<Seq<usize>>, i: int, m: nat) -> Seq<usize>
    decreases m,
{
    if m == 0 {
        Seq::empty()
    } else {
        let rest = successor_row(deps, i, (m - 1) as nat);
        if lists(deps[m - 1], i) {
            rest.push((m - 1) as usize)
        } else {
            rest
        }
    }
}

/// The network with every edge reversed: for each node, the nodes that wait
/// for it.
pub open spec fn reversed(deps: Seq<Seq<usize>>) -> Seq<Seq<usize>> {
    Seq::new(deps.len(), |i: int| successor_row(deps, i, deps.len()))
}

/// A successor row lists exactly the nodes that wait for the node.
pub proof fn lemma_successor_row(deps: Seq<Seq<usize>>, i: int, m: nat, j: int)
    requires
        m <= usize::MAX,
    ensures
        lists(successor_row(deps, i, m), j) <==> 0 <= j < m && lists(deps[j], i),
    decreases m,
{
    if m > 0 {
        let rest = successor_row(deps, i, (m - 1) as nat);
        let row = successor_row(deps, i, m);
        lemma_successor_row(deps, i, (m - 1) as nat, j);
        if lists(rest, j) {
            let a = choose|a: int| 0 <= a < rest.len() && rest[a] == j;
            assert(row[a] == j);
        }
        if lists(row, j) {
            let a = choose|a: int| 0 <= a < row.len() && row[a] == j;
            if a < rest.len() {
                assert(rest[a] == j);
            }
        }
        if j == m - 1 && lists(deps[j], i) {
            assert(row[rest.len() as int] == j);
        }
    }
}

impl CpmAlgorithm {
    /// The successors of every node, given its predecessors.
    pub fn build_dependency_graphs(predecessors: &Vec<Vec<usize>>) -> (successors: Vec<Vec<usize>>)
        ensures
            successors.deep_view() == reversed(predecessors.deep_view()),
            forall|i: int, j: int| 0 <= i < successors.len() && 0 <= j < successors[i].len() ==> #[trigger] successors[i][j] < successors.len(),
    {
        let ghost d = predecessors.deep_view();
        let n: usize = predecessors.len();
        let mut successors: Vec<Vec<usize>> = Vec::new();
        for i in 0..n
            invariant
                n == predecessors.len(),
                d == predecessors.deep_view(),
                successors.len() == i,
                forall|a: int| 0 <= a < i ==> (#[trigger] successors[a])@ == successor_row(d, a, n as nat),
        {
            let mut row: Vec<usize> = Vec::new();
            for j in 0..n
                invariant
                    n == predecessors.len(),
                    d == predecessors.deep_view(),
                    row@ == successor_row(d, i as int, j as nat),
            {
                assert(predecessors[j as int].deep_view() =~= predecessors[j as int]@);
                if holds(&predecessors[j], i) {
                    row.push(j);
                }
            }
            successors.push(row);
        }
        proof {
            assert forall|i: int, j: int| 0 <= i < successors.len() && 0 <= j < successors[i].len() implies #[trigger] successors[i][j] < successors.len() by {
                lemma_successor_row(d, i, n as nat, successors[i][j] as int);
                assert(lists(successors[i]@, successors[i][j] as int));
            }
            assert forall|i: int| 0 <= i < n implies #[trigger] successors.deep_view()[i] == reversed(d)[i] by {
                assert(successors[i].deep_view() =~= successors[i]@);
            }
            assert(successors.deep_view() =~= reversed(d));
        }
        successors
    }
}

/// Sum of the efforts of the marked nodes.
pub fn total_marked(marks: &Vec<bool>, effort: &Vec<i64>) -> (r: i128)
    requires
        marks.len() == effort.len(),
    ensures
        r == marked_total(marks@, efforts(effort@)),
        -marks.len() * EFFORT_SPAN <= r <= marks.len() * (EFFORT_SPAN - 1),
{
    let mut sum: i128 = 0;
    let ghost e = efforts(effort@);
    for i in 0..marks.len()
        invariant
            marks.len() == effort.len(),
            e == efforts(effort@),
            sum == marked_total(marks@.take(i as int), e),
            -i * 0x8000_0000_0000_0000 <= sum <= i * 0x7fff_ffff_ffff_ffff,
    {
        assert(marks@.take(i + 1).drop_last() =~= marks@.take(i as int));
        if marks[i] {
            sum = sum + effort[i] as i128;
        }
    }
    assert(marks@.take(marks@.len() as int) =~= marks@);
    sum
}

} // verus!
