//! A network can be settled exactly when it has no cycle.

use vstd::prelude::*;

use crate::network::{
    lemma_distinct_len, lemma_settled_deps, lemma_settled_intro, lemma_settles_monotone, lists, settled, settles,
};
use crate::reach::{blocks, leads, lemma_successor_row, reversed};

verus! {

/// Every dependency exists.
pub open spec fn all_known(deps: Seq<Seq<usize>>) -> bool {
    forall|i: int, j: int| 0 <= i < deps.len() && 0 <= j < deps[i].len() ==> (#[trigger] deps[i][j]) < deps.len()
}

/// No node blocks itself.
pub open spec fn acyclic(deps: Seq<Seq<usize>>) -> bool {
    forall|i: int| 0 <= i < deps.len() ==> !#[trigger] blocks(reversed(deps), i, i)
}

/// Everything that leads to a settled node is settled in fewer steps.
proof fn lemma_leads_settles(deps: Seq<Seq<usize>>, m: nat, k: nat, x: int, i: int)
    requires
        deps.len() <= usize::MAX,
        0 <= x < deps.len(),
        leads(reversed(deps), m, x, i),
        settles(deps, k, i),
    ensures
        k > 0,
        settles(deps, (k - 1) as nat, x),
    decreases m,
{
    let succ = reversed(deps);
    if lists(succ[x], i) {
        lemma_successor_row(deps, x, deps.len(), i);
        let a = choose|a: int| 0 <= a < deps[i].len() && deps[i][a] == x;
        assert(settles(deps, (k - 1) as nat, deps[i][a] as int));
    } else {
        let y = choose|y: int| 0 <= y < succ.len() && leads(succ, (m - 1) as nat, x, y) && #[trigger] lists(succ[y], i);
        lemma_successor_row(deps, y, deps.len(), i);
        let a = choose|a: int| 0 <= a < deps[i].len() && deps[i][a] == y;
        assert(settles(deps, (k - 1) as nat, deps[i][a] as int));
        lemma_leads_settles(deps, (m - 1) as nat, (k - 1) as nat, x, y);
        lemma_settles_monotone(deps, (k - 2) as nat, (k - 1) as nat, x);
    }
}

/// A node on a cycle is never settled.
proof fn lemma_cycle_unsettled(deps: Seq<Seq<usize>>, m: nat, k: nat, i: int)
    requires
        deps.len() <= usize::MAX,
        0 <= i < deps.len(),
        leads(reversed(deps), m, i, i),
    ensures
        !settles(deps, k, i),
    decreases k,
{
    if settles(deps, k, i) {
        lemma_leads_settles(deps, m, k, i, i);
        lemma_cycle_unsettled(deps, m, (k - 1) as nat, i);
    }
}

/// Some unsettled node that an unsettled node waits for.
spec fn stuck_on(deps: Seq<Seq<usize>>, i: int) -> usize {
    choose|d: usize| lists(deps[i], d as int) && !settled(deps, d as int)
}

/// Follows unsettled dependencies.
spec fn stuck_walk(deps: Seq<Seq<usize>>, from: usize, n: nat) -> Seq<usize>
    decreases n,
{
    if n == 0 {
        seq![from]
    } else {
        let w = stuck_walk(deps, from, (n - 1) as nat);
        w.push(stuck_on(deps, w.last() as int))
    }
}

proof fn lemma_stuck_walk(deps: Seq<Seq<usize>>, from: usize, n: nat)
    requires
        all_known(deps),
        from < deps.len(),
        !settled(deps, from as int),
    ensures
        stuck_walk(deps, from, n).len() == n + 1,
        forall|k: int| 0 <= k <= n ==> (#[trigger] stuck_walk(deps, from, n)[k]) < deps.len() && !settled(deps, stuck_walk(deps, from, n)[k] as int),
        forall|k: int| 0 < k <= n ==> lists(deps[stuck_walk(deps, from, n)[k - 1] as int], #[trigger] stuck_walk(deps, from, n)[k] as int),
    decreases n,
{
    if n > 0 {
        lemma_stuck_walk(deps, from, (n - 1) as nat);
        let w = stuck_walk(deps, from, (n - 1) as nat);
        let i = w.last() as int;
        assert(w[n - 1] == w.last());
        if forall|j: int| 0 <= j < deps[i].len() ==> settled(deps, #[trigger] deps[i][j] as int) {
            lemma_settled_intro(deps, i);
        }
        let j = choose|j: int| 0 <= j < deps[i].len() && !settled(deps, #[trigger] deps[i][j] as int);
        let d = deps[i][j];
        assert(lists(deps[i], d as int) && !settled(deps, d as int));
        let next = stuck_on(deps, i);
        assert(lists(deps[i], next as int) && !settled(deps, next as int));
        let a = choose|a: int| 0 <= a < deps[i].len() && deps[i][a] == next;
        assert(deps[i][a] < deps.len());
        let full = stuck_walk(deps, from, n);
        assert(full == w.push(next));
        assert forall|k: int| 0 <= k <= n implies (#[trigger] full[k]) < deps.len() && !settled(deps, full[k] as int) by {
            if k < n {
                assert(full[k] == w[k]);
            }
        }
        assert forall|k: int| 0 < k <= n implies lists(deps[full[k - 1] as int], #[trigger] full[k] as int) by {
            if k < n {
                assert(full[k] == w[k] && full[k - 1] == w[k - 1]);
            }
        }
    }
}

/// A walk against the edges leads back along them.
proof fn lemma_walk_leads(deps: Seq<Seq<usize>>, w: Seq<usize>, a: int, b: int)
    requires
        deps.len() <= usize::MAX,
        0 <= a < b < w.len(),
        forall|k: int| 0 <= k < w.len() ==> (#[trigger] w[k]) < deps.len(),
        forall|k: int| 0 < k < w.len() ==> lists(deps[w[k - 1] as int], #[trigger] w[k] as int),
    ensures
        leads(reversed(deps), (b - a) as nat, w[b] as int, w[a] as int),
    decreases b - a,
{
    let succ = reversed(deps);
    lemma_successor_row(deps, w[a + 1] as int, deps.len(), w[a] as int);
    assert(lists(deps[w[a + 1 - 1] as int], w[a + 1] as int));
    assert(lists(succ[w[a + 1] as int], w[a] as int));
    if a + 1 < b {
        lemma_walk_leads(deps, w, a + 1, b);
        assert(leads(succ, ((b - a) - 1) as nat, w[b] as int, w[a + 1] as int));
    }
}

/// Everything can be settled exactly when every dependency exists and no node blocks itself.
pub proof fn settles_exactly_when_acyclic(deps: Seq<Seq<usize>>)
    requires
        deps.len() <= usize::MAX,
    ensures
        (forall|i: int| 0 <= i < deps.len() ==> #[trigger] settled(deps, i)) <==> {
            &&& all_known(deps)
            &&& acyclic(deps)
        },
{
    if forall|i: int| 0 <= i < deps.len() ==> #[trigger] settled(deps, i) {
        assert forall|i: int, j: int| 0 <= i < deps.len() && 0 <= j < deps[i].len() implies (#[trigger] deps[i][j]) < deps.len() by {
            assert(settled(deps, i));
            lemma_settled_deps(deps, i, j);
        }
        assert forall|i: int| 0 <= i < deps.len() implies !#[trigger] blocks(reversed(deps), i, i) by {
            if blocks(reversed(deps), i, i) {
                let m = choose|m: nat| leads(reversed(deps), m, i, i);
                assert(settled(deps, i));
                let k = choose|k: nat| settles(deps, k, i);
                lemma_cycle_unsettled(deps, m, k, i);
            }
        }
    }
    if all_known(deps) && acyclic(deps) {
        assert forall|i: int| 0 <= i < deps.len() implies #[trigger] settled(deps, i) by {
            if !settled(deps, i) {
                let w = stuck_walk(deps, i as usize, deps.len());
                lemma_stuck_walk(deps, i as usize, deps.len());
                if w.no_duplicates() {
                    lemma_distinct_len(w, deps.len());
                }
                let (a, b) = choose|a: int, b: int| 0 <= a < w.len() && 0 <= b < w.len() && a != b && w[a] == w[b];
                let lo = if a < b { a } else { b };
                let hi = if a < b { b } else { a };
                lemma_walk_leads(deps, w, lo, hi);
                assert(blocks(reversed(deps), w[lo] as int, w[lo] as int));
            }
        }
    }
}

} // verus!
