//! Dependency networks over positions.
//!
//! A network of `n` nodes is given by one list per node: the positions of the
//! nodes it waits for. A position of `n` or more stands for a node that does
//! not exist.

use vstd::prelude::*;

verus! {

/// Node `i` can be settled within `k` steps: it exists, and every node
/// it waits for can be settled in fewer steps.
pub open spec fn settles(deps: Seq<Seq<usize>>, k: nat, i: int) -> bool
    decreases k,
{
    &&& k > 0
    &&& 0 <= i < deps.len()
    &&& forall|j: int| 0 <= j < deps[i].len() ==> settles(deps, (k - 1) as nat, #[trigger] deps[i][j] as int)
}

/// Node `i` can be settled.
pub open spec fn settled(deps: Seq<Seq<usize>>, i: int) -> bool {
    exists|k: nat| settles(deps, k, i)
}

/// For each node, whether it can be settled.
pub open spec fn settled_flags(deps: Seq<Seq<usize>>) -> Seq<bool> {
    Seq::new(deps.len(), |i: int| settled(deps, i))
}

/// More steps settle at least as much.
pub proof fn lemma_settles_monotone(deps: Seq<Seq<usize>>, k: nat, m: nat, i: int)
    requires
        settles(deps, k, i),
        k <= m,
    ensures
        settles(deps, m, i),
    decreases k,
{
    assert forall|j: int| 0 <= j < deps[i].len() implies settles(deps, (m - 1) as nat, #[trigger] deps[i][j] as int) by {
        lemma_settles_monotone(deps, (k - 1) as nat, (m - 1) as nat, deps[i][j] as int);
    }
}

/// A node whose dependencies are all settled is settled.
pub proof fn lemma_settled_intro(deps: Seq<Seq<usize>>, i: int)
    requires
        0 <= i < deps.len(),
        forall|j: int| 0 <= j < deps[i].len() ==> settled(deps, #[trigger] deps[i][j] as int),
    ensures
        settled(deps, i),
{
    let k = lemma_common_bound(deps, deps[i]);
    assert(settles(deps, (k + 1) as nat, i));
}

/// Settled nodes have one number of steps that settles all of them.
proof fn lemma_common_bound(deps: Seq<Seq<usize>>, list: Seq<usize>) -> (k: nat)
    requires
        forall|j: int| 0 <= j < list.len() ==> settled(deps, #[trigger] list[j] as int),
    ensures
        forall|j: int| 0 <= j < list.len() ==> settles(deps, k, #[trigger] list[j] as int),
    decreases list.len(),
{
    if list.len() == 0 {
        0
    } else {
        let rest = list.drop_last();
        assert forall|j: int| 0 <= j < rest.len() implies settled(deps, #[trigger] rest[j] as int) by {
            assert(rest[j] == list[j]);
        }
        let a = lemma_common_bound(deps, rest);
        let last = list.last();
        assert(settled(deps, list[list.len() - 1] as int));
        let b = choose|b: nat| settles(deps, b, last as int);
        let m: nat = if a < b { b } else { a };
        assert forall|j: int| 0 <= j < list.len() implies settles(deps, m, #[trigger] list[j] as int) by {
            if j < list.len() - 1 {
                assert(list[j] == rest[j]);
                lemma_settles_monotone(deps, a, m, list[j] as int);
            } else {
                lemma_settles_monotone(deps, b, m, list[j] as int);
            }
        }
        m
    }
}

/// One number of steps settles everything that can be settled.
pub proof fn lemma_uniform_bound(deps: Seq<Seq<usize>>) -> (k: nat)
    ensures
        forall|i: int| #![trigger settled(deps, i)] settled(deps, i) ==> settles(deps, k, i),
{
    lemma_uniform_bound_upto(deps, deps.len())
}

proof fn lemma_uniform_bound_upto(deps: Seq<Seq<usize>>, n: nat) -> (k: nat)
    ensures
        forall|i: int| #![trigger settled(deps, i)] i < n && settled(deps, i) ==> settles(deps, k, i),
    decreases n,
{
    if n == 0 {
        0
    } else {
        let a = lemma_uniform_bound_upto(deps, (n - 1) as nat);
        let last = n - 1;
        let b = choose|b: nat| settles(deps, b, last);
        let m: nat = if settled(deps, last) && a < b { b } else { a };
        assert forall|i: int| #![trigger settled(deps, i)] i < n && settled(deps, i) implies settles(deps, m, i) by {
            if i < last {
                lemma_settles_monotone(deps, a, m, i);
            } else {
                lemma_settles_monotone(deps, b, m, i);
            }
        }
        m
    }
}

/// A settled node waits only for settled nodes.
pub proof fn lemma_settled_deps(deps: Seq<Seq<usize>>, i: int, j: int)
    requires
        settled(deps, i),
        0 <= j < deps[i].len(),
    ensures
        0 <= i < deps.len(),
        settled(deps, deps[i][j] as int),
        deps[i][j] < deps.len(),
{
    let k = choose|k: nat| settles(deps, k, i);
    assert(settles(deps, (k - 1) as nat, deps[i][j] as int));
}

/// A list holds the position `i`.
pub open spec fn lists(list: Seq<usize>, i: int) -> bool {
    exists|a: int| 0 <= a < list.len() && #[trigger] list[a] == i
}

/// `order` lists the settled nodes once each, every node after all the nodes
/// it waits for.
pub open spec fn topological(deps: Seq<Seq<usize>>, order: Seq<usize>) -> bool {
    &&& order.no_duplicates()
    &&& forall|p: int| 0 <= p < order.len() ==> (#[trigger] order[p]) < deps.len()
    &&& forall|i: int| #![trigger settled(deps, i)] settled(deps, i) <==> lists(order, i)
    &&& forall|p: int, j: int| 0 <= p < order.len() && 0 <= j < deps[order[p] as int].len() ==>
        order.take(p).contains(#[trigger] deps[order[p] as int][j])
}

/// Whether a list holds a position.
pub fn holds(list: &Vec<usize>, x: usize) -> (r: bool)
    ensures
        r == lists(list@, x as int),
{
    for i in 0..list.len()
        invariant
            forall|k: int| 0 <= k < i ==> list@[k] != x,
    {
        if list[i] == x {
            return true;
        }
    }
    false
}

/// Whether every listed position is marked.
fn all_marked(list: &Vec<usize>, marks: &Vec<bool>) -> (r: bool)
    ensures
        r == (forall|j: int| 0 <= j < list@.len() ==> (#[trigger] list@[j]) < marks@.len() && marks@[list@[j] as int]),
{
    for i in 0..list.len()
        invariant
            forall|k: int| 0 <= k < i ==> (#[trigger] list@[k]) < marks@.len() && marks@[list@[k] as int],
    {
        if list[i] >= marks.len() || !marks[list[i]] {
            return false;
        }
    }
    true
}

/// A list of `n` unset marks.
pub fn unmarked(n: usize) -> (r: Vec<bool>)
    ensures
        r@ == Seq::new(n as nat, |i: int| false),
{
    let mut r: Vec<bool> = Vec::new();
    for i in 0..n
        invariant
            r.len() == i,
            forall|k: int| 0 <= k < i ==> !r@[k],
    {
        r.push(false);
    }
    assert(r@ =~= Seq::new(n as nat, |i: int| false));
    r
}

/// What holds while nodes are being placed.
spec fn placing(deps: Seq<Seq<usize>>, order: Seq<usize>, placed: Seq<bool>) -> bool {
    &&& placed.len() == deps.len()
    &&& order.no_duplicates()
    &&& forall|p: int| 0 <= p < order.len() ==> (#[trigger] order[p]) < deps.len() && placed[order[p] as int]
    &&& forall|i: int| 0 <= i < deps.len() && #[trigger] placed[i] ==> order.contains(i as usize) && settled(deps, i)
    &&& forall|p: int, j: int| 0 <= p < order.len() && 0 <= j < deps[order[p] as int].len() ==>
        order.take(p).contains(#[trigger] deps[order[p] as int][j])
}

proof fn lemma_place(deps: Seq<Seq<usize>>, order: Seq<usize>, placed: Seq<bool>, i: usize)
    requires
        placing(deps, order, placed),
        i < deps.len(),
        !placed[i as int],
        forall|j: int| 0 <= j < deps[i as int].len() ==> (#[trigger] deps[i as int][j]) < placed.len() && placed[deps[i as int][j] as int],
    ensures
        placing(deps, order.push(i), placed.update(i as int, true)),
{
    let order2 = order.push(i);
    let placed2 = placed.update(i as int, true);
    assert forall|j: int| 0 <= j < deps[i as int].len() implies settled(deps, #[trigger] deps[i as int][j] as int) by {
        assert(placed[deps[i as int][j] as int]);
    }
    lemma_settled_intro(deps, i as int);
    assert forall|x: int| 0 <= x < deps.len() && #[trigger] placed2[x] implies order2.contains(x as usize) && settled(deps, x) by {
        if x == i {
            assert(order2[order.len() as int] == i);
        } else {
            assert(placed[x]);
            let p = choose|p: int| 0 <= p < order.len() && order[p] == x as usize;
            assert(order2[p] == x as usize);
        }
    }
    assert forall|p: int, j: int| 0 <= p < order2.len() && 0 <= j < deps[order2[p] as int].len() implies order2.take(p).contains(#[trigger] deps[order2[p] as int][j]) by {
        if p < order.len() {
            assert(order2[p] == order[p]);
            assert(order2.take(p) =~= order.take(p));
            assert(order.take(p).contains(deps[order[p] as int][j]));
        } else {
            assert(order2.take(p) =~= order);
            assert(placed[deps[i as int][j] as int]);
        }
    }
    assert(order2.no_duplicates()) by {
        assert forall|a: int, b: int| 0 <= a < order2.len() && 0 <= b < order2.len() && a != b implies order2[a] != order2[b] by {
            if a < order.len() && b < order.len() {
                assert(order[a] != order[b]);
            } else if a < order.len() {
                assert(placed[order[a] as int]);
            } else {
                assert(placed[order[b] as int]);
            }
        }
    }
    assert forall|p: int| 0 <= p < order2.len() implies (#[trigger] order2[p]) < deps.len() && placed2[order2[p] as int] by {
        if p < order.len() {
            assert(placed[order[p] as int]);
        }
    }
}

/// When no further node can be placed, everything settled has been placed.
proof fn lemma_placing_complete(deps: Seq<Seq<usize>>, order: Seq<usize>, placed: Seq<bool>, k: nat, i: int)
    requires
        placing(deps, order, placed),
        forall|x: int| 0 <= x < deps.len() && (forall|j: int| 0 <= j < deps[x].len() ==> (#[trigger] deps[x][j]) < placed.len() && placed[deps[x][j] as int]) ==> #[trigger] placed[x],
        settles(deps, k, i),
    ensures
        placed[i],
    decreases k,
{
    assert forall|j: int| 0 <= j < deps[i].len() implies (#[trigger] deps[i][j]) < placed.len() && placed[deps[i][j] as int] by {
        assert(settles(deps, (k - 1) as nat, deps[i][j] as int));
        lemma_placing_complete(deps, order, placed, (k - 1) as nat, deps[i][j] as int);
    }
}

/// Distinct positions below `n` are at most `n` many.
pub proof fn lemma_distinct_len(order: Seq<usize>, n: nat)
    requires
        order.no_duplicates(),
        forall|p: int| 0 <= p < order.len() ==> (#[trigger] order[p]) < n,
    ensures
        order.len() <= n,
    decreases n,
{
    if n == 0 {
        if order.len() > 0 {
            assert(order[0] < 0);
        }
    } else if order.contains((n - 1) as usize) {
        let q = order.index_of((n - 1) as usize);
        let rest = order.remove(q);
        assert forall|a: int, b: int| 0 <= a < rest.len() && 0 <= b < rest.len() && a != b implies rest[a] != rest[b] by {
            let x = if a < q { a } else { a + 1 };
            let y = if b < q { b } else { b + 1 };
            assert(rest[a] == order[x] && rest[b] == order[y]);
        }
        assert forall|p: int| 0 <= p < rest.len() implies (#[trigger] rest[p]) < n - 1 by {
            let x = if p < q { p } else { p + 1 };
            assert(rest[p] == order[x]);
            assert(order[x] != order[q]);
        }
        lemma_distinct_len(rest, (n - 1) as nat);
    } else {
        assert forall|p: int| 0 <= p < order.len() implies (#[trigger] order[p]) < n - 1 by {
            assert(order[p] != (n - 1) as usize);
        }
        lemma_distinct_len(order, (n - 1) as nat);
    }
}

/// Orders the nodes that can be settled, and marks them.
pub fn topological_order(deps: &Vec<Vec<usize>>) -> (r: (Vec<usize>, Vec<bool>))
    ensures
        topological(deps.deep_view(), r.0@),
        r.1@ == settled_flags(deps.deep_view()),
        r.0.len() <= deps.len(),
{
    let ghost d = deps.deep_view();
    let n: usize = deps.len();
    let mut order: Vec<usize> = Vec::new();
    let mut placed = unmarked(n);
    let mut progress = true;
    assert(placing(d, order@, placed@));
    while progress
        invariant
            d == deps.deep_view(),
            n == deps.len(),
            placing(d, order@, placed@),
            !progress ==> forall|x: int| 0 <= x < d.len() && (forall|j: int| 0 <= j < d[x].len() ==> (#[trigger] d[x][j]) < placed@.len() && placed@[d[x][j] as int]) ==> #[trigger] placed@[x],
        decreases n - order.len() + (if progress { 1int } else { 0int }),
    {
        progress = false;
        let ghost before = order.len();
        for i in 0..n
            invariant
                d == deps.deep_view(),
                n == deps.len(),
                placing(d, order@, placed@),
                order.len() >= before,
                progress ==> order.len() > before,
                !progress ==> order.len() == before,
                !progress ==> forall|x: int| 0 <= x < i && (forall|j: int| 0 <= j < d[x].len() ==> (#[trigger] d[x][j]) < placed@.len() && placed@[d[x][j] as int]) ==> #[trigger] placed@[x],
        {
            assert(d[i as int] =~= deps[i as int]@) by {
                assert(deps[i as int].deep_view() =~= deps[i as int]@);
            }
            if !placed[i] && all_marked(&deps[i], &placed) {
                proof {
                    lemma_place(d, order@, placed@, i);
                }
                order.push(i);
                placed.set(i, true);
                progress = true;
            }
        }
        proof {
            lemma_distinct_len(order@, n as nat);
        }
    }
    proof {
        assert forall|i: int| 0 <= i < d.len() implies placed@[i] == settled(d, i) by {
            if settled(d, i) {
                let k = choose|k: nat| settles(d, k, i);
                lemma_placing_complete(d, order@, placed@, k, i);
            }
        }
        assert(placed@ =~= settled_flags(d));
        assert forall|i: int| #![trigger settled(d, i)] settled(d, i) <==> lists(order@, i) by {
            if settled(d, i) {
                let k = choose|k: nat| settles(d, k, i);
                assert(0 <= i < d.len());
                assert(placed@[i]);
                let p = choose|p: int| 0 <= p < order@.len() && order@[p] == i as usize;
                assert(order@[p] == i);
            }
            if lists(order@, i) {
                let p = choose|p: int| 0 <= p < order@.len() && order@[p] == i;
                assert(placed@[order@[p] as int]);
            }
        }
        lemma_distinct_len(order@, n as nat);
    }
    (order, placed)
}

/// The least number of steps that settles node `i`.
pub open spec fn layer(deps: Seq<Seq<usize>>, i: int) -> nat {
    choose|k: nat| is_layer(deps, k, i)
}

/// Node `i` can be settled within `k` steps and no fewer.
pub open spec fn is_layer(deps: Seq<Seq<usize>>, k: nat, i: int) -> bool {
    settles(deps, k, i) && !settles(deps, (k - 1) as nat, i)
}

/// A settled node has exactly one layer.
pub proof fn lemma_layer(deps: Seq<Seq<usize>>, i: int)
    requires
        settled(deps, i),
    ensures
        is_layer(deps, layer(deps, i), i),
        forall|k: nat| #[trigger] is_layer(deps, k, i) ==> k == layer(deps, i),
{
    let k = choose|k: nat| settles(deps, k, i);
    let least = lemma_least_steps(deps, k, i);
    assert(is_layer(deps, least, i));
    let m = layer(deps, i);
    assert forall|k: nat| #[trigger] is_layer(deps, k, i) implies k == m by {
        if k < m {
            lemma_settles_monotone(deps, k, (m - 1) as nat, i);
        } else if m < k {
            lemma_settles_monotone(deps, m, (k - 1) as nat, i);
        }
    }
}

proof fn lemma_least_steps(deps: Seq<Seq<usize>>, k: nat, i: int) -> (m: nat)
    requires
        settles(deps, k, i),
    ensures
        is_layer(deps, m, i),
    decreases k,
{
    if settles(deps, (k - 1) as nat, i) {
        lemma_least_steps(deps, (k - 1) as nat, i)
    } else {
        k
    }
}

/// A settled node lies in a later layer than everything it waits for.
pub proof fn lemma_layers_rise(deps: Seq<Seq<usize>>, i: int, d: int)
    requires
        settled(deps, i),
        lists(deps[i], d),
    ensures
        settled(deps, d),
        layer(deps, d) < layer(deps, i),
{
    let a = choose|a: int| 0 <= a < deps[i].len() && deps[i][a] == d;
    lemma_settled_deps(deps, i, a);
    lemma_layer(deps, i);
    lemma_layer(deps, d);
    let k = layer(deps, i);
    assert(settles(deps, (k - 1) as nat, deps[i][a] as int));
    if k <= layer(deps, d) {
        lemma_settles_monotone(deps, (k - 1) as nat, (layer(deps, d) - 1) as nat, d);
    }
}

/// The layers of the settled nodes.
pub fn layers(deps: &Vec<Vec<usize>>, order: &Vec<usize>) -> (r: Vec<usize>)
    requires
        topological(deps.deep_view(), order@),
        order.len() <= deps.len(),
    ensures
        r.len() == deps.len(),
        forall|i: int| 0 <= i < deps.len() && settled(deps.deep_view(), i) ==> #[trigger] r@[i] == layer(deps.deep_view(), i),
{
    let ghost d = deps.deep_view();
    let n: usize = deps.len();
    let mut r: Vec<usize> = Vec::new();
    for i in 0..n
        invariant
            r.len() == i,
    {
        r.push(0);
    }
    for p in 0..order.len()
        invariant
            d == deps.deep_view(),
            n == deps.len(),
            r.len() == n,
            order.len() <= n,
            topological(d, order@),
            forall|q: int| 0 <= q < p ==> r@[#[trigger] order@[q] as int] <= q + 1 && is_layer(d, r@[order@[q] as int] as nat, order@[q] as int),
    {
        let i: usize = order[p];
        assert(deps[i as int].deep_view() =~= deps[i as int]@);
        let ghost di = d[i as int];
        assert(di == deps[i as int]@);
        let count: usize = deps[i].len();
        let mut top: usize = 0;
        for j in 0..count
            invariant
                d == deps.deep_view(),
                n == deps.len(),
                r.len() == n,
                order.len() <= n,
                topological(d, order@),
                p < order.len(),
                i == order@[p as int],
                di == d[i as int],
                di == deps[i as int]@,
                count == di.len(),
                forall|q: int| 0 <= q < p ==> r@[#[trigger] order@[q] as int] <= q + 1 && is_layer(d, r@[order@[q] as int] as nat, order@[q] as int),
                top <= p,
                forall|k: int| 0 <= k < j ==> settles(d, top as nat, #[trigger] di[k] as int),
                top == 0 || exists|k: int| 0 <= k < j && is_layer(d, top as nat, #[trigger] di[k] as int),
        {
            let x: usize = deps[i][j];
            proof {
                let before = order@.take(p as int);
                assert(before.contains(d[order@[p as int] as int][j as int]));
                let q = choose|q: int| 0 <= q < before.len() && before[q] == x;
                assert(order@[q] == x);
                assert(r@[order@[q] as int] <= q + 1);
                assert(is_layer(d, r@[x as int] as nat, di[j as int] as int));
            }
            let ghost old_top = top;
            if r[x] > top {
                top = r[x];
            }
            proof {
                assert forall|k: int| 0 <= k < j + 1 implies settles(d, top as nat, #[trigger] di[k] as int) by {
                    if k < j {
                        lemma_settles_monotone(d, old_top as nat, top as nat, di[k] as int);
                    } else {
                        lemma_settles_monotone(d, r@[x as int] as nat, top as nat, di[k] as int);
                    }
                }
                if old_top == top && top > 0 {
                    let k = choose|k: int| 0 <= k < j && is_layer(d, top as nat, #[trigger] di[k] as int);
                    assert(is_layer(d, top as nat, di[k] as int));
                } else if top > 0 {
                    assert(is_layer(d, top as nat, di[j as int] as int));
                }
            }
        }
        proof {
            assert(settles(d, (top + 1) as nat, i as int));
            if top > 0 && settles(d, top as nat, i as int) {
                let k = choose|k: int| 0 <= k < count && is_layer(d, top as nat, #[trigger] di[k] as int);
                assert(settles(d, (top - 1) as nat, di[k] as int));
            }
            assert(is_layer(d, (top + 1) as nat, i as int));
        }
        let ghost old_r = r@;
        r.set(i, top + 1);
        assert forall|q: int| 0 <= q < p + 1 implies r@[#[trigger] order@[q] as int] <= q + 1 && is_layer(d, r@[order@[q] as int] as nat, order@[q] as int) by {
            if q < p {
                assert(order@[q] != order@[p as int]);
                assert(r@[order@[q] as int] == old_r[order@[q] as int]);
            }
        }
    }
    assert forall|i: int| 0 <= i < n && settled(d, i) implies #[trigger] r@[i] == layer(d, i) by {
        assert(lists(order@, i));
        let q = choose|q: int| 0 <= q < order@.len() && #[trigger] order@[q] == i;
        lemma_layer(d, i);
        assert(is_layer(d, r@[order@[q] as int] as nat, order@[q] as int));
    }
    r
}

} // verus!
