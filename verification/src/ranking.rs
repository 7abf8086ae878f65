//! Stable ordering of indexed items by a key.

use vstd::prelude::*;

use crate::ratio::{lemma_at_most_transitive, lemma_below_transitive, Ratio};
use crate::text::{lemma_text_less_irreflexive, lemma_text_less_total, lemma_text_less_transitive, text_less, text_lt};

verus! {

/// A key whose values are totally preordered.
pub trait Ranked: Sized {
    /// Whether the key is one that can be ranked.
    spec fn rankable(&self) -> bool;

    /// Whether `self` comes strictly before `other`.
    spec fn precedes(&self, other: &Self) -> bool;

    /// Executable form of [`Ranked::precedes`].
    fn comes_before(&self, other: &Self) -> (r: bool)
        requires
            self.rankable(),
            other.rankable(),
        ensures
            r == self.precedes(other),
    ;

    /// No key precedes itself.
    proof fn irreflexive(a: &Self)
        requires
            a.rankable(),
        ensures
            !a.precedes(a),
    ;

    /// Precedence is transitive.
    proof fn transitive(a: &Self, b: &Self, c: &Self)
        requires
            a.rankable(),
            b.rankable(),
            c.rankable(),
            a.precedes(b),
            b.precedes(c),
        ensures
            a.precedes(c),
    ;

    /// Not preceding is transitive: ties form classes.
    proof fn weakly_ordered(a: &Self, b: &Self, c: &Self)
        requires
            a.rankable(),
            b.rankable(),
            c.rankable(),
            !b.precedes(a),
            !c.precedes(b),
        ensures
            !c.precedes(a),
    ;
}

/// Item `i` comes before item `j`: by key, and by position between equal keys.
pub open spec fn ahead<K: Ranked>(keys: Seq<K>, i: int, j: int) -> bool {
    keys[i].precedes(&keys[j]) || (!keys[j].precedes(&keys[i]) && i < j)
}

/// `order` lists exactly the items for which `member` holds, each once,
/// so that `before` holds of every pair in the order in which it is listed.
pub open spec fn lists_in_order(
    order: Seq<int>,
    member: spec_fn(int) -> bool,
    before: spec_fn(int, int) -> bool,
) -> bool {
    &&& forall|i: int| 0 <= i < order.len() ==> member(#[trigger] order[i])
    &&& forall|k: int| #[trigger] member(k) ==> order.contains(k)
    &&& forall|i: int, j: int| 0 <= i < j < order.len() ==> before(#[trigger] order[i], #[trigger] order[j])
}

/// Positions as mathematical integers.
pub open spec fn positions(order: Seq<usize>) -> Seq<int> {
    Seq::new(order.len(), |i: int| order[i] as int)
}

/// A strict order on the members: none is before itself, and being before is
/// transitive.
pub open spec fn strict_order(member: spec_fn(int) -> bool, before: spec_fn(int, int) -> bool) -> bool {
    &&& forall|i: int| member(i) ==> !#[trigger] before(i, i)
    &&& forall|i: int, j: int, k: int| member(i) && member(j) && member(k) && #[trigger] before(i, j) && #[trigger] before(j, k) ==> before(i, k)
}

/// There is at most one way to list the members in a strict order.
pub proof fn lemma_listing_unique(
    a: Seq<int>,
    b: Seq<int>,
    member: spec_fn(int) -> bool,
    before: spec_fn(int, int) -> bool,
)
    requires
        lists_in_order(a, member, before),
        lists_in_order(b, member, before),
        strict_order(member, before),
    ensures
        a == b,
    decreases a.len(),
{
    if a.len() == 0 {
        if b.len() > 0 {
            assert(member(b[0]));
            assert(a.contains(b[0]));
        }
        assert(a =~= b);
    } else {
        assert(member(a[0]));
        assert(b.contains(a[0]));
        let p = choose|p: int| 0 <= p < b.len() && b[p] == a[0];
        assert(member(b[0]));
        assert(a.contains(b[0]));
        let q = choose|q: int| 0 <= q < a.len() && a[q] == b[0];
        if a[0] != b[0] {
            assert(before(a[0], a[q]));
            assert(before(b[0], b[p]));
            assert(before(a[0], a[0]));
        }
        let first = a[0];
        let rest = |k: int| member(k) && k != first;
        let a1 = a.drop_first();
        let b1 = b.drop_first();
        assert(lists_in_order(a1, rest, before)) by {
            assert forall|i: int| 0 <= i < a1.len() implies rest(#[trigger] a1[i]) by {
                assert(a1[i] == a[i + 1]);
                assert(before(a[0], a[i + 1]));
            }
            assert forall|k: int| #[trigger] rest(k) implies a1.contains(k) by {
                assert(member(k));
                let i = choose|i: int| 0 <= i < a.len() && a[i] == k;
                assert(a1[i - 1] == k);
            }
        }
        assert(lists_in_order(b1, rest, before)) by {
            assert forall|i: int| 0 <= i < b1.len() implies rest(#[trigger] b1[i]) by {
                assert(b1[i] == b[i + 1]);
                assert(before(b[0], b[i + 1]));
            }
            assert forall|k: int| #[trigger] rest(k) implies b1.contains(k) by {
                assert(member(k));
                let i = choose|i: int| 0 <= i < b.len() && b[i] == k;
                assert(b1[i - 1] == k);
            }
        }
        lemma_listing_unique(a1, b1, rest, before);
        assert(a =~= seq![first] + a1);
        assert(b =~= seq![first] + b1);
    }
}

/// Lists the chosen items in stable order of their keys.
pub fn order_by<K: Ranked>(keys: &Vec<K>, chosen: &Vec<bool>) -> (order: Vec<usize>)
    requires
        keys.len() == chosen.len(),
        forall|i: int| 0 <= i < keys.len() ==> (#[trigger] keys@[i]).rankable(),
    ensures
        lists_in_order(
            positions(order@),
            |k: int| 0 <= k < chosen@.len() && chosen@[k],
            |i: int, j: int| ahead(keys@, i, j),
        ),
{
    let mut order: Vec<usize> = Vec::new();
    let ghost before = |i: int, j: int| ahead(keys@, i, j);
    for n in 0..keys.len()
        invariant
            keys.len() == chosen.len(),
            forall|i: int| 0 <= i < keys.len() ==> (#[trigger] keys@[i]).rankable(),
            before == (|i: int, j: int| ahead(keys@, i, j)),
            forall|i: int| 0 <= i < order.len() ==> (#[trigger] order@[i]) < n && chosen@[order@[i] as int],
            forall|k: int| 0 <= k < n && #[trigger] chosen@[k] ==> order@.contains(k as usize),
            forall|i: int, j: int| 0 <= i < j < order.len() ==> ahead(keys@, (#[trigger] order@[i]) as int, (#[trigger] order@[j]) as int),
    {
        if chosen[n] {
            let mut at: usize = order.len();
            while at > 0 && keys[n].comes_before(&keys[order[at - 1]])
                invariant
                    keys.len() == chosen.len(),
                    forall|i: int| 0 <= i < keys.len() ==> (#[trigger] keys@[i]).rankable(),
                    n < keys.len(),
                    at <= order.len(),
                    forall|i: int| 0 <= i < order.len() ==> (#[trigger] order@[i]) < n && chosen@[order@[i] as int],
                    forall|i: int| at <= i < order.len() ==> keys@[n as int].precedes(&keys@[(#[trigger] order@[i]) as int]),
                decreases at,
            {
                at -= 1;
            }
            let ghost prev = order@;
            order.insert(at, n);
            proof {
                assert forall|i: int, j: int| 0 <= i < j < order@.len() implies ahead(keys@, (#[trigger] order@[i]) as int, (#[trigger] order@[j]) as int) by {
                    let pi = if i < at { i } else { i - 1 };
                    let pj = if j < at { j } else { j - 1 };
                    if i != at && j != at {
                        assert(order@[i] == prev[pi] && order@[j] == prev[pj]);
                    } else if i == at {
                        assert(order@[j] == prev[j - 1]);
                    } else {
                        // j == at: everything earlier is not preceded by the new item.
                        assert(order@[i] == prev[i]);
                        let last = prev[at - 1] as int;
                        if i < at - 1 {
                            assert(ahead(keys@, prev[i] as int, prev[at - 1] as int));
                            let a = keys@[prev[i] as int];
                            let b = keys@[last];
                            let c = keys@[n as int];
                            if a.precedes(&b) && b.precedes(&a) {
                                K::transitive(&a, &b, &a);
                                K::irreflexive(&a);
                            }
                            K::weakly_ordered(&a, &b, &c);
                        }
                    }
                }
                assert forall|k: int| 0 <= k < n + 1 && #[trigger] chosen@[k] implies order@.contains(k as usize) by {
                    if k == n {
                        assert(order@[at as int] == n);
                    } else {
                        let i = choose|i: int| 0 <= i < prev.len() && prev[i] == k as usize;
                        if i < at {
                            assert(order@[i] == k as usize);
                        } else {
                            assert(order@[i + 1] == k as usize);
                        }
                    }
                }
                assert forall|i: int| 0 <= i < order@.len() implies (#[trigger] order@[i]) < n + 1 && chosen@[order@[i] as int] by {
                    if i < at {
                        assert(order@[i] == prev[i]);
                    } else if i > at {
                        assert(order@[i] == prev[i - 1]);
                    }
                }
            }
        }
    }
    proof {
        let p = positions(order@);
        let member = |k: int| 0 <= k < chosen@.len() && chosen@[k];
        assert forall|k: int| #[trigger] member(k) implies p.contains(k) by {
            assert(chosen@[k]);
            let i = choose|i: int| 0 <= i < order@.len() && order@[i] == k as usize;
            assert(p[i] == k);
        }
        assert forall|i: int, j: int| 0 <= i < j < p.len() implies before(#[trigger] p[i], #[trigger] p[j]) by {
            assert(ahead(keys@, order@[i] as int, order@[j] as int));
        }
        assert forall|i: int| 0 <= i < p.len() implies member(#[trigger] p[i]) by {
            assert(order@[i] < keys.len());
        }
    }
    order
}

impl Ranked for (i128, usize) {
    open spec fn rankable(&self) -> bool {
        true
    }

    open spec fn precedes(&self, other: &Self) -> bool {
        self.0 < other.0 || (self.0 == other.0 && self.1 < other.1)
    }

    fn comes_before(&self, other: &Self) -> (r: bool) {
        self.0 < other.0 || (self.0 == other.0 && self.1 < other.1)
    }

    proof fn irreflexive(a: &Self) {
    }

    proof fn transitive(a: &Self, b: &Self, c: &Self) {
    }

    proof fn weakly_ordered(a: &Self, b: &Self, c: &Self) {
    }
}

impl Ranked for String {
    open spec fn rankable(&self) -> bool {
        true
    }

    open spec fn precedes(&self, other: &Self) -> bool {
        text_less(self@, other@)
    }

    fn comes_before(&self, other: &Self) -> (r: bool) {
        text_lt(self.as_str(), other.as_str())
    }

    proof fn irreflexive(a: &Self) {
        lemma_text_less_irreflexive(a@);
    }

    proof fn transitive(a: &Self, b: &Self, c: &Self) {
        lemma_text_less_transitive(a@, b@, c@);
    }

    proof fn weakly_ordered(a: &Self, b: &Self, c: &Self) {
        lemma_text_less_total(a@, b@);
        lemma_text_less_total(b@, c@);
        if text_less(c@, a@) {
            if text_less(a@, b@) {
                lemma_text_less_transitive(c@, a@, b@);
            }
        }
    }
}

/// A ratio that ranks larger values first.
pub struct Descending(pub Ratio);

impl Ranked for Descending {
    open spec fn rankable(&self) -> bool {
        self.0.valid()
    }

    open spec fn precedes(&self, other: &Self) -> bool {
        other.0.below(self.0)
    }

    fn comes_before(&self, other: &Self) -> (r: bool) {
        other.0.less_than(&self.0)
    }

    proof fn irreflexive(a: &Self) {
    }

    proof fn transitive(a: &Self, b: &Self, c: &Self) {
        lemma_below_transitive(c.0, b.0, a.0);
    }

    proof fn weakly_ordered(a: &Self, b: &Self, c: &Self) {
        lemma_at_most_transitive(c.0, b.0, a.0);
    }
}

/// The ids at the listed positions.
pub open spec fn ids_at(ids: Seq<Seq<char>>, order: Seq<int>) -> Seq<Seq<char>> {
    Seq::new(order.len(), |k: int| ids[order[k]])
}

/// Position `i` is marked.
pub open spec fn is_marked(marks: Seq<bool>, i: int) -> bool {
    0 <= i < marks.len() && marks[i]
}

/// `order` lists the marked ids by their text.
pub open spec fn text_order(ids: Seq<Seq<char>>, marks: Seq<bool>, order: Seq<int>) -> bool {
    lists_in_order(order, |i: int| is_marked(marks, i), |i: int, j: int| text_less(ids[i], ids[j]))
}

/// The marked ids in order of their text.
pub open spec fn sorted_ids(ids: Seq<Seq<char>>, marks: Seq<bool>) -> Seq<Seq<char>> {
    ids_at(ids, choose|order: Seq<int>| text_order(ids, marks, order))
}

/// There is one way to list ids by their text.
pub proof fn lemma_text_order_unique(ids: Seq<Seq<char>>, marks: Seq<bool>, a: Seq<int>, b: Seq<int>)
    requires
        text_order(ids, marks, a),
        text_order(ids, marks, b),
    ensures
        a == b,
{
    let member = |i: int| is_marked(marks, i);
    let before = |i: int, j: int| text_less(ids[i], ids[j]);
    lemma_text_order_strict(ids, marks);
    lemma_listing_unique(a, b, member, before);
}

/// Any two members are ordered one way or the other.
pub open spec fn total_order(member: spec_fn(int) -> bool, before: spec_fn(int, int) -> bool) -> bool {
    forall|i: int, j: int| #![trigger before(i, j)] member(i) && member(j) && i != j ==> before(i, j) || before(j, i)
}

/// The members among the numbers below `n` can be listed in a strict total
/// order.
pub proof fn lemma_listing_exists(n: nat, member: spec_fn(int) -> bool, before: spec_fn(int, int) -> bool) -> (order: Seq<int>)
    requires
        strict_order(member, before),
        total_order(member, before),
    ensures
        lists_in_order(order, |i: int| 0 <= i < n && member(i), before),
    decreases n,
{
    let below = |i: int| 0 <= i < n && member(i);
    if n == 0 {
        let order = Seq::<int>::empty();
        assert(lists_in_order(order, below, before));
        order
    } else {
        let last = n - 1;
        let head = lemma_listing_exists((n - 1) as nat, member, before);
        let below2 = |i: int| 0 <= i < n - 1 && member(i);
        assert(lists_in_order(head, below2, before));
        if member(last) {
            assert forall|k: int| 0 <= k < head.len() implies member(#[trigger] head[k]) && head[k] != last by {
                assert(below2(head[k]));
            }
            let order = lemma_insert(head, last, member, before);
            assert forall|k: int| #[trigger] below(k) implies order.contains(k) by {
                if k != last {
                    assert(below2(k));
                    assert(head.contains(k));
                }
            }
            assert forall|k: int| 0 <= k < order.len() implies below(#[trigger] order[k]) by {
                assert(order.contains(order[k]));
                if order[k] != last {
                    let a = choose|a: int| 0 <= a < head.len() && head[a] == order[k];
                    assert(below2(head[a]));
                }
            }
            assert(lists_in_order(order, below, before));
            order
        } else {
            assert forall|k: int| #[trigger] below(k) implies head.contains(k) by {
                assert(below2(k));
            }
            assert forall|k: int| 0 <= k < head.len() implies below(#[trigger] head[k]) by {
                assert(below2(head[k]));
            }
            assert(lists_in_order(head, below, before));
            head
        }
    }
}

proof fn lemma_insert(head: Seq<int>, x: int, member: spec_fn(int) -> bool, before: spec_fn(int, int) -> bool) -> (order: Seq<int>)
    requires
        strict_order(member, before),
        total_order(member, before),
        member(x),
        forall|k: int| 0 <= k < head.len() ==> member(#[trigger] head[k]) && head[k] != x,
        forall|i: int, j: int| 0 <= i < j < head.len() ==> before(#[trigger] head[i], #[trigger] head[j]),
    ensures
        forall|k: int| #[trigger] order.contains(k) <==> k == x || head.contains(k),
        forall|i: int, j: int| 0 <= i < j < order.len() ==> before(#[trigger] order[i], #[trigger] order[j]),
    decreases head.len(),
{
    if head.len() == 0 {
        let order = seq![x];
        assert forall|k: int| #[trigger] order.contains(k) <==> k == x || head.contains(k) by {
            if k == x {
                assert(order[0] == x);
            }
        }
        order
    } else if before(x, head[0]) {
        let order = seq![x] + head;
        assert forall|k: int| #[trigger] order.contains(k) <==> k == x || head.contains(k) by {
            if k == x {
                assert(order[0] == x);
            }
            if head.contains(k) {
                let a = choose|a: int| 0 <= a < head.len() && head[a] == k;
                assert(order[a + 1] == k);
            }
        }
        assert forall|i: int, j: int| 0 <= i < j < order.len() implies before(#[trigger] order[i], #[trigger] order[j]) by {
            if i == 0 {
                if j > 1 {
                    assert(before(head[0], head[j - 1]));
                    assert(member(head[0]) && member(head[j - 1]));
                }
            } else {
                assert(order[i] == head[i - 1] && order[j] == head[j - 1]);
            }
        }
        order
    } else {
        let first = head[0];
        let rest = head.drop_first();
        assert(member(head[0]) && head[0] != x);
        assert(!before(x, first));
        assert(before(first, x));
        assert forall|k: int| 0 <= k < rest.len() implies member(#[trigger] rest[k]) && rest[k] != x by {
            assert(rest[k] == head[k + 1]);
        }
        assert forall|i: int, j: int| 0 <= i < j < rest.len() implies before(#[trigger] rest[i], #[trigger] rest[j]) by {
            assert(rest[i] == head[i + 1] && rest[j] == head[j + 1]);
        }
        let tail = lemma_insert(rest, x, member, before);
        let order = seq![first] + tail;
        assert forall|k: int| #[trigger] order.contains(k) <==> k == x || head.contains(k) by {
            if order.contains(k) {
                let a = choose|a: int| 0 <= a < order.len() && order[a] == k;
                if a > 0 {
                    assert(tail[a - 1] == k);
                    assert(tail.contains(k));
                    if k != x {
                        let b = choose|b: int| 0 <= b < rest.len() && rest[b] == k;
                        assert(head[b + 1] == k);
                    }
                } else {
                    assert(head[0] == k);
                }
            }
            if k == x || head.contains(k) {
                if k == first {
                    assert(order[0] == k);
                } else {
                    if k != x {
                        let b = choose|b: int| 0 <= b < head.len() && head[b] == k;
                        assert(rest[b - 1] == k);
                        assert(rest.contains(k));
                    }
                    assert(tail.contains(k));
                    let a = choose|a: int| 0 <= a < tail.len() && tail[a] == k;
                    assert(order[a + 1] == k);
                }
            }
        }
        assert forall|i: int, j: int| 0 <= i < j < order.len() implies before(#[trigger] order[i], #[trigger] order[j]) by {
            if i == 0 {
                assert(order[j] == tail[j - 1]);
                assert(tail.contains(tail[j - 1]));
                if tail[j - 1] != x {
                    let b = choose|b: int| 0 <= b < rest.len() && rest[b] == tail[j - 1];
                    assert(head[b + 1] == tail[j - 1]);
                    assert(before(head[0], head[b + 1]));
                }
            } else {
                assert(order[i] == tail[i - 1] && order[j] == tail[j - 1]);
            }
        }
        order
    }
}

/// Order by text is a strict order, and total on distinct ids.
pub proof fn lemma_text_order_strict(ids: Seq<Seq<char>>, marks: Seq<bool>)
    ensures
        strict_order(|i: int| is_marked(marks, i), |i: int, j: int| text_less(ids[i], ids[j])),
        ids.no_duplicates() && marks.len() <= ids.len() ==> total_order(
            |i: int| is_marked(marks, i),
            |i: int, j: int| text_less(ids[i], ids[j]),
        ),
{
    let member = |i: int| is_marked(marks, i);
    let before = |i: int, j: int| text_less(ids[i], ids[j]);
    assert forall|i: int| member(i) implies !#[trigger] before(i, i) by {
        lemma_text_less_irreflexive(ids[i]);
    }
    assert forall|i: int, j: int, k: int| member(i) && member(j) && member(k) && #[trigger] before(i, j) && #[trigger] before(j, k) implies before(i, k) by {
        lemma_text_less_transitive(ids[i], ids[j], ids[k]);
    }
    if ids.no_duplicates() && marks.len() <= ids.len() {
        assert forall|i: int, j: int| #![trigger before(i, j)] member(i) && member(j) && i != j implies before(i, j) || before(j, i) by {
            lemma_text_less_total(ids[i], ids[j]);
        }
    }
}

/// Distinct ids can be listed by their text.
pub proof fn lemma_text_order_exists(ids: Seq<Seq<char>>, marks: Seq<bool>) -> (order: Seq<int>)
    requires
        ids.no_duplicates(),
        marks.len() <= ids.len(),
    ensures
        text_order(ids, marks, order),
{
    let member = |i: int| is_marked(marks, i);
    let before = |i: int, j: int| text_less(ids[i], ids[j]);
    lemma_text_order_strict(ids, marks);
    let order = lemma_listing_exists(marks.len(), member, before);
    let below = |i: int| 0 <= i < marks.len() && member(i);
    assert(lists_in_order(order, below, before));
    assert forall|k: int| #[trigger] member(k) implies order.contains(k) by {
        assert(below(k));
    }
    assert forall|k: int| 0 <= k < order.len() implies member(#[trigger] order[k]) by {
        assert(below(order[k]));
    }
    assert(text_order(ids, marks, order));
    order
}

/// Restates a listing over an equivalent choice of members and order.
pub proof fn lemma_relist(
    order: Seq<int>,
    member: spec_fn(int) -> bool,
    before: spec_fn(int, int) -> bool,
    member2: spec_fn(int) -> bool,
    before2: spec_fn(int, int) -> bool,
)
    requires
        lists_in_order(order, member, before),
        forall|i: int| #[trigger] member2(i) ==> member(i),
        forall|i: int| #[trigger] member(i) ==> member2(i),
        forall|i: int, j: int| member(i) && member(j) && i != j && #[trigger] before(i, j) ==> before2(i, j),
        forall|i: int| member(i) ==> !#[trigger] before(i, i),
    ensures
        lists_in_order(order, member2, before2),
{
    assert forall|i: int, j: int| 0 <= i < j < order.len() implies before2(#[trigger] order[i], #[trigger] order[j]) by {
        assert(member(order[i]));
        assert(member(order[j]));
        assert(before(order[i], order[j]));
    }
    assert forall|k: int| #[trigger] member2(k) implies order.contains(k) by {
        assert(member(k));
    }
    assert forall|i: int| 0 <= i < order.len() implies member2(#[trigger] order[i]) by {
        assert(member(order[i]));
    }
}

/// The marked ids in order of their text.
pub fn sorted_marked(ids: &Vec<String>, marks: &Vec<bool>) -> (r: Vec<String>)
    requires
        ids.len() == marks.len(),
        ids.deep_view().no_duplicates(),
    ensures
        r.deep_view() == sorted_ids(ids.deep_view(), marks@),
{
    let ghost names = ids.deep_view();
    let order = order_by(ids, marks);
    let ghost listed = positions(order@);
    proof {
        let member = |k: int| 0 <= k < marks@.len() && marks@[k];
        let ahead_of = |i: int, j: int| ahead(ids@, i, j);
        let member2 = |i: int| is_marked(marks@, i);
        let before2 = |i: int, j: int| text_less(names[i], names[j]);
        assert forall|i: int, j: int| member(i) && member(j) && i != j && #[trigger] ahead_of(i, j) implies before2(i, j) by {
            assert(names[i] == ids[i]@);
            assert(names[j] == ids[j]@);
            lemma_text_less_total(names[i], names[j]);
        }
        assert forall|i: int| member(i) implies !#[trigger] ahead_of(i, i) by {
            lemma_text_less_irreflexive(ids@[i]@);
        }
        lemma_relist(listed, member, ahead_of, member2, before2);
        assert(text_order(names, marks@, listed));
        let picked = choose|o: Seq<int>| text_order(names, marks@, o);
        lemma_text_order_unique(names, marks@, picked, listed);
        assert forall|k: int| 0 <= k < order.len() implies (#[trigger] order@[k]) < ids.len() by {
            assert(member(listed[k]));
        }
    }
    let mut r: Vec<String> = Vec::new();
    for k in 0..order.len()
        invariant
            forall|a: int| 0 <= a < order.len() ==> (#[trigger] order@[a]) < ids.len(),
            r.len() == k,
            forall|a: int| 0 <= a < k ==> (#[trigger] r[a])@ == ids[order@[a] as int]@,
    {
        r.push(ids[order[k]].clone());
    }
    assert(r.deep_view() =~= ids_at(names, listed));
    r
}

} // verus!
