//! What a refused graph is told, in terms of its deliverables.

use vstd::prelude::*;

use crate::index::{lemma_position, lemma_position_found, position};
use crate::network::{lemma_settled_intro, settled, settles};
use crate::paths::{file_keys, path_key};
use crate::plan::{deliverable_ids, ErrorView, GraphView};
use crate::ranking::{ids_at, is_marked, lemma_text_order_exists, sorted_ids, text_order};
use crate::submission_laws::names_work;
use crate::submit::submission;
use crate::text::{joined, text_less};
use crate::validate::{
    cycle_flags, dangles, first, graph_deps, has_dangling, has_taken, lemma_first_is, lemma_first_none, owns_before,
    repeats, taken,
};

verus! {

/// Position `(j, b)` comes before position `(i, a)`: in an earlier deliverable,
/// or earlier in the same one.
pub open spec fn comes_before(j: int, b: int, i: int, a: int) -> bool {
    j < i || (j == i && b < a)
}

/// No id occurs twice.
pub open spec fn ids_differ(graph: GraphView) -> bool {
    forall|i: int, j: int| 0 <= i < j < graph.deliverables.len() ==> (#[trigger] graph.deliverables[i]).id != (#[trigger] graph.deliverables[j]).id
}

/// Every prerequisite is in the graph.
pub open spec fn prerequisites_known(graph: GraphView) -> bool {
    forall|i: int, a: int| 0 <= i < graph.deliverables.len() && 0 <= a < graph.deliverables[i].prerequisites.len() ==> names_work(graph, #[trigger] graph.deliverables[i].prerequisites[a])
}

/// Deliverable `j` lists at `b` the file that deliverable `i` lists at `a`.
pub open spec fn same_file(graph: GraphView, j: int, b: int, i: int, a: int) -> bool {
    &&& 0 <= j < graph.deliverables.len()
    &&& 0 <= b < graph.deliverables[j].owned_files.len()
    &&& path_key(graph.deliverables[j].owned_files[b]) == path_key(graph.deliverables[i].owned_files[a])
}

/// No file is listed twice.
pub open spec fn files_listed_once(graph: GraphView) -> bool {
    forall|i: int, a: int, j: int, b: int| 0 <= i < graph.deliverables.len() && 0 <= a < graph.deliverables[i].owned_files.len() && comes_before(j, b, i, a) ==> !#[trigger] same_file(graph, j, b, i, a)
}

/// A graph in which an id occurs twice is refused for that alone: the refusal
/// names the first id that occurred before.
pub proof fn a_repeated_id_is_named(graph: GraphView, k: int, i: int)
    requires
        0 <= k < i < graph.deliverables.len(),
        graph.deliverables[k].id == graph.deliverables[i].id,
        forall|x: int, y: int| 0 <= x < y < i ==> (#[trigger] graph.deliverables[x]).id != (#[trigger] graph.deliverables[y]).id,
    ensures
        submission(graph) == Err::<crate::locks::PlanView, ErrorView>(
            ErrorView::InvalidGraph { reason: "duplicate deliverable id '"@ + graph.deliverables[i].id + "'"@ },
        ),
{
    let ids = deliverable_ids(graph);
    let n = graph.deliverables.len();
    let p = |i: int| repeats(ids, i);
    assert(ids[k] == ids[i]);
    assert(p(i));
    assert forall|y: int| 0 <= y < i implies !#[trigger] p(y) by {
        if repeats(ids, y) {
            let x = choose|x: int| 0 <= x < y && #[trigger] ids[x] == ids[y];
            assert(graph.deliverables[x].id == graph.deliverables[y].id);
        }
    }
    lemma_first_is(n, p, i);
}

/// Nothing repeats where ids differ.
proof fn lemma_no_repeats(graph: GraphView)
    requires
        ids_differ(graph),
    ensures
        first(graph.deliverables.len(), |i: int| repeats(deliverable_ids(graph), i)) is None,
        deliverable_ids(graph).no_duplicates(),
{
    let ids = deliverable_ids(graph);
    let p = |i: int| repeats(ids, i);
    assert forall|i: int| 0 <= i < graph.deliverables.len() implies !#[trigger] p(i) by {
        if repeats(ids, i) {
            let x = choose|x: int| 0 <= x < i && #[trigger] ids[x] == ids[i];
            assert(graph.deliverables[x].id == graph.deliverables[i].id);
        }
    }
    lemma_first_none(graph.deliverables.len(), p);
    assert forall|i: int, j: int| 0 <= i < ids.len() && 0 <= j < ids.len() && i != j implies ids[i] != ids[j] by {
        assert(ids[i] == graph.deliverables[i].id && ids[j] == graph.deliverables[j].id);
    }
}

/// Being known by id.
proof fn lemma_dangles(graph: GraphView, i: int, a: int)
    ensures
        dangles(graph, i, a) <==> !names_work(graph, graph.deliverables[i].prerequisites[a]),
{
    let ids = deliverable_ids(graph);
    let id = graph.deliverables[i].prerequisites[a];
    if ids.contains(id) {
        let j = choose|j: int| 0 <= j < ids.len() && ids[j] == id;
        assert(graph.deliverables[j].id == id);
    }
    if names_work(graph, id) {
        let j = choose|j: int| 0 <= j < graph.deliverables.len() && (#[trigger] graph.deliverables[j]).id == id;
        assert(ids[j] == id);
    }
}

/// Where ids differ, a prerequisite that is not in the graph is what a graph is
/// refused for: the refusal names the first one and who waits for it.
pub proof fn an_unknown_prerequisite_is_named(graph: GraphView, i: int, a: int)
    requires
        ids_differ(graph),
        0 <= i < graph.deliverables.len(),
        0 <= a < graph.deliverables[i].prerequisites.len(),
        !names_work(graph, graph.deliverables[i].prerequisites[a]),
        forall|j: int, b: int| 0 <= j < graph.deliverables.len() && 0 <= b < graph.deliverables[j].prerequisites.len() && comes_before(j, b, i, a) ==> names_work(graph, #[trigger] graph.deliverables[j].prerequisites[b]),
    ensures
        submission(graph) == Err::<crate::locks::PlanView, ErrorView>(
            ErrorView::InvalidGraph {
                reason: "prerequisite '"@ + graph.deliverables[i].prerequisites[a] + "' for deliverable '"@ + graph.deliverables[i].id + "' does not exist"@,
            },
        ),
{
    lemma_no_repeats(graph);
    let n = graph.deliverables.len();
    let p = |i: int| has_dangling(graph, i);
    let q = |j: int| dangles(graph, i, j);
    lemma_dangles(graph, i, a);
    assert(q(a));
    assert(p(i));
    assert forall|j: int| 0 <= j < i implies !#[trigger] p(j) by {
        if has_dangling(graph, j) {
            let b = choose|b: int| 0 <= b < graph.deliverables[j].prerequisites.len() && #[trigger] dangles(graph, j, b);
            lemma_dangles(graph, j, b);
            assert(comes_before(j, b, i, a));
            assert(names_work(graph, graph.deliverables[j].prerequisites[b]));
        }
    }
    assert forall|b: int| 0 <= b < a implies !#[trigger] q(b) by {
        lemma_dangles(graph, i, b);
        assert(comes_before(i, b, i, a));
        assert(names_work(graph, graph.deliverables[i].prerequisites[b]));
    }
    lemma_first_is(n, p, i);
    lemma_first_is(graph.deliverables[i].prerequisites.len(), q, a);
}

/// Nothing dangles where prerequisites are known.
proof fn lemma_no_dangling(graph: GraphView)
    requires
        prerequisites_known(graph),
    ensures
        first(graph.deliverables.len(), |i: int| has_dangling(graph, i)) is None,
{
    let p = |i: int| has_dangling(graph, i);
    assert forall|j: int| 0 <= j < graph.deliverables.len() implies !#[trigger] p(j) by {
        if has_dangling(graph, j) {
            let b = choose|b: int| 0 <= b < graph.deliverables[j].prerequisites.len() && #[trigger] dangles(graph, j, b);
            lemma_dangles(graph, j, b);
            assert(names_work(graph, graph.deliverables[j].prerequisites[b]));
        }
    }
    lemma_first_none(graph.deliverables.len(), p);
}

/// Being listed before.
proof fn lemma_owns_before(graph: GraphView, i: int, a: int, k: int)
    requires
        0 <= i < graph.deliverables.len(),
        0 <= a < graph.deliverables[i].owned_files.len(),
    ensures
        owns_before(graph, i, a, k) <==> exists|b: int| comes_before(k, b, i, a) && #[trigger] same_file(graph, k, b, i, a),
{
    if owns_before(graph, i, a, k) {
        let b = choose|b: int| {
            &&& 0 <= b < graph.deliverables[k].owned_files.len()
            &&& k < i || b < a
            &&& #[trigger] file_keys(graph.deliverables[k])[b] == file_keys(graph.deliverables[i])[a]
        };
        assert(comes_before(k, b, i, a) && same_file(graph, k, b, i, a));
    }
    if exists|b: int| comes_before(k, b, i, a) && #[trigger] same_file(graph, k, b, i, a) {
        let b = choose|b: int| comes_before(k, b, i, a) && #[trigger] same_file(graph, k, b, i, a);
        assert(file_keys(graph.deliverables[k])[b] == file_keys(graph.deliverables[i])[a]);
    }
}

/// Where ids differ and prerequisites are known, a file that is listed twice is
/// what a graph is refused for: the refusal names the first file that was
/// listed before, by the name at its second listing, with the first deliverable
/// that lists it and the one that lists it again.
pub proof fn a_shared_file_is_named(graph: GraphView, k: int, b: int, i: int, a: int)
    requires
        ids_differ(graph),
        prerequisites_known(graph),
        0 <= i < graph.deliverables.len(),
        0 <= a < graph.deliverables[i].owned_files.len(),
        comes_before(k, b, i, a),
        same_file(graph, k, b, i, a),
        forall|x: int, y: int| comes_before(x, y, k, 0) ==> !#[trigger] same_file(graph, x, y, i, a),
        forall|j: int, c: int, x: int, y: int| 0 <= j < graph.deliverables.len() && 0 <= c < graph.deliverables[j].owned_files.len() && comes_before(j, c, i, a) && comes_before(x, y, j, c) ==> !#[trigger] same_file(graph, x, y, j, c),
    ensures
        submission(graph) == Err::<crate::locks::PlanView, ErrorView>(
            ErrorView::InvalidGraph {
                reason: "file '"@ + graph.deliverables[i].owned_files[a] + "' is owned by both '"@ + graph.deliverables[k].id + "' and '"@ + graph.deliverables[i].id + "'"@,
            },
        ),
{
    lemma_no_repeats(graph);
    lemma_no_dangling(graph);
    let n = graph.deliverables.len();
    let p = |i: int| has_taken(graph, i);
    let q = |j: int| taken(graph, i, j);
    let o = |k: int| owns_before(graph, i, a, k);
    lemma_owns_before(graph, i, a, k);
    assert(o(k));
    assert(q(a));
    assert(p(i));
    assert forall|j: int, c: int| 0 <= j < n && 0 <= c < graph.deliverables[j].owned_files.len() && comes_before(j, c, i, a) implies !#[trigger] taken(graph, j, c) by {
        if taken(graph, j, c) {
            let x = choose|x: int| #[trigger] owns_before(graph, j, c, x);
            lemma_owns_before(graph, j, c, x);
            let y = choose|y: int| comes_before(x, y, j, c) && #[trigger] same_file(graph, x, y, j, c);
            assert(same_file(graph, x, y, j, c));
        }
    }
    assert forall|j: int| 0 <= j < i implies !#[trigger] p(j) by {
        if has_taken(graph, j) {
            let c = choose|c: int| 0 <= c < graph.deliverables[j].owned_files.len() && #[trigger] taken(graph, j, c);
            assert(comes_before(j, c, i, a));
        }
    }
    assert forall|c: int| 0 <= c < a implies !#[trigger] q(c) by {
        assert(comes_before(i, c, i, a));
        assert(!taken(graph, i, c));
    }
    assert forall|x: int| 0 <= x < k implies !#[trigger] o(x) by {
        lemma_owns_before(graph, i, a, x);
        if owns_before(graph, i, a, x) {
            let y = choose|y: int| comes_before(x, y, i, a) && #[trigger] same_file(graph, x, y, i, a);
            assert(comes_before(x, y, k, 0));
        }
    }
    lemma_first_is(n, p, i);
    lemma_first_is(graph.deliverables[i].owned_files.len(), q, a);
    lemma_first_is((i + 1) as nat, o, k);
}

/// Nothing is taken where files are listed once.
proof fn lemma_nothing_taken(graph: GraphView)
    requires
        files_listed_once(graph),
    ensures
        first(graph.deliverables.len(), |i: int| has_taken(graph, i)) is None,
{
    let p = |i: int| has_taken(graph, i);
    assert forall|j: int| 0 <= j < graph.deliverables.len() implies !#[trigger] p(j) by {
        if has_taken(graph, j) {
            let c = choose|c: int| 0 <= c < graph.deliverables[j].owned_files.len() && #[trigger] taken(graph, j, c);
            let x = choose|x: int| #[trigger] owns_before(graph, j, c, x);
            lemma_owns_before(graph, j, c, x);
            let y = choose|y: int| comes_before(x, y, j, c) && #[trigger] same_file(graph, x, y, j, c);
            assert(same_file(graph, x, y, j, c));
        }
    }
    lemma_first_none(graph.deliverables.len(), p);
}

/// Deliverable `i` waits for one whose id is on the list.
pub open spec fn waits_for_listed(graph: GraphView, list: Seq<Seq<char>>, i: int) -> bool {
    exists|a: int| 0 <= a < graph.deliverables[i].prerequisites.len() && list.contains(#[trigger] graph.deliverables[i].prerequisites[a])
}

/// The set holds deliverables each of which waits for one in the set.
pub open spec fn wait_for_each_other(graph: GraphView, set: Set<int>) -> bool {
    forall|i: int| #[trigger] set.contains(i) ==> 0 <= i < graph.deliverables.len() && waits_within(graph, set, i)
}

/// Deliverable `i` waits for one in the set.
pub open spec fn waits_within(graph: GraphView, set: Set<int>, i: int) -> bool {
    exists|j: int| set.contains(j) && 0 <= j < graph.deliverables.len() && graph.deliverables[i].prerequisites.contains((#[trigger] graph.deliverables[j]).id)
}

/// None of a set that wait for each other can be settled.
proof fn lemma_never_settled(graph: GraphView, set: Set<int>, k: nat, i: int)
    requires
        ids_differ(graph),
        graph.deliverables.len() <= usize::MAX,
        wait_for_each_other(graph, set),
        set.contains(i),
    ensures
        !settles(graph_deps(graph), k, i),
    decreases k,
{
    lemma_no_repeats(graph);
    let ids = deliverable_ids(graph);
    let deps = graph_deps(graph);
    assert(waits_within(graph, set, i));
    let j = choose|j: int| set.contains(j) && 0 <= j < graph.deliverables.len() && graph.deliverables[i].prerequisites.contains((#[trigger] graph.deliverables[j]).id);
    if k > 0 {
        lemma_never_settled(graph, set, (k - 1) as nat, j);
        let wanted = graph.deliverables[i].prerequisites;
        let a = choose|a: int| 0 <= a < wanted.len() && wanted[a] == graph.deliverables[j].id;
        lemma_position(ids, j);
        assert(deps[i][a] == position(ids, wanted[a]) as usize);
        assert(ids[j] == wanted[a]);
        assert(!settles(deps, (k - 1) as nat, deps[i][a] as int));
    }
}

/// Where nothing else is wrong, a graph is refused exactly when some
/// deliverables wait for each other. The refusal lists those and whatever
/// waits for one of them, by the text of their ids, and nothing else.
pub proof fn a_cycle_is_named(graph: GraphView, set: Set<int>) -> (list: Seq<Seq<char>>)
    requires
        graph.deliverables.len() <= usize::MAX,
        ids_differ(graph),
        prerequisites_known(graph),
        files_listed_once(graph),
    ensures
        list.len() == 0 ==> submission(graph) is Ok,
        list.len() > 0 ==> submission(graph) == Err::<crate::locks::PlanView, ErrorView>(
            ErrorView::InvalidGraph { reason: "cycle detected in prerequisite graph involving deliverables: ["@ + joined(list, ", "@) + "]"@ },
        ),
        forall|p: int, q: int| 0 <= p < q < list.len() ==> text_less(#[trigger] list[p], #[trigger] list[q]),
        forall|p: int| 0 <= p < list.len() ==> names_work(graph, #[trigger] list[p]),
        forall|i: int| 0 <= i < graph.deliverables.len() ==> (list.contains((#[trigger] graph.deliverables[i]).id) <==> waits_for_listed(graph, list, i)),
        wait_for_each_other(graph, set) ==> forall|i: int| #[trigger] set.contains(i) ==> list.contains(graph.deliverables[i].id),
{
    lemma_no_repeats(graph);
    lemma_no_dangling(graph);
    lemma_nothing_taken(graph);
    let ids = deliverable_ids(graph);
    let deps = graph_deps(graph);
    let flags = cycle_flags(graph);
    let exists_order = lemma_text_order_exists(ids, flags);
    let o = choose|o: Seq<int>| text_order(ids, flags, o);
    assert(text_order(ids, flags, o));
    let member = |i: int| is_marked(flags, i);
    let before = |i: int, j: int| text_less(ids[i], ids[j]);
    let list = sorted_ids(ids, flags);
    assert(list == ids_at(ids, o));
    if flags.contains(true) {
        let i = choose|i: int| 0 <= i < flags.len() && flags[i] == true;
        assert(member(i));
        assert(o.contains(i));
    } else {
        if o.len() > 0 {
            assert(member(o[0]));
            assert(flags[o[0]] == true);
        }
    }
    assert forall|i: int| 0 <= i < graph.deliverables.len() implies (list.contains((#[trigger] graph.deliverables[i]).id) <==> !settled(deps, i)) by {
        if !settled(deps, i) {
            assert(flags[i]);
            assert(member(i));
            let p = choose|p: int| 0 <= p < o.len() && o[p] == i;
            assert(list[p] == graph.deliverables[i].id);
        }
        if list.contains(graph.deliverables[i].id) {
            let p = choose|p: int| 0 <= p < list.len() && list[p] == graph.deliverables[i].id;
            assert(member(o[p]));
            assert(ids[o[p]] == ids[i]);
        }
    }
    assert forall|p: int, q: int| 0 <= p < q < list.len() implies text_less(#[trigger] list[p], #[trigger] list[q]) by {
        assert(before(o[p], o[q]));
    }
    assert forall|p: int| 0 <= p < list.len() implies names_work(graph, #[trigger] list[p]) by {
        assert(member(o[p]));
        assert(graph.deliverables[o[p]].id == list[p]);
    }
    assert forall|i: int| 0 <= i < graph.deliverables.len() implies (list.contains((#[trigger] graph.deliverables[i]).id) <==> waits_for_listed(graph, list, i)) by {
        let wanted = graph.deliverables[i].prerequisites;
        assert forall|a: int| 0 <= a < wanted.len() implies (settled(deps, (#[trigger] deps[i][a]) as int) <==> !list.contains(wanted[a])) by {
            lemma_position_found(ids, wanted[a]);
            assert(deps[i][a] == position(ids, wanted[a]) as usize);
            assert(names_work(graph, wanted[a]));
            let j = choose|j: int| 0 <= j < graph.deliverables.len() && (#[trigger] graph.deliverables[j]).id == wanted[a];
            assert(ids[j] == wanted[a]);
            lemma_position(ids, j);
            assert(deps[i][a] == j);
        }
        if !settled(deps, i) {
            if forall|a: int| 0 <= a < deps[i].len() ==> settled(deps, #[trigger] deps[i][a] as int) {
                lemma_settled_intro(deps, i);
            }
            let a = choose|a: int| 0 <= a < deps[i].len() && !settled(deps, #[trigger] deps[i][a] as int);
            assert(list.contains(wanted[a]));
        }
        if waits_for_listed(graph, list, i) {
            let a = choose|a: int| 0 <= a < wanted.len() && list.contains(#[trigger] wanted[a]);
            assert(!settled(deps, deps[i][a] as int));
            if settled(deps, i) {
                let k = choose|k: nat| settles(deps, k, i);
                assert(settles(deps, (k - 1) as nat, deps[i][a] as int));
            }
        }
    }
    if wait_for_each_other(graph, set) {
        assert forall|i: int| #[trigger] set.contains(i) implies list.contains(graph.deliverables[i].id) by {
            if settled(deps, i) {
                let k = choose|k: nat| settles(deps, k, i);
                lemma_never_settled(graph, set, k, i);
            }
        }
    }
    list
}

} // verus!
