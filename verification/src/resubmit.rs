//! Submitting the same work again.

use vstd::prelude::*;
use vstd::seq_lib::*;
use vstd::utf8::*;

use crate::canonical::{hash_tells_graphs_apart, no_collision};
use crate::hash::{
    canonical_text, contained, found_in, graph_hash, hash_ignores_order, metadata_whole, rearranged, same_deliverable,
};
use crate::index::{lemma_position, lemma_position_found, resolved_list};
use crate::network::lists;
use crate::paths::{file_keys, path_key};
use crate::plan::{deliverable_ids, ErrorView, GraphView};
use crate::planner::{hashes_lead_apart, submit_outcome, PlannerView};
use crate::reach::{blocks, leads, lemma_successor_row, reversed};
use crate::submit::{rejected_exactly_when_ill_formed, well_formed};
use crate::validate::{dangles, graph_deps, has_dangling, has_taken, owns_before, repeats, taken};

verus! {

/// The position in `b` of deliverable `i` of `a`.
spec fn twin(a: GraphView, b: GraphView, i: int) -> int {
    choose|j: int| 0 <= j < b.deliverables.len() && same_deliverable(a.deliverables[i], b.deliverables[j])
}

proof fn lemma_twin(a: GraphView, b: GraphView, i: int)
    requires
        contained(a, b),
        0 <= i < a.deliverables.len(),
    ensures
        0 <= twin(a, b, i) < b.deliverables.len(),
        same_deliverable(a.deliverables[i], b.deliverables[twin(a, b, i)]),
{
    assert(found_in(a.deliverables[i], b));
    let j = choose|j: int| 0 <= j < b.deliverables.len() && same_deliverable(a.deliverables[i], #[trigger] b.deliverables[j]);
    assert(0 <= j < b.deliverables.len() && same_deliverable(a.deliverables[i], b.deliverables[j]));
}

/// Equal multisets hold the same texts.
proof fn lemma_same_texts(x: Seq<Seq<char>>, y: Seq<Seq<char>>, t: Seq<char>)
    requires
        x.to_multiset() == y.to_multiset(),
    ensures
        x.contains(t) <==> y.contains(t),
{
    to_multiset_contains(x, t);
    to_multiset_contains(y, t);
}

/// A prerequisite by position is a prerequisite by id.
proof fn lemma_waits_by_id(g: GraphView, i: int, x: int)
    requires
        deliverable_ids(g).no_duplicates(),
        g.deliverables.len() <= usize::MAX,
        0 <= i < g.deliverables.len(),
        0 <= x < g.deliverables.len(),
    ensures
        lists(graph_deps(g)[i], x) <==> g.deliverables[i].prerequisites.contains(g.deliverables[x].id),
{
    let ids = deliverable_ids(g);
    let list = g.deliverables[i].prerequisites;
    let row = graph_deps(g)[i];
    assert(row == resolved_list(ids, list));
    assert(ids[x] == g.deliverables[x].id);
    lemma_position(ids, x);
    if lists(row, x) {
        let k = choose|k: int| 0 <= k < row.len() && row[k] == x;
        lemma_position_found(ids, list[k]);
        assert(list[k] == ids[x]);
    }
    if list.contains(ids[x]) {
        let k = choose|k: int| 0 <= k < list.len() && list[k] == ids[x];
        assert(row[k] == x);
    }
}

/// A path in `a` runs in `b` too.
proof fn lemma_leads_twin(a: GraphView, b: GraphView, k: nat, x: int, y: int)
    requires
        rearranged(a, b),
        a.deliverables.len() <= usize::MAX,
        b.deliverables.len() <= usize::MAX,
        0 <= x < a.deliverables.len(),
        0 <= y < a.deliverables.len(),
        leads(reversed(graph_deps(a)), k, x, y),
    ensures
        leads(reversed(graph_deps(b)), k, twin(a, b, x), twin(a, b, y)),
    decreases k,
{
    let sa = reversed(graph_deps(a));
    let sb = reversed(graph_deps(b));
    lemma_twin(a, b, x);
    lemma_twin(a, b, y);
    if lists(sa[x], y) {
        lemma_edge_twin(a, b, x, y);
    } else {
        let m = choose|m: int| 0 <= m < sa.len() && leads(sa, (k - 1) as nat, x, m) && #[trigger] lists(sa[m], y);
        lemma_leads_twin(a, b, (k - 1) as nat, x, m);
        lemma_twin(a, b, m);
        lemma_edge_twin(a, b, m, y);
        assert(lists(sb[twin(a, b, m)], twin(a, b, y)));
    }
}

/// An edge in `a` is an edge in `b`.
proof fn lemma_edge_twin(a: GraphView, b: GraphView, x: int, y: int)
    requires
        rearranged(a, b),
        a.deliverables.len() <= usize::MAX,
        b.deliverables.len() <= usize::MAX,
        0 <= x < a.deliverables.len(),
        0 <= y < a.deliverables.len(),
        lists(reversed(graph_deps(a))[x], y),
    ensures
        lists(reversed(graph_deps(b))[twin(a, b, x)], twin(a, b, y)),
{
    let da = graph_deps(a);
    let db = graph_deps(b);
    let tx = twin(a, b, x);
    let ty = twin(a, b, y);
    lemma_twin(a, b, x);
    lemma_twin(a, b, y);
    lemma_successor_row(da, x, da.len(), y);
    lemma_waits_by_id(a, y, x);
    lemma_same_texts(a.deliverables[y].prerequisites, b.deliverables[ty].prerequisites, a.deliverables[x].id);
    lemma_waits_by_id(b, ty, tx);
    lemma_successor_row(db, tx, db.len(), ty);
}

/// Where no file is listed twice, no list holds one twice and no two lists
/// share one.
proof fn lemma_files_once(g: GraphView)
    requires
        forall|i: int| 0 <= i < g.deliverables.len() ==> !#[trigger] has_taken(g, i),
    ensures
        forall|i: int| 0 <= i < g.deliverables.len() ==> file_keys(#[trigger] g.deliverables[i]).no_duplicates(),
        forall|i: int, j: int, f: Seq<char>| 0 <= i < j < g.deliverables.len() ==> !(#[trigger] file_keys(g.deliverables[i]).contains(f) && #[trigger] file_keys(g.deliverables[j]).contains(f)),
{
    assert forall|i: int| 0 <= i < g.deliverables.len() implies file_keys(#[trigger] g.deliverables[i]).no_duplicates() by {
        let files = file_keys(g.deliverables[i]);
        assert forall|x: int, y: int| 0 <= x < files.len() && 0 <= y < files.len() && x != y implies files[x] != files[y] by {
            if files[x] == files[y] {
                let lo = if x < y { x } else { y };
                let hi = if x < y { y } else { x };
                assert(file_keys(g.deliverables[i])[lo] == file_keys(g.deliverables[i])[hi]);
                assert(owns_before(g, i, hi, i));
                assert(taken(g, i, hi));
                assert(has_taken(g, i));
            }
        }
    }
    assert forall|i: int, j: int, f: Seq<char>| 0 <= i < j < g.deliverables.len() implies !(#[trigger] file_keys(g.deliverables[i]).contains(f) && #[trigger] file_keys(g.deliverables[j]).contains(f)) by {
        if file_keys(g.deliverables[i]).contains(f) && file_keys(g.deliverables[j]).contains(f) {
            let x = choose|x: int| 0 <= x < file_keys(g.deliverables[i]).len() && file_keys(g.deliverables[i])[x] == f;
            let y = choose|y: int| 0 <= y < file_keys(g.deliverables[j]).len() && file_keys(g.deliverables[j])[y] == f;
            assert(file_keys(g.deliverables[i])[x] == file_keys(g.deliverables[j])[y]);
            assert(owns_before(g, j, y, i));
            assert(taken(g, j, y));
            assert(has_taken(g, j));
        }
    }
}

/// Rearranging a well-formed graph keeps it well-formed.
pub proof fn rearranging_keeps_graphs_well_formed(a: GraphView, b: GraphView)
    requires
        a.deliverables.len() <= usize::MAX,
        b.deliverables.len() <= usize::MAX,
        rearranged(a, b),
        well_formed(a),
    ensures
        well_formed(b),
{
    let ia = deliverable_ids(a);
    let ib = deliverable_ids(b);
    assert forall|i: int| 0 <= i < b.deliverables.len() implies !#[trigger] repeats(ib, i) by {
        if repeats(ib, i) {
            let k = choose|k: int| 0 <= k < i && #[trigger] ib[k] == ib[i];
            assert(ib[k] != ib[i]);
        }
    }
    assert forall|i: int| 0 <= i < b.deliverables.len() implies !#[trigger] has_dangling(b, i) by {
        if has_dangling(b, i) {
            let j = choose|j: int| 0 <= j < b.deliverables[i].prerequisites.len() && #[trigger] dangles(b, i, j);
            let p = b.deliverables[i].prerequisites[j];
            lemma_twin(b, a, i);
            let t = twin(b, a, i);
            lemma_same_texts(b.deliverables[i].prerequisites, a.deliverables[t].prerequisites, p);
            let k = choose|k: int| 0 <= k < a.deliverables[t].prerequisites.len() && a.deliverables[t].prerequisites[k] == p;
            assert(!has_dangling(a, t));
            assert(!dangles(a, t, k));
            let x = choose|x: int| 0 <= x < ia.len() && ia[x] == p;
            lemma_twin(a, b, x);
            assert(ib[twin(a, b, x)] == p);
            assert(ib.contains(p));
        }
    }
    lemma_files_once(a);
    assert forall|i: int| 0 <= i < b.deliverables.len() implies !#[trigger] has_taken(b, i) by {
        if has_taken(b, i) {
            let j = choose|j: int| 0 <= j < b.deliverables[i].owned_files.len() && #[trigger] taken(b, i, j);
            let k = choose|k: int| #[trigger] owns_before(b, i, j, k);
            let l = choose|l: int| {
                &&& 0 <= l < b.deliverables[k].owned_files.len()
                &&& k < i || l < j
                &&& #[trigger] file_keys(b.deliverables[k])[l] == file_keys(b.deliverables[i])[j]
            };
            lemma_twin(b, a, i);
            lemma_twin(b, a, k);
            let ti = twin(b, a, i);
            let tk = twin(b, a, k);
            let mine = b.deliverables[i].owned_files;
            let theirs = a.deliverables[ti].owned_files;
            let others = a.deliverables[tk].owned_files;
            let (f, g) = (mine[j], b.deliverables[k].owned_files[l]);
            assert(b.deliverables[k].owned_files.contains(g));
            lemma_same_texts(mine, theirs, f);
            lemma_same_texts(b.deliverables[k].owned_files, others, g);
            let x = choose|x: int| 0 <= x < theirs.len() && theirs[x] == f;
            let y = choose|y: int| 0 <= y < others.len() && others[y] == g;
            let key = path_key(f);
            assert(file_keys(a.deliverables[ti])[x] == key);
            assert(file_keys(a.deliverables[tk])[y] == key);
            assert(file_keys(a.deliverables[ti]).contains(key));
            assert(file_keys(a.deliverables[tk]).contains(key));
            if k < i {
                assert(ib[k] != ib[i]);
                assert(ia[tk] == ib[k] && ia[ti] == ib[i]);
                assert(tk != ti);
                if tk < ti {
                    assert(!(file_keys(a.deliverables[tk]).contains(key) && file_keys(a.deliverables[ti]).contains(key)));
                } else {
                    assert(!(file_keys(a.deliverables[ti]).contains(key) && file_keys(a.deliverables[tk]).contains(key)));
                }
            } else {
                let keys = file_keys(a.deliverables[ti]);
                assert(keys.no_duplicates());
                assert(x == y);
                assert(theirs.no_duplicates()) by {
                    assert forall|p: int, q: int| 0 <= p < theirs.len() && 0 <= q < theirs.len() && p != q implies theirs[p] != theirs[q] by {
                        assert(keys[p] != keys[q]);
                    }
                }
                theirs.lemma_multiset_has_no_duplicates();
                assert(mine.to_multiset() == theirs.to_multiset());
                mine.lemma_multiset_has_no_duplicates_conv();
                assert(mine[l] != mine[j]);
            }
        }
    }
    assert forall|i: int| 0 <= i < graph_deps(b).len() implies !#[trigger] blocks(reversed(graph_deps(b)), i, i) by {
        if blocks(reversed(graph_deps(b)), i, i) {
            let k = choose|k: nat| leads(reversed(graph_deps(b)), k, i, i);
            lemma_leads_twin(b, a, k, i, i);
            lemma_twin(b, a, i);
            assert(blocks(reversed(graph_deps(a)), twin(b, a, i), twin(b, a, i)));
        }
    }
}

/// Submitting a graph again returns the plan that the first submission made,
/// and changes nothing, whatever the order of its parts.
pub proof fn resubmission_returns_the_plan(v: PlannerView, graph: GraphView, again: GraphView, plan_id: Seq<char>, other_id: Seq<char>)
    requires
        graph.deliverables.len() <= usize::MAX,
        again.deliverables.len() <= usize::MAX,
        rearranged(graph, again),
    ensures
        submit_outcome(v, graph, plan_id).1 matches Ok(id) ==> submit_outcome(
            submit_outcome(v, graph, plan_id).0,
            again,
            other_id,
        ) == (submit_outcome(v, graph, plan_id).0, Ok::<Seq<char>, ErrorView>(id)),
{
    if submit_outcome(v, graph, plan_id).1 is Ok {
        rejected_exactly_when_ill_formed(graph);
        rejected_exactly_when_ill_formed(again);
        rearranging_keeps_graphs_well_formed(graph, again);
        hash_ignores_order(graph, again);
    }
}

/// Graphs that are not rearrangements of each other make different plans,
/// where their ids are new, their metadata is JSON and the digest tells their
/// texts apart.
pub proof fn other_graphs_make_other_plans(v: PlannerView, graph: GraphView, other: GraphView, plan_id: Seq<char>, other_id: Seq<char>)
    requires
        graph.deliverables.len() <= usize::MAX,
        other.deliverables.len() <= usize::MAX,
        hashes_lead_apart(v),
        !v.plans.contains_key(plan_id),
        !submit_outcome(v, graph, plan_id).0.plans.contains_key(other_id),
        metadata_whole(graph),
        metadata_whole(other),
        !rearranged(graph, other),
    ensures
        ({
            let first = submit_outcome(v, graph, plan_id);
            let second = submit_outcome(first.0, other, other_id);
            no_collision(encode_utf8(canonical_text(graph)), encode_utf8(canonical_text(other))) ==> (first.1 is Ok && second.1 is Ok ==> first.1->Ok_0 != second.1->Ok_0)
        }),
        hashes_lead_apart(submit_outcome(v, graph, plan_id).0),
{
    let first = submit_outcome(v, graph, plan_id);
    let second = submit_outcome(first.0, other, other_id);
    assert(hashes_lead_apart(first.0));
    assert(hashes_lead_apart(second.0));
    if first.1 is Ok && second.1 is Ok {
        rejected_exactly_when_ill_formed(graph);
        rejected_exactly_when_ill_formed(other);
        lemma_ids_differ(graph);
        lemma_ids_differ(other);
        hash_tells_graphs_apart(graph, other);
        assert(second.0.dedup.contains_key(graph_hash(graph)));
        assert(second.0.dedup.contains_key(graph_hash(other)));
    }
}

proof fn lemma_ids_differ(graph: GraphView)
    requires
        well_formed(graph),
    ensures
        deliverable_ids(graph).no_duplicates(),
{
    let ids = deliverable_ids(graph);
    assert forall|a: int, b: int| 0 <= a < ids.len() && 0 <= b < ids.len() && a != b implies ids[a] != ids[b] by {
        assert(!repeats(ids, a));
        assert(!repeats(ids, b));
    }
}

/// A submission under a new id leaves every plan alone and adds at most its
/// own.
pub proof fn submission_adds_one_plan(v: PlannerView, graph: GraphView, plan_id: Seq<char>)
    requires
        !v.plans.contains_key(plan_id),
    ensures
        v.plans.submap_of(submit_outcome(v, graph, plan_id).0.plans),
        submit_outcome(v, graph, plan_id).0.plans.submap_of(
            v.plans.insert(plan_id, submit_outcome(v, graph, plan_id).0.plans[plan_id]),
        ),
{
}

} // verus!
