//! Structural rules for plan graphs.

use vstd::hash_map::StringHashMap;
use vstd::prelude::*;
use vstd::string::*;

use crate::index::{build_index, indexes, lemma_position_found, resolve_list, resolved, resolved_list};
use crate::network::{settled_flags, topological_order};
use crate::paths::{file_keys, shortest_name};
use crate::plan::{deliverable_ids, GraphView, PlanGraph, PlannerError};
use crate::ranking::{sorted_ids, sorted_marked};
use crate::text::{join, joined};

verus! {

/// The smallest number below `n` with the property, if there is one.
pub open spec fn first(n: nat, p: spec_fn(int) -> bool) -> Option<int>
    decreases n,
{
    if n == 0 {
        None
    } else {
        match first((n - 1) as nat, p) {
            Some(i) => Some(i),
            None => if p(n - 1) {
                Some(n - 1)
            } else {
                None
            },
        }
    }
}

/// Nothing below `n` has the property.
pub proof fn lemma_first_none(n: nat, p: spec_fn(int) -> bool)
    requires
        forall|i: int| 0 <= i < n ==> !#[trigger] p(i),
    ensures
        first(n, p) is None,
    decreases n,
{
    if n > 0 {
        lemma_first_none((n - 1) as nat, p);
    }
}

/// `k` is the first with the property.
pub proof fn lemma_first_is(n: nat, p: spec_fn(int) -> bool, k: int)
    requires
        0 <= k < n,
        p(k),
        forall|i: int| 0 <= i < k ==> !#[trigger] p(i),
    ensures
        first(n, p) == Some(k),
    decreases n,
{
    if k == n - 1 {
        lemma_first_none((n - 1) as nat, p);
    } else {
        lemma_first_is((n - 1) as nat, p, k);
    }
}

/// What [`first`] finds has the property, and nothing before it does.
pub proof fn lemma_first_found(n: nat, p: spec_fn(int) -> bool)
    ensures
        first(n, p) matches Some(k) ==> 0 <= k < n && p(k) && (forall|i: int| 0 <= i < k ==> !#[trigger] p(i)),
        first(n, p) is None ==> forall|i: int| 0 <= i < n ==> !#[trigger] p(i),
    decreases n,
{
    if n > 0 {
        lemma_first_found((n - 1) as nat, p);
    }
}

/// The id at `i` occurs before `i`.
pub open spec fn repeats(ids: Seq<Seq<char>>, i: int) -> bool {
    exists|k: int| 0 <= k < i && #[trigger] ids[k] == ids[i]
}

/// Prerequisite `j` of deliverable `i` is not in the graph.
pub open spec fn dangles(graph: GraphView, i: int, j: int) -> bool {
    !deliverable_ids(graph).contains(graph.deliverables[i].prerequisites[j])
}

/// Some prerequisite of deliverable `i` is not in the graph.
pub open spec fn has_dangling(graph: GraphView, i: int) -> bool {
    exists|j: int| 0 <= j < graph.deliverables[i].prerequisites.len() && #[trigger] dangles(graph, i, j)
}

/// Deliverable `k` lists, before file `j` of deliverable `i`, the same file.
pub open spec fn owns_before(graph: GraphView, i: int, j: int, k: int) -> bool {
    0 <= k <= i && exists|l: int| {
        &&& 0 <= l < graph.deliverables[k].owned_files.len()
        &&& k < i || l < j
        &&& #[trigger] file_keys(graph.deliverables[k])[l] == file_keys(graph.deliverables[i])[j]
    }
}

/// File `j` of deliverable `i` is listed before.
pub open spec fn taken(graph: GraphView, i: int, j: int) -> bool {
    exists|k: int| #[trigger] owns_before(graph, i, j, k)
}

/// Some file of deliverable `i` is listed before.
pub open spec fn has_taken(graph: GraphView, i: int) -> bool {
    exists|j: int| 0 <= j < graph.deliverables[i].owned_files.len() && #[trigger] taken(graph, i, j)
}

/// The prerequisites of the deliverables, by position.
pub open spec fn graph_deps(graph: GraphView) -> Seq<Seq<usize>> {
    resolved(deliverable_ids(graph), Seq::new(graph.deliverables.len(), |i: int| graph.deliverables[i].prerequisites))
}

/// For each deliverable, whether its prerequisites can never all be complete:
/// it is on a cycle, or waits for one.
pub open spec fn cycle_flags(graph: GraphView) -> Seq<bool> {
    Seq::new(
        graph.deliverables.len(),
        |i: int| !settled_flags(graph_deps(graph))[i],
    )
}

/// The reason for which a graph is invalid, if there is one: the first
/// repeated id, else the first unknown prerequisite, else the first file owned
/// twice, else the deliverables that a cycle holds up.
pub open spec fn rejection(graph: GraphView) -> Option<Seq<char>> {
    let n = graph.deliverables.len();
    let ids = deliverable_ids(graph);
    match first(n, |i: int| repeats(ids, i)) {
        Some(i) => Some("duplicate deliverable id '"@ + ids[i] + "'"@),
        None => match first(n, |i: int| has_dangling(graph, i)) {
            Some(i) => {
                let j = first(graph.deliverables[i].prerequisites.len(), |j: int| dangles(graph, i, j))->0;
                Some(
                    "prerequisite '"@ + graph.deliverables[i].prerequisites[j] + "' for deliverable '"@ + ids[i]
                        + "' does not exist"@,
                )
            },
            None => match first(n, |i: int| has_taken(graph, i)) {
                Some(i) => {
                    let j = first(graph.deliverables[i].owned_files.len(), |j: int| taken(graph, i, j))->0;
                    let k = first((i + 1) as nat, |k: int| owns_before(graph, i, j, k))->0;
                    Some(
                        "file '"@ + graph.deliverables[i].owned_files[j] + "' is owned by both '"@ + ids[k] + "' and '"@
                            + ids[i] + "'"@,
                    )
                },
                None => if cycle_flags(graph).contains(true) {
                    Some(
                        "cycle detected in prerequisite graph involving deliverables: ["@ + joined(
                            sorted_ids(ids, cycle_flags(graph)),
                            ", "@,
                        ) + "]"@,
                    )
                } else {
                    None
                },
            },
        },
    }
}

/// The ids of the deliverables.
pub fn ids_of(graph: &PlanGraph) -> (r: Vec<String>)
    ensures
        r.deep_view() == deliverable_ids(graph.deep_view()),
        r.len() == graph.deliverables.len(),
{
    let mut r: Vec<String> = Vec::new();
    for i in 0..graph.deliverables.len()
        invariant
            r.len() == i,
            forall|k: int| 0 <= k < i ==> (#[trigger] r[k])@ == graph.deliverables[k].id@,
    {
        r.push(graph.deliverables[i].id.clone());
    }
    assert(r.deep_view() =~= deliverable_ids(graph.deep_view()));
    r
}

/// The prerequisites of the deliverables, by position.
pub fn deps_of(graph: &PlanGraph) -> (r: Vec<Vec<usize>>)
    requires
        deliverable_ids(graph.deep_view()).no_duplicates(),
    ensures
        r.deep_view() == graph_deps(graph.deep_view()),
        r.len() == graph.deliverables.len(),
{
    let ghost view = graph.deep_view();
    let ghost names = deliverable_ids(view);
    let ids = ids_of(graph);
    let mut deps: Vec<Vec<usize>> = Vec::new();
    if let Some(map) = build_index(&ids) {
        for i in 0..graph.deliverables.len()
            invariant
                view == graph.deep_view(),
                names == deliverable_ids(view),
                indexes(map@, names),
                deps.len() == i,
                forall|k: int| 0 <= k < i ==> (#[trigger] deps[k])@ == resolved_list(names, view.deliverables[k].prerequisites),
        {
            let list = resolve_list(&map, graph.deliverables.len(), &graph.deliverables[i].prerequisites, Ghost(names));
            deps.push(list);
        }
    }
    proof {
        let net = graph_deps(view);
        assert forall|k: int| 0 <= k < net.len() implies #[trigger] deps.deep_view()[k] == net[k] by {
            assert(deps[k].deep_view() =~= deps[k]@);
        }
        assert(deps.deep_view() =~= net);
    }
    deps
}

/// The first repeated id.
fn find_repeated(ids: &Vec<String>) -> (r: Option<usize>)
    ensures
        match r {
            Some(i) => first(ids.deep_view().len(), |i: int| repeats(ids.deep_view(), i)) == Some(i as int),
            None => first(ids.deep_view().len(), |i: int| repeats(ids.deep_view(), i)) is None
                && ids.deep_view().no_duplicates(),
        },
        r matches Some(i) ==> i < ids.len(),
{
    let ghost all = ids.deep_view();
    let ghost p = |i: int| repeats(all, i);
    let mut seen: StringHashMap<bool> = StringHashMap::new();
    for i in 0..ids.len()
        invariant
            all == ids.deep_view(),
            p == (|i: int| repeats(all, i)),
            forall|k: int| 0 <= k < i ==> !#[trigger] p(k),
            forall|id: Seq<char>| #[trigger] seen@.contains_key(id) <==> all.take(i as int).contains(id),
    {
        let ghost part = all.take(i as int);
        let ghost next = all.take(i + 1);
        assert(all[i as int] == ids[i as int]@);
        if seen.contains_key(ids[i].as_str()) {
            proof {
                let k = choose|k: int| 0 <= k < part.len() && part[k] == all[i as int];
                assert(all[k] == all[i as int]);
                assert(p(i as int));
                lemma_first_is(all.len(), p, i as int);
            }
            return Some(i);
        }
        seen.insert(ids[i].clone(), true);
        proof {
            assert(!p(i as int)) by {
                if p(i as int) {
                    let k = choose|k: int| 0 <= k < i && #[trigger] all[k] == all[i as int];
                    assert(part[k] == all[i as int]);
                }
            }
            assert forall|id: Seq<char>| #[trigger] seen@.contains_key(id) <==> next.contains(id) by {
                if part.contains(id) {
                    let k = choose|k: int| 0 <= k < part.len() && part[k] == id;
                    assert(next[k] == id);
                }
                if id == all[i as int] {
                    assert(next[i as int] == id);
                }
                if next.contains(id) {
                    let k = choose|k: int| 0 <= k < next.len() && next[k] == id;
                    if k < i {
                        assert(part[k] == id);
                    }
                }
            }
        }
    }
    proof {
        lemma_first_none(all.len(), p);
        assert forall|a: int, b: int| 0 <= a < all.len() && 0 <= b < all.len() && a != b implies all[a] != all[b] by {
            if all[a] == all[b] {
                if a < b {
                    assert(p(b));
                } else {
                    assert(p(a));
                }
            }
        }
    }
    None
}

/// The first unknown prerequisite: a deliverable and a position in its list.
fn find_dangling(graph: &PlanGraph, deps: &Vec<Vec<usize>>) -> (r: Option<(usize, usize)>)
    requires
        deps.deep_view() == graph_deps(graph.deep_view()),
    ensures
        match r {
            Some((i, j)) => {
                let view = graph.deep_view();
                &&& first(view.deliverables.len(), |i: int| has_dangling(view, i)) == Some(i as int)
                &&& first(view.deliverables[i as int].prerequisites.len(), |j: int| dangles(view, i as int, j)) == Some(j as int)
                &&& i < graph.deliverables.len()
                &&& j < graph.deliverables[i as int].prerequisites.len()
            },
            None => first(graph.deep_view().deliverables.len(), |i: int| has_dangling(graph.deep_view(), i)) is None,
        },
{
    let ghost view = graph.deep_view();
    let ghost ids = deliverable_ids(view);
    let ghost outer = |i: int| has_dangling(view, i);
    let n: usize = graph.deliverables.len();
    assert(deps.deep_view().len() == n);
    for i in 0..n
        invariant
            n == graph.deliverables.len(),
            n == deps.len(),
            view == graph.deep_view(),
            ids == deliverable_ids(view),
            deps.deep_view() == graph_deps(view),
            outer == (|i: int| has_dangling(view, i)),
            forall|k: int| 0 <= k < i ==> !#[trigger] outer(k),
    {
        let ghost inner = |j: int| dangles(view, i as int, j);
        let ghost list = view.deliverables[i as int].prerequisites;
        assert(deps[i as int].deep_view() =~= deps[i as int]@);
        assert(deps.deep_view()[i as int] == resolved_list(ids, list));
        let count: usize = deps[i].len();
        for j in 0..count
            invariant
                count == deps[i as int].len(),
                n == graph.deliverables.len(),
                n == deps.len(),
                i < n,
                view == graph.deep_view(),
                ids == deliverable_ids(view),
                list == view.deliverables[i as int].prerequisites,
                deps[i as int]@ == resolved_list(ids, list),
                outer == (|i: int| has_dangling(view, i)),
                inner == (|j: int| dangles(view, i as int, j)),
                forall|k: int| 0 <= k < i ==> !#[trigger] outer(k),
                forall|k: int| 0 <= k < j ==> !#[trigger] inner(k),
        {
            proof {
                lemma_position_found(ids, list[j as int]);
            }
            if deps[i][j] >= n {
                proof {
                    assert(inner(j as int));
                    assert(outer(i as int)) by {
                        assert(dangles(view, i as int, j as int));
                    }
                    lemma_first_is(n as nat, outer, i as int);
                    lemma_first_is(list.len(), inner, j as int);
                }
                return Some((i, j));
            }
        }
        assert(!outer(i as int)) by {
            if outer(i as int) {
                let j = choose|j: int| 0 <= j < list.len() && #[trigger] dangles(view, i as int, j);
                assert(inner(j));
            }
        }
    }
    proof {
        lemma_first_none(n as nat, outer);
    }
    None
}

/// The first file that is listed twice: its second owner, its position there,
/// and its first owner.
fn find_taken(graph: &PlanGraph) -> (r: Option<(usize, usize, usize)>)
    ensures
        match r {
            Some((i, j, k)) => {
                let view = graph.deep_view();
                &&& first(view.deliverables.len(), |i: int| has_taken(view, i)) == Some(i as int)
                &&& first(view.deliverables[i as int].owned_files.len(), |j: int| taken(view, i as int, j)) == Some(j as int)
                &&& first((i + 1) as nat, |k: int| owns_before(view, i as int, j as int, k)) == Some(k as int)
                &&& i < graph.deliverables.len()
                &&& j < graph.deliverables[i as int].owned_files.len()
                &&& k <= i
            },
            None => first(graph.deep_view().deliverables.len(), |i: int| has_taken(graph.deep_view(), i)) is None,
        },
{
    let ghost view = graph.deep_view();
    let ghost outer = |i: int| has_taken(view, i);
    let n: usize = graph.deliverables.len();
    let mut owner: StringHashMap<usize> = StringHashMap::new();
    for i in 0..n
        invariant
            n == graph.deliverables.len(),
            view == graph.deep_view(),
            outer == (|i: int| has_taken(view, i)),
            forall|k: int| 0 <= k < i ==> !#[trigger] outer(k),
            records_owners(owner@, view, i as int, 0),
    {
        let ghost inner = |j: int| taken(view, i as int, j);
        let count: usize = graph.deliverables[i].owned_files.len();
        let ghost files = file_keys(view.deliverables[i as int]);
        for j in 0..count
            invariant
                n == graph.deliverables.len(),
                i < n,
                view == graph.deep_view(),
                files == file_keys(view.deliverables[i as int]),
                count == files.len(),
                count == graph.deliverables[i as int].owned_files.len(),
                outer == (|i: int| has_taken(view, i)),
                inner == (|j: int| taken(view, i as int, j)),
                forall|k: int| 0 <= k < i ==> !#[trigger] outer(k),
                forall|k: int| 0 <= k < j ==> !#[trigger] inner(k),
                records_owners(owner@, view, i as int, j as int),
        {
            assert(view.deliverables[i as int] == graph.deliverables[i as int].deep_view());
            let file = shortest_name(graph.deliverables[i].owned_files[j].as_str());
            assert(file@ == files[j as int]);
            if let Some(k) = owner.get(file.as_str()) {
                let k: usize = *k;
                proof {
                    let earlier = |k: int| owns_before(view, i as int, j as int, k);
                    assert(owned_at(view, i as int, j as int, file@, k as int));
                    assert(earlier(k as int));
                    assert(taken(view, i as int, j as int));
                    assert(inner(j as int));
                    assert(outer(i as int));
                    assert forall|x: int| 0 <= x < k implies !#[trigger] earlier(x) by {
                        if earlier(x) {
                            assert forall|m: int| 0 <= m < j implies !taken(view, i as int, m) by {
                                assert(!inner(m));
                            }
                            assert forall|m: int| 0 <= m < i implies !has_taken(view, m) by {
                                assert(!outer(m));
                            }
                            lemma_one_owner(view, i as int, j as int, x, k as int);
                        }
                    }
                    lemma_first_is(n as nat, outer, i as int);
                    lemma_first_is(files.len(), inner, j as int);
                    lemma_first_is((i + 1) as nat, earlier, k as int);
                }
                return Some((i, j, k));
            }
            let ghost before = owner@;
            owner.insert(file, i);
            proof {
                assert(!inner(j as int)) by {
                    if inner(j as int) {
                        let k = choose|k: int| #[trigger] owns_before(view, i as int, j as int, k);
                        assert(owned_at(view, i as int, j as int, files[j as int], k));
                        assert(before.contains_key(files[j as int]));
                    }
                }
                lemma_record(before, view, i as int, j as int);
            }
        }
        assert(!outer(i as int)) by {
            if outer(i as int) {
                let j = choose|j: int| 0 <= j < files.len() && #[trigger] taken(view, i as int, j);
                assert(inner(j));
            }
        }
        proof {
            lemma_next_deliverable(owner@, view, i as int);
        }
    }
    proof {
        lemma_first_none(n as nat, outer);
    }
    None
}

/// Deliverable `k` lists the file before position `(i, j)`.
spec fn owned_at(graph: GraphView, i: int, j: int, file: Seq<char>, k: int) -> bool {
    0 <= k <= i && k < graph.deliverables.len() && exists|l: int| {
        &&& 0 <= l < graph.deliverables[k].owned_files.len()
        &&& k < i || l < j
        &&& #[trigger] file_keys(graph.deliverables[k])[l] == file
    }
}

/// The map holds exactly the files listed before position `(i, j)`, each with
/// a deliverable that lists it there.
spec fn records_owners(map: Map<Seq<char>, usize>, graph: GraphView, i: int, j: int) -> bool {
    &&& forall|f: Seq<char>, k: int| #[trigger] owned_at(graph, i, j, f, k) ==> map.contains_key(f)
    &&& forall|f: Seq<char>| #[trigger] map.contains_key(f) ==> owned_at(graph, i, j, f, map[f] as int)
}

proof fn lemma_record(map: Map<Seq<char>, usize>, graph: GraphView, i: int, j: int)
    requires
        0 <= i < graph.deliverables.len() <= usize::MAX,
        0 <= j < graph.deliverables[i].owned_files.len(),
        records_owners(map, graph, i, j),
    ensures
        records_owners(map.insert(file_keys(graph.deliverables[i])[j], i as usize), graph, i, j + 1),
{
    let file = file_keys(graph.deliverables[i])[j];
    let next = map.insert(file, i as usize);
    assert forall|f: Seq<char>, k: int| #[trigger] owned_at(graph, i, j + 1, f, k) implies next.contains_key(f) by {
        if f != file {
            let l = choose|l: int| {
                &&& 0 <= l < graph.deliverables[k].owned_files.len()
                &&& k < i || l < j + 1
                &&& #[trigger] file_keys(graph.deliverables[k])[l] == f
            };
            assert(owned_at(graph, i, j, f, k));
        }
    }
    assert forall|f: Seq<char>| #[trigger] next.contains_key(f) implies owned_at(graph, i, j + 1, f, next[f] as int) by {
        if f == file {
            assert(file_keys(graph.deliverables[i])[j] == f);
        } else {
            assert(map.contains_key(f));
            assert(owned_at(graph, i, j, f, map[f] as int));
        }
    }
}

proof fn lemma_next_deliverable(map: Map<Seq<char>, usize>, graph: GraphView, i: int)
    requires
        0 <= i < graph.deliverables.len(),
        records_owners(map, graph, i, graph.deliverables[i].owned_files.len() as int),
    ensures
        records_owners(map, graph, i + 1, 0),
{
    let count = graph.deliverables[i].owned_files.len() as int;
    assert forall|f: Seq<char>, k: int| #[trigger] owned_at(graph, i + 1, 0, f, k) implies map.contains_key(f) by {
        assert(owned_at(graph, i, count, f, k));
    }
    assert forall|f: Seq<char>| #[trigger] map.contains_key(f) implies owned_at(graph, i + 1, 0, f, map[f] as int) by {
        assert(owned_at(graph, i, count, f, map[f] as int));
    }
}

/// Where no file was listed twice so far, a file has one earlier owner.
proof fn lemma_one_owner(graph: GraphView, i: int, j: int, x: int, k: int)
    requires
        0 <= i < graph.deliverables.len(),
        0 <= j < graph.deliverables[i].owned_files.len(),
        owns_before(graph, i, j, x),
        owns_before(graph, i, j, k),
        forall|m: int| 0 <= m < i ==> !has_taken(graph, m),
        forall|m: int| 0 <= m < j ==> !taken(graph, i, m),
    ensures
        x >= k,
{
    let file = file_keys(graph.deliverables[i])[j];
    let a = choose|l: int| {
        &&& 0 <= l < graph.deliverables[x].owned_files.len()
        &&& x < i || l < j
        &&& #[trigger] file_keys(graph.deliverables[x])[l] == file
    };
    let b = choose|l: int| {
        &&& 0 <= l < graph.deliverables[k].owned_files.len()
        &&& k < i || l < j
        &&& #[trigger] file_keys(graph.deliverables[k])[l] == file
    };
    if x < k {
        assert(file_keys(graph.deliverables[x])[a] == file_keys(graph.deliverables[k])[b]);
        assert(owns_before(graph, k, b, x));
        assert(taken(graph, k, b));
        if k < i {
            assert(has_taken(graph, k));
        }
    }
}

/// Rejects a graph that breaks a structural rule, with the reason.
pub fn validate_graph(graph: &PlanGraph) -> (r: Result<(), PlannerError>)
    ensures
        r is Ok <==> rejection(graph.deep_view()) is None,
        r matches Err(e) ==> e.deep_view() == (crate::plan::ErrorView::InvalidGraph {
            reason: rejection(graph.deep_view())->0,
        }),
        r is Ok ==> deliverable_ids(graph.deep_view()).no_duplicates(),
{
    let ghost view = graph.deep_view();
    let n: usize = graph.deliverables.len();
    let ids = ids_of(graph);
    if let Some(i) = find_repeated(&ids) {
        let mut reason = String::from_str("duplicate deliverable id '");
        reason.append(ids[i].as_str());
        reason.append("'");
        assert(ids.deep_view()[i as int] == ids[i as int]@);
        return Err(PlannerError::InvalidGraph { reason });
    }
    let deps = deps_of(graph);
    if let Some((i, j)) = find_dangling(graph, &deps) {
        let mut reason = String::from_str("prerequisite '");
        reason.append(graph.deliverables[i].prerequisites[j].as_str());
        reason.append("' for deliverable '");
        reason.append(graph.deliverables[i].id.as_str());
        reason.append("' does not exist");
        return Err(PlannerError::InvalidGraph { reason });
    }
    if let Some((i, j, k)) = find_taken(graph) {
        let mut reason = String::from_str("file '");
        reason.append(graph.deliverables[i].owned_files[j].as_str());
        reason.append("' is owned by both '");
        reason.append(graph.deliverables[k].id.as_str());
        reason.append("' and '");
        reason.append(graph.deliverables[i].id.as_str());
        reason.append("'");
        return Err(PlannerError::InvalidGraph { reason });
    }
    let (order, done) = topological_order(&deps);
    let mut stuck: Vec<bool> = Vec::new();
    let mut any = false;
    for i in 0..n
        invariant
            n == done.len(),
            stuck.len() == i,
            forall|k: int| 0 <= k < i ==> #[trigger] stuck@[k] == !done@[k],
            any == stuck@.contains(true),
    {
        let ghost prev = stuck@;
        stuck.push(!done[i]);
        proof {
            if prev.contains(true) {
                let k = choose|k: int| 0 <= k < prev.len() && prev[k] == true;
                assert(stuck@[k] == true);
            }
            if !done@[i as int] {
                assert(stuck@[i as int] == true);
            }
        }
        any = any || !done[i];
    }
    assert(stuck@ =~= cycle_flags(view));
    if any {
        let members = sorted_marked(&ids, &stuck);
        let mut reason = String::from_str("cycle detected in prerequisite graph involving deliverables: [");
        let list = join(&members, ", ");
        reason.append(list.as_str());
        reason.append("]");
        return Err(PlannerError::InvalidGraph { reason });
    }
    Ok(())
}

} // verus!
