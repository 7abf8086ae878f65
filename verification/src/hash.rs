//! Content hash of a plan graph.
//!
//! The hash is that of a canonical JSON text: deliverables by id, and the
//! prerequisites and files of each in order. It does not depend on the order
//! in which any of them were submitted, nor on how metadata was laid out.

use vstd::prelude::*;
use vstd::relations::*;
use vstd::seq_lib::*;
use vstd::string::*;
use vstd::utf8::*;

use crate::bridge::{
    is_hex, json_compact, json_compact_of, json_contents, json_escaped, json_quote, json_quoted, json_read, json_step, one_value,
    outside, sha256_hex, sha256_of, Standing,
};
use crate::plan::{deliverable_ids, Deliverable, DeliverableView, GraphView, PlanGraph};
use crate::ranking::{
    ahead, lemma_listing_exists, lemma_listing_unique, lemma_relist, lists_in_order, order_by, positions,
    strict_order, total_order,
};
use crate::text::{
    decimal, decimal_numeral, decimal_text, join, joined, lemma_text_less_irreflexive, lemma_text_less_total,
    lemma_text_less_transitive, numeral, text_less, text_lt,
};
use crate::validate::ids_of;

verus! {

/// `a` is `b` or precedes it.
pub open spec fn text_leq(a: Seq<char>, b: Seq<char>) -> bool {
    a == b || text_less(a, b)
}

/// The texts in order.
pub open spec fn sorted_texts(list: Seq<Seq<char>>) -> Seq<Seq<char>> {
    list.sort_by(|a: Seq<char>, b: Seq<char>| text_leq(a, b))
}

/// Order of texts is a total order.
pub proof fn lemma_text_leq_total()
    ensures
        total_ordering(|a: Seq<char>, b: Seq<char>| text_leq(a, b)),
{
    let leq = |a: Seq<char>, b: Seq<char>| text_leq(a, b);
    assert forall|x: Seq<char>, y: Seq<char>| #[trigger] leq(x, y) && #[trigger] leq(y, x) implies x == y by {
        if x != y {
            lemma_text_less_transitive(x, y, x);
            lemma_text_less_irreflexive(x);
        }
    }
    assert forall|x: Seq<char>, y: Seq<char>, z: Seq<char>| #[trigger] leq(x, y) && #[trigger] leq(y, z) implies leq(x, z) by {
        if x != y && y != z {
            lemma_text_less_transitive(x, y, z);
        }
    }
    assert forall|x: Seq<char>, y: Seq<char>| #[trigger] leq(x, y) || #[trigger] leq(y, x) by {
        lemma_text_less_total(x, y);
    }
}

/// A copy of the texts, in order.
pub fn sort_texts(list: &Vec<String>) -> (r: Vec<String>)
    ensures
        r.deep_view() == sorted_texts(list.deep_view()),
{
    let ghost all = list.deep_view();
    let ghost leq = |a: Seq<char>, b: Seq<char>| text_leq(a, b);
    let mut r: Vec<String> = Vec::new();
    proof {
        lemma_text_leq_total();
        assert(all.take(0) =~= Seq::<Seq<char>>::empty());
        assert(r.deep_view() =~= Seq::<Seq<char>>::empty());
    }
    for n in 0..list.len()
        invariant
            all == list.deep_view(),
            leq == (|a: Seq<char>, b: Seq<char>| text_leq(a, b)),
            total_ordering(leq),
            sorted_by(r.deep_view(), leq),
            r.deep_view().to_multiset() == all.take(n as int).to_multiset(),
            r.len() == n,
    {
        let item = list[n].clone();
        let ghost sorted = r.deep_view();
        assert(all[n as int] == item@);
        let mut at: usize = r.len();
        while at > 0 && text_lt(item.as_str(), r[at - 1].as_str())
            invariant
                at <= r.len(),
                sorted == r.deep_view(),
                forall|i: int| at <= i < r.len() ==> text_less(item@, #[trigger] sorted[i]),
            decreases at,
        {
            assert(sorted[at - 1] == r[at - 1]@);
            at -= 1;
        }
        let ghost before = r@;
        r.insert(at, item);
        proof {
            let now = r.deep_view();
            assert(now =~= sorted.insert(at as int, item@)) by {
                assert forall|i: int| 0 <= i < now.len() implies now[i] == sorted.insert(at as int, item@)[i] by {
                    if i < at {
                        assert(r@[i] == before[i]);
                    } else if i > at {
                        assert(r@[i] == before[i - 1]);
                    }
                }
            }
            to_multiset_insert(sorted, at as int, item@);
            assert(all.take(n + 1) =~= all.take(n as int).push(item@));
            to_multiset_build(all.take(n as int), item@);
            assert forall|i: int, j: int| 0 <= i < j < now.len() implies #[trigger] leq(now[i], now[j]) by {
                if i < at && j < at {
                    assert(leq(sorted[i], sorted[j]));
                } else if i > at {
                    assert(leq(sorted[i - 1], sorted[j - 1]));
                } else if i == at {
                    assert(text_less(item@, sorted[j - 1]));
                } else {
                    // i < at <= j
                    assert(sorted[at - 1] == before[at - 1]@);
                    assert(!text_less(item@, sorted[at - 1]));
                    lemma_text_less_total(item@, sorted[at - 1]);
                    assert(leq(sorted[at - 1], item@));
                    if i < at - 1 {
                        assert(leq(sorted[i], sorted[at - 1]));
                    }
                    assert(leq(sorted[i], item@));
                    if j > at {
                        assert(leq(sorted[i], sorted[j - 1]));
                    }
                }
            }
        }
    }
    proof {
        assert(all.take(list.len() as int) =~= all);
        all.lemma_sort_by_ensures(leq);
        lemma_sorted_unique(r.deep_view(), all.sort_by(leq), leq);
    }
    r
}

/// An effort in hours, or `null`.
pub open spec fn hours_or_null(effort: Option<i64>) -> Seq<char> {
    match effort {
        Some(e) => decimal_numeral(e as int),
        None => "null"@,
    }
}

/// Metadata in its compact form; text that is not JSON as a JSON string.
pub open spec fn metadata_form(text: Seq<char>) -> Seq<char> {
    match json_compact_of(text) {
        Some(t) => t,
        None => json_quoted(text),
    }
}

/// The metadata of every deliverable is one JSON value. [`hash_graph`] finds
/// this of every graph.
pub open spec fn metadata_whole(graph: GraphView) -> bool {
    forall|i: int| 0 <= i < graph.deliverables.len() ==> one_value(metadata_form((#[trigger] graph.deliverables[i]).metadata))
}

/// Reading two texts one after the other.
pub proof fn lemma_json_read(s: Standing, a: Seq<char>, b: Seq<char>)
    ensures
        json_read(s, a + b) == (match json_read(s, a) {
            Some(t) => json_read(t, b),
            None => None,
        }),
    decreases b.len(),
{
    if b.len() == 0 {
        assert(a + b =~= a);
    } else {
        assert((a + b).drop_last() =~= a + b.drop_last());
        lemma_json_read(s, a, b.drop_last());
    }
}

/// Reading one character.
proof fn lemma_json_read_one(s: Standing, c: char)
    ensures
        json_read(s, seq![c]) == json_step(s, c),
{
    assert(seq![c].drop_last() =~= Seq::<char>::empty());
    assert(json_read(s, seq![c].drop_last()) == Some(s));
}

/// The inside of a JSON string leaves a reader in the string.
proof fn lemma_contents_read(s: Standing, text: Seq<char>)
    requires
        s.quoted,
        !s.escaped,
    ensures
        json_read(s, json_contents(text)) == Some(s),
    decreases text.len(),
{
    if text.len() > 0 {
        let c = text[0];
        let e = json_escaped(c);
        let t = Standing { escaped: true, ..s };
        lemma_json_read(s, e, json_contents(text.drop_first()));
        lemma_contents_read(s, text.drop_first());
        if e.len() == 1 {
            assert(e =~= seq![c]);
            lemma_json_read_one(s, c);
        } else {
            lemma_json_read_one(s, e[0]);
            lemma_json_read_one(t, e[1]);
            lemma_json_read(s, seq![e[0]], seq![e[1]]);
            assert(json_read(s, seq![e[0]] + seq![e[1]]) == Some(s));
            if e.len() == 2 {
                assert(e =~= seq![e[0]] + seq![e[1]]);
            } else {
                lemma_json_read_one(s, e[2]);
                lemma_json_read_one(s, e[3]);
                lemma_json_read_one(s, e[4]);
                lemma_json_read_one(s, e[5]);
                let two = seq![e[0]] + seq![e[1]];
                lemma_json_read(s, two, seq![e[2]]);
                lemma_json_read(s, two + seq![e[2]], seq![e[3]]);
                lemma_json_read(s, two + seq![e[2]] + seq![e[3]], seq![e[4]]);
                lemma_json_read(s, two + seq![e[2]] + seq![e[3]] + seq![e[4]], seq![e[5]]);
                assert(e =~= two + seq![e[2]] + seq![e[3]] + seq![e[4]] + seq![e[5]]);
            }
        }
    }
}

/// A JSON string is one value.
pub proof fn lemma_quoted_whole(text: Seq<char>)
    ensures
        one_value(json_quoted(text)),
{
    let inside = Standing { quoted: true, ..outside() };
    let head = seq!['"'] + json_contents(text);
    lemma_json_read_one(outside(), '"');
    lemma_json_read(outside(), seq!['"'], json_contents(text));
    lemma_contents_read(inside, text);
    lemma_json_read(outside(), head, seq!['"']);
    lemma_json_read_one(inside, '"');
}

/// Every text as a JSON string.
pub open spec fn quoted_all(list: Seq<Seq<char>>) -> Seq<Seq<char>> {
    Seq::new(list.len(), |i: int| json_quoted(list[i]))
}

/// The canonical text of a deliverable, from its id, files and prerequisites
/// as JSON strings and its metadata as JSON.
pub open spec fn entry_of(id: Seq<char>, effort: Option<i64>, metadata: Seq<char>, files: Seq<Seq<char>>, prerequisites: Seq<Seq<char>>) -> Seq<char> {
    "{\"estimated_effort_hours\":"@ + hours_or_null(effort) + ",\"id\":"@ + id + ",\"metadata\":"@ + metadata
        + ",\"owned_files\":["@ + joined(files, ","@) + "],\"prerequisites\":["@ + joined(prerequisites, ","@) + "]}"@
}

/// A deliverable with its files and prerequisites in order, and its metadata in
/// its compact form.
pub open spec fn tidied(d: DeliverableView) -> DeliverableView {
    DeliverableView {
        owned_files: sorted_texts(d.owned_files),
        prerequisites: sorted_texts(d.prerequisites),
        metadata: metadata_form(d.metadata),
        ..d
    }
}

/// The canonical text of a tidied deliverable.
pub open spec fn entry_text(d: DeliverableView) -> Seq<char> {
    entry_of(
        json_quoted(d.id),
        d.effort,
        d.metadata,
        quoted_all(d.owned_files),
        quoted_all(d.prerequisites),
    )
}

/// The canonical text of a graph, from those of its deliverables.
pub open spec fn text_of(entries: Seq<Seq<char>>, max_chained_dispatch: Option<u64>) -> Seq<char> {
    "{\"deliverables\":["@ + joined(entries, ","@) + "],\"max_chained_dispatch\":"@ + (match max_chained_dispatch {
        Some(m) => numeral(m as nat),
        None => "null"@,
    }) + "}"@
}

/// Deliverable `i` precedes deliverable `j`: by id, and by position between
/// equal ids.
pub open spec fn id_ahead(ids: Seq<Seq<char>>, i: int, j: int) -> bool {
    text_less(ids[i], ids[j]) || (!text_less(ids[j], ids[i]) && i < j)
}

/// `order` lists all deliverables by id.
pub open spec fn id_order(ids: Seq<Seq<char>>, order: Seq<int>) -> bool {
    lists_in_order(order, |i: int| 0 <= i < ids.len(), |i: int, j: int| id_ahead(ids, i, j))
}

/// The deliverables by id, each tidied.
pub open spec fn canonical_list(graph: GraphView) -> Seq<DeliverableView> {
    let order = choose|o: Seq<int>| id_order(deliverable_ids(graph), o);
    Seq::new(order.len(), |k: int| tidied(graph.deliverables[order[k]]))
}

/// The canonical text of a graph.
pub open spec fn canonical_text(graph: GraphView) -> Seq<char> {
    let list = canonical_list(graph);
    text_of(Seq::new(list.len(), |k: int| entry_text(list[k])), graph.max_chained_dispatch)
}

/// The hash of a graph.
pub open spec fn graph_hash(graph: GraphView) -> Seq<char> {
    sha256_of(encode_utf8(canonical_text(graph)))
}

/// Every text as a JSON string.
fn quote_all(list: &Vec<String>) -> (r: Vec<String>)
    ensures
        r.deep_view() == quoted_all(list.deep_view()),
{
    let mut r: Vec<String> = Vec::new();
    for i in 0..list.len()
        invariant
            r.len() == i,
            forall|k: int| 0 <= k < i ==> (#[trigger] r[k])@ == json_quoted(list[k]@),
    {
        r.push(json_quote(list[i].as_str()));
    }
    assert(r.deep_view() =~= quoted_all(list.deep_view()));
    r
}

/// The canonical text of a deliverable, from its id, files and prerequisites
/// as JSON strings and its metadata as JSON.
pub fn write_entry(id: &str, effort: Option<i64>, metadata: &str, files: &Vec<String>, prerequisites: &Vec<String>) -> (r: String)
    ensures
        r@ == entry_of(id@, effort, metadata@, files.deep_view(), prerequisites.deep_view()),
{
    let mut r = String::from_str("{\"estimated_effort_hours\":");
    match effort {
        Some(e) => {
            let number = decimal_text(e);
            r.append(number.as_str());
        },
        None => {
            r.append("null");
        },
    }
    r.append(",\"id\":");
    r.append(id);
    r.append(",\"metadata\":");
    r.append(metadata);
    r.append(",\"owned_files\":[");
    let list = join(files, ",");
    r.append(list.as_str());
    r.append("],\"prerequisites\":[");
    let list = join(prerequisites, ",");
    r.append(list.as_str());
    r.append("]}");
    r
}

/// The canonical text of a graph, from those of its deliverables.
pub fn write_graph(entries: &Vec<String>, max_chained_dispatch: Option<u64>) -> (r: String)
    ensures
        r@ == text_of(entries.deep_view(), max_chained_dispatch),
{
    let mut r = String::from_str("{\"deliverables\":[");
    let list = join(entries, ",");
    r.append(list.as_str());
    r.append("],\"max_chained_dispatch\":");
    match max_chained_dispatch {
        Some(m) => {
            let number = decimal(m);
            r.append(number.as_str());
        },
        None => {
            r.append("null");
        },
    }
    r.append("}");
    r
}

/// Metadata in its compact form.
fn settle_metadata(text: &str) -> (r: String)
    ensures
        r@ == metadata_form(text@),
        one_value(r@),
{
    match json_compact(text) {
        Some(t) => t,
        None => {
            proof {
                lemma_quoted_whole(text@);
            }
            json_quote(text)
        },
    }
}

/// The canonical text of a deliverable.
fn describe(d: &Deliverable) -> (r: String)
    ensures
        r@ == entry_text(tidied(d.deep_view())),
        one_value(metadata_form(d.deep_view().metadata)),
{
    let id = json_quote(d.id.as_str());
    let metadata = settle_metadata(d.metadata.as_str());
    let files = quote_all(&sort_texts(&d.owned_files));
    let prerequisites = quote_all(&sort_texts(&d.prerequisites));
    write_entry(id.as_str(), d.estimated_effort_hours, metadata.as_str(), &files, &prerequisites)
}

/// Ordering by id lists all deliverables in one way.
pub proof fn lemma_id_order(ids: Seq<Seq<char>>)
    ensures
        strict_order(|i: int| 0 <= i < ids.len(), |i: int, j: int| id_ahead(ids, i, j)),
        total_order(|i: int| 0 <= i < ids.len(), |i: int, j: int| id_ahead(ids, i, j)),
{
    let member = |i: int| 0 <= i < ids.len();
    let before = |i: int, j: int| id_ahead(ids, i, j);
    assert forall|i: int| member(i) implies !#[trigger] before(i, i) by {
        lemma_text_less_irreflexive(ids[i]);
    }
    assert forall|i: int, j: int, k: int| member(i) && member(j) && member(k) && #[trigger] before(i, j) && #[trigger] before(j, k) implies before(i, k) by {
        lemma_text_less_total(ids[i], ids[j]);
        lemma_text_less_total(ids[j], ids[k]);
        lemma_text_less_irreflexive(ids[i]);
        if text_less(ids[i], ids[j]) && text_less(ids[j], ids[k]) {
            lemma_text_less_transitive(ids[i], ids[j], ids[k]);
        }
    }
    assert forall|i: int, j: int| #![trigger before(i, j)] member(i) && member(j) && i != j implies before(i, j) || before(j, i) by {
        lemma_text_less_total(ids[i], ids[j]);
    }
}

/// The canonical text of a graph.
fn describe_graph(graph: &PlanGraph) -> (r: String)
    ensures
        r@ == canonical_text(graph.deep_view()),
        metadata_whole(graph.deep_view()),
{
    let ghost view = graph.deep_view();
    let ghost names = deliverable_ids(view);
    let ids = ids_of(graph);
    let mut every: Vec<bool> = Vec::new();
    for i in 0..ids.len()
        invariant
            every.len() == i,
            forall|k: int| 0 <= k < i ==> #[trigger] every@[k],
    {
        every.push(true);
    }
    let order = order_by(&ids, &every);
    let ghost listed = positions(order@);
    proof {
        let member = |k: int| 0 <= k < every@.len() && every@[k];
        let ahead_of = |i: int, j: int| ahead(ids@, i, j);
        let member2 = |i: int| 0 <= i < names.len();
        let before2 = |i: int, j: int| id_ahead(names, i, j);
        assert forall|i: int, j: int| member(i) && member(j) && i != j && #[trigger] ahead_of(i, j) implies before2(i, j) by {
            assert(names[i] == ids[i]@);
            assert(names[j] == ids[j]@);
        }
        assert forall|i: int| member(i) implies !#[trigger] ahead_of(i, i) by {
            lemma_text_less_irreflexive(ids@[i]@);
        }
        lemma_relist(listed, member, ahead_of, member2, before2);
        assert(id_order(names, listed));
        lemma_id_order(names);
        let picked = choose|o: Seq<int>| id_order(names, o);
        lemma_listing_unique(picked, listed, member2, before2);
        assert forall|k: int| 0 <= k < order.len() implies (#[trigger] order@[k]) < graph.deliverables.len() by {
            assert(member2(listed[k]));
        }
    }
    let mut entries: Vec<String> = Vec::new();
    for k in 0..order.len()
        invariant
            view == graph.deep_view(),
            listed == positions(order@),
            forall|a: int| 0 <= a < order.len() ==> (#[trigger] order@[a]) < graph.deliverables.len(),
            entries.len() == k,
            forall|a: int| 0 <= a < k ==> (#[trigger] entries[a])@ == entry_text(tidied(view.deliverables[listed[a]])),
            forall|a: int| 0 <= a < k ==> one_value(metadata_form(view.deliverables[#[trigger] listed[a]].metadata)),
    {
        assert(view.deliverables[listed[k as int]] == graph.deliverables[order[k as int] as int].deep_view());
        entries.push(describe(&graph.deliverables[order[k]]));
    }
    proof {
        let list = canonical_list(view);
        assert(entries.deep_view() =~= Seq::new(list.len(), |k: int| entry_text(list[k])));
        let member = |i: int| 0 <= i < names.len();
        assert(lists_in_order(listed, member, |i: int, j: int| id_ahead(names, i, j)));
        assert forall|i: int| 0 <= i < view.deliverables.len() implies one_value(metadata_form((#[trigger] view.deliverables[i]).metadata)) by {
            assert(member(i));
            assert(listed.contains(i));
            let k = choose|k: int| 0 <= k < listed.len() && listed[k] == i;
            assert(one_value(metadata_form(view.deliverables[listed[k]].metadata)));
        }
    }
    write_graph(&entries, graph.max_chained_dispatch)
}

/// The content hash of a graph.
pub fn hash_graph(graph: &PlanGraph) -> (r: String)
    ensures
        r@ == graph_hash(graph.deep_view()),
        is_hex(r@, 64),
        metadata_whole(graph.deep_view()),
{
    let text = describe_graph(graph);
    sha256_hex(text.as_str().as_bytes())
}

/// Two graphs with the same deliverables, up to the order of the deliverables
/// and of the files and prerequisites of each, have the same hash.
pub proof fn hash_ignores_order(a: GraphView, b: GraphView)
    requires
        rearranged(a, b),
    ensures
        canonical_text(a) == canonical_text(b),
        graph_hash(a) == graph_hash(b),
{
    let ia = deliverable_ids(a);
    let ib = deliverable_ids(b);
    let ma = |i: int| 0 <= i < ia.len();
    let ba = |i: int, j: int| id_ahead(ia, i, j);
    let mb = |i: int| 0 <= i < ib.len();
    let bb = |i: int, j: int| id_ahead(ib, i, j);
    lemma_id_order(ia);
    lemma_id_order(ib);
    let xa = lemma_listing_exists(ia.len(), ma, ba);
    assert(id_order(ia, xa)) by {
        let below = |i: int| 0 <= i < ia.len() && ma(i);
        assert(lists_in_order(xa, below, ba));
        lemma_relist(xa, below, ba, ma, ba);
    }
    let xb = lemma_listing_exists(ib.len(), mb, bb);
    assert(id_order(ib, xb)) by {
        let below = |i: int| 0 <= i < ib.len() && mb(i);
        assert(lists_in_order(xb, below, bb));
        lemma_relist(xb, below, bb, mb, bb);
    }
    let oa = choose|o: Seq<int>| id_order(ia, o);
    let ob = choose|o: Seq<int>| id_order(ib, o);
    // The order of `b`, told by positions in `a`.
    let twin = |j: int| choose|i: int| 0 <= i < a.deliverables.len() && same_deliverable(a.deliverables[i], b.deliverables[j]);
    let oc = Seq::new(ob.len(), |k: int| twin(ob[k]));
    assert forall|j: int| 0 <= j < b.deliverables.len() implies 0 <= #[trigger] twin(j) < a.deliverables.len() && same_deliverable(a.deliverables[twin(j)], b.deliverables[j]) by {
        assert(found_in(b.deliverables[j], a));
        let i = choose|i: int| 0 <= i < a.deliverables.len() && same_deliverable(b.deliverables[j], #[trigger] a.deliverables[i]);
        assert(0 <= i < a.deliverables.len() && same_deliverable(a.deliverables[i], b.deliverables[j]));
    }
    assert(id_order(ia, oc)) by {
        assert forall|k: int| 0 <= k < oc.len() implies ma(#[trigger] oc[k]) by {
            assert(mb(ob[k]));
        }
        assert forall|i: int| #[trigger] ma(i) implies oc.contains(i) by {
            assert(found_in(a.deliverables[i], b));
            let j = choose|j: int| 0 <= j < b.deliverables.len() && same_deliverable(a.deliverables[i], #[trigger] b.deliverables[j]);
            assert(mb(j));
            assert(ob.contains(j));
            let k = choose|k: int| 0 <= k < ob.len() && ob[k] == j;
            assert(ia[twin(j)] == ib[j] && ia[i] == ib[j]);
            assert(twin(j) == i);
            assert(oc[k] == i);
        }
        assert forall|i: int, j: int| 0 <= i < j < oc.len() implies ba(#[trigger] oc[i], #[trigger] oc[j]) by {
            assert(mb(ob[i]) && mb(ob[j]));
            assert(bb(ob[i], ob[j]));
            assert(ob[i] != ob[j]) by {
                if ob[i] == ob[j] {
                    assert(!bb(ob[i], ob[i]));
                }
            }
            assert(ib[ob[i]] != ib[ob[j]]);
            assert(ia[oc[i]] == ib[ob[i]] && ia[oc[j]] == ib[ob[j]]);
            lemma_text_less_total(ib[ob[i]], ib[ob[j]]);
        }
    }
    lemma_listing_unique(oa, oc, ma, ba);
    let la = canonical_list(a);
    let lb = canonical_list(b);
    assert forall|k: int| 0 <= k < la.len() implies la[k] == lb[k] by {
        assert(mb(ob[k]));
        lemma_same_tidied(a.deliverables[twin(ob[k])], b.deliverables[ob[k]]);
    }
    assert(la =~= lb);
}

/// The same deliverable, up to the order of its files and prerequisites and
/// the layout of its metadata.
pub open spec fn same_deliverable(a: DeliverableView, b: DeliverableView) -> bool {
    &&& a.id == b.id
    &&& a.effort == b.effort
    &&& metadata_form(a.metadata) == metadata_form(b.metadata)
    &&& a.owned_files.to_multiset() == b.owned_files.to_multiset()
    &&& a.prerequisites.to_multiset() == b.prerequisites.to_multiset()
}

/// A graph has the deliverable, up to the order of its files and
/// prerequisites.
pub open spec fn found_in(d: DeliverableView, graph: GraphView) -> bool {
    exists|j: int| 0 <= j < graph.deliverables.len() && same_deliverable(d, #[trigger] graph.deliverables[j])
}

/// Every deliverable of `a` is in `b`, up to the order of its files and
/// prerequisites.
pub open spec fn contained(a: GraphView, b: GraphView) -> bool {
    forall|i: int| 0 <= i < a.deliverables.len() ==> found_in(#[trigger] a.deliverables[i], b)
}

/// The same deliverables in another order.
pub open spec fn rearranged(a: GraphView, b: GraphView) -> bool {
    &&& deliverable_ids(a).no_duplicates()
    &&& deliverable_ids(b).no_duplicates()
    &&& a.max_chained_dispatch == b.max_chained_dispatch
    &&& contained(a, b)
    &&& contained(b, a)
}

proof fn lemma_same_tidied(a: DeliverableView, b: DeliverableView)
    requires
        same_deliverable(a, b),
    ensures
        tidied(a) == tidied(b),
{
    let leq = |a: Seq<char>, b: Seq<char>| text_leq(a, b);
    lemma_text_leq_total();
    a.owned_files.lemma_sort_by_ensures(leq);
    b.owned_files.lemma_sort_by_ensures(leq);
    lemma_sorted_unique(a.owned_files.sort_by(leq), b.owned_files.sort_by(leq), leq);
    a.prerequisites.lemma_sort_by_ensures(leq);
    b.prerequisites.lemma_sort_by_ensures(leq);
    lemma_sorted_unique(a.prerequisites.sort_by(leq), b.prerequisites.sort_by(leq), leq);
}

} // verus!
