//! Looking up identifiers by position.

use vstd::hash_map::StringHashMap;
use vstd::prelude::*;
use vstd::string::*;

verus! {

/// The position of an id; the number of ids when it is not among them.
pub open spec fn position(ids: Seq<Seq<char>>, id: Seq<char>) -> int {
    if ids.contains(id) {
        ids.index_of(id)
    } else {
        ids.len() as int
    }
}

/// The positions of the listed ids.
pub open spec fn resolved_list(ids: Seq<Seq<char>>, list: Seq<Seq<char>>) -> Seq<usize> {
    Seq::new(list.len(), |j: int| position(ids, list[j]) as usize)
}

/// The positions of the listed ids, list by list.
pub open spec fn resolved(ids: Seq<Seq<char>>, lists: Seq<Seq<Seq<char>>>) -> Seq<Seq<usize>> {
    Seq::new(lists.len(), |i: int| resolved_list(ids, lists[i]))
}

/// With distinct ids, the position of the id at `k` is `k`.
pub proof fn lemma_position(ids: Seq<Seq<char>>, k: int)
    requires
        ids.no_duplicates(),
        0 <= k < ids.len(),
    ensures
        position(ids, ids[k]) == k,
{
    assert(ids.contains(ids[k]));
}

/// A position below the number of ids is that of the id.
pub proof fn lemma_position_found(ids: Seq<Seq<char>>, id: Seq<char>)
    ensures
        0 <= position(ids, id) <= ids.len(),
        position(ids, id) < ids.len() <==> ids.contains(id),
        position(ids, id) < ids.len() ==> ids[position(ids, id)] == id,
{
}

/// `map` gives every id its position.
pub open spec fn indexes(map: Map<Seq<char>, usize>, ids: Seq<Seq<char>>) -> bool {
    &&& forall|id: Seq<char>| #[trigger] map.contains_key(id) <==> ids.contains(id)
    &&& forall|id: Seq<char>| #[trigger] map.contains_key(id) ==> map[id] == position(ids, id)
}

/// Builds the index of distinct ids; `None` when an id occurs twice.
pub fn build_index(ids: &Vec<String>) -> (r: Option<StringHashMap<usize>>)
    ensures
        r is Some <==> ids.deep_view().no_duplicates(),
        r matches Some(map) ==> indexes(map@, ids.deep_view()),
{
    let ghost all = ids.deep_view();
    let mut map: StringHashMap<usize> = StringHashMap::new();
    for i in 0..ids.len()
        invariant
            all == ids.deep_view(),
            all.take(i as int).no_duplicates(),
            forall|id: Seq<char>| #[trigger] map@.contains_key(id) <==> all.take(i as int).contains(id),
            forall|id: Seq<char>| #[trigger] map@.contains_key(id) ==> map@[id] < i && all[map@[id] as int] == id,
    {
        let ghost part = all.take(i as int);
        let ghost next = all.take(i + 1);
        let ghost before = map@;
        assert(next =~= part.push(all[i as int]));
        assert(all[i as int] == ids[i as int]@);
        if map.contains_key(ids[i].as_str()) {
            proof {
                let k = choose|k: int| 0 <= k < part.len() && part[k] == all[i as int];
                assert(all[k] == all[i as int]);
            }
            return None;
        }
        map.insert(ids[i].clone(), i);
        proof {
            assert forall|id: Seq<char>| #[trigger] map@.contains_key(id) <==> next.contains(id) by {
                if part.contains(id) {
                    let k = choose|k: int| 0 <= k < part.len() && part[k] == id;
                    assert(next[k] == id);
                }
                if id == all[i as int] {
                    assert(next[i as int] == id);
                }
                if next.contains(id) {
                    let k = choose|k: int| 0 <= k < next.len() && next[k] == id;
                    if k < i {
                        assert(part[k] == id);
                    }
                }
            }
            assert forall|a: int, b: int| 0 <= a < next.len() && 0 <= b < next.len() && a != b implies next[a] != next[b] by {
                if a < i && b < i {
                    assert(part[a] != part[b]);
                } else if a < i {
                    assert(part[a] == next[a]);
                    assert(part.contains(part[a]));
                } else {
                    assert(part[b] == next[b]);
                    assert(part.contains(part[b]));
                }
            }
        }
    }
    proof {
        assert(all.take(ids.len() as int) =~= all);
        assert forall|id: Seq<char>| #[trigger] map@.contains_key(id) implies map@[id] == position(all, id) by {
            lemma_position(all, map@[id] as int);
        }
    }
    Some(map)
}

/// The last position of an id, if it is listed.
pub open spec fn last_position(ids: Seq<Seq<char>>, id: Seq<char>) -> Option<int>
    decreases ids.len(),
{
    if ids.len() == 0 {
        None
    } else if ids.last() == id {
        Some(ids.len() - 1)
    } else {
        last_position(ids.drop_last(), id)
    }
}

/// The last position of an id is one of its positions.
pub proof fn lemma_last_position(ids: Seq<Seq<char>>, id: Seq<char>)
    ensures
        last_position(ids, id) is Some <==> ids.contains(id),
        last_position(ids, id) matches Some(k) ==> 0 <= k < ids.len() && ids[k] == id,
    decreases ids.len(),
{
    if ids.len() > 0 {
        let rest = ids.drop_last();
        lemma_last_position(rest, id);
        if ids.last() == id {
            assert(ids[ids.len() - 1] == id);
        } else {
            if ids.contains(id) {
                let k = choose|k: int| 0 <= k < ids.len() && ids[k] == id;
                assert(rest[k] == id);
            }
            if rest.contains(id) {
                let k = choose|k: int| 0 <= k < rest.len() && rest[k] == id;
                assert(ids[k] == id);
            }
        }
    }
}

/// Builds the index of the last positions of ids.
pub fn index_last(ids: &Vec<String>) -> (map: StringHashMap<usize>)
    ensures
        forall|id: Seq<char>| #[trigger] map@.contains_key(id) <==> last_position(ids.deep_view(), id) is Some,
        forall|id: Seq<char>| #[trigger] map@.contains_key(id) ==> last_position(ids.deep_view(), id) == Some(map@[id] as int),
{
    let ghost all = ids.deep_view();
    let mut map: StringHashMap<usize> = StringHashMap::new();
    for i in 0..ids.len()
        invariant
            all == ids.deep_view(),
            forall|id: Seq<char>| #[trigger] map@.contains_key(id) <==> last_position(all.take(i as int), id) is Some,
            forall|id: Seq<char>| #[trigger] map@.contains_key(id) ==> last_position(all.take(i as int), id) == Some(map@[id] as int),
    {
        assert(all.take(i + 1).drop_last() =~= all.take(i as int));
        assert(all.take(i + 1).last() == ids[i as int]@);
        map.insert(ids[i].clone(), i);
    }
    assert(all.take(ids.len() as int) =~= all);
    map
}

/// The positions of the listed ids.
pub(crate) fn resolve_list(map: &StringHashMap<usize>, count: usize, list: &Vec<String>, ids: Ghost<Seq<Seq<char>>>) -> (r: Vec<usize>)
    requires
        indexes(map@, ids@),
        count == ids@.len(),
    ensures
        r@ == resolved_list(ids@, list.deep_view()),
{
    let mut r: Vec<usize> = Vec::new();
    for j in 0..list.len()
        invariant
            indexes(map@, ids@),
            count == ids@.len(),
            r.len() == j,
            forall|k: int| 0 <= k < j ==> #[trigger] r@[k] == position(ids@, list[k]@) as usize,
    {
        let k: usize = match map.get(list[j].as_str()) {
            Some(k) => *k,
            None => count,
        };
        r.push(k);
    }
    assert(r@ =~= resolved_list(ids@, list.deep_view()));
    r
}

} // verus!
