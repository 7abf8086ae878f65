//! File names as paths.
//!
//! Two names that differ only in what a path ignores name the same file:
//! repeated and trailing separators, and every `.` but one at the start.

use vstd::prelude::*;
use vstd::string::*;

use crate::plan::DeliverableView;
use crate::text::{join, joined, same_text};

verus! {

/// A name cut at its separators.
pub open spec fn cut(name: Seq<char>) -> Seq<Seq<char>>
    decreases name.len(),
{
    if name.len() == 0 {
        seq![Seq::empty()]
    } else {
        let rest = cut(name.drop_last());
        if name.last() == '/' {
            rest.push(Seq::empty())
        } else {
            rest.drop_last().push(rest.last().push(name.last()))
        }
    }
}

/// The parts that a path keeps: none that are empty, and no `.` but at the
/// start.
pub open spec fn kept(parts: Seq<Seq<char>>) -> Seq<Seq<char>>
    decreases parts.len(),
{
    if parts.len() == 0 {
        Seq::empty()
    } else {
        let rest = kept(parts.drop_last());
        let part = parts.last();
        if part.len() == 0 || (part == "."@ && parts.len() > 1) {
            rest
        } else {
            rest.push(part)
        }
    }
}

/// The shortest name of the file that a name is for.
pub open spec fn path_key(name: Seq<char>) -> Seq<char> {
    (if name.len() > 0 && name[0] == '/' {
        "/"@
    } else {
        ""@
    }) + joined(kept(cut(name)), "/"@)
}

/// The files of a deliverable, each by its shortest name.
pub open spec fn file_keys(d: DeliverableView) -> Seq<Seq<char>> {
    Seq::new(d.owned_files.len(), |a: int| path_key(d.owned_files[a]))
}

/// A name is cut into at least one part.
proof fn lemma_cut(name: Seq<char>)
    ensures
        cut(name).len() > 0,
    decreases name.len(),
{
    if name.len() > 0 {
        lemma_cut(name.drop_last());
    }
}

/// Cuts a name at its separators.
fn cut_name(name: &str) -> (r: Vec<String>)
    ensures
        r.deep_view() == cut(name@),
{
    let ghost whole = name@;
    let n: usize = name.unicode_len();
    let mut parts: Vec<String> = Vec::new();
    let mut part = String::new();
    proof {
        assert(whole.take(0) =~= Seq::<char>::empty());
        assert(part@ =~= Seq::<char>::empty());
        assert(parts.deep_view().push(part@) =~= cut(whole.take(0)));
    }
    for i in 0..n
        invariant
            whole == name@,
            n == whole.len(),
            parts.deep_view().push(part@) == cut(whole.take(i as int)),
    {
        let ghost before = parts.deep_view();
        let ghost grown = part@;
        assert(whole.take(i + 1).drop_last() =~= whole.take(i as int));
        assert(whole.take(i + 1).last() == whole[i as int]);
        if name.get_char(i) == '/' {
            parts.push(part);
            part = String::new();
            proof {
                assert(part@ =~= Seq::<char>::empty());
                assert(parts.deep_view() =~= before.push(grown));
            }
        } else {
            part.append(name.substring_char(i, i + 1));
            proof {
                assert(part@ =~= grown.push(whole[i as int]));
                assert(before.push(grown).drop_last() =~= before);
            }
        }
    }
    let ghost before = parts.deep_view();
    parts.push(part);
    proof {
        assert(whole.take(n as int) =~= whole);
        assert(parts.deep_view() =~= before.push(part@));
    }
    parts
}

/// The shortest name of the file that a name is for.
pub fn shortest_name(name: &str) -> (r: String)
    ensures
        r@ == path_key(name@),
{
    let parts = cut_name(name);
    let ghost all = parts.deep_view();
    let mut keep: Vec<String> = Vec::new();
    proof {
        lemma_cut(name@);
        assert(keep.deep_view() =~= kept(all.take(0)));
    }
    for i in 0..parts.len()
        invariant
            all == parts.deep_view(),
            keep.deep_view() == kept(all.take(i as int)),
    {
        let ghost before = keep.deep_view();
        assert(all.take(i + 1).drop_last() =~= all.take(i as int));
        assert(all[i as int] == parts[i as int]@);
        let part = parts[i].clone();
        if part.as_str().unicode_len() > 0 && (i == 0 || !same_text(part.as_str(), ".")) {
            keep.push(part);
            assert(keep.deep_view() =~= before.push(part@));
        }
    }
    assert(all.take(parts.len() as int) =~= all);
    let list = join(&keep, "/");
    let mut r = String::from_str(if name.unicode_len() > 0 && name.get_char(0) == '/' { "/" } else { "" });
    r.append(list.as_str());
    r
}

} // verus!
