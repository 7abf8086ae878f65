//! Which names are names of the same file.

use vstd::prelude::*;

use crate::paths::{cut, kept, path_key};
use crate::text::joined;
use crate::text_laws::joining_puts_the_separator_between;

verus! {

/// The text stands somewhere in the name.
pub open spec fn has_inside(name: Seq<char>, text: Seq<char>) -> bool {
    exists|a: Seq<char>, b: Seq<char>| name == #[trigger] (a + text + b)
}

/// The name ends with the text.
pub open spec fn has_end(name: Seq<char>, text: Seq<char>) -> bool {
    exists|a: Seq<char>| name == #[trigger] (a + text)
}

/// The name is as short as it can be: it has no doubled and no trailing
/// separator, and no `.` after a separator.
pub open spec fn is_short(name: Seq<char>) -> bool {
    &&& !has_inside(name, "//"@)
    &&& !has_inside(name, "/./"@)
    &&& !has_end(name, "/."@)
    &&& !has_end(name, "/"@)
}

/// Cutting a name leaves at least one part.
proof fn lemma_cut_some(name: Seq<char>)
    ensures
        cut(name).len() > 0,
    decreases name.len(),
{
    if name.len() > 0 {
        lemma_cut_some(name.drop_last());
    }
}

/// Cutting at a separator.
proof fn lemma_cut_at(a: Seq<char>, b: Seq<char>)
    ensures
        cut(a + seq!['/'] + b) == cut(a) + cut(b),
    decreases b.len(),
{
    lemma_cut_some(a);
    lemma_cut_some(b);
    let name = a + seq!['/'] + b;
    if b.len() == 0 {
        assert(name.drop_last() =~= a);
        assert(name.last() == '/');
        assert(cut(name) =~= cut(a) + cut(b));
    } else {
        let b2 = b.drop_last();
        lemma_cut_at(a, b2);
        lemma_cut_some(b2);
        assert(name.drop_last() =~= a + seq!['/'] + b2);
        assert(name.last() == b.last());
        let rest = cut(a) + cut(b2);
        assert(rest.last() == cut(b2).last());
        assert(cut(name) =~= cut(a) + cut(b));
    }
}

/// What is kept of a list is kept of its parts, where the first has something.
proof fn lemma_kept_tail(x: Seq<Seq<char>>, y: Seq<Seq<char>>, z: Seq<Seq<char>>)
    requires
        x.len() > 0,
        z.len() > 0,
        kept(x) == kept(z),
    ensures
        kept(x + y) == kept(z + y),
    decreases y.len(),
{
    if y.len() > 0 {
        lemma_kept_tail(x, y.drop_last(), z);
        assert((x + y).drop_last() =~= x + y.drop_last());
        assert((z + y).drop_last() =~= z + y.drop_last());
        assert((x + y).last() == y.last() && (z + y).last() == y.last());
    } else {
        assert(x + y =~= x);
        assert(z + y =~= z);
    }
}

/// A separator, given twice or followed by `.`, separates once.
pub proof fn idle_parts_do_not_count(a: Seq<char>, b: Seq<char>)
    ensures
        path_key(a + "//"@ + b) == path_key(a + "/"@ + b),
        path_key(a + "/./"@ + b) == path_key(a + "/"@ + b),
{
    reveal_strlit("/");
    reveal_strlit("//");
    reveal_strlit("/./");
    reveal_strlit(".");
    lemma_cut_some(a);
    let empty = Seq::<char>::empty();
    let dot = seq!['.'];
    assert(a + "/"@ + b =~= a + seq!['/'] + b);
    lemma_cut_at(a, b);
    assert(a + "//"@ + b =~= (a + seq!['/'] + empty) + seq!['/'] + b);
    lemma_cut_at(a, empty);
    lemma_cut_at(a + seq!['/'] + empty, b);
    assert(a + "/./"@ + b =~= (a + seq!['/'] + dot) + seq!['/'] + b);
    lemma_cut_at(a, dot);
    lemma_cut_at(a + seq!['/'] + dot, b);
    lemma_cut_dot();
    let p = cut(a);
    assert((p + cut(empty)).drop_last() =~= p);
    assert((p + cut(dot)).drop_last() =~= p);
    assert((p + cut(dot)).last() =~= "."@);
    assert(kept(p + cut(empty)) == kept(p));
    assert(kept(p + cut(dot)) == kept(p));
    lemma_kept_tail(p + cut(empty), cut(b), p);
    lemma_kept_tail(p + cut(dot), cut(b), p);
}

/// Cutting `.` and nothing.
proof fn lemma_cut_dot()
    ensures
        cut(seq!['.']) == seq![seq!['.']],
        cut(Seq::<char>::empty()) == seq![Seq::<char>::empty()],
{
    assert(seq!['.'].drop_last() =~= Seq::<char>::empty());
    assert(cut(seq!['.'].drop_last()) =~= seq![Seq::<char>::empty()]);
    assert(cut(seq!['.'])[0] =~= seq!['.']);
    assert(cut(seq!['.']) =~= seq![seq!['.']]);
}

/// A separator at the end does not count, and neither does `.` after one.
pub proof fn idle_ends_do_not_count(a: Seq<char>)
    requires
        a.len() > 0,
    ensures
        path_key(a + "/"@) == path_key(a),
        path_key(a + "/."@) == path_key(a),
{
    reveal_strlit("/");
    reveal_strlit("/.");
    reveal_strlit(".");
    lemma_cut_some(a);
    lemma_cut_dot();
    let empty = Seq::<char>::empty();
    let dot = seq!['.'];
    assert(a + "/"@ =~= a + seq!['/'] + empty);
    assert(a + "/."@ =~= a + seq!['/'] + dot);
    lemma_cut_at(a, empty);
    lemma_cut_at(a, dot);
    let p = cut(a);
    assert((p + cut(empty)).drop_last() =~= p);
    assert((p + cut(dot)).drop_last() =~= p);
    assert((p + cut(dot)).last() =~= "."@);
}

/// Joining the parts of a name gives it back.
proof fn lemma_joined_cut(name: Seq<char>)
    ensures
        joined(cut(name), "/"@) == name,
    decreases name.len(),
{
    reveal_strlit("/");
    if name.len() > 0 {
        let head = name.drop_last();
        lemma_joined_cut(head);
        lemma_cut_some(head);
        let rest = cut(head);
        let parts = cut(name);
        if name.last() == '/' {
            assert(parts.drop_last() =~= rest);
            assert(joined(parts, "/"@) =~= head.push('/'));
        } else {
            assert(parts.drop_last() =~= rest.drop_last());
            if rest.len() == 1 {
                assert(joined(parts, "/"@) =~= rest[0].push(name.last()));
            } else {
                assert(joined(rest, "/"@) == joined(rest.drop_last(), "/"@) + "/"@ + rest.last());
                assert(joined(parts, "/"@) =~= joined(rest, "/"@).push(name.last()));
            }
        }
        assert(head.push(name.last()) =~= name);
    } else {
        assert(cut(name)[0] =~= name);
    }
}

/// A list without idle parts is kept whole.
proof fn lemma_kept_whole(parts: Seq<Seq<char>>)
    requires
        forall|j: int| 0 <= j < parts.len() ==> (#[trigger] parts[j]).len() > 0,
        forall|j: int| 1 <= j < parts.len() ==> #[trigger] parts[j] != "."@,
    ensures
        kept(parts) == parts,
    decreases parts.len(),
{
    if parts.len() > 0 {
        let head = parts.drop_last();
        assert forall|j: int| 0 <= j < head.len() implies (#[trigger] head[j]).len() > 0 by {
            assert(head[j] == parts[j]);
        }
        assert forall|j: int| 1 <= j < head.len() implies #[trigger] head[j] != "."@ by {
            assert(head[j] == parts[j]);
        }
        lemma_kept_whole(head);
        assert(parts[parts.len() - 1].len() > 0);
        assert(kept(parts) =~= parts);
    }
}

/// A list that is empty but for its first part is kept without that.
proof fn lemma_kept_rooted(parts: Seq<Seq<char>>)
    requires
        parts.len() > 0,
        parts[0].len() == 0,
        forall|j: int| 1 <= j < parts.len() ==> (#[trigger] parts[j]).len() > 0 && parts[j] != "."@,
    ensures
        kept(parts) == parts.drop_first(),
    decreases parts.len(),
{
    if parts.len() > 1 {
        let head = parts.drop_last();
        assert forall|j: int| 1 <= j < head.len() implies (#[trigger] head[j]).len() > 0 && head[j] != "."@ by {
            assert(head[j] == parts[j]);
        }
        lemma_kept_rooted(head);
        assert(parts[parts.len() - 1].len() > 0);
        assert(kept(parts) =~= parts.drop_first());
    } else {
        assert(kept(parts.drop_last()) =~= Seq::<Seq<char>>::empty());
        assert(kept(parts) =~= parts.drop_first());
    }
}

/// The first part of a name is empty only where the name starts with a
/// separator or is empty.
proof fn lemma_first_part(name: Seq<char>)
    ensures
        cut(name)[0].len() == 0 <==> name.len() == 0 || name[0] == '/',
        name.len() > 0 && name[0] == '/' ==> cut(name).len() > 1,
    decreases name.len(),
{
    if name.len() > 0 {
        let head = name.drop_last();
        lemma_first_part(head);
        lemma_cut_some(head);
        if name.len() == 1 {
            assert(cut(head) =~= seq![Seq::<char>::empty()]);
        } else {
            assert(head[0] == name[0]);
            if name.last() != '/' && cut(head).len() > 1 {
                assert(cut(name)[0] == cut(head)[0]);
            }
        }
    }
}

/// Where a text stands in a name.
proof fn lemma_inside(name: Seq<char>, a: Seq<char>, text: Seq<char>, b: Seq<char>)
    requires
        name == a + text + b,
    ensures
        has_inside(name, text),
{
}

/// Where a name ends with a text.
proof fn lemma_ends(name: Seq<char>, a: Seq<char>, text: Seq<char>)
    requires
        name == a + text,
    ensures
        has_end(name, text),
{
}

/// What stands before and after part `j` of a name.
proof fn lemma_around(name: Seq<char>, j: int) -> (r: (Seq<char>, Option<Seq<char>>))
    requires
        1 <= j < cut(name).len(),
    ensures
        r.1 matches Some(b) ==> name == r.0 + "/"@ + cut(name)[j] + "/"@ + b,
        r.1 is None ==> name == r.0 + "/"@ + cut(name)[j],
{
    let parts = cut(name);
    lemma_joined_cut(name);
    let x = parts.take(j);
    let mid = seq![parts[j]];
    let y = parts.skip(j + 1);
    let a = joined(x, "/"@);
    assert(joined(mid, "/"@) == parts[j]);
    if y.len() == 0 {
        assert(parts =~= x + mid);
        joining_puts_the_separator_between(x, mid, name, "/"@);
        (a, None)
    } else {
        let b = joined(y, "/"@);
        assert(parts =~= x + (mid + y));
        joining_puts_the_separator_between(x, mid + y, name, "/"@);
        joining_puts_the_separator_between(mid, y, name, "/"@);
        assert(a + "/"@ + (parts[j] + "/"@ + b) =~= a + "/"@ + parts[j] + "/"@ + b);
        (a, Some(b))
    }
}

/// No part of a short name but the first is idle.
proof fn lemma_short_part(name: Seq<char>, j: int)
    requires
        is_short(name),
        1 <= j < cut(name).len(),
    ensures
        cut(name)[j].len() > 0,
        cut(name)[j] != "."@,
{
    reveal_strlit("/");
    reveal_strlit("//");
    reveal_strlit("/./");
    reveal_strlit("/.");
    reveal_strlit(".");
    let part = cut(name)[j];
    let (a, rest) = lemma_around(name, j);
    if part.len() == 0 {
        match rest {
            None => {
                assert(a + "/"@ + part =~= a + "/"@);
                lemma_ends(name, a, "/"@);
            },
            Some(b) => {
                assert(a + "/"@ + part + "/"@ + b =~= a + "//"@ + b);
                lemma_inside(name, a, "//"@, b);
            },
        }
    }
    if part == "."@ {
        match rest {
            None => {
                assert(a + "/"@ + part =~= a + "/."@);
                lemma_ends(name, a, "/."@);
            },
            Some(b) => {
                assert(a + "/"@ + part + "/"@ + b =~= a + "/./"@ + b);
                lemma_inside(name, a, "/./"@, b);
            },
        }
    }
}

/// A short name is its own key, so that different short names are names of
/// different files.
pub proof fn short_names_are_their_own(name: Seq<char>)
    requires
        is_short(name),
    ensures
        path_key(name) == name,
{
    reveal_strlit("/");
    reveal_strlit("");
    let parts = cut(name);
    lemma_cut_some(name);
    lemma_joined_cut(name);
    lemma_first_part(name);
    assert forall|j: int| 1 <= j < parts.len() implies (#[trigger] parts[j]).len() > 0 && parts[j] != "."@ by {
        lemma_short_part(name, j);
    }
    if name.len() > 0 && name[0] == '/' {
        lemma_kept_rooted(parts);
        let tail = parts.drop_first();
        if tail.len() == 0 {
            assert(parts =~= seq![parts[0]]);
            assert(joined(parts, "/"@) == parts[0]);
        } else {
            assert(parts =~= seq![parts[0]] + tail);
            joining_puts_the_separator_between(seq![parts[0]], tail, name, "/"@);
            assert(joined(seq![parts[0]], "/"@) == parts[0]);
            assert(path_key(name) =~= name);
        }
    } else if name.len() == 0 {
        assert(parts =~= seq![Seq::<char>::empty()]);
        lemma_kept_rooted(parts);
        assert(path_key(name) =~= name);
    } else {
        lemma_kept_whole(parts);
        assert(path_key(name) =~= name);
    }
}

/// Parts of a name hold no separator.
proof fn lemma_parts_whole(name: Seq<char>)
    ensures
        forall|j: int, c: int| 0 <= j < cut(name).len() && 0 <= c < cut(name)[j].len() ==> #[trigger] cut(name)[j][c] != '/',
    decreases name.len(),
{
    if name.len() > 0 {
        let head = name.drop_last();
        lemma_parts_whole(head);
        lemma_cut_some(head);
        let rest = cut(head);
        let parts = cut(name);
        assert forall|j: int, c: int| 0 <= j < parts.len() && 0 <= c < parts[j].len() implies #[trigger] parts[j][c] != '/' by {
            if j < parts.len() - 1 {
                assert(parts[j] == rest[j]);
                assert(rest[j][c] != '/');
            } else if name.last() != '/' {
                if c < rest.last().len() {
                    assert(rest[rest.len() - 1][c] != '/');
                }
            }
        }
    }
}

/// A text without separators is one part.
proof fn lemma_cut_one(text: Seq<char>)
    requires
        forall|c: int| 0 <= c < text.len() ==> #[trigger] text[c] != '/',
    ensures
        cut(text) == seq![text],
    decreases text.len(),
{
    if text.len() > 0 {
        let head = text.drop_last();
        assert forall|c: int| 0 <= c < head.len() implies #[trigger] head[c] != '/' by {
            assert(head[c] == text[c]);
        }
        lemma_cut_one(head);
        assert(text[text.len() - 1] != '/');
        assert(head.push(text.last()) =~= text);
        assert(cut(text) =~= seq![text]);
    } else {
        assert(text =~= Seq::<char>::empty());
        assert(cut(text) =~= seq![text]);
    }
}

/// Cutting what was joined gives the parts back.
proof fn lemma_cut_joined(parts: Seq<Seq<char>>)
    requires
        parts.len() > 0,
        forall|j: int, c: int| 0 <= j < parts.len() && 0 <= c < parts[j].len() ==> #[trigger] parts[j][c] != '/',
    ensures
        cut(joined(parts, "/"@)) == parts,
    decreases parts.len(),
{
    reveal_strlit("/");
    let last = parts.last();
    assert forall|c: int| 0 <= c < last.len() implies #[trigger] last[c] != '/' by {
        assert(parts[parts.len() - 1][c] != '/');
    }
    lemma_cut_one(last);
    if parts.len() == 1 {
        assert(parts =~= seq![last]);
    } else {
        let head = parts.drop_last();
        assert forall|j: int, c: int| 0 <= j < head.len() && 0 <= c < head[j].len() implies #[trigger] head[j][c] != '/' by {
            assert(parts[j][c] != '/');
        }
        lemma_cut_joined(head);
        lemma_cut_at(joined(head, "/"@), last);
        assert(joined(head, "/"@) + "/"@ + last =~= joined(head, "/"@) + seq!['/'] + last);
        assert(head + seq![last] =~= parts);
    }
}

/// What is kept of parts: none is empty, none but the first is `.`, and all
/// are whole.
proof fn lemma_kept_parts(parts: Seq<Seq<char>>)
    requires
        forall|j: int, c: int| 0 <= j < parts.len() && 0 <= c < parts[j].len() ==> #[trigger] parts[j][c] != '/',
    ensures
        kept(parts).len() <= parts.len(),
        forall|j: int| 0 <= j < kept(parts).len() ==> (#[trigger] kept(parts)[j]).len() > 0,
        forall|j: int| 1 <= j < kept(parts).len() ==> #[trigger] kept(parts)[j] != "."@,
        parts.len() > 0 && parts[0].len() == 0 ==> forall|j: int| 0 <= j < kept(parts).len() ==> #[trigger] kept(parts)[j] != "."@,
        forall|j: int, c: int| 0 <= j < kept(parts).len() && 0 <= c < kept(parts)[j].len() ==> #[trigger] kept(parts)[j][c] != '/',
    decreases parts.len(),
{
    if parts.len() > 0 {
        let head = parts.drop_last();
        assert forall|j: int, c: int| 0 <= j < head.len() && 0 <= c < head[j].len() implies #[trigger] head[j][c] != '/' by {
            assert(parts[j][c] != '/');
        }
        lemma_kept_parts(head);
        let rest = kept(head);
        let all = kept(parts);
        let last = parts.last();
        assert forall|j: int, c: int| 0 <= j < all.len() && 0 <= c < all[j].len() implies #[trigger] all[j][c] != '/' by {
            if j < rest.len() {
                assert(all[j] == rest[j]);
                assert(rest[j][c] != '/');
            } else {
                assert(parts[parts.len() - 1][c] != '/');
            }
        }
        assert forall|j: int| 0 <= j < all.len() implies (#[trigger] all[j]).len() > 0 by {
            if j < rest.len() {
                assert(all[j] == rest[j]);
            }
        }
        assert forall|j: int| 1 <= j < all.len() implies #[trigger] all[j] != "."@ by {
            if j < rest.len() {
                assert(all[j] == rest[j]);
            } else {
                assert(parts.len() > 1);
            }
        }
        if parts[0].len() == 0 {
            assert forall|j: int| 0 <= j < all.len() implies #[trigger] all[j] != "."@ by {
                if j < rest.len() {
                    assert(all[j] == rest[j]);
                    assert(head[0] == parts[0]);
                } else {
                    assert(parts.len() > 1);
                }
            }
        }
    }
}

/// A key is the key of itself: it names the same file as the name it is for.
pub proof fn keys_name_the_same_file(name: Seq<char>)
    ensures
        path_key(path_key(name)) == path_key(name),
{
    reveal_strlit("/");
    reveal_strlit("");
    let parts = cut(name);
    let list = kept(parts);
    let key = path_key(name);
    lemma_cut_some(name);
    lemma_first_part(name);
    lemma_parts_whole(name);
    lemma_kept_parts(parts);
    let empty = Seq::<char>::empty();
    if name.len() > 0 && name[0] == '/' {
        if list.len() == 0 {
            assert(key =~= seq!['/']);
            assert(key =~= empty + seq!['/'] + empty);
            lemma_cut_at(empty, empty);
            lemma_cut_dot();
            assert(cut(key) =~= seq![empty, empty]);
            assert(cut(key).drop_last() =~= seq![empty]);
            assert(seq![empty].drop_last() =~= Seq::<Seq<char>>::empty());
            assert(kept(seq![empty].drop_last()) =~= Seq::<Seq<char>>::empty());
            assert(kept(seq![empty]) =~= Seq::<Seq<char>>::empty());
            assert(kept(cut(key)) =~= list);
        } else {
            let tail = joined(list, "/"@);
            assert(key =~= empty + seq!['/'] + tail);
            lemma_cut_at(empty, tail);
            lemma_cut_joined(list);
            lemma_cut_dot();
            let again = seq![empty] + list;
            assert(cut(key) =~= again);
            assert forall|j: int| 1 <= j < again.len() implies (#[trigger] again[j]).len() > 0 && again[j] != "."@ by {
                assert(again[j] == list[j - 1]);
            }
            lemma_kept_rooted(again);
            assert(again.drop_first() =~= list);
        }
        assert(key[0] == '/');
    } else if list.len() == 0 {
        assert(key =~= empty);
        lemma_cut_dot();
        assert(cut(key) =~= seq![empty]);
        assert(seq![empty].drop_last() =~= Seq::<Seq<char>>::empty());
        assert(kept(seq![empty].drop_last()) =~= Seq::<Seq<char>>::empty());
        assert(kept(cut(key)) =~= Seq::<Seq<char>>::empty());
        assert(path_key(key) =~= key);
    } else {
        lemma_cut_joined(list);
        lemma_kept_whole(list);
        assert(key =~= joined(list, "/"@));
        lemma_first_part(key);
        assert(list[0].len() > 0);
        assert(key.len() > 0 && key[0] != '/');
    }
}

/// The root has one name, and so has nothing.
pub proof fn the_root_has_one_name()
    ensures
        path_key("/"@) == "/"@,
        path_key("/."@) == "/"@,
        path_key(""@) == ""@,
{
    reveal_strlit("/");
    reveal_strlit("/.");
    reveal_strlit(".");
    reveal_strlit("");
    let empty = Seq::<char>::empty();
    let dot = seq!['.'];
    lemma_cut_dot();
    assert("/"@ =~= empty + seq!['/'] + empty);
    assert("/."@ =~= empty + seq!['/'] + dot);
    assert(""@ =~= empty);
    lemma_cut_at(empty, empty);
    lemma_cut_at(empty, dot);
    let p = seq![empty];
    assert(p.drop_last() =~= Seq::<Seq<char>>::empty());
    assert(kept(p.drop_last()) =~= Seq::<Seq<char>>::empty());
    assert(kept(p) =~= Seq::<Seq<char>>::empty());
    assert((p + seq![empty]).drop_last() =~= p);
    assert((p + seq![dot]).drop_last() =~= p);
    assert((p + seq![dot]).last() =~= "."@);
    assert(kept(p + seq![empty]) =~= Seq::<Seq<char>>::empty());
    assert(kept(p + seq![dot]) =~= Seq::<Seq<char>>::empty());
    assert(path_key("/"@) =~= "/"@);
    assert(path_key("/."@) =~= "/"@);
    assert(path_key(""@) =~= ""@);
}

} // verus!
