//! The canonical text tells graphs apart.
//!
//! Every part of the text shows where it ends, so the parts can be read back:
//! a JSON string ends with the first quote that is not escaped, a number with
//! the first character that is none of its own, a list with its bracket, and
//! any other JSON value with the first comma outside of it.

use vstd::prelude::*;
use vstd::seq_lib::*;
use vstd::string::*;
use vstd::utf8::*;

use crate::bridge::{json_contents, json_escaped, json_quoted, json_read, json_step, one_value, outside, sha256_of};
use crate::hash::{
    canonical_list, canonical_text, contained, entry_text, found_in, graph_hash, hash_ignores_order, hours_or_null, id_ahead,
    id_order, lemma_id_order, lemma_json_read, lemma_text_leq_total, metadata_form, metadata_whole, quoted_all, rearranged,
    same_deliverable, sorted_texts, text_leq, text_of, tidied,
};
use crate::plan::{deliverable_ids, DeliverableView, GraphView};
use crate::ranking::{lemma_listing_exists, lemma_relist, lists_in_order};
use crate::text::{
    decimal_numeral, digit, fraction, joined, lemma_text_less_irreflexive, lemma_text_less_transitive, million, numeral, padded,
    ten_to, text_less,
};

verus! {

/// What follows a common beginning is common.
proof fn lemma_same_tail(p: Seq<char>, u: Seq<char>, v: Seq<char>)
    requires
        p + u == p + v,
    ensures
        u == v,
{
    assert((p + u).skip(p.len() as int) =~= u);
    assert((p + v).skip(p.len() as int) =~= v);
}

/// A beginning that ends before the first stop sign is determined.
proof fn lemma_stops(x: Seq<char>, s: Seq<char>, y: Seq<char>, t: Seq<char>, stop: char)
    requires
        x + s == y + t,
        !x.contains(stop),
        !y.contains(stop),
        s.len() > 0,
        t.len() > 0,
        s[0] == stop,
        t[0] == stop,
    ensures
        x == y,
        s == t,
{
    let whole = x + s;
    assert(whole[x.len() as int] == s[0]);
    assert((y + t)[y.len() as int] == t[0]);
    if x.len() < y.len() {
        assert((y + t)[x.len() as int] == y[x.len() as int]);
        assert(y.contains(stop));
    } else if y.len() < x.len() {
        assert(whole[y.len() as int] == x[y.len() as int]);
        assert(x.contains(stop));
    }
    assert(whole.take(x.len() as int) =~= x);
    assert((y + t).take(y.len() as int) =~= y);
    lemma_same_tail(x, s, t);
}

/// An escaped character can be read back.
proof fn lemma_escape(c: char, d: char, u: Seq<char>, v: Seq<char>)
    requires
        json_escaped(c) + u == json_escaped(d) + v,
    ensures
        c == d,
        u == v,
{
    let (e, f) = (json_escaped(c), json_escaped(d));
    let (x, y) = (e + u, f + v);
    assert(x[0] == e[0] && y[0] == f[0]);
    if e.len() > 1 && f.len() > 1 {
        assert(x[1] == e[1] && y[1] == f[1]);
    }
    if e.len() > 2 && f.len() > 2 {
        assert(x[4] == e[4] && y[4] == f[4]);
        assert(x[5] == e[5] && y[5] == f[5]);
        assert(c as int / 16 == d as int / 16);
        assert(c as int % 16 == d as int % 16);
    }
    assert(c == d);
    lemma_same_tail(e, u, v);
}

/// The inside of a JSON string can be read back.
proof fn lemma_contents(x: Seq<char>, y: Seq<char>, u: Seq<char>, v: Seq<char>)
    requires
        json_contents(x) + (seq!['"'] + u) == json_contents(y) + (seq!['"'] + v),
    ensures
        x == y,
        u == v,
    decreases x.len(),
{
    let (s, t) = (seq!['"'] + u, seq!['"'] + v);
    let whole = json_contents(x) + s;
    if x.len() == 0 {
        assert(whole[0] == '"');
        if y.len() > 0 {
            assert((json_contents(y) + t)[0] == json_escaped(y[0])[0]);
        }
        assert(x =~= y);
        lemma_same_tail(json_contents(x), s, t);
        lemma_same_tail(seq!['"'], u, v);
    } else if y.len() == 0 {
        assert((json_contents(y) + t)[0] == '"');
        assert(whole[0] == json_escaped(x[0])[0]);
    } else {
        let (a, b) = (x.drop_first(), y.drop_first());
        assert(whole =~= json_escaped(x[0]) + (json_contents(a) + s));
        assert(json_contents(y) + t =~= json_escaped(y[0]) + (json_contents(b) + t));
        lemma_escape(x[0], y[0], json_contents(a) + s, json_contents(b) + t);
        lemma_contents(a, b, u, v);
        assert(x =~= seq![x[0]] + a);
        assert(y =~= seq![y[0]] + b);
    }
}

/// A JSON string can be read back.
proof fn lemma_quoted(x: Seq<char>, y: Seq<char>, u: Seq<char>, v: Seq<char>)
    requires
        json_quoted(x) + u == json_quoted(y) + v,
    ensures
        x == y,
        u == v,
{
    let (s, t) = (seq!['"'] + u, seq!['"'] + v);
    assert(json_quoted(x) + u =~= seq!['"'] + (json_contents(x) + s));
    assert(json_quoted(y) + v =~= seq!['"'] + (json_contents(y) + t));
    lemma_same_tail(seq!['"'], json_contents(x) + s, json_contents(y) + t);
    lemma_contents(x, y, u, v);
}

/// A numeral is made of digits, and of at least one.
proof fn lemma_numeral_digits(n: nat)
    ensures
        numeral(n).len() > 0,
        forall|i: int| 0 <= i < numeral(n).len() ==> '0' <= #[trigger] numeral(n)[i] <= '9',
    decreases n,
{
    if n >= 10 {
        lemma_numeral_digits(n / 10);
    }
}

/// Different numbers have different numerals.
proof fn lemma_numeral_injective(a: nat, b: nat)
    requires
        numeral(a) == numeral(b),
    ensures
        a == b,
    decreases a,
{
    lemma_numeral_digits(a / 10);
    lemma_numeral_digits(b / 10);
    let (x, y) = (numeral(a), numeral(b));
    assert(x.last() == y.last());
    if a >= 10 && b >= 10 {
        assert(x.drop_last() =~= numeral(a / 10));
        assert(y.drop_last() =~= numeral(b / 10));
        lemma_numeral_injective(a / 10, b / 10);
    }
    assert(a % 10 == b % 10) by {
        assert(x.last() == digit((a % 10) as int));
        assert(y.last() == digit((b % 10) as int));
    }
}

/// Digits that make up a number can be read back.
proof fn lemma_padded(a: nat, b: nat, p: nat)
    ensures
        padded(a, p).len() == p,
        forall|i: int| 0 <= i < p ==> '0' <= #[trigger] padded(a, p)[i] <= '9',
        a < ten_to(p) && b < ten_to(p) && padded(a, p) == padded(b, p) ==> a == b,
    decreases p,
{
    if p > 0 {
        let q = (p - 1) as nat;
        lemma_padded(a / 10, b / 10, q);
        lemma_padded(b / 10, a / 10, q);
        if a < ten_to(p) && b < ten_to(p) && padded(a, p) == padded(b, p) {
            let (x, y) = (padded(a, p), padded(b, p));
            assert(x.last() == y.last());
            assert(x.drop_last() =~= padded(a / 10, q));
            assert(y.drop_last() =~= padded(b / 10, q));
            assert(a % 10 == b % 10) by {
                assert(x.last() == digit((a % 10) as int));
                assert(y.last() == digit((b % 10) as int));
            }
        }
    }
}

/// A decimal fraction can be read back.
proof fn lemma_fraction(a: nat, b: nat, p: nat)
    requires
        p > 0,
    ensures
        fraction(a, p).len() <= p,
        forall|i: int| 0 <= i < fraction(a, p).len() ==> '0' <= #[trigger] fraction(a, p)[i] <= '9',
        a < ten_to(p) && b < ten_to(p) && fraction(a, p) == fraction(b, p) ==> a == b,
    decreases p,
{
    lemma_padded(a, b, p);
    lemma_padded(b, a, p);
    if p > 1 {
        let q = (p - 1) as nat;
        lemma_fraction(a / 10, b / 10, q);
        lemma_fraction(b / 10, a / 10, q);
    }
}

/// A number of millionths can be read back.
proof fn lemma_decimal(a: int, b: int)
    ensures
        decimal_numeral(a).len() > 0,
        forall|i: int| 0 <= i < decimal_numeral(a).len() ==> #[trigger] decimal_numeral(a)[i] == '-' || decimal_numeral(a)[i] == '.' || '0' <= decimal_numeral(a)[i] <= '9',
        decimal_numeral(a) == decimal_numeral(b) ==> a == b,
{
    let m = if a < 0 { (-a) as nat } else { a as nat };
    let n = if b < 0 { (-b) as nat } else { b as nat };
    let (p, q) = ((m as int / million()) as nat, (n as int / million()) as nat);
    let (f, g) = ((m as int % million()) as nat, (n as int % million()) as nat);
    reveal_with_fuel(ten_to, 7);
    assert(ten_to(6) == 1_000_000);
    lemma_numeral_digits(p);
    lemma_numeral_digits(q);
    lemma_fraction(f, g, 6);
    let dot = seq!['.'];
    let x = numeral(p) + dot + fraction(f, 6);
    let y = numeral(q) + dot + fraction(g, 6);
    if decimal_numeral(a) == decimal_numeral(b) {
        assert('0' <= x[0] <= '9' && '0' <= y[0] <= '9') by {
            assert(x[0] == numeral(p)[0] && y[0] == numeral(q)[0]);
        }
        assert(decimal_numeral(a)[0] == decimal_numeral(b)[0]);
        if a < 0 {
            lemma_same_tail(seq!['-'], x, y);
        }
        assert(x == y);
        let (s, t) = (dot + fraction(f, 6), dot + fraction(g, 6));
        lemma_regroup(numeral(p), dot, fraction(f, 6));
        lemma_regroup(numeral(q), dot, fraction(g, 6));
        lemma_stops(numeral(p), s, numeral(q), t, '.');
        lemma_numeral_injective(p, q);
        lemma_same_tail(dot, fraction(f, 6), fraction(g, 6));
        assert(m == n);
    }
}

/// An effort, or its absence, holds no comma, and can be read back.
proof fn lemma_hours(a: Option<i64>, b: Option<i64>)
    ensures
        !hours_or_null(a).contains(','),
        hours_or_null(a) == hours_or_null(b) ==> a == b,
{
    reveal_strlit("null");
    assert("null"@[0] == 'n');
    if let Some(x) = a {
        lemma_decimal(x as int, x as int);
        if let Some(y) = b {
            lemma_decimal(x as int, y as int);
        } else {
            assert(decimal_numeral(x as int)[0] != 'n');
        }
    } else if let Some(y) = b {
        lemma_decimal(y as int, y as int);
        assert(decimal_numeral(y as int)[0] != 'n');
    }
}

/// The dispatch limit, or `null`.
spec fn limit_text(limit: Option<u64>) -> Seq<char> {
    match limit {
        Some(m) => numeral(m as nat),
        None => "null"@,
    }
}

/// A limit, or its absence, holds no brace, and can be read back.
proof fn lemma_limit(a: Option<u64>, b: Option<u64>)
    ensures
        !limit_text(a).contains('}'),
        limit_text(a) == limit_text(b) ==> a == b,
{
    reveal_strlit("null");
    assert("null"@[0] == 'n');
    if let Some(x) = a {
        lemma_numeral_digits(x as nat);
        assert('0' <= numeral(x as nat)[0] <= '9');
        if let Some(y) = b {
            if numeral(x as nat) == numeral(y as nat) {
                lemma_numeral_injective(x as nat, y as nat);
            }
        }
    } else if let Some(y) = b {
        lemma_numeral_digits(y as nat);
        assert('0' <= numeral(y as nat)[0] <= '9');
    }
}

/// One JSON value before a comma can be read back.
proof fn lemma_value(x: Seq<char>, s: Seq<char>, y: Seq<char>, t: Seq<char>)
    requires
        x + s == y + t,
        one_value(x),
        one_value(y),
        s.len() > 0,
        t.len() > 0,
        s[0] == ',',
        t[0] == ',',
    ensures
        x == y,
        s == t,
{
    lemma_value_no_shorter(x, s, y, t);
    lemma_value_no_shorter(y, t, x, s);
    assert((x + s).take(x.len() as int) =~= x);
    assert((y + t).take(y.len() as int) =~= y);
    lemma_same_tail(x, s, t);
}

/// A value ends before the first comma outside of it.
proof fn lemma_value_no_shorter(x: Seq<char>, s: Seq<char>, y: Seq<char>, t: Seq<char>)
    requires
        x + s == y + t,
        one_value(x),
        one_value(y),
        s.len() > 0,
        s[0] == ',',
    ensures
        x.len() >= y.len(),
{
    if x.len() < y.len() {
        let n = x.len() as int;
        let head = y.take(n + 1);
        assert(head.drop_last() =~= x) by {
            assert forall|i: int| 0 <= i < n implies head.drop_last()[i] == x[i] by {
                assert((x + s)[i] == x[i]);
                assert((y + t)[i] == y[i]);
            }
        }
        assert(head.last() == ',') by {
            assert((x + s)[n] == s[0]);
            assert((y + t)[n] == y[n]);
        }
        assert(json_step(outside(), ',') is None);
        assert(json_read(outside(), head) is None);
        assert(y =~= head + y.skip(n + 1));
        lemma_json_read(outside(), head, y.skip(n + 1));
    }
}

/// The first of several joined texts stands first.
proof fn lemma_joined_first(parts: Seq<Seq<char>>, sep: Seq<char>)
    requires
        parts.len() > 0,
    ensures
        joined(parts, sep) == parts[0] + (if parts.len() == 1 {
            Seq::<char>::empty()
        } else {
            sep + joined(parts.drop_first(), sep)
        }),
    decreases parts.len(),
{
    if parts.len() == 1 {
        assert(parts[0] + Seq::<char>::empty() =~= parts[0]);
    } else {
        let head = parts.drop_last();
        lemma_joined_first(head, sep);
        let rest = parts.drop_first();
        assert(rest.drop_last() =~= head.drop_first());
        assert(rest.last() == parts.last());
        if parts.len() == 2 {
            assert(joined(rest, sep) == rest[0]);
            assert(joined(parts, sep) =~= parts[0] + (sep + rest[0]));
        } else {
            assert(joined(rest, sep) == joined(head.drop_first(), sep) + sep + parts.last());
            assert(joined(parts, sep) =~= parts[0] + (sep + joined(rest, sep)));
        }
    }
}

/// A beginning that is one of the two texts tells which.
spec fn told_apart(p: Seq<char>, q: Seq<char>) -> bool {
    forall|u: Seq<char>, v: Seq<char>| #[trigger] (p + u) == #[trigger] (q + v) ==> p == q
}

/// A list can be read back where its parts can.
proof fn lemma_list(a: Seq<Seq<char>>, b: Seq<Seq<char>>, s: Seq<char>, t: Seq<char>)
    requires
        joined(a, ","@) + s == joined(b, ","@) + t,
        s.len() > 0,
        t.len() > 0,
        s[0] == ']',
        t[0] == ']',
        forall|i: int, j: int| 0 <= i < a.len() && 0 <= j < b.len() ==> told_apart(#[trigger] a[i], #[trigger] b[j]),
        forall|i: int| 0 <= i < a.len() ==> (#[trigger] a[i]).len() > 0 && a[i][0] != ']',
        forall|j: int| 0 <= j < b.len() ==> (#[trigger] b[j]).len() > 0 && b[j][0] != ']',
    ensures
        a == b,
        s == t,
    decreases a.len(),
{
    reveal_strlit(",");
    let comma = ","@;
    let (x, y) = (joined(a, comma) + s, joined(b, comma) + t);
    if a.len() > 0 {
        lemma_joined_first(a, comma);
        assert(x[0] == a[0][0]);
    } else {
        assert(x =~= s);
    }
    if b.len() > 0 {
        lemma_joined_first(b, comma);
        assert(y[0] == b[0][0]);
    } else {
        assert(y =~= t);
    }
    if a.len() == 0 || b.len() == 0 {
        assert(a =~= b);
    } else {
        let (c, d) = (a.drop_first(), b.drop_first());
        let p = if a.len() == 1 { s } else { comma + (joined(c, comma) + s) };
        let q = if b.len() == 1 { t } else { comma + (joined(d, comma) + t) };
        assert(x =~= a[0] + p);
        assert(y =~= b[0] + q);
        assert(told_apart(a[0], b[0]));
        assert(a[0] == b[0]);
        lemma_same_tail(a[0], p, q);
        assert(p[0] == (if a.len() == 1 { ']' } else { ',' }));
        assert(q[0] == (if b.len() == 1 { ']' } else { ',' }));
        if a.len() > 1 {
            lemma_same_tail(comma, joined(c, comma) + s, joined(d, comma) + t);
            assert forall|i: int, j: int| 0 <= i < c.len() && 0 <= j < d.len() implies told_apart(#[trigger] c[i], #[trigger] d[j]) by {
                assert(c[i] == a[i + 1] && d[j] == b[j + 1]);
            }
            assert forall|i: int| 0 <= i < c.len() implies (#[trigger] c[i]).len() > 0 && c[i][0] != ']' by {
                assert(c[i] == a[i + 1]);
            }
            assert forall|j: int| 0 <= j < d.len() implies (#[trigger] d[j]).len() > 0 && d[j][0] != ']' by {
                assert(d[j] == b[j + 1]);
            }
            lemma_list(c, d, s, t);
        }
        assert(a =~= seq![a[0]] + c);
        assert(b =~= seq![b[0]] + d);
    }
}

/// A list of JSON strings can be read back.
proof fn lemma_quoted_list(a: Seq<Seq<char>>, b: Seq<Seq<char>>, s: Seq<char>, t: Seq<char>)
    requires
        joined(quoted_all(a), ","@) + s == joined(quoted_all(b), ","@) + t,
        s.len() > 0,
        t.len() > 0,
        s[0] == ']',
        t[0] == ']',
    ensures
        a == b,
        s == t,
{
    let (x, y) = (quoted_all(a), quoted_all(b));
    assert forall|i: int, j: int| 0 <= i < x.len() && 0 <= j < y.len() implies told_apart(#[trigger] x[i], #[trigger] y[j]) by {
        assert forall|u: Seq<char>, v: Seq<char>| #[trigger] (x[i] + u) == #[trigger] (y[j] + v) implies x[i] == y[j] by {
            lemma_quoted(a[i], b[j], u, v);
        }
    }
    assert forall|i: int| 0 <= i < x.len() implies (#[trigger] x[i]).len() > 0 && x[i][0] != ']' by {
        assert(x[i][0] == '"');
    }
    assert forall|j: int| 0 <= j < y.len() implies (#[trigger] y[j]).len() > 0 && y[j][0] != ']' by {
        assert(y[j][0] == '"');
    }
    lemma_list(x, y, s, t);
    assert forall|i: int| 0 <= i < a.len() implies a[i] == b[i] by {
        assert(x[i] == y[i]);
        let none = Seq::<char>::empty();
        lemma_quoted(a[i], b[i], none, none);
    }
    assert(a =~= b);
}

/// The text of a deliverable, with what follows it, part by part.
proof fn lemma_entry_parts(d: DeliverableView, u: Seq<char>)
    ensures
        entry_text(d) + u == "{\"estimated_effort_hours\":"@ + (hours_or_null(d.effort) + (",\"id\":"@ + (json_quoted(d.id) + (
        ",\"metadata\":"@ + (d.metadata + (",\"owned_files\":["@ + (joined(quoted_all(d.owned_files), ","@) + ("],\"prerequisites\":["@ + (
        joined(quoted_all(d.prerequisites), ","@) + ("]}"@ + u)))))))))),
{
    let a = "{\"estimated_effort_hours\":"@;
    let b = hours_or_null(d.effort);
    let c = ",\"id\":"@;
    let e = json_quoted(d.id);
    let f = ",\"metadata\":"@;
    let g = d.metadata;
    let h = ",\"owned_files\":["@;
    let i = joined(quoted_all(d.owned_files), ","@);
    let j = "],\"prerequisites\":["@;
    let k = joined(quoted_all(d.prerequisites), ","@);
    let l = "]}"@;
    assert(entry_text(d) == a + b + c + e + f + g + h + i + j + k + l);
    let k1 = l + u;
    let j1 = k + k1;
    let i1 = j + j1;
    let h1 = i + i1;
    let g1 = h + h1;
    let f1 = g + g1;
    let e1 = f + f1;
    let c1 = e + e1;
    let b1 = c + c1;
    let a1 = b + b1;
    lemma_regroup(a + b + c + e + f + g + h + i + j + k, l, u);
    lemma_regroup(a + b + c + e + f + g + h + i + j, k, k1);
    lemma_regroup(a + b + c + e + f + g + h + i, j, j1);
    lemma_regroup(a + b + c + e + f + g + h, i, i1);
    lemma_regroup(a + b + c + e + f + g, h, h1);
    lemma_regroup(a + b + c + e + f, g, g1);
    lemma_regroup(a + b + c + e, f, f1);
    lemma_regroup(a + b + c, e, e1);
    lemma_regroup(a + b, c, c1);
    lemma_regroup(a, b, b1);
    assert(entry_text(d) + u == a + a1);
}

proof fn lemma_regroup(a: Seq<char>, b: Seq<char>, c: Seq<char>)
    ensures
        (a + b) + c == a + (b + c),
{
    assert((a + b) + c =~= a + (b + c));
}

/// The text of a deliverable can be read back.
proof fn lemma_entry(d: DeliverableView, e: DeliverableView, u: Seq<char>, v: Seq<char>)
    requires
        entry_text(d) + u == entry_text(e) + v,
        one_value(d.metadata),
        one_value(e.metadata),
    ensures
        d == e,
        u == v,
{
    lemma_entry_parts(d, u);
    lemma_entry_parts(e, v);
    reveal_strlit(",\"id\":");
    reveal_strlit("],\"prerequisites\":[");
    reveal_strlit("]}");
    let k1 = "]}"@ + u;
    let k2 = "]}"@ + v;
    let j1 = joined(quoted_all(d.prerequisites), ","@) + k1;
    let j2 = joined(quoted_all(e.prerequisites), ","@) + k2;
    let i1 = "],\"prerequisites\":["@ + j1;
    let i2 = "],\"prerequisites\":["@ + j2;
    let h1 = joined(quoted_all(d.owned_files), ","@) + i1;
    let h2 = joined(quoted_all(e.owned_files), ","@) + i2;
    let g1 = ",\"owned_files\":["@ + h1;
    let g2 = ",\"owned_files\":["@ + h2;
    let f1 = d.metadata + g1;
    let f2 = e.metadata + g2;
    let e1 = ",\"metadata\":"@ + f1;
    let e2 = ",\"metadata\":"@ + f2;
    let c1 = json_quoted(d.id) + e1;
    let c2 = json_quoted(e.id) + e2;
    let b1 = ",\"id\":"@ + c1;
    let b2 = ",\"id\":"@ + c2;
    let (x, y) = (hours_or_null(d.effort), hours_or_null(e.effort));
    lemma_same_tail("{\"estimated_effort_hours\":"@, x + b1, y + b2);
    lemma_hours(d.effort, e.effort);
    lemma_hours(e.effort, d.effort);
    assert(b1[0] == ',' && b2[0] == ',');
    lemma_stops(x, b1, y, b2, ',');
    lemma_same_tail(",\"id\":"@, c1, c2);
    lemma_quoted(d.id, e.id, e1, e2);
    lemma_same_tail(",\"metadata\":"@, f1, f2);
    reveal_strlit(",\"owned_files\":[");
    assert(g1[0] == ',' && g2[0] == ',');
    lemma_value(d.metadata, g1, e.metadata, g2);
    lemma_same_tail(",\"owned_files\":["@, h1, h2);
    assert(i1[0] == ']' && i2[0] == ']');
    lemma_quoted_list(d.owned_files, e.owned_files, i1, i2);
    lemma_same_tail("],\"prerequisites\":["@, j1, j2);
    assert(k1[0] == ']' && k2[0] == ']');
    lemma_quoted_list(d.prerequisites, e.prerequisites, k1, k2);
    lemma_same_tail("]}"@, u, v);
}

/// The texts of some deliverables.
spec fn entries(list: Seq<DeliverableView>) -> Seq<Seq<char>> {
    Seq::new(list.len(), |k: int| entry_text(list[k]))
}

/// The metadata of every deliverable is one JSON value.
spec fn values_whole(list: Seq<DeliverableView>) -> bool {
    forall|k: int| 0 <= k < list.len() ==> one_value((#[trigger] list[k]).metadata)
}

/// The text of a graph can be read back.
proof fn lemma_text(a: Seq<DeliverableView>, b: Seq<DeliverableView>, m: Option<u64>, n: Option<u64>)
    requires
        text_of(entries(a), m) == text_of(entries(b), n),
        values_whole(a),
        values_whole(b),
    ensures
        a == b,
        m == n,
{
    reveal_strlit("{\"estimated_effort_hours\":");
    reveal_strlit("],\"max_chained_dispatch\":");
    reveal_strlit("}");
    let (x, y) = (entries(a), entries(b));
    let (p, q) = (limit_text(m), limit_text(n));
    let head = "{\"deliverables\":["@;
    let key = "],\"max_chained_dispatch\":"@;
    let end = "}"@;
    let s = key + (p + end);
    let t = key + (q + end);
    assert(text_of(x, m) =~= head + (joined(x, ","@) + s));
    assert(text_of(y, n) =~= head + (joined(y, ","@) + t));
    lemma_same_tail(head, joined(x, ","@) + s, joined(y, ","@) + t);
    assert(s[0] == ']' && t[0] == ']');
    assert forall|i: int, j: int| 0 <= i < x.len() && 0 <= j < y.len() implies told_apart(#[trigger] x[i], #[trigger] y[j]) by {
        assert forall|u: Seq<char>, v: Seq<char>| #[trigger] (x[i] + u) == #[trigger] (y[j] + v) implies x[i] == y[j] by {
            lemma_entry(a[i], b[j], u, v);
        }
    }
    assert forall|i: int| 0 <= i < x.len() implies (#[trigger] x[i]).len() > 0 && x[i][0] != ']' by {
        lemma_entry_start(a[i]);
    }
    assert forall|j: int| 0 <= j < y.len() implies (#[trigger] y[j]).len() > 0 && y[j][0] != ']' by {
        lemma_entry_start(b[j]);
    }
    lemma_list(x, y, s, t);
    assert forall|i: int| 0 <= i < a.len() implies a[i] == b[i] by {
        assert(x[i] == y[i]);
        let none = Seq::<char>::empty();
        lemma_entry(a[i], b[i], none, none);
    }
    assert(a =~= b);
    lemma_same_tail(key, p + end, q + end);
    lemma_limit(m, n);
    lemma_limit(n, m);
    lemma_stops(p, end, q, end, '}');
}

/// The text of a deliverable starts with a brace.
proof fn lemma_entry_start(d: DeliverableView)
    ensures
        entry_text(d).len() > 0,
        entry_text(d)[0] == '{',
{
    reveal_strlit("{\"estimated_effort_hours\":");
    let none = Seq::<char>::empty();
    lemma_entry_parts(d, none);
    assert(entry_text(d) + none =~= entry_text(d));
}

/// What is tidied alike is the same up to order.
proof fn lemma_tidied_same(a: DeliverableView, b: DeliverableView)
    requires
        tidied(a) == tidied(b),
    ensures
        same_deliverable(a, b),
{
    let leq = |a: Seq<char>, b: Seq<char>| text_leq(a, b);
    lemma_text_leq_total();
    a.owned_files.lemma_sort_by_ensures(leq);
    b.owned_files.lemma_sort_by_ensures(leq);
    a.prerequisites.lemma_sort_by_ensures(leq);
    b.prerequisites.lemma_sort_by_ensures(leq);
    assert(tidied(a).id == tidied(b).id);
    assert(tidied(a).owned_files == sorted_texts(a.owned_files));
    assert(tidied(b).owned_files == sorted_texts(b.owned_files));
    assert(tidied(a).prerequisites == sorted_texts(a.prerequisites));
    assert(tidied(b).prerequisites == sorted_texts(b.prerequisites));
}

/// The order of a graph's ids that its canonical list follows.
proof fn lemma_listed_order(graph: GraphView) -> (order: Seq<int>)
    ensures
        id_order(deliverable_ids(graph), order),
        canonical_list(graph) == Seq::new(order.len(), |k: int| tidied(graph.deliverables[order[k]])),
{
    let ids = deliverable_ids(graph);
    let member = |i: int| 0 <= i < ids.len();
    let before = |i: int, j: int| id_ahead(ids, i, j);
    lemma_id_order(ids);
    let found = lemma_listing_exists(ids.len(), member, before);
    let below = |i: int| 0 <= i < ids.len() && member(i);
    assert(lists_in_order(found, below, before));
    lemma_relist(found, below, before, member, before);
    assert(id_order(ids, found));
    let order = choose|o: Seq<int>| id_order(ids, o);
    order
}

/// Graphs that have the same canonical list have the same deliverables.
proof fn lemma_listed_contained(a: GraphView, b: GraphView)
    requires
        canonical_list(a) == canonical_list(b),
    ensures
        contained(a, b),
{
    let oa = lemma_listed_order(a);
    let ob = lemma_listed_order(b);
    let ma = |i: int| 0 <= i < deliverable_ids(a).len();
    let mb = |i: int| 0 <= i < deliverable_ids(b).len();
    assert forall|i: int| 0 <= i < a.deliverables.len() implies found_in(#[trigger] a.deliverables[i], b) by {
        assert(ma(i));
        assert(oa.contains(i));
        let k = choose|k: int| 0 <= k < oa.len() && oa[k] == i;
        assert(canonical_list(a).len() == oa.len());
        assert(canonical_list(b).len() == ob.len());
        assert(canonical_list(a)[k] == canonical_list(b)[k]);
        let j = ob[k];
        assert(mb(ob[k]));
        lemma_tidied_same(a.deliverables[i], b.deliverables[j]);
        assert(same_deliverable(a.deliverables[i], b.deliverables[j]));
    }
}

/// The digest tells two byte strings apart.
pub open spec fn no_collision(x: Seq<u8>, y: Seq<u8>) -> bool {
    sha256_of(x) == sha256_of(y) ==> x == y
}

/// The tidied deliverables of a graph whose metadata is JSON hold JSON.
proof fn lemma_listed_whole(graph: GraphView)
    requires
        metadata_whole(graph),
    ensures
        values_whole(canonical_list(graph)),
{
    let order = lemma_listed_order(graph);
    let member = |i: int| 0 <= i < deliverable_ids(graph).len();
    assert forall|k: int| 0 <= k < canonical_list(graph).len() implies one_value((#[trigger] canonical_list(graph)[k]).metadata) by {
        assert(member(order[k]));
        assert(one_value(metadata_form(graph.deliverables[order[k]].metadata)));
    }
}

/// Two graphs have the same canonical text exactly when they hold the same
/// deliverables, up to the order of the deliverables and of the files and
/// prerequisites of each, and the layout of their metadata. Where the digest tells their texts apart, so does
/// the hash.
pub proof fn hash_tells_graphs_apart(a: GraphView, b: GraphView)
    requires
        deliverable_ids(a).no_duplicates(),
        deliverable_ids(b).no_duplicates(),
        metadata_whole(a),
        metadata_whole(b),
    ensures
        canonical_text(a) == canonical_text(b) <==> rearranged(a, b),
        no_collision(encode_utf8(canonical_text(a)), encode_utf8(canonical_text(b))) ==> (graph_hash(a) == graph_hash(b) <==> rearranged(a, b)),
{
    if canonical_text(a) == canonical_text(b) {
        assert(entries(canonical_list(a)) =~= Seq::new(canonical_list(a).len(), |k: int| entry_text(canonical_list(a)[k])));
        assert(entries(canonical_list(b)) =~= Seq::new(canonical_list(b).len(), |k: int| entry_text(canonical_list(b)[k])));
        lemma_listed_whole(a);
        lemma_listed_whole(b);
        lemma_text(canonical_list(a), canonical_list(b), a.max_chained_dispatch, b.max_chained_dispatch);
        lemma_listed_contained(a, b);
        lemma_listed_contained(b, a);
    }
    if rearranged(a, b) {
        hash_ignores_order(a, b);
    }
    encode_utf8_decode_utf8(canonical_text(a));
    encode_utf8_decode_utf8(canonical_text(b));
}

/// The list holds the texts of the other, none after one that it precedes.
pub open spec fn in_text_order(sorted: Seq<Seq<char>>, list: Seq<Seq<char>>) -> bool {
    &&& sorted.to_multiset() == list.to_multiset()
    &&& forall|a: int, b: int| 0 <= a < b < sorted.len() ==> !text_less(#[trigger] sorted[b], #[trigger] sorted[a])
}

/// Sorting texts puts them in order.
proof fn lemma_in_text_order(list: Seq<Seq<char>>)
    ensures
        in_text_order(sorted_texts(list), list),
{
    let leq = |a: Seq<char>, b: Seq<char>| text_leq(a, b);
    lemma_text_leq_total();
    list.lemma_sort_by_ensures(leq);
    let sorted = sorted_texts(list);
    assert forall|a: int, b: int| 0 <= a < b < sorted.len() implies !text_less(#[trigger] sorted[b], #[trigger] sorted[a]) by {
        assert(leq(sorted[a], sorted[b]));
        lemma_text_less_irreflexive(sorted[a]);
        if text_less(sorted[b], sorted[a]) && text_less(sorted[a], sorted[b]) {
            lemma_text_less_transitive(sorted[a], sorted[b], sorted[a]);
        }
    }
}

/// The canonical form of deliverable `d`: the same id and effort, its metadata
/// in its compact form, its files and prerequisites by their text.
pub open spec fn settled_form(c: DeliverableView, d: DeliverableView) -> bool {
    &&& c.id == d.id
    &&& c.effort == d.effort
    &&& c.metadata == metadata_form(d.metadata)
    &&& in_text_order(c.owned_files, d.owned_files)
    &&& in_text_order(c.prerequisites, d.prerequisites)
}

/// The canonical form of a graph lists its deliverables by the text of their
/// ids, each in its own canonical form.
pub proof fn canonical_lists_come_by_id(graph: GraphView)
    ensures
        forall|k: int, l: int| 0 <= k < l < canonical_list(graph).len() ==> !text_less((#[trigger] canonical_list(graph)[l]).id, (#[trigger] canonical_list(graph)[k]).id),
        forall|k: int| 0 <= k < canonical_list(graph).len() ==> has_form(graph, #[trigger] canonical_list(graph)[k]),
        forall|i: int| 0 <= i < graph.deliverables.len() ==> takes_form(canonical_list(graph), #[trigger] graph.deliverables[i]),
{
    let ids = deliverable_ids(graph);
    let list = canonical_list(graph);
    let order = lemma_listed_order(graph);
    let member = |i: int| 0 <= i < ids.len();
    let before = |i: int, j: int| id_ahead(ids, i, j);
    assert forall|k: int, l: int| 0 <= k < l < list.len() implies !text_less((#[trigger] list[l]).id, (#[trigger] list[k]).id) by {
        assert(before(order[k], order[l]));
        assert(member(order[k]) && member(order[l]));
        let x = ids[order[k]];
        let y = ids[order[l]];
        lemma_text_less_irreflexive(x);
        if text_less(x, y) && text_less(y, x) {
            lemma_text_less_transitive(x, y, x);
        }
    }
    assert forall|k: int| 0 <= k < list.len() implies has_form(graph, #[trigger] list[k]) by {
        assert(member(order[k]));
        let d = graph.deliverables[order[k]];
        lemma_in_text_order(d.owned_files);
        lemma_in_text_order(d.prerequisites);
        assert(settled_form(list[k], d));
    }
    assert forall|i: int| 0 <= i < graph.deliverables.len() implies takes_form(list, #[trigger] graph.deliverables[i]) by {
        assert(member(i));
        assert(order.contains(i));
        let k = choose|k: int| 0 <= k < order.len() && order[k] == i;
        let d = graph.deliverables[i];
        lemma_in_text_order(d.owned_files);
        lemma_in_text_order(d.prerequisites);
        assert(settled_form(list[k], d));
    }
}

/// The list holds the canonical form of the deliverable.
pub open spec fn takes_form(list: Seq<DeliverableView>, d: DeliverableView) -> bool {
    exists|k: int| 0 <= k < list.len() && settled_form(#[trigger] list[k], d)
}

/// The canonical form is that of some deliverable of the graph.
pub open spec fn has_form(graph: GraphView, c: DeliverableView) -> bool {
    exists|i: int| 0 <= i < graph.deliverables.len() && settled_form(c, #[trigger] graph.deliverables[i])
}

} // verus!
