//! Text: byte-wise ordering, decimal numerals, and joining.

use vstd::prelude::*;
use vstd::string::*;
use vstd::utf8::*;

verus! {

/// Strict lexicographic order on byte strings.
pub open spec fn bytes_less(a: Seq<u8>, b: Seq<u8>) -> bool
    decreases a.len(),
{
    if b.len() == 0 {
        false
    } else if a.len() == 0 {
        true
    } else if a[0] != b[0] {
        a[0] < b[0]
    } else {
        bytes_less(a.drop_first(), b.drop_first())
    }
}

/// Strict order on text: that of its UTF-8 bytes.
pub open spec fn text_less(a: Seq<char>, b: Seq<char>) -> bool {
    bytes_less(encode_utf8(a), encode_utf8(b))
}

proof fn lemma_bytes_less_irreflexive(a: Seq<u8>)
    ensures
        !bytes_less(a, a),
    decreases a.len(),
{
    if a.len() > 0 {
        lemma_bytes_less_irreflexive(a.drop_first());
    }
}

proof fn lemma_bytes_less_transitive(a: Seq<u8>, b: Seq<u8>, c: Seq<u8>)
    requires
        bytes_less(a, b),
        bytes_less(b, c),
    ensures
        bytes_less(a, c),
    decreases a.len(),
{
    if a.len() > 0 && a[0] == b[0] && b[0] == c[0] {
        lemma_bytes_less_transitive(a.drop_first(), b.drop_first(), c.drop_first());
    }
}

proof fn lemma_bytes_less_total(a: Seq<u8>, b: Seq<u8>)
    ensures
        bytes_less(a, b) || bytes_less(b, a) || a == b,
    decreases a.len(),
{
    if a.len() == 0 || b.len() == 0 {
        if a.len() == 0 && b.len() == 0 {
            assert(a =~= b);
        }
    } else if a[0] == b[0] {
        lemma_bytes_less_total(a.drop_first(), b.drop_first());
        if a.drop_first() == b.drop_first() {
            assert(a =~= seq![a[0]] + a.drop_first());
            assert(b =~= seq![b[0]] + b.drop_first());
        }
    }
}

/// No text precedes itself.
pub proof fn lemma_text_less_irreflexive(a: Seq<char>)
    ensures
        !text_less(a, a),
{
    lemma_bytes_less_irreflexive(encode_utf8(a));
}

/// The order on text is transitive.
pub proof fn lemma_text_less_transitive(a: Seq<char>, b: Seq<char>, c: Seq<char>)
    requires
        text_less(a, b),
        text_less(b, c),
    ensures
        text_less(a, c),
{
    lemma_bytes_less_transitive(encode_utf8(a), encode_utf8(b), encode_utf8(c));
}

/// Any two different texts are ordered.
pub proof fn lemma_text_less_total(a: Seq<char>, b: Seq<char>)
    ensures
        text_less(a, b) || text_less(b, a) || a == b,
{
    lemma_bytes_less_total(encode_utf8(a), encode_utf8(b));
    if encode_utf8(a) == encode_utf8(b) {
        encode_utf8_decode_utf8(a);
        encode_utf8_decode_utf8(b);
    }
}

/// Whether `a` precedes `b` in the order on text.
pub fn text_lt(a: &str, b: &str) -> (r: bool)
    ensures
        r == text_less(a@, b@),
{
    let x = a.as_bytes();
    let y = b.as_bytes();
    let mut i: usize = 0;
    assert(x@.skip(0) =~= x@);
    assert(y@.skip(0) =~= y@);
    while i < x.len() && i < y.len()
        invariant
            i <= x@.len(),
            i <= y@.len(),
            x@ == encode_utf8(a@),
            y@ == encode_utf8(b@),
            bytes_less(x@, y@) == bytes_less(x@.skip(i as int), y@.skip(i as int)),
        decreases x.len() - i,
    {
        if x[i] != y[i] {
            return x[i] < y[i];
        }
        assert(x@.skip(i as int).drop_first() =~= x@.skip(i + 1));
        assert(y@.skip(i as int).drop_first() =~= y@.skip(i + 1));
        i += 1;
    }
    i < y.len()
}

/// The decimal digit for `d`.
pub open spec fn digit(d: int) -> char {
    if d == 0 { '0' } else if d == 1 { '1' } else if d == 2 { '2' } else if d == 3 { '3' }
    else if d == 4 { '4' } else if d == 5 { '5' } else if d == 6 { '6' } else if d == 7 { '7' }
    else if d == 8 { '8' } else { '9' }
}

/// The decimal numeral of `n`, without leading zeros.
pub open spec fn numeral(n: nat) -> Seq<char>
    decreases n,
{
    if n < 10 {
        seq![digit(n as int)]
    } else {
        numeral(n / 10).push(digit((n % 10) as int))
    }
}

/// The decimal numeral of an integer, with a leading minus sign where it is negative.
pub open spec fn signed_numeral(n: int) -> Seq<char> {
    if n < 0 {
        seq!['-'] + numeral((-n) as nat)
    } else {
        numeral(n as nat)
    }
}

/// How many millionths make one.
pub open spec fn million() -> int {
    1_000_000
}

/// Ten to the power `p`.
pub open spec fn ten_to(p: nat) -> nat
    decreases p,
{
    if p == 0 {
        1
    } else {
        10 * ten_to((p - 1) as nat)
    }
}

/// The last `p` decimal digits of `n`.
pub open spec fn padded(n: nat, p: nat) -> Seq<char>
    decreases p,
{
    if p == 0 {
        Seq::empty()
    } else {
        padded(n / 10, (p - 1) as nat).push(digit((n % 10) as int))
    }
}

/// The `p` digits of a decimal fraction, without the zeros at its end, and at
/// least one.
pub open spec fn fraction(n: nat, p: nat) -> Seq<char>
    decreases p,
{
    if p > 1 && n % 10 == 0 {
        fraction(n / 10, (p - 1) as nat)
    } else {
        padded(n, p)
    }
}

/// A number of millionths as a decimal numeral.
pub open spec fn decimal_numeral(n: int) -> Seq<char> {
    let size = if n < 0 { (-n) as nat } else { n as nat };
    let digits = numeral((size as int / million()) as nat) + seq!['.'] + fraction((size as int % million()) as nat, 6);
    if n < 0 {
        seq!['-'] + digits
    } else {
        digits
    }
}

fn digit_text(d: u8) -> (r: &'static str)
    requires
        d < 10,
    ensures
        r@ == seq![digit(d as int)],
{
    proof {
        reveal_strlit("0");
        reveal_strlit("1");
        reveal_strlit("2");
        reveal_strlit("3");
        reveal_strlit("4");
        reveal_strlit("5");
        reveal_strlit("6");
        reveal_strlit("7");
        reveal_strlit("8");
        reveal_strlit("9");
        assert("0"@ =~= seq!['0']);
        assert("1"@ =~= seq!['1']);
        assert("2"@ =~= seq!['2']);
        assert("3"@ =~= seq!['3']);
        assert("4"@ =~= seq!['4']);
        assert("5"@ =~= seq!['5']);
        assert("6"@ =~= seq!['6']);
        assert("7"@ =~= seq!['7']);
        assert("8"@ =~= seq!['8']);
        assert("9"@ =~= seq!['9']);
    }
    if d == 0 { "0" } else if d == 1 { "1" } else if d == 2 { "2" } else if d == 3 { "3" }
    else if d == 4 { "4" } else if d == 5 { "5" } else if d == 6 { "6" } else if d == 7 { "7" }
    else if d == 8 { "8" } else { "9" }
}

/// The decimal numeral of `n`.
pub fn decimal(n: u64) -> (r: String)
    ensures
        r@ == numeral(n as nat),
    decreases n,
{
    let last = digit_text((n % 10) as u8);
    if n < 10 {
        String::from_str(last)
    } else {
        let mut head = decimal(n / 10);
        head.append(last);
        assert(head@ =~= numeral((n / 10) as nat) + seq![digit((n % 10) as int)]);
        head
    }
}

/// The decimal numeral of an integer.
pub fn signed_decimal(n: i64) -> (r: String)
    ensures
        r@ == signed_numeral(n as int),
{
    if n < 0 {
        let magnitude: u64 = if n == i64::MIN { 9_223_372_036_854_775_808u64 } else { (-n) as u64 };
        let mut r = String::from_str("-");
        let digits = decimal(magnitude);
        r.append(digits.as_str());
        proof {
            reveal_strlit("-");
            assert("-"@ =~= seq!['-']);
        }
        r
    } else {
        decimal(n as u64)
    }
}

/// The last `p` decimal digits of `n`.
fn padded_text(n: u64, p: u8) -> (r: String)
    ensures
        r@ == padded(n as nat, p as nat),
    decreases p,
{
    if p == 0 {
        let r = String::new();
        assert(r@ =~= Seq::<char>::empty());
        r
    } else {
        let mut head = padded_text(n / 10, p - 1);
        let ghost before = head@;
        head.append(digit_text((n % 10) as u8));
        assert(head@ =~= before.push(digit((n % 10) as int)));
        head
    }
}

/// The `p` digits of a decimal fraction, without the zeros at its end.
fn fraction_text(n: u64, p: u8) -> (r: String)
    ensures
        r@ == fraction(n as nat, p as nat),
    decreases p,
{
    if p > 1 && n % 10 == 0 {
        fraction_text(n / 10, p - 1)
    } else {
        padded_text(n, p)
    }
}

/// A number of millionths as a decimal numeral.
pub fn decimal_text(n: i64) -> (r: String)
    ensures
        r@ == decimal_numeral(n as int),
{
    let size: u64 = if n == i64::MIN { 9_223_372_036_854_775_808u64 } else if n < 0 { (-n) as u64 } else { n as u64 };
    let mut digits = decimal(size / 1_000_000);
    digits.append(".");
    let rest = fraction_text(size % 1_000_000, 6);
    digits.append(rest.as_str());
    proof {
        reveal_strlit("-");
        reveal_strlit(".");
        assert("-"@ =~= seq!['-']);
        assert("."@ =~= seq!['.']);
    }
    if n < 0 {
        let mut r = String::from_str("-");
        r.append(digits.as_str());
        r
    } else {
        digits
    }
}

/// The texts in order, with `sep` between neighbours.
pub open spec fn joined(parts: Seq<Seq<char>>, sep: Seq<char>) -> Seq<char>
    decreases parts.len(),
{
    if parts.len() == 0 {
        Seq::empty()
    } else if parts.len() == 1 {
        parts[0]
    } else {
        joined(parts.drop_last(), sep) + sep + parts.last()
    }
}

/// Joins texts with a separator.
pub fn join(parts: &Vec<String>, sep: &str) -> (r: String)
    ensures
        r@ == joined(parts.deep_view(), sep@),
{
    let mut r = String::new();
    let ghost all = parts.deep_view();
    for i in 0..parts.len()
        invariant
            all == parts.deep_view(),
            r@ == joined(all.take(i as int), sep@),
    {
        if i > 0 {
            r.append(sep);
        }
        r.append(parts[i].as_str());
        assert(all.take(i + 1).drop_last() =~= all.take(i as int));
        assert(all[i as int] == parts[i as int]@);
        if i == 0 {
            assert(r@ =~= all[0]);
        }
    }
    assert(all.take(parts.len() as int) =~= all);
    r
}

/// A copy of a list of texts.
pub fn copy_texts(v: &Vec<String>) -> (r: Vec<String>)
    ensures
        r.deep_view() == v.deep_view(),
{
    let mut r: Vec<String> = Vec::new();
    for i in 0..v.len()
        invariant
            r.len() == i,
            forall|k: int| 0 <= k < i ==> r[k]@ == v[k]@,
    {
        r.push(v[i].clone());
    }
    assert(r.deep_view() =~= v.deep_view());
    r
}

/// Whether two texts are equal.
pub fn same_text(a: &str, b: &str) -> (r: bool)
    ensures
        r == (a@ == b@),
{
    if text_lt(a, b) {
        proof {
            lemma_text_less_irreflexive(a@);
        }
        return false;
    }
    if text_lt(b, a) {
        proof {
            lemma_text_less_irreflexive(a@);
        }
        return false;
    }
    proof {
        lemma_text_less_total(a@, b@);
    }
    true
}

} // verus!
