//! What numerals and the order of texts say.

use vstd::prelude::*;
use vstd::utf8::encode_utf8;

use crate::text::{
    bytes_less, decimal_numeral, digit, fraction, joined, million, numeral, padded, signed_numeral, ten_to, text_less,
};

verus! {

/// The number that a decimal numeral stands for.
pub open spec fn value_of(digits: Seq<char>) -> int
    decreases digits.len(),
{
    if digits.len() == 0 {
        0
    } else {
        10 * value_of(digits.drop_last()) + (digits.last() as int - '0' as int)
    }
}

/// A numeral is made of decimal digits, stands for its number, and has no
/// leading zero but for zero itself.
pub proof fn numerals_stand_for_numbers(n: nat)
    ensures
        numeral(n).len() > 0,
        forall|k: int| 0 <= k < numeral(n).len() ==> '0' <= #[trigger] numeral(n)[k] && numeral(n)[k] <= '9',
        value_of(numeral(n)) == n,
        n > 0 ==> numeral(n)[0] != '0',
        n == 0 ==> numeral(n).len() == 1,
    decreases n,
{
    let d = (n % 10) as int;
    assert(digit(d) as int == '0' as int + d);
    if n < 10 {
        assert(numeral(n).drop_last() =~= Seq::<char>::empty());
        assert(value_of(numeral(n).drop_last()) == 0);
    } else {
        numerals_stand_for_numbers(n / 10);
        assert(numeral(n).drop_last() =~= numeral(n / 10));
        assert(numeral(n)[0] == numeral(n / 10)[0]);
    }
}

/// A number below zero has a minus sign before its numeral, and no other does.
pub proof fn signs_stand_before_numerals(n: int)
    ensures
        n < 0 ==> signed_numeral(n) == seq!['-'] + numeral((-n) as nat),
        n >= 0 ==> signed_numeral(n) == numeral(n as nat) && signed_numeral(n)[0] != '-',
{
    if n >= 0 {
        numerals_stand_for_numbers(n as nat);
        assert('0' <= numeral(n as nat)[0]);
    }
}

/// Bytes come by the first place at which they differ; what ends there comes
/// first.
pub proof fn bytes_come_by_the_first_difference(a: Seq<u8>, b: Seq<u8>)
    ensures
        bytes_less(a, b) <==> exists|k: int| #[trigger] differs_first(a, b, k) && (k == a.len() || a[k] < b[k]),
    decreases a.len(),
{
    if a.len() > 0 && b.len() > 0 {
        let x = a.drop_first();
        let y = b.drop_first();
        bytes_come_by_the_first_difference(x, y);
        if a[0] != b[0] {
            assert(a.take(0) =~= b.take(0));
            assert(differs_first(a, b, 0));
            assert forall|k: int| #[trigger] differs_first(a, b, k) implies k == 0 by {
                if k > 0 {
                    assert(a.take(k)[0] == b.take(k)[0]);
                }
            }
        } else {
            if bytes_less(a, b) {
                let k = choose|k: int| #[trigger] differs_first(x, y, k) && (k == x.len() || x[k] < y[k]);
                assert(a.take(k + 1) =~= seq![a[0]] + x.take(k));
                assert(b.take(k + 1) =~= seq![b[0]] + y.take(k));
                assert(differs_first(a, b, k + 1));
            }
            if exists|k: int| #[trigger] differs_first(a, b, k) && (k == a.len() || a[k] < b[k]) {
                let k = choose|k: int| #[trigger] differs_first(a, b, k) && (k == a.len() || a[k] < b[k]);
                assert(k > 0);
                assert(x.take(k - 1) =~= a.take(k).drop_first());
                assert(y.take(k - 1) =~= b.take(k).drop_first());
                assert(differs_first(x, y, k - 1));
            }
        }
    } else if b.len() > 0 {
        assert(a.take(0) =~= b.take(0));
        assert(differs_first(a, b, 0));
    } else {
        assert forall|k: int| #[trigger] differs_first(a, b, k) implies !(k == a.len() || a[k] < b[k]) by {}
    }
}

/// The two agree up to `k`, and `b` goes on there.
pub open spec fn differs_first(a: Seq<u8>, b: Seq<u8>, k: int) -> bool {
    &&& 0 <= k <= a.len()
    &&& k < b.len()
    &&& a.take(k) == b.take(k)
}

/// Texts come in the order of their UTF-8 bytes.
pub proof fn texts_come_by_their_bytes(a: Seq<char>, b: Seq<char>)
    ensures
        text_less(a, b) <==> exists|k: int| #[trigger] differs_first(encode_utf8(a), encode_utf8(b), k) && (k == encode_utf8(a).len() || encode_utf8(a)[k] < encode_utf8(b)[k]),
{
    bytes_come_by_the_first_difference(encode_utf8(a), encode_utf8(b));
}

/// Joined texts stand one after the other with the separator between them.
pub proof fn joining_puts_the_separator_between(x: Seq<Seq<char>>, y: Seq<Seq<char>>, one: Seq<char>, sep: Seq<char>)
    ensures
        joined(Seq::<Seq<char>>::empty(), sep).len() == 0,
        joined(seq![one], sep) == one,
        x.len() > 0 && y.len() > 0 ==> joined(x + y, sep) == joined(x, sep) + sep + joined(y, sep),
    decreases y.len(),
{
    if x.len() > 0 && y.len() > 0 {
        if y.len() == 1 {
            assert((x + y).drop_last() =~= x);
        } else {
            joining_puts_the_separator_between(x, y.drop_last(), one, sep);
            assert((x + y).drop_last() =~= x + y.drop_last());
            assert(joined(x + y, sep) =~= joined(x, sep) + sep + joined(y, sep));
        }
    }
}

/// The last digits of a number.
proof fn lemma_padded_value(n: nat, p: nat)
    requires
        n < ten_to(p),
    ensures
        padded(n, p).len() == p,
        value_of(padded(n, p)) == n,
        p > 0 ==> padded(n, p).last() as int == '0' as int + n % 10,
        forall|k: int| 0 <= k < p ==> '0' <= #[trigger] padded(n, p)[k] && padded(n, p)[k] <= '9',
    decreases p,
{
    if p > 0 {
        let d = (n % 10) as int;
        assert(digit(d) as int == '0' as int + d);
        lemma_padded_value(n / 10, (p - 1) as nat);
        assert(padded(n, p).drop_last() =~= padded(n / 10, (p - 1) as nat));
    }
}

/// A fraction has no idle zeros at its end, and stands for its number in the
/// last of the places it may have.
proof fn lemma_fraction_value(n: nat, p: nat)
    requires
        p > 0,
        n < ten_to(p),
    ensures
        1 <= fraction(n, p).len() <= p,
        value_of(fraction(n, p)) * ten_to((p - fraction(n, p).len()) as nat) == n,
        fraction(n, p).len() > 1 ==> fraction(n, p).last() != '0',
        forall|k: int| 0 <= k < fraction(n, p).len() ==> '0' <= #[trigger] fraction(n, p)[k] && fraction(n, p)[k] <= '9',
    decreases p,
{
    if p > 1 && n % 10 == 0 {
        let m = n / 10;
        lemma_fraction_value(m, (p - 1) as nat);
        let f = fraction(m, (p - 1) as nat);
        let v = value_of(f);
        let t = ten_to((p - 1 - f.len()) as nat) as int;
        assert(ten_to((p - f.len()) as nat) == 10 * t);
        assert(v * (10 * t) == 10 * (v * t)) by (nonlinear_arith);
    } else {
        lemma_padded_value(n, p);
        assert(ten_to(0) == 1);
        let v = value_of(padded(n, p));
        assert(v * 1 == v) by (nonlinear_arith);
    }
}

/// A number of millionths is written as a decimal: a sign where it is below
/// zero, the numeral of the whole part, a point and one to six digits, of which
/// the last is no zero unless it is the only one. Together they stand for the
/// number exactly.
pub proof fn decimals_stand_for_millionths(n: int) -> (parts: (Seq<char>, Seq<char>))
    ensures
        decimal_numeral(n) == (if n < 0 { seq!['-'] } else { Seq::<char>::empty() }) + parts.0 + seq!['.'] + parts.1,
        exists|whole: nat| parts.0 == #[trigger] numeral(whole),
        1 <= parts.1.len() <= 6,
        parts.1.len() > 1 ==> parts.1.last() != '0',
        forall|k: int| 0 <= k < parts.1.len() ==> '0' <= #[trigger] parts.1[k] && parts.1[k] <= '9',
        value_of(parts.0) * 1_000_000 + value_of(parts.1) * ten_to((6 - parts.1.len()) as nat) == (if n < 0 { -n } else { n }),
{
    let size = if n < 0 { -n } else { n };
    let whole = (size / million()) as nat;
    let rest = (size % million()) as nat;
    reveal_with_fuel(ten_to, 8);
    assert(ten_to(6) == 1_000_000);
    numerals_stand_for_numbers(whole);
    lemma_fraction_value(rest, 6);
    let parts = (numeral(whole), fraction(rest, 6));
    if n < 0 {
        assert(decimal_numeral(n) =~= seq!['-'] + parts.0 + seq!['.'] + parts.1);
    } else {
        assert(decimal_numeral(n) =~= Seq::<char>::empty() + parts.0 + seq!['.'] + parts.1);
    }
    parts
}

} // verus!
