//! Exact fractions.

use vstd::prelude::*;

verus! {

/// The fraction `num / den`.
#[derive(Debug, Clone, Copy, PartialEq, Eq, Structural)]
pub struct Ratio {
    /// Numerator.
    pub num: i128,
    /// Denominator.
    pub den: i128,
}

impl Ratio {
    /// A fraction has a positive denominator.
    pub open spec fn valid(self) -> bool {
        self.den > 0
    }

    /// Strict order of the values.
    pub open spec fn below(self, other: Ratio) -> bool {
        self.num * other.den < other.num * self.den
    }

    /// Whether this fraction is smaller than `other`.
    pub fn less_than(&self, other: &Ratio) -> (r: bool)
        requires
            self.valid(),
            other.valid(),
        ensures
            r == self.below(*other),
    {
        let b: u128 = self.den as u128;
        let d: u128 = other.den as u128;
        if self.num < 0 && other.num >= 0 {
            assert(self.num * other.den < 0) by (nonlinear_arith)
                requires
                    self.num < 0,
                    other.den > 0,
            ;
            assert(other.num * self.den >= 0) by (nonlinear_arith)
                requires
                    other.num >= 0,
                    self.den > 0,
            ;
            true
        } else if self.num >= 0 && other.num < 0 {
            assert(self.num * other.den >= 0) by (nonlinear_arith)
                requires
                    self.num >= 0,
                    other.den > 0,
            ;
            assert(other.num * self.den < 0) by (nonlinear_arith)
                requires
                    other.num < 0,
                    self.den > 0,
            ;
            false
        } else if self.num >= 0 {
            fraction_less(self.num as u128, b, other.num as u128, d)
        } else {
            let x: u128 = magnitude(self.num);
            let y: u128 = magnitude(other.num);
            let r = fraction_less(y, d, x, b);
            assert(y * b == -(other.num * self.den)) by (nonlinear_arith)
                requires
                    y == -other.num,
                    b == self.den,
            ;
            assert(x * d == -(self.num * other.den)) by (nonlinear_arith)
                requires
                    x == -self.num,
                    d == other.den,
            ;
            r
        }
    }
}

/// The absolute value of a negative number.
fn magnitude(x: i128) -> (r: u128)
    requires
        x < 0,
    ensures
        r == -x,
{
    let shifted: i128 = -(x + 1);
    shifted as u128 + 1
}

/// Whether `a / b < c / d`, by comparing whole parts and then remainders.
fn fraction_less(a: u128, b: u128, c: u128, d: u128) -> (r: bool)
    requires
        b > 0,
        d > 0,
    ensures
        r == (a * d < c * b),
    decreases b + d,
{
    let p: u128 = a / b;
    let q: u128 = c / d;
    let x: u128 = a % b;
    let y: u128 = c % d;
    proof {
        lemma_whole_parts(a as int, b as int, c as int, d as int, p as int, q as int, x as int, y as int);
    }
    if p != q {
        return p < q;
    }
    if y == 0 {
        assert(x * d >= 0) by (nonlinear_arith)
            requires
                x >= 0,
                d > 0,
        ;
        assert(y * b == 0) by (nonlinear_arith)
            requires
                y == 0,
        ;
        return false;
    }
    if x == 0 {
        assert(x * d == 0) by (nonlinear_arith)
            requires
                x == 0,
        ;
        assert(y * b > 0) by (nonlinear_arith)
            requires
                y > 0,
                b > 0,
        ;
        return true;
    }
    // With equal whole parts, x / b < y / d exactly when d / y < b / x.
    let r = fraction_less(d, y, b, x);
    assert(d * x == x * d && b * y == y * b) by (nonlinear_arith);
    r
}

proof fn lemma_whole_parts(a: int, b: int, c: int, d: int, p: int, q: int, x: int, y: int)
    requires
        a >= 0,
        b > 0,
        c >= 0,
        d > 0,
        p == a / b,
        q == c / d,
        x == a % b,
        y == c % d,
    ensures
        0 <= x < b,
        0 <= y < d,
        p < q ==> a * d < c * b,
        p > q ==> !(a * d < c * b),
        p == q ==> (a * d < c * b <==> x * d < y * b),
{
    assert(a == p * b + x && 0 <= x < b) by (nonlinear_arith)
        requires
            a >= 0,
            b > 0,
            p == a / b,
            x == a % b,
    ;
    assert(c == q * d + y && 0 <= y < d) by (nonlinear_arith)
        requires
            c >= 0,
            d > 0,
            q == c / d,
            y == c % d,
    ;
    assert(a * d == p * (b * d) + x * d) by (nonlinear_arith)
        requires
            a == p * b + x,
    ;
    assert(c * b == q * (b * d) + y * b) by (nonlinear_arith)
        requires
            c == q * d + y,
    ;
    assert(0 <= x * d < b * d) by (nonlinear_arith)
        requires
            0 <= x < b,
            d > 0,
    ;
    assert(0 <= y * b < b * d) by (nonlinear_arith)
        requires
            0 <= y < d,
            b > 0,
    ;
    if p < q {
        assert(p * (b * d) + b * d <= q * (b * d)) by (nonlinear_arith)
            requires
                p + 1 <= q,
                b * d > 0,
        ;
    }
    if p > q {
        assert(q * (b * d) + b * d <= p * (b * d)) by (nonlinear_arith)
            requires
                q + 1 <= p,
                b * d > 0,
        ;
    }
}

/// The order of fractions is transitive.
pub proof fn lemma_below_transitive(a: Ratio, b: Ratio, c: Ratio)
    requires
        a.valid(),
        b.valid(),
        c.valid(),
        a.below(b),
        b.below(c),
    ensures
        a.below(c),
{
    lemma_chain(a.num as int, a.den as int, b.num as int, b.den as int, c.num as int, c.den as int, 1);
}

/// Being at most as large is transitive for fractions.
pub proof fn lemma_at_most_transitive(a: Ratio, b: Ratio, c: Ratio)
    requires
        a.valid(),
        b.valid(),
        c.valid(),
        !b.below(a),
        !c.below(b),
    ensures
        !c.below(a),
{
    lemma_chain(a.num as int, a.den as int, b.num as int, b.den as int, c.num as int, c.den as int, 0);
}

proof fn lemma_chain(an: int, ad: int, bn: int, bd: int, cn: int, cd: int, gap: int)
    requires
        ad > 0,
        bd > 0,
        cd > 0,
        gap == 0 || gap == 1,
        an * bd + gap <= bn * ad,
        bn * cd + gap <= cn * bd,
    ensures
        an * cd + gap <= cn * ad,
{
    assert((an * cd) * bd + gap * cd <= (bn * cd) * ad) by (nonlinear_arith)
        requires
            an * bd + gap <= bn * ad,
            cd > 0,
    ;
    assert((bn * cd) * ad + gap * ad <= (cn * ad) * bd) by (nonlinear_arith)
        requires
            bn * cd + gap <= cn * bd,
            ad > 0,
    ;
    assert((an * cd) * bd + gap * cd + gap * ad <= (cn * ad) * bd);
    if gap == 0 {
        assert(an * cd <= cn * ad) by (nonlinear_arith)
            requires
                (an * cd) * bd <= (cn * ad) * bd,
                bd > 0,
        ;
    } else {
        assert(an * cd < cn * ad) by (nonlinear_arith)
            requires
                (an * cd) * bd < (cn * ad) * bd,
                bd > 0,
        ;
    }
}

} // verus!
