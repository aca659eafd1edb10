//! Exact signed fractions and their comparison without overflow.

use vstd::prelude::*;

verus! {

/// The sign of `x`: -1, 0 or 1.
pub open spec fn sign(x: int) -> int {
    if x < 0 {
        -1
    } else if x == 0 {
        0
    } else {
        1
    }
}

/// Compares `n1 / d1` with `n2 / d2` for non-negative numerators and positive
/// denominators: the result has the sign of `n1 * d2 - n2 * d1`.
///
/// Works by continued-fraction expansion, so no product is ever formed and no
/// value can overflow.
pub fn compare_fractions(n1: u128, d1: u128, n2: u128, d2: u128) -> (r: i8)
    requires
        d1 > 0,
        d2 > 0,
    ensures
        r as int == sign(n1 * d2 - n2 * d1),
{
    let mut a = n1;
    let mut b = d1;
    let mut c = n2;
    let mut d = d2;
    let ghost s = sign(a * d - c * b);
    loop
        invariant
            b > 0,
            d > 0,
            sign(a * d - c * b) == s,
            s == sign(n1 * d2 - n2 * d1),
        decreases b + d,
    {
        let q1 = a / b;
        let q2 = c / d;
        let r1 = a % b;
        let r2 = c % d;
        proof {
            lemma_split(a as int, b as int, c as int, d as int);
        }
        if q1 < q2 {
            return -1;
        }
        if q1 > q2 {
            return 1;
        }
        if r1 == 0 && r2 == 0 {
            return 0;
        }
        if r1 == 0 {
            return -1;
        }
        if r2 == 0 {
            return 1;
        }
        proof {
            assert(d * r1 - b * r2 == r1 * d - r2 * b) by (nonlinear_arith);
        }
        let na = d;
        let nb = r2;
        let nc = b;
        let nd = r1;
        a = na;
        b = nb;
        c = nc;
        d = nd;
    }
}

/// What one step of the expansion needs: unequal integer parts decide the
/// comparison, equal ones leave it to the remainders.
proof fn lemma_split(a: int, b: int, c: int, d: int)
    requires
        a >= 0,
        c >= 0,
        b > 0,
        d > 0,
    ensures
        a / b < c / d ==> a * d - c * b < 0,
        a / b > c / d ==> a * d - c * b > 0,
        a / b == c / d ==> a * d - c * b == (a % b) * d - (c % d) * b,
        a / b == c / d && a % b == 0 && c % d > 0 ==> a * d - c * b < 0,
        a / b == c / d && a % b > 0 && c % d == 0 ==> a * d - c * b > 0,
        0 <= a % b < b,
        0 <= c % d < d,
{
    let q1 = a / b;
    let q2 = c / d;
    let r1 = a % b;
    let r2 = c % d;
    assert(a == q1 * b + r1 && 0 <= r1 < b) by {
        vstd::arithmetic::div_mod::lemma_fundamental_div_mod(a, b);
    }
    assert(c == q2 * d + r2 && 0 <= r2 < d) by {
        vstd::arithmetic::div_mod::lemma_fundamental_div_mod(c, d);
    }
    if q1 < q2 {
        assert(a * d - c * b < 0) by (nonlinear_arith)
            requires
                a == q1 * b + r1,
                c == q2 * d + r2,
                0 <= r1 < b,
                0 <= r2,
                q1 + 1 <= q2,
                b > 0,
                d > 0,
        ;
    }
    if q1 > q2 {
        assert(a * d - c * b > 0) by (nonlinear_arith)
            requires
                a == q1 * b + r1,
                c == q2 * d + r2,
                0 <= r2 < d,
                0 <= r1,
                q2 + 1 <= q1,
                b > 0,
                d > 0,
        ;
    }
    if q1 == q2 {
        assert(a * d - c * b == r1 * d - r2 * b) by (nonlinear_arith)
            requires
                a == q1 * b + r1,
                c == q1 * d + r2,
        ;
        assert(r2 == 0 ==> r2 * b == 0) by (nonlinear_arith);
        assert(r1 == 0 ==> r1 * d == 0) by (nonlinear_arith);
        assert(r2 > 0 ==> r2 * b > 0) by (nonlinear_arith)
            requires
                b > 0,
        ;
        assert(r1 > 0 ==> r1 * d > 0) by (nonlinear_arith)
            requires
                d > 0,
        ;
    }
}


/// An exact signed fraction `(-1)^neg * num / den`. Scores of the metrics are
/// held this way, so that comparing two of them is exact.
#[derive(Clone, Copy, Debug, PartialEq, Eq)]
pub struct Score {
    pub neg: bool,
    pub num: u128,
    pub den: u128,
}

impl Score {
    /// The score is a fraction: its denominator is positive.
    pub open spec fn wf(self) -> bool {
        self.den > 0
    }

    /// The signed numerator.
    pub open spec fn numer(self) -> int {
        if self.neg {
            -(self.num as int)
        } else {
            self.num as int
        }
    }

    /// `self < other` as rational numbers.
    pub open spec fn lt(self, other: Score) -> bool {
        self.numer() * other.den < other.numer() * self.den
    }

    /// `self == other` as rational numbers.
    pub open spec fn same_value(self, other: Score) -> bool {
        self.numer() * other.den == other.numer() * self.den
    }

    /// Compares two scores as rational numbers: -1, 0 or 1 as `self` is
    /// smaller than, equal to or larger than `other`.
    pub fn compare(&self, other: &Score) -> (r: i8)
        requires
            self.wf(),
            other.wf(),
        ensures
            r as int == sign(self.numer() * other.den - other.numer() * self.den),
    {
        let a = self.num;
        let b = self.den;
        let c = other.num;
        let d = other.den;
        proof {
            assert(a * d >= 0 && c * b >= 0) by (nonlinear_arith)
                requires
                    a >= 0,
                    b >= 0,
                    c >= 0,
                    d >= 0,
            ;
            assert(a == 0 ==> a * d == 0) by (nonlinear_arith);
            assert(c == 0 ==> c * b == 0) by (nonlinear_arith);
            assert(a > 0 ==> a * d > 0) by (nonlinear_arith)
                requires
                    d > 0,
            ;
            assert(c > 0 ==> c * b > 0) by (nonlinear_arith)
                requires
                    b > 0,
            ;
            assert((-(a as int)) * (d as int) == -(a * d)) by (nonlinear_arith);
            assert((-(c as int)) * (b as int) == -(c * b)) by (nonlinear_arith);
        }
        if !self.neg && !other.neg {
            compare_fractions(a, b, c, d)
        } else if self.neg && other.neg {
            let r = compare_fractions(c, d, a, b);
            r
        } else if self.neg {
            if a == 0 && c == 0 {
                0
            } else {
                -1
            }
        } else {
            if a == 0 && c == 0 {
                0
            } else {
                1
            }
        }
    }
}

/// Orders of fractions chain: `<` and `==` compose transitively.
pub proof fn lemma_fraction_trans(n1: int, d1: int, n2: int, d2: int, n3: int, d3: int)
    requires
        d1 > 0,
        d2 > 0,
        d3 > 0,
    ensures
        n1 * d2 < n2 * d1 && n2 * d3 <= n3 * d2 ==> n1 * d3 < n3 * d1,
        n1 * d2 <= n2 * d1 && n2 * d3 < n3 * d2 ==> n1 * d3 < n3 * d1,
        n1 * d2 == n2 * d1 && n2 * d3 == n3 * d2 ==> n1 * d3 == n3 * d1,
{
    assert(n1 * d2 <= n2 * d1 && n2 * d3 <= n3 * d2 ==> n1 * d3 * d2 <= n3 * d1 * d2)
        by (nonlinear_arith)
        requires
            d1 > 0,
            d2 > 0,
            d3 > 0,
    ;
    assert(n1 * d2 < n2 * d1 && n2 * d3 <= n3 * d2 ==> n1 * d3 * d2 < n3 * d1 * d2)
        by (nonlinear_arith)
        requires
            d1 > 0,
            d2 > 0,
            d3 > 0,
    ;
    assert(n1 * d2 <= n2 * d1 && n2 * d3 < n3 * d2 ==> n1 * d3 * d2 < n3 * d1 * d2)
        by (nonlinear_arith)
        requires
            d1 > 0,
            d2 > 0,
            d3 > 0,
    ;
    assert(n1 * d2 == n2 * d1 && n2 * d3 == n3 * d2 ==> n1 * d3 * d2 == n3 * d1 * d2)
        by (nonlinear_arith)
        requires
            d1 > 0,
            d2 > 0,
            d3 > 0,
    ;
    assert(n1 * d3 * d2 < n3 * d1 * d2 ==> n1 * d3 < n3 * d1) by (nonlinear_arith)
        requires
            d2 > 0,
    ;
    assert(n1 * d3 * d2 == n3 * d1 * d2 ==> n1 * d3 == n3 * d1) by (nonlinear_arith)
        requires
            d2 > 0,
    ;
}

/// `lt` and `same_value` on well-formed scores form a strict order and an
/// equivalence compatible with it.
pub proof fn lemma_score_trans(a: Score, b: Score, c: Score)
    requires
        a.wf(),
        b.wf(),
        c.wf(),
    ensures
        a.lt(b) && b.lt(c) ==> a.lt(c),
        a.lt(b) && b.same_value(c) ==> a.lt(c),
        a.same_value(b) && b.lt(c) ==> a.lt(c),
        a.same_value(b) && b.same_value(c) ==> a.same_value(c),
{
    lemma_fraction_trans(a.numer(), a.den as int, b.numer(), b.den as int, c.numer(), c.den as int);
}

} // verus!
