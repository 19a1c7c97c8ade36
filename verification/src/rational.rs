//! Exact fractions: the numbers in which estimates are stated.

use vstd::prelude::*;
use vstd::arithmetic::div_mod::{lemma_fundamental_div_mod, lemma_fundamental_div_mod_converse, lemma_mod_bound};

verus! {

/// A fraction of two integers. It stands for the real number `num / den`.
pub struct Rational {
    pub num: int,
    pub den: int,
}

impl Rational {
    /// The denominator is positive.
    pub open spec fn wf(self) -> bool {
        self.den > 0
    }

    /// The whole number `n`.
    pub open spec fn whole(n: int) -> Rational {
        Rational { num: n, den: 1 }
    }

    /// The fraction `n / d`.
    pub open spec fn fraction(n: int, d: int) -> Rational {
        Rational { num: n, den: d }
    }

    /// The sum of two fractions.
    pub open spec fn plus(self, other: Rational) -> Rational {
        Rational { num: self.num * other.den + other.num * self.den, den: self.den * other.den }
    }

    /// The product of two fractions.
    pub open spec fn times(self, other: Rational) -> Rational {
        Rational { num: self.num * other.num, den: self.den * other.den }
    }

    /// Both fractions stand for the same real number.
    pub open spec fn same(self, other: Rational) -> bool {
        self.num * other.den == other.num * self.den
    }

    /// The fraction stands for a whole number.
    pub open spec fn is_whole(self) -> bool {
        self.num % self.den == 0
    }

    /// The nearest whole number; a value halfway between two whole numbers
    /// goes to the one farther from zero.
    pub open spec fn rounded(self) -> int {
        if self.num >= 0 {
            (2 * self.num + self.den) / (2 * self.den)
        } else {
            -((2 * (-self.num) + self.den) / (2 * self.den))
        }
    }
}

/// Adding half and cutting off the fraction is the same as going up from
/// the quotient exactly when the remainder is at least half the divisor.
pub proof fn lemma_half_up(n: int, d: int)
    requires
        n >= 0,
        d > 0,
    ensures
        (2 * n + d) / (2 * d) == n / d + if 2 * (n % d) >= d { 1int } else { 0int },
{
    let q = n / d;
    let r = n % d;
    lemma_fundamental_div_mod(n, d);
    lemma_mod_bound(n, d);
    let up = if 2 * r >= d { 1int } else { 0int };
    assert(2 * n + d == (q + up) * (2 * d) + (2 * r + d - up * (2 * d))) by (nonlinear_arith)
        requires
            n == d * q + r,
    ;
    lemma_fundamental_div_mod_converse(2 * n + d, 2 * d, q + up, 2 * r + d - up * (2 * d));
}

/// Rounding gives the nearest whole number: the fraction lies within one
/// half of it, and where it lies exactly halfway between two whole numbers
/// the one farther from zero is taken.
pub proof fn lemma_rounded_nearest(q: Rational)
    requires
        q.wf(),
    ensures
        q.num >= 0 ==> (2 * q.rounded() - 1) * q.den <= 2 * q.num < (2 * q.rounded() + 1) * q.den,
        q.num < 0 ==> (2 * q.rounded() - 1) * q.den < 2 * q.num <= (2 * q.rounded() + 1) * q.den,
        q.num >= 0 ==> q.rounded() >= 0,
        q.num <= 0 ==> q.rounded() <= 0,
{
    let n = if q.num >= 0 { q.num } else { -q.num };
    let d = q.den;
    let m = (2 * n + d) / (2 * d);
    lemma_fundamental_div_mod(2 * n + d, 2 * d);
    lemma_mod_bound(2 * n + d, 2 * d);
    let r = (2 * n + d) % (2 * d);
    assert((2 * m - 1) * d <= 2 * n < (2 * m + 1) * d && m >= 0) by (nonlinear_arith)
        requires
            2 * n + d == (2 * d) * m + r,
            0 <= r < 2 * d,
            n >= 0,
            d > 0,
    ;
    if q.num == 0 {
        assert(m == 0) by (nonlinear_arith)
            requires
                (2 * m - 1) * d <= 0,
                m >= 0,
                d > 0,
        ;
    }
    if q.num < 0 {
        assert((2 * (-m) - 1) * d < 2 * (-n) <= (2 * (-m) + 1) * d) by (nonlinear_arith)
            requires
                (2 * m - 1) * d <= 2 * n < (2 * m + 1) * d,
        ;
    }
}

/// A whole number that lies within one half of a fraction, on the side
/// that rounding takes at a tie, is what the fraction rounds to.
pub proof fn lemma_nearest_is_rounded(q: Rational, r: int)
    requires
        q.wf(),
        q.num >= 0 ==> (2 * r - 1) * q.den <= 2 * q.num < (2 * r + 1) * q.den,
        q.num < 0 ==> (2 * r - 1) * q.den < 2 * q.num <= (2 * r + 1) * q.den,
    ensures
        q.rounded() == r,
{
    lemma_rounded_nearest(q);
    let m = q.rounded();
    let d = q.den;
    let n = q.num;
    if m < r {
        assert((2 * m + 1) * d <= (2 * r - 1) * d) by (nonlinear_arith)
            requires
                m + 1 <= r,
                d > 0,
        ;
    } else if m > r {
        assert((2 * r + 1) * d <= (2 * m - 1) * d) by (nonlinear_arith)
            requires
                r + 1 <= m,
                d > 0,
        ;
    }
}

/// Two fractions that stand for the same number round to the same whole
/// number.
pub proof fn lemma_rounded_same(a: Rational, b: Rational)
    requires
        a.wf(),
        b.wf(),
        a.same(b),
    ensures
        a.rounded() == b.rounded(),
{
    lemma_rounded_nearest(a);
    let r = a.rounded();
    let lo = (2 * r - 1) * a.den;
    let hi = (2 * r + 1) * a.den;
    let blo = (2 * r - 1) * b.den;
    let bhi = (2 * r + 1) * b.den;
    assert(lo * b.den == blo * a.den && hi * b.den == bhi * a.den) by (nonlinear_arith)
        requires
            lo == (2 * r - 1) * a.den,
            hi == (2 * r + 1) * a.den,
            blo == (2 * r - 1) * b.den,
            bhi == (2 * r + 1) * b.den,
    ;
    assert((2 * a.num) * b.den == (2 * b.num) * a.den) by (nonlinear_arith)
        requires
            a.num * b.den == b.num * a.den,
    ;
    assert((a.num >= 0) == (b.num >= 0) || a.num == 0 || b.num == 0) by (nonlinear_arith)
        requires
            a.num * b.den == b.num * a.den,
            a.den > 0,
            b.den > 0,
    ;
    assert(a.num == 0 <==> b.num == 0) by (nonlinear_arith)
        requires
            a.num * b.den == b.num * a.den,
            a.den > 0,
            b.den > 0,
    ;
    lemma_scaled_order(blo, 2 * b.num, a.den, lo * b.den, (2 * a.num) * b.den);
    lemma_scaled_order(2 * b.num, bhi, a.den, (2 * a.num) * b.den, hi * b.den);
    lemma_scaled_order(lo, 2 * a.num, b.den, lo * b.den, (2 * a.num) * b.den);
    lemma_scaled_order(2 * a.num, hi, b.den, (2 * a.num) * b.den, hi * b.den);
    lemma_nearest_is_rounded(b, r);
}

/// Multiplying both sides by a positive number keeps their order.
proof fn lemma_scaled_order(x: int, y: int, k: int, xk: int, yk: int)
    requires
        k > 0,
        xk == x * k,
        yk == y * k,
    ensures
        x <= y <==> xk <= yk,
        x < y <==> xk < yk,
{
    assert((x <= y <==> x * k <= y * k) && (x < y <==> x * k < y * k)) by (nonlinear_arith)
        requires
            k > 0,
    ;
}

/// Rounding a fraction that stands for a whole number gives that number.
pub proof fn lemma_rounded_whole(q: Rational)
    requires
        q.wf(),
        q.is_whole(),
    ensures
        q.rounded() * q.den == q.num,
        q.rounded() == q.num / q.den,
{
    let d = q.den;
    lemma_fundamental_div_mod(q.num, d);
    let k = q.num / d;
    assert(q.num == d * k);
    if q.num >= 0 {
        lemma_half_up(q.num, d);
    } else {
        assert(-q.num == (-k) * d + 0) by (nonlinear_arith)
            requires
                q.num == d * k,
        ;
        lemma_fundamental_div_mod_converse(-q.num, d, -k, 0);
        lemma_half_up(-q.num, d);
    }
    assert(k * d == d * k) by (nonlinear_arith);
}

/// Rounding a whole number gives it back, so that rounding twice is the
/// same as rounding once.
pub proof fn lemma_rounded_idempotent(q: Rational)
    ensures
        Rational::whole(q.rounded()).rounded() == q.rounded(),
        forall|n: int| (#[trigger] Rational::whole(n)).rounded() == n,
{
    assert forall|n: int| (#[trigger] Rational::whole(n)).rounded() == n by {
        let w = Rational::whole(n);
        assert(n % 1 == 0);
        assert(n / 1 == n);
        lemma_rounded_whole(w);
    }
}

} // verus!
