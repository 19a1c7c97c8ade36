//! The Epley estimate of a one-repetition maximum, and its rounding.

use vstd::prelude::*;
use crate::digits::{lemma_pow10_increases, pow10, ten_to};
use crate::rational::{lemma_half_up, lemma_rounded_whole, Rational};
use crate::weight::Weight;

verus! {

/// The divisor of the Epley formula: each repetition adds one thirtieth of
/// the weight.
pub const EPLEY_DIVISOR: u32 = 30;

/// The estimated one-repetition maximum of a set of `reps` repetitions at
/// `weight`: the weight itself for at most one repetition, and otherwise
/// `weight * (1 + reps / 30)`.
pub open spec fn epley(weight: Rational, reps: nat) -> Rational {
    if reps <= 1 {
        weight
    } else {
        weight.times(Rational::whole(1).plus(Rational::fraction(reps as int, EPLEY_DIVISOR as int)))
    }
}

/// For at most one repetition the estimate is the weight itself.
pub proof fn lemma_epley_identity(weight: Rational, reps: nat)
    requires
        reps <= 1,
    ensures
        epley(weight, reps) == weight,
{
}

/// For more than one repetition the estimate is the weight times
/// `(30 + reps) / 30`: thirty times the estimate is `30 + reps` times the
/// weight.
pub proof fn lemma_epley_formula(weight: Rational, reps: nat)
    requires
        weight.wf(),
        reps > 1,
    ensures
        epley(weight, reps).wf(),
        epley(weight, reps).num == weight.num * (30 + reps),
        epley(weight, reps).den == weight.den * 30,
        epley(weight, reps).times(Rational::whole(30)).same(
            weight.times(Rational::whole(30 + reps as int)),
        ),
{
    let est = epley(weight, reps);
    assert(weight.den * (1 * 30) > 0) by (nonlinear_arith)
        requires
            weight.den > 0,
    ;
    assert((est.num * 30) * (weight.den * 1) == (weight.num * (30 + reps)) * (est.den * 1))
        by (nonlinear_arith)
        requires
            est.num == weight.num * (30 + reps),
            est.den == weight.den * 30,
    ;
}

/// An exact fraction of two machine integers.
#[derive(Clone, Copy, Debug, PartialEq, Eq, Structural)]
pub struct Ratio {
    pub num: i128,
    pub den: u128,
}

impl View for Ratio {
    type V = Rational;

    open spec fn view(&self) -> Rational {
        Rational { num: self.num as int, den: self.den as int }
    }
}

impl Ratio {
    /// The denominator is not zero.
    pub open spec fn wf(self) -> bool {
        self.den > 0
    }

    /// The nearest whole number, halves going away from zero.
    pub fn round(&self) -> (r: i128)
        requires
            self.wf(),
        ensures
            r == self@.rounded(),
            self@.is_whole() ==> r * self.den == self.num,
    {
        let negative = self.num < 0;
        let size: u128 = if negative {
            (-(self.num + 1)) as u128 + 1
        } else {
            self.num as u128
        };
        let quotient = size / self.den;
        let rest = size % self.den;
        let up = rest >= self.den - rest;
        proof {
            if self@.is_whole() {
                lemma_rounded_whole(self@);
            }
            lemma_half_up(size as int, self.den as int);
            assert(size == self.den * quotient + rest) by {
                vstd::arithmetic::div_mod::lemma_fundamental_div_mod(size as int, self.den as int);
            }
            assert(quotient + (if up { 1int } else { 0int }) <= size) by (nonlinear_arith)
                requires
                    size == self.den * quotient + rest,
                    0 <= rest < self.den,
                    0 <= quotient,
                    up == (2 * rest >= self.den),
            ;
        }
        let nearest: u128 = if up { quotient + 1 } else { quotient };
        if !negative {
            nearest as i128
        } else if nearest > i128::MAX as u128 {
            i128::MIN
        } else {
            -(nearest as i128)
        }
    }
}

/// The Epley estimate of the one-repetition maximum, not rounded. It is
/// defined for every well-formed weight and every number of repetitions.
pub fn epley_1rm(weight: Weight, reps: u32) -> (est: Ratio)
    requires
        weight.wf(),
    ensures
        est.wf(),
        est@ == epley(weight@, reps as nat),
        reps <= 1 ==> est@ == weight@,
        reps > 1 ==> est.num == weight.mantissa * (30 + reps) && est.den == weight@.den * 30,
{
    proof {
        lemma_pow10_increases(weight.scale as nat, 19);
        assert(pow10(19) == 10_000_000_000_000_000_000) by {
            reveal_with_fuel(pow10, 20);
        }
    }
    let unit: u128 = ten_to(weight.scale) as u128;
    if reps <= 1 {
        Ratio { num: weight.mantissa as i128, den: unit }
    } else {
        let divisor: u128 = EPLEY_DIVISOR as u128;
        let factor: i128 = EPLEY_DIVISOR as i128 + reps as i128;
        let mantissa: i128 = weight.mantissa as i128;
        assert(unit * divisor == unit * 30) by (nonlinear_arith)
            requires
                divisor == 30,
        ;
        assert(-0x8000_0000_0000_0000 * 0x1_0000_0020 <= mantissa * factor
            <= 0x8000_0000_0000_0000 * 0x1_0000_0020) by (nonlinear_arith)
            requires
                -0x8000_0000_0000_0000 <= mantissa <= 0x8000_0000_0000_0000,
                0 <= factor <= 0x1_0000_0020,
        ;
        Ratio { num: mantissa * factor, den: unit * divisor }
    }
}

} // verus!
