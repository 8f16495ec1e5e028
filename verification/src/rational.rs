//! Exact rational values, used for per-entry conversions and grand totals.
//!
//! A `Rational` holds a numerator and a positive denominator, both bounded so
//! that every operation offered here stays within `i128`. Two rationals are
//! compared by cross-multiplication; display rounding to two decimal places
//! (round half to even) is pinned down by `round_half_even`.

use vstd::prelude::*;

verus! {

/// Magnitude bound on the numerator and denominator of a `Rational`.
pub const RATIONAL_BOUND: i128 = 1_000_000_000_000_000_000_000_000_000_000_000_000;

/// Magnitude bound under which two rationals can be compared by
/// cross-multiplication without leaving `i128`.
pub const COMPARE_BOUND: i128 = 1_000_000_000_000_000_000;

/// Mathematical model of a rational number: an integer numerator over a
/// positive integer denominator.
#[verifier::ext_equal]
pub struct RationalModel {
    pub num: int,
    pub den: int,
}

/// Two rational models denote the same value.
pub open spec fn rat_eq(a: RationalModel, b: RationalModel) -> bool {
    a.num * b.den == b.num * a.den
}

/// Sum of two rational models.
pub open spec fn rat_add(a: RationalModel, b: RationalModel) -> RationalModel {
    RationalModel { num: a.num * b.den + b.num * a.den, den: a.den * b.den }
}

/// Product of two rational models.
pub open spec fn rat_mul(a: RationalModel, b: RationalModel) -> RationalModel {
    RationalModel { num: a.num * b.num, den: a.den * b.den }
}

/// Quotient of two rational models (meaningful for a nonzero divisor).
pub open spec fn rat_div(a: RationalModel, b: RationalModel) -> RationalModel {
    RationalModel { num: a.num * b.den, den: a.den * b.num }
}

/// Round half to even of the nonnegative quotient `n / d`.
pub open spec fn rhe_nonneg(n: int, d: int) -> int
    recommends
        n >= 0,
        d > 0,
{
    let q = n / d;
    let r = n % d;
    if 2 * r > d {
        q + 1
    } else if 2 * r < d {
        q
    } else if q % 2 == 0 {
        q
    } else {
        q + 1
    }
}

/// `n / d` rounded to the nearest integer, ties to even, for `d > 0`.
pub open spec fn round_half_even(n: int, d: int) -> int
    recommends
        d > 0,
{
    if n >= 0 {
        rhe_nonneg(n, d)
    } else {
        -rhe_nonneg(-n, d)
    }
}

/// The value of `r` in hundredths, rounded half to even; this fixes the
/// rounding rule used to display a value with two decimal places.
pub open spec fn centi_value(r: RationalModel) -> int
    recommends
        r.den > 0,
{
    round_half_even(r.num * 100, r.den)
}

/// An exact rational value with a positive denominator.
#[derive(Clone, Copy, Debug)]
pub struct Rational {
    num: i128,
    den: i128,
}

impl View for Rational {
    type V = RationalModel;

    closed spec fn view(&self) -> RationalModel {
        RationalModel { num: self.num as int, den: self.den as int }
    }
}

impl Rational {
    /// The denominator is positive and both parts stay within the bound that
    /// keeps all arithmetic here inside `i128`.
    pub open spec fn wf(self) -> bool {
        &&& 0 < self@.den <= RATIONAL_BOUND as int
        &&& -(RATIONAL_BOUND as int) <= self@.num <= RATIONAL_BOUND as int
    }

    pub fn new(num: i128, den: i128) -> (r: Rational)
        requires
            0 < den <= RATIONAL_BOUND,
            -RATIONAL_BOUND <= num <= RATIONAL_BOUND,
        ensures
            r@ == (RationalModel { num: num as int, den: den as int }),
            r.wf(),
    {
        Rational { num, den }
    }

    pub fn num(&self) -> (n: i128)
        ensures
            n as int == self@.num,
    {
        self.num
    }

    pub fn den(&self) -> (d: i128)
        ensures
            d as int == self@.den,
    {
        self.den
    }

    /// Whether `self` and `other` denote the same value. The bound keeps the
    /// two cross-products inside `i128`.
    pub fn same_value(&self, other: &Rational) -> (r: bool)
        requires
            self.wf(),
            other.wf(),
            -COMPARE_BOUND <= self@.num <= COMPARE_BOUND,
            self@.den <= COMPARE_BOUND,
            -COMPARE_BOUND <= other@.num <= COMPARE_BOUND,
            other@.den <= COMPARE_BOUND,
        ensures
            r == rat_eq(self@, other@),
    {
        proof {
            lemma_bounded_product(self@.num, other@.den);
            lemma_bounded_product(other@.num, self@.den);
        }
        self.num * other.den == other.num * self.den
    }

    /// The value in hundredths, rounded half to even.
    pub fn round_centi(&self) -> (c: i128)
        requires
            self.wf(),
        ensures
            c as int == centi_value(self@),
    {
        let neg = self.num < 0;
        let mag: u128 = if neg {
            (-self.num) as u128
        } else {
            self.num as u128
        };
        let n100: u128 = mag * 100;
        let d: u128 = self.den as u128;
        let q: u128 = n100 / d;
        let r: u128 = n100 % d;
        let rounded: u128 = if 2 * r > d {
            q + 1
        } else if 2 * r < d {
            q
        } else if q % 2 == 0 {
            q
        } else {
            q + 1
        };
        proof {
            assert(mag as int == if self@.num >= 0 { self@.num } else { -self@.num });
            assert(n100 as int == mag as int * 100);
            assert(q as int == n100 as int / d as int);
            assert(r as int == n100 as int % d as int);
            assert(rounded as int == rhe_nonneg(mag as int * 100, self@.den));
            lemma_rhe_nonneg_bound(mag as int * 100, self@.den);
        }
        if neg {
            -(rounded as i128)
        } else {
            rounded as i128
        }
    }
}

/// A nonnegative rounded quotient is at most `n + 1`.
proof fn lemma_rhe_nonneg_bound(n: int, d: int)
    requires
        n >= 0,
        d > 0,
    ensures
        0 <= rhe_nonneg(n, d) <= n + 1,
{
    vstd::arithmetic::div_mod::lemma_div_pos_is_pos(n, d);
    vstd::arithmetic::div_mod::lemma_div_nonincreasing(n, d);
}

/// The product of two comparison-bounded integers fits in `i128`.
proof fn lemma_bounded_product(a: int, b: int)
    requires
        -(COMPARE_BOUND as int) <= a <= COMPARE_BOUND as int,
        -(COMPARE_BOUND as int) <= b <= COMPARE_BOUND as int,
    ensures
        i128::MIN <= a * b <= i128::MAX,
{
    assert(i128::MIN <= a * b <= i128::MAX) by (nonlinear_arith)
        requires
            -(COMPARE_BOUND as int) <= a <= COMPARE_BOUND as int,
            -(COMPARE_BOUND as int) <= b <= COMPARE_BOUND as int,
    ;
}

} // verus!
