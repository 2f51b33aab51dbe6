//! Every result is the number closest to the exact one.

use vstd::arithmetic::power2::{lemma_pow2_pos, pow2};
use vstd::prelude::*;

use super::laws::{lemma_one, lemma_rounded_range};
use super::rounding::{lemma_rounded, lemma_rounded_is, lemma_units_increasing, lemma_units_parts};
use super::{
    nearest, rounded, signed, unit_scale, units, Binary64, FRACTIONS, INFINITE, ONE, SIGN,
};

verus! {

/// How far apart two whole numbers are.
pub open spec fn apart(a: int, b: int) -> int {
    if a < b {
        b - a
    } else {
        a - b
    }
}

/// Where a size in units is too large for a finite number: from halfway between the largest finite
/// number and the next power of two on.
pub open spec fn too_large(n: nat, d: nat) -> bool {
    2 * n >= (units(INFINITE - 1) + units(INFINITE as int)) * d
}

/// Rounding picks the closest magnitude, an even one where two are as close, and infinity exactly
/// where the exact result is too large.
proof fn lemma_closest(n: nat, d: nat, j: int)
    requires
        d > 0,
        0 <= j < INFINITE,
    ensures
        0 <= rounded(n, d) <= INFINITE,
        rounded(n, d) == INFINITE <==> too_large(n, d),
        rounded(n, d) < INFINITE ==> {
            let k = rounded(n, d);
            &&& apart((units(k) * d) as int, n as int) <= apart((units(j) * d) as int, n as int)
            &&& j != k && apart((units(k) * d) as int, n as int) == apart(
                (units(j) * d) as int,
                n as int,
            ) ==> k % 2 == 0
        },
{
    let k = rounded(n, d);
    lemma_rounded(n, d);
    lemma_rounded_range(n, d);
    if too_large(n, d) {
        assert(nearest(INFINITE as int, n, d));
        lemma_rounded_is(INFINITE as int, n, d);
    }
    if k < INFINITE {
        let (u, w) = (units(k) as int, units(j) as int);
        if j < k {
            let v = units(k - 1) as int;
            if j < k - 1 {
                lemma_units_increasing(j, k - 1);
            }
            lemma_units_increasing(k - 1, k);
            assert(w * d <= v * d && v * d < u * d && (v + u) * d == v * d + u * d && (w < v ==> w * d
                < v * d)) by (nonlinear_arith)
                requires
                    w <= v < u,
                    d > 0,
            ;
        } else if k < j {
            let v = units(k + 1) as int;
            if k + 1 < j {
                lemma_units_increasing(k + 1, j);
            }
            lemma_units_increasing(k, k + 1);
            assert(v * d <= w * d && u * d < v * d && (u + v) * d == u * d + v * d && (v < w ==> v * d
                < w * d)) by (nonlinear_arith)
                requires
                    u < v <= w,
                    d > 0,
            ;
        }
    }
}

/// What a word stands for: a sign, and a fraction at an exponent. The largest exponent stands for
/// infinities and for what is not a number.
pub proof fn law_words(negative: bool, exponent: nat, fraction: nat)
    requires
        exponent < 2048,
        fraction < FRACTIONS,
    ensures
        ({
            let bits = (exponent * FRACTIONS + fraction + if negative {
                SIGN as int
            } else {
                0
            }) as u64;
            let x = Binary64 { bits };
            &&& x.negative() == negative
            &&& x.magnitude() == exponent * FRACTIONS + fraction
            &&& exponent == 2047 && fraction > 0 <==> x.is_nan()
            &&& exponent == 2047 && fraction == 0 <==> x.is_infinity()
            &&& exponent < 2047 <==> x.finite()
            &&& exponent == 0 ==> x.size() == fraction
            &&& 0 < exponent < 2047 ==> x.size() == (FRACTIONS + fraction) * pow2(
                (exponent - 1) as nat,
            )
            &&& x.finite() ==> x.value() == if negative {
                -(x.size() as int)
            } else {
                x.size() as int
            }
        }),
        (Binary64 { bits: ONE }).value() == pow2(1074),
        unit_scale() == pow2(1074),
{
    lemma_one();
    let k = exponent * FRACTIONS + fraction;
    assert(k < SIGN && (exponent < 2047 <==> k < INFINITE) && (exponent == 2047 ==> k == INFINITE
        + fraction) && (exponent == 0 ==> k == fraction)) by (nonlinear_arith)
        requires
            k == exponent * FRACTIONS + fraction,
            exponent < 2048,
            fraction < FRACTIONS,
            FRACTIONS == 0x10_0000_0000_0000,
            INFINITE == 2047 * 0x10_0000_0000_0000,
            SIGN == 2048 * 0x10_0000_0000_0000,
    ;
    if exponent > 0 {
        let g = (exponent - 1) as nat;
        lemma_units_parts(g, (FRACTIONS + fraction) as nat);
        assert(g * FRACTIONS + (FRACTIONS + fraction) == k) by (nonlinear_arith)
            requires
                k == exponent * FRACTIONS + fraction,
                exponent == g + 1,
        ;
    }
}

/// A sum of finite numbers is the number closest to the exact sum, an even word where two are as
/// close, and infinite exactly where the exact sum is too large. It has the sign of the exact sum;
/// an exact zero has a minus sign where both have.
#[verifier::rlimit(40)]
pub proof fn law_sums_are_closest(a: Binary64, b: Binary64, other: Binary64)
    requires
        a.finite(),
        b.finite(),
        other.finite(),
    ensures
        ({
            let exact = a.value() + b.value();
            let r = a.sum(b);
            &&& !r.is_nan()
            &&& exact == 0 ==> r.is_zero() && r.negative() == (a.negative() && b.negative())
            &&& exact != 0 ==> r.negative() == (exact < 0)
            &&& exact != 0 ==> (r.is_infinity() <==> too_large(apart(exact, 0) as nat, 1))
            &&& r.finite() ==> apart(r.value(), exact) <= apart(other.value(), exact)
            &&& r.finite() && other.magnitude() != r.magnitude() && exact != 0 && apart(
                r.value(),
                exact,
            ) == apart(other.value(), exact) ==> r.magnitude() % 2 == 0
        }),
{
    let exact = a.value() + b.value();
    let n = apart(exact, 0) as nat;
    assert(units(0) == 0);
    lemma_closest(n, 1, other.magnitude());
    lemma_closest(n, 1, 0);
}

/// A product of finite numbers is the number closest to the exact product, an even word where two
/// are as close, and infinite exactly where the exact product is too large. Signs multiply.
pub proof fn law_products_are_closest(a: Binary64, b: Binary64, other: Binary64)
    requires
        a.finite(),
        b.finite(),
        other.finite(),
    ensures
        ({
            let scale = unit_scale();
            let exact = a.size() * b.size();
            let r = a.product(b);
            &&& !r.is_nan()
            &&& r.negative() == (a.negative() != b.negative())
            &&& r.is_infinity() <==> too_large(exact, scale)
            &&& r.finite() ==> apart((r.size() * scale) as int, exact as int) <= apart(
                (other.size() * scale) as int,
                exact as int,
            )
            &&& r.finite() && other.magnitude() != r.magnitude() && apart(
                (r.size() * scale) as int,
                exact as int,
            ) == apart((other.size() * scale) as int, exact as int) ==> r.magnitude() % 2 == 0
        }),
{
    lemma_pow2_pos(1074);
    lemma_closest(a.size() * b.size(), unit_scale(), other.magnitude());
}

/// A quotient of finite numbers, the second not zero, is the number closest to the exact quotient,
/// an even word where two are as close, and infinite exactly where the exact quotient is too large.
/// Signs divide.
pub proof fn law_quotients_are_closest(a: Binary64, b: Binary64, other: Binary64)
    requires
        a.finite(),
        b.finite(),
        !b.is_zero(),
        other.finite(),
    ensures
        ({
            let exact = a.size() * unit_scale();
            let r = a.quotient(b);
            &&& !r.is_nan()
            &&& r.negative() == (a.negative() != b.negative())
            &&& r.is_infinity() <==> too_large(exact, b.size())
            &&& r.finite() ==> apart((r.size() * b.size()) as int, exact as int) <= apart(
                (other.size() * b.size()) as int,
                exact as int,
            )
            &&& r.finite() && other.magnitude() != r.magnitude() && apart(
                (r.size() * b.size()) as int,
                exact as int,
            ) == apart((other.size() * b.size()) as int, exact as int) ==> r.magnitude() % 2 == 0
        }),
{
    lemma_units_increasing(0, b.magnitude());
    assert(units(0) == 0);
    lemma_closest(a.size() * unit_scale(), b.size(), other.magnitude());
}

/// A count is the number closest to it, an even word where two are as close.
pub proof fn law_counts_are_closest(count: nat, other: Binary64)
    requires
        other.finite(),
    ensures
        ({
            let exact = count * unit_scale();
            let r = Binary64::of(count);
            &&& !r.is_nan()
            &&& !r.negative()
            &&& r.is_infinity() <==> too_large(exact, 1)
            &&& r.finite() ==> apart(r.size() as int, exact as int) <= apart(
                other.size() as int,
                exact as int,
            )
            &&& r.finite() && other.magnitude() != r.magnitude() && apart(
                r.size() as int,
                exact as int,
            ) == apart(other.size() as int, exact as int) ==> r.magnitude() % 2 == 0
        }),
{
    lemma_closest(count * unit_scale(), 1, other.magnitude());
}

/// What comes of infinities, of division by zero and of what is not a number.
pub proof fn law_limits(a: Binary64, b: Binary64)
    ensures
        a.is_nan() || b.is_nan() ==> a.sum(b).is_nan() && a.product(b).is_nan() && a.quotient(
            b,
        ).is_nan() && !a.below(b) && !a.equals(b),
        a.is_infinity() && b.finite() ==> a.sum(b) == a && b.sum(a) == a,
        a.is_infinity() && b.is_infinity() ==> (a.sum(b) == a && a.negative() == b.negative())
            || (a.sum(b).is_nan() && a.negative() != b.negative()),
        a.is_infinity() && b.is_zero() ==> a.product(b).is_nan() && b.product(a).is_nan(),
        a.is_infinity() && !b.is_nan() && !b.is_zero() ==> a.product(b) == signed(
            a.negative() != b.negative(),
            INFINITE as int,
        ) && b.product(a) == a.product(b),
        a.is_infinity() && b.is_infinity() ==> a.quotient(b).is_nan(),
        a.is_infinity() && b.finite() ==> a.quotient(b) == signed(
            a.negative() != b.negative(),
            INFINITE as int,
        ) && b.quotient(a) == signed(a.negative() != b.negative(), 0),
        a.is_zero() && b.is_zero() ==> a.quotient(b).is_nan(),
        a.finite() && !a.is_zero() && b.is_zero() ==> a.quotient(b) == signed(
            a.negative() != b.negative(),
            INFINITE as int,
        ),
        a.finite() && b.is_infinity() ==> (a.below(b) <==> !b.negative()) && (b.below(a)
            <==> b.negative()) && !a.equals(b),
{
}

/// Negation, absolute value, subtraction and the part above zero.
pub proof fn law_signs(a: Binary64, b: Binary64)
    requires
        !a.is_nan(),
    ensures
        a.opposite().negative() != a.negative(),
        a.opposite().magnitude() == a.magnitude(),
        !a.absolute().negative(),
        a.absolute().magnitude() == a.magnitude(),
        a.difference(b) == a.sum(b.opposite()),
        a.negative() ==> a.at_least_zero().bits == 0,
        !a.negative() ==> a.at_least_zero() == a,
        b.is_nan() ==> b.at_least_zero().bits == 0,
{
}

} // verus!
