//! What holds of the arithmetic as a whole.

use vstd::arithmetic::power2::{
    lemma2_to64, lemma2_to64_rest, lemma_pow2_adds, lemma_pow2_pos, pow2,
};
use vstd::prelude::*;

use super::rounding::{
    lemma_nearest_ordered, lemma_rounded, lemma_rounded_is, lemma_units_increasing,
    lemma_rounded_zero, lemma_units_parts,
};
use super::{nearest, rounded, signed, unit_scale, units, Binary64, FRACTIONS, INFINITE, ONE};

verus! {

/// Rounding depends on the ratio alone.
pub proof fn lemma_rounded_ratio(n1: nat, d1: nat, n2: nat, d2: nat)
    requires
        d1 > 0,
        d2 > 0,
        n1 * d2 == n2 * d1,
    ensures
        rounded(n1, d1) == rounded(n2, d2),
{
    lemma_rounded(n1, d1);
    lemma_rounded(n2, d2);
    lemma_nearest_ordered(rounded(n1, d1), n1, d1, rounded(n2, d2), n2, d2);
    lemma_nearest_ordered(rounded(n2, d2), n2, d2, rounded(n1, d1), n1, d1);
}

/// Rounding keeps order: a larger exact result never rounds to a smaller number.
pub proof fn lemma_rounded_ordered(n1: nat, d1: nat, n2: nat, d2: nat)
    requires
        d1 > 0,
        d2 > 0,
        n1 * d2 <= n2 * d1,
    ensures
        rounded(n1, d1) <= rounded(n2, d2),
{
    lemma_rounded(n1, d1);
    lemma_rounded(n2, d2);
    lemma_nearest_ordered(rounded(n1, d1), n1, d1, rounded(n2, d2), n2, d2);
}

/// A result that is a number rounds to that number.
pub proof fn lemma_rounded_exact(k: int, n: nat, d: nat)
    requires
        0 <= k < INFINITE,
        d > 0,
        n == units(k) * d,
    ensures
        rounded(n, d) == k,
{
    lemma_units_increasing(k, k + 1);
    assert(2 * n < (units(k) + units(k + 1)) * d) by (nonlinear_arith)
        requires
            n == units(k) * d,
            units(k) < units(k + 1),
            d > 0,
    ;
    if k > 0 {
        lemma_units_increasing(k - 1, k);
        assert((units(k - 1) + units(k)) * d < 2 * n) by (nonlinear_arith)
            requires
                n == units(k) * d,
                units(k - 1) < units(k),
                d > 0,
        ;
    }
    assert(nearest(k, n, d));
    lemma_rounded_is(k, n, d);
}

/// Numbers are ordered as their values are.
pub proof fn lemma_order_is_by_value(a: Binary64, b: Binary64)
    requires
        a.finite(),
        b.finite(),
    ensures
        a.below(b) <==> a.value() < b.value(),
        a.equals(b) <==> a.value() == b.value(),
{
    let (i, j) = (a.magnitude(), b.magnitude());
    if i < j {
        lemma_units_increasing(i, j);
    } else if j < i {
        lemma_units_increasing(j, i);
    }
    if i > 0 {
        lemma_units_increasing(0, i);
    }
    if j > 0 {
        lemma_units_increasing(0, j);
    }
}

/// One is as large as its scale says.
pub proof fn lemma_one()
    ensures
        units(ONE as int) == unit_scale(),
        (Binary64 { bits: ONE }).finite(),
        !(Binary64 { bits: ONE }).negative(),
        (Binary64 { bits: ONE }).size() == unit_scale(),
{
    lemma2_to64_rest();
    lemma_units_parts(1022, FRACTIONS as nat);
    lemma_pow2_adds(52, 1022);
}

/// A power of two and its reciprocal are numbers, with no rounding.
pub proof fn lemma_power_of_two(s: nat)
    requires
        s < 64,
    ensures
        ({
            let v = Binary64::of(pow2(s));
            let r = (Binary64 { bits: ONE }).quotient(v);
            &&& v.finite() && !v.negative() && !v.is_zero()
            &&& v.size() == pow2(s + 1074)
            &&& r.finite() && !r.negative() && !r.is_zero()
            &&& r.size() == pow2((1074 - s) as nat)
        }),
{
    lemma2_to64_rest();
    lemma_one();
    let k = (s + 1023) * FRACTIONS;
    lemma_units_parts(s + 1022, FRACTIONS as nat);
    lemma_pow2_adds(52, s + 1022);
    lemma_pow2_adds(s, 1074);
    assert(units(k) == pow2(s + 1074));
    lemma_rounded_exact(k, pow2(s) * unit_scale(), 1);
    let v = Binary64::of(pow2(s));
    assert(v.magnitude() == k);
    let j = (1023 - s) * FRACTIONS;
    lemma_units_parts((1022 - s) as nat, FRACTIONS as nat);
    lemma_pow2_adds(52, (1022 - s) as nat);
    assert(units(j) == pow2((1074 - s) as nat));
    lemma_pow2_adds((1074 - s) as nat, s + 1074);
    lemma_pow2_adds(1074, 1074);
    lemma_pow2_pos(s + 1074);
    lemma_rounded_exact(j, unit_scale() * unit_scale(), pow2(s + 1074));
}

/// Dividing by a power of two and multiplying by its reciprocal give the same number, for
/// every numerator.
pub proof fn lemma_reciprocal_division(x: Binary64, s: nat)
    requires
        s < 64,
    ensures
        x.product((Binary64 { bits: ONE }).quotient(Binary64::of(pow2(s)))) == x.quotient(
            Binary64::of(pow2(s)),
        ),
{
    lemma_power_of_two(s);
    let v = Binary64::of(pow2(s));
    let r = (Binary64 { bits: ONE }).quotient(v);
    if x.finite() {
        let scale = unit_scale();
        lemma_pow2_pos(1074);
        lemma_pow2_pos(s + 1074);
        lemma_pow2_adds((1074 - s) as nat, s + 1074);
        lemma_pow2_adds(1074, 1074);
        assert((x.size() * r.size()) * v.size() == (x.size() * scale) * scale)
            by (nonlinear_arith)
            requires
                r.size() * v.size() == scale * scale,
        ;
        lemma_rounded_ratio(x.size() * r.size(), scale, x.size() * scale, v.size());
    }
}

/// What rounds lies within the magnitudes.
pub proof fn lemma_rounded_range(n: nat, d: nat)
    requires
        d > 0,
    ensures
        0 <= rounded(n, d) <= INFINITE,
{
    lemma_rounded(n, d);
}

/// Dividing by one changes nothing.
pub proof fn lemma_over_one(x: Binary64)
    requires
        !x.is_nan(),
    ensures
        x.quotient(Binary64 { bits: ONE }) == x,
{
    lemma_one();
    lemma_pow2_pos(1074);
    if x.finite() {
        lemma_rounded_exact(x.magnitude(), x.size() * unit_scale(), unit_scale());
    }
}

/// Multiplying by one changes nothing.
pub proof fn lemma_times_one(x: Binary64)
    requires
        !x.is_nan(),
    ensures
        x.product(Binary64 { bits: ONE }) == x,
{
    lemma_one();
    lemma_pow2_pos(1074);
    if x.finite() {
        lemma_rounded_exact(x.magnitude(), x.size() * unit_scale(), unit_scale());
    }
}

/// Counts of a machine word are finite numbers.
pub proof fn lemma_count_finite(count: nat)
    requires
        count <= u64::MAX,
    ensures
        Binary64::of(count).finite(),
        !Binary64::of(count).negative(),
{
    lemma2_to64();
    lemma2_to64_rest();
    lemma_power_of_two(63);
    lemma_pow2_pos(1074);
    let scale = unit_scale();
    lemma_units_parts(1086, FRACTIONS as nat);
    lemma_pow2_adds(52, 1086);
    lemma_pow2_adds(64, 1074);
    let k = 1087 * FRACTIONS;
    assert(units(k) == pow2(64) * scale);
    lemma_rounded_exact(k, pow2(64) * scale, 1);
    assert(count * scale * 1 <= pow2(64) * scale * 1) by (nonlinear_arith)
        requires
            count <= pow2(64),
            scale > 0,
    ;
    lemma_rounded_ordered(count * scale, 1, pow2(64) * scale, 1);
    lemma_rounded_range(count * scale, 1);
}

/// A zero times a count is that zero, with its sign.
pub proof fn lemma_zero_times_count(zero: Binary64, count: nat)
    requires
        zero.is_zero(),
        count <= u64::MAX,
    ensures
        zero.product(Binary64::of(count)) == zero,
{
    lemma_count_finite(count);
    lemma_pow2_pos(1074);
    let n = zero.size() * Binary64::of(count).size();
    assert(n == 0) by (nonlinear_arith)
        requires
            n == 0 * Binary64::of(count).size(),
    ;
    lemma_rounded_zero(unit_scale());
}

/// A number less itself is zero.
pub proof fn lemma_less_itself(x: Binary64)
    requires
        x.finite(),
    ensures
        x.difference(x) == signed(false, 0),
{
}

/// Numbers, the first not above the second.
pub open spec fn ordered(a: Binary64, b: Binary64) -> bool {
    &&& !a.is_nan()
    &&& !b.is_nan()
    &&& a.rank() <= b.rank()
}

/// Negation turns order round.
pub proof fn lemma_opposite_ordered(a: Binary64, b: Binary64)
    requires
        ordered(a, b),
    ensures
        ordered(b.opposite(), a.opposite()),
{
}

/// Adding the same number keeps order.
pub proof fn lemma_sum_ordered(a: Binary64, b: Binary64, c: Binary64)
    requires
        ordered(a, b),
        !a.sum(c).is_nan(),
        !b.sum(c).is_nan(),
    ensures
        ordered(a.sum(c), b.sum(c)),
{
    if a.finite() && b.finite() && c.finite() {
        lemma_order_is_by_value(a, b);
        let x = a.value() + c.value();
        let y = b.value() + c.value();
        let (m, n) = (
            if x < 0 {
                (-x) as nat
            } else {
                x as nat
            },
            if y < 0 {
                (-y) as nat
            } else {
                y as nat
            },
        );
        lemma_rounded_range(m, 1);
        lemma_rounded_range(n, 1);
        lemma_rounded_zero(1);
        if 0 <= x {
            lemma_rounded_ordered(m, 1, n, 1);
        } else if y < 0 {
            lemma_rounded_ordered(n, 1, m, 1);
        }
    } else if c.finite() {
        if a.finite() {
            let x = a.value() + c.value();
            lemma_rounded_range(
                if x < 0 {
                    (-x) as nat
                } else {
                    x as nat
                },
                1,
            );
        }
        if b.finite() {
            let y = b.value() + c.value();
            lemma_rounded_range(
                if y < 0 {
                    (-y) as nat
                } else {
                    y as nat
                },
                1,
            );
        }
    }
}

/// Not a number, or a number that is at least zero, of either sign.
pub open spec fn not_below_zero(x: Binary64) -> bool {
    !x.below(signed(false, 0))
}

/// A product of numbers that are at least zero is at least zero.
pub proof fn lemma_not_below_product(a: Binary64, b: Binary64)
    requires
        not_below_zero(a),
        not_below_zero(b),
    ensures
        not_below_zero(a.product(b)),
{
    lemma_pow2_pos(1074);
    lemma_rounded_range(a.size() * b.size(), unit_scale());
    assert(units(0) == 0);
    if a.is_zero() || b.is_zero() {
        assert(a.size() * b.size() == 0) by (nonlinear_arith)
            requires
                a.size() == 0 || b.size() == 0,
        ;
        lemma_rounded_zero(unit_scale());
    }
}

/// A sum of numbers that are at least zero is at least zero.
pub proof fn lemma_not_below_sum(a: Binary64, b: Binary64)
    requires
        not_below_zero(a),
        not_below_zero(b),
    ensures
        not_below_zero(a.sum(b)),
{
    assert(units(0) == 0);
    lemma_rounded_range((a.value() + b.value()) as nat, 1);
}

/// The same number, whatever the sign of a zero, or no number on either side.
pub open spec fn same_number(a: Binary64, b: Binary64) -> bool {
    (a.is_nan() && b.is_nan()) || a.equals(b)
}

/// A sum depends on the numbers that are added alone.
pub proof fn lemma_same_sum(a: Binary64, b: Binary64, c: Binary64)
    requires
        same_number(a, b),
    ensures
        same_number(a.sum(c), b.sum(c)),
{
    assert(units(0) == 0);
    if a.finite() && c.finite() {
        let exact = a.value() + c.value();
        assert(b.value() + c.value() == exact);
        lemma_rounded_range(exact as nat, 1);
        lemma_rounded_range((-exact) as nat, 1);
    }
}

/// A product depends on the numbers that are multiplied alone.
pub proof fn lemma_same_product(a: Binary64, b: Binary64, c: Binary64)
    requires
        same_number(a, b),
    ensures
        same_number(a.product(c), b.product(c)),
{
    lemma_pow2_pos(1074);
    lemma_rounded_range(a.size() * c.size(), unit_scale());
    if a.is_zero() && c.finite() {
        assert(units(0) == 0);
        assert(0 * c.size() == 0);
        lemma_rounded_zero(unit_scale());
    }
}

/// Adding a zero of either sign gives the same number.
pub proof fn lemma_zero_sum(zero: Binary64, x: Binary64)
    requires
        zero.is_zero(),
    ensures
        same_number(zero.sum(x), x),
{
    assert(units(0) == 0);
    if x.finite() && !x.is_zero() {
        lemma_units_increasing(0, x.magnitude());
        lemma_rounded_exact(x.magnitude(), x.size(), 1);
    }
}

/// A finite number times a zero is a zero.
pub proof fn lemma_zero_product(x: Binary64, zero: Binary64)
    requires
        x.finite(),
        zero.is_zero(),
    ensures
        x.product(zero).is_zero(),
{
    lemma_pow2_pos(1074);
    assert(units(0) == 0);
    assert(x.size() * 0 == 0);
    lemma_rounded_zero(unit_scale());
}

/// Multiplying by a number that is at least zero keeps order.
pub proof fn lemma_product_ordered(a: Binary64, b: Binary64, c: Binary64)
    requires
        ordered(a, b),
        not_below_zero(c),
        !a.product(c).is_nan(),
        !b.product(c).is_nan(),
    ensures
        ordered(a.product(c), b.product(c)),
{
    let scale = unit_scale();
    lemma_pow2_pos(1074);
    lemma_rounded_range(a.size() * c.size(), scale);
    lemma_rounded_range(b.size() * c.size(), scale);
    if c.is_zero() {
        lemma_zero_product(a, c);
        lemma_zero_product(b, c);
    } else if a.finite() && b.finite() && c.finite() {
        let (m, n) = (a.size(), b.size());
        if a.magnitude() < b.magnitude() {
            lemma_units_increasing(a.magnitude(), b.magnitude());
        } else if b.magnitude() < a.magnitude() {
            lemma_units_increasing(b.magnitude(), a.magnitude());
        }
        if m <= n {
            assert((m * c.size()) * scale <= (n * c.size()) * scale) by (nonlinear_arith)
                requires
                    m <= n,
            ;
            lemma_rounded_ordered(m * c.size(), scale, n * c.size(), scale);
        }
        if n <= m {
            assert((n * c.size()) * scale <= (m * c.size()) * scale) by (nonlinear_arith)
                requires
                    n <= m,
            ;
            lemma_rounded_ordered(n * c.size(), scale, m * c.size(), scale);
        }
        if a.is_zero() {
            assert(0 * c.size() == 0);
            lemma_rounded_zero(scale);
        }
        if b.is_zero() {
            assert(0 * c.size() == 0);
            lemma_rounded_zero(scale);
        }
    }
}

/// Multiplying by a number with a minus sign turns order round.
pub proof fn lemma_product_reversed(a: Binary64, b: Binary64, c: Binary64)
    requires
        ordered(a, b),
        c.negative(),
        !a.product(c).is_nan(),
        !b.product(c).is_nan(),
    ensures
        ordered(b.product(c), a.product(c)),
{
    lemma_product_opposite(a, c);
    lemma_product_opposite(b, c);
    lemma_product_ordered(a, b, c.opposite());
    lemma_opposite_ordered(a.product(c.opposite()), b.product(c.opposite()));
}

/// The sign of a factor is the sign of the product.
pub proof fn lemma_product_opposite(a: Binary64, c: Binary64)
    requires
        !a.product(c).is_nan(),
    ensures
        !a.product(c.opposite()).is_nan(),
        a.product(c.opposite()).opposite() == a.product(c),
{
    lemma_pow2_pos(1074);
    lemma_rounded_range(a.size() * c.size(), unit_scale());
    assert(c.opposite().magnitude() == c.magnitude());
}

/// Dividing by a positive number keeps order.
pub proof fn lemma_quotient_ordered(a: Binary64, b: Binary64, c: Binary64)
    requires
        ordered(a, b),
        c.finite(),
        !c.negative(),
        !c.is_zero(),
    ensures
        ordered(a.quotient(c), b.quotient(c)),
{
    let scale = unit_scale();
    let d = c.size();
    lemma_pow2_pos(1074);
    lemma_units_increasing(0, c.magnitude());
    let (m, n) = (a.size(), b.size());
    lemma_rounded_range(m * scale, d);
    lemma_rounded_range(n * scale, d);
    if a.magnitude() < b.magnitude() {
        lemma_units_increasing(a.magnitude(), b.magnitude());
    } else if b.magnitude() < a.magnitude() {
        lemma_units_increasing(b.magnitude(), a.magnitude());
    }
    if m <= n {
        assert((m * scale) * d <= (n * scale) * d) by (nonlinear_arith)
            requires
                m <= n,
        ;
        lemma_rounded_ordered(m * scale, d, n * scale, d);
    }
    if n <= m {
        assert((n * scale) * d <= (m * scale) * d) by (nonlinear_arith)
            requires
                n <= m,
        ;
        lemma_rounded_ordered(n * scale, d, m * scale, d);
    }
    if a.is_zero() {
        assert(0 * scale == 0);
        lemma_rounded_zero(d);
    }
    if b.is_zero() {
        assert(0 * scale == 0);
        lemma_rounded_zero(d);
    }
}

/// Taking away more leaves no more.
pub proof fn lemma_difference_reversed(a: Binary64, b: Binary64, c: Binary64)
    requires
        ordered(b, c),
        !a.difference(b).is_nan(),
        !a.difference(c).is_nan(),
    ensures
        ordered(a.difference(c), a.difference(b)),
{
    lemma_opposite_ordered(b, c);
    lemma_sum_commutes(a, b.opposite());
    lemma_sum_commutes(a, c.opposite());
    lemma_sum_ordered(c.opposite(), b.opposite(), a);
}

/// Addition commutes.
pub proof fn lemma_sum_commutes(a: Binary64, b: Binary64)
    ensures
        a.sum(b) == b.sum(a),
{
}

/// Multiplication commutes.
pub proof fn lemma_product_commutes(a: Binary64, b: Binary64)
    ensures
        a.product(b) == b.product(a),
{
    assert(a.size() * b.size() == b.size() * a.size()) by (nonlinear_arith);
}

/// Dividing by a larger positive number gives no larger quotient.
pub proof fn lemma_quotient_reversed(a: Binary64, b: Binary64, c: Binary64)
    requires
        a.finite(),
        !a.negative(),
        !b.negative(),
        !b.is_zero(),
        ordered(b, c),
    ensures
        ordered(a.quotient(c), a.quotient(b)),
{
    let scale = unit_scale();
    let n = a.size() * scale;
    if b.finite() {
        lemma_units_increasing(0, b.magnitude());
        lemma_rounded_range(n, b.size());
    }
    if c.finite() {
        lemma_units_increasing(0, c.magnitude());
        lemma_rounded_range(n, c.size());
        if b.magnitude() < c.magnitude() {
            lemma_units_increasing(b.magnitude(), c.magnitude());
        }
        assert(n * b.size() <= n * c.size()) by (nonlinear_arith)
            requires
                b.size() <= c.size(),
        ;
        lemma_rounded_ordered(n, c.size(), n, b.size());
    }
}

/// Counts are ordered as numbers.
pub proof fn lemma_counts_ordered(a: nat, b: nat)
    requires
        a <= b <= u64::MAX,
    ensures
        ordered(Binary64::of(a), Binary64::of(b)),
{
    let scale = unit_scale();
    lemma_count_finite(a);
    lemma_count_finite(b);
    assert((a * scale) * 1 <= (b * scale) * 1) by (nonlinear_arith)
        requires
            a <= b,
    ;
    lemma_rounded_ordered(a * scale, 1, b * scale, 1);
    lemma_rounded_range(a * scale, 1);
    lemma_rounded_range(b * scale, 1);
}

/// A whole number of at most 53 bits, at an exponent that is large enough, is a magnitude.
pub proof fn lemma_whole_magnitude(n: nat, g: nat) -> (k: int)
    requires
        0 < n <= 2 * FRACTIONS,
        g <= 1074,
        FRACTIONS <= n * pow2(g),
    ensures
        0 <= k < INFINITE,
        units(k) == n * pow2(g),
    decreases g,
{
    if n >= FRACTIONS {
        lemma_units_parts(g, n);
        assert(g * FRACTIONS + n < INFINITE) by (nonlinear_arith)
            requires
                g <= 1074,
                n <= 2 * 0x10_0000_0000_0000,
                FRACTIONS == 0x10_0000_0000_0000,
                INFINITE == 2047 * 0x10_0000_0000_0000,
        ;
        g * FRACTIONS + n
    } else {
        lemma2_to64();
        assert(n * pow2(0) == n);
        vstd::arithmetic::power2::lemma_pow2_unfold(g);
        assert(n * (2 * pow2((g - 1) as nat)) == (2 * n) * pow2((g - 1) as nat))
            by (nonlinear_arith);
        lemma_whole_magnitude(2 * n, (g - 1) as nat)
    }
}

/// Counts of at most 53 bits are numbers, with no rounding.
pub proof fn lemma_count_exact(n: nat)
    requires
        n <= 2 * FRACTIONS,
    ensures
        Binary64::of(n).finite(),
        !Binary64::of(n).negative(),
        Binary64::of(n).size() == n * unit_scale(),
{
    let scale = unit_scale();
    if n == 0 {
        assert(n * scale == 0) by (nonlinear_arith)
            requires
                n == 0,
        ;
        lemma_rounded_zero(1);
        assert(units(0) == 0);
    } else {
        lemma2_to64_rest();
        vstd::arithmetic::power2::lemma_pow2_strictly_increases(52, 1074);
        assert(FRACTIONS <= n * scale) by (nonlinear_arith)
            requires
                n >= 1,
                FRACTIONS <= scale,
        ;
        let k = lemma_whole_magnitude(n, 1074);
        lemma_rounded_exact(k, n * scale, 1);
    }
}

/// Counts of at most 53 bits add and multiply as whole numbers do.
pub proof fn lemma_counts_combine(a: nat, b: nat)
    requires
        a <= 2 * FRACTIONS,
        b <= 2 * FRACTIONS,
    ensures
        a + b <= 2 * FRACTIONS ==> Binary64::of(a).sum(Binary64::of(b)) == Binary64::of(a + b),
        Binary64::of(a).product(Binary64::of(b)) == Binary64::of(a * b),
{
    let scale = unit_scale();
    lemma_count_exact(a);
    lemma_count_exact(b);
    lemma_pow2_pos(1074);
    lemma_rounded_zero(1);
    assert(a * scale + b * scale == (a + b) * scale) by (nonlinear_arith);
    assert((a * scale) * (b * scale) * 1 == ((a * b) * scale) * scale) by (nonlinear_arith);
    lemma_rounded_ratio((a * scale) * (b * scale), scale, (a * b) * scale, 1);
}

} // verus!
