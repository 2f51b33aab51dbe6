//! Powers of two pass through the arithmetic, as long as no result leaves the normal numbers.

use vstd::arithmetic::power2::{lemma2_to64, lemma_pow2_pos, lemma_pow2_unfold, pow2};
use vstd::prelude::*;

use super::laws::{
    lemma_order_is_by_value, lemma_rounded_exact, lemma_rounded_ordered, lemma_rounded_range,
    lemma_rounded_ratio,
};
use super::rounding::{
    lemma_rounded, lemma_rounded_is, lemma_units_increasing, lemma_units_parts,
};
use super::{nearest, rounded, signed, unit_scale, units, Binary64, FRACTIONS, INFINITE};

verus! {

/// `b` is `a` times two to the power `k`, both finite.
pub open spec fn scaled(a: Binary64, b: Binary64, k: nat) -> bool {
    &&& a.finite()
    &&& b.finite()
    &&& a.negative() == b.negative()
    &&& b.size() == a.size() * pow2(k)
}

/// One exponent up is twice the number.
proof fn lemma_units_doubled(r: int)
    requires
        FRACTIONS <= r,
    ensures
        units(r + FRACTIONS) == 2 * units(r),
{
    let f = FRACTIONS as int;
    let e = r / f;
    let x = r % f;
    assert(r == e * f + x && 0 <= x < f && e >= 1) by (nonlinear_arith)
        requires
            e == r / f,
            x == r % f,
            r >= f,
            f == 0x10_0000_0000_0000int,
    ;
    assert(r + f == (e + 1) * f + x) by (nonlinear_arith)
        requires
            r == e * f + x,
    ;
    vstd::arithmetic::div_mod::lemma_fundamental_div_mod_converse(r + f, f, e + 1, x);
    lemma_pow2_unfold(e as nat);
    let p = pow2((e - 1) as nat) as int;
    assert((f + x) * (2 * p) == 2 * ((f + x) * p) && (f + x) * p >= 0) by (nonlinear_arith)
        requires
            f + x >= 0,
            p >= 0,
    ;
}

/// Several exponents up.
proof fn lemma_units_raised(r: int, k: nat)
    requires
        FRACTIONS <= r,
    ensures
        units(r + k * FRACTIONS) == units(r) * pow2(k),
    decreases k,
{
    lemma2_to64();
    if k == 0 {
        assert(units(r) * pow2(0) == units(r));
    } else {
        let j = (k - 1) as nat;
        lemma_units_raised(r, j);
        lemma_pow2_unfold(k);
        let up = r + j * FRACTIONS;
        assert(up >= FRACTIONS && up + FRACTIONS == r + k * FRACTIONS) by (nonlinear_arith)
            requires
                up == r + j * FRACTIONS,
                k == j + 1,
                r >= FRACTIONS,
        ;
        lemma_units_doubled(up);
        assert(2 * (units(r) * pow2(j)) == units(r) * (2 * pow2(j))) by (nonlinear_arith);
    }
}

/// Twice a normal result rounds to twice the number, or to infinity.
proof fn lemma_nearest_doubled(r: int, n: nat, d: nat)
    requires
        nearest(r, n, d),
        FRACTIONS <= r < INFINITE,
        d > 0,
        FRACTIONS * d <= n,
    ensures
        nearest(
            if r + FRACTIONS < INFINITE {
                r + FRACTIONS
            } else {
                INFINITE as int
            },
            2 * n,
            d,
        ),
{
    let f = FRACTIONS as int;
    lemma2_to64();
    lemma_units_doubled(r);
    lemma_units_doubled(r + 1);
    let (u, v) = (units(r), units(r + 1));
    assert(2 * ((u + v) * d) == (2 * u + 2 * v) * d) by (nonlinear_arith);
    // the midpoint below, raised
    let below = units(r + f - 1);
    assert((below + 2 * u) * d <= 2 * (2 * n) && ((below + 2 * u) * d == 2 * (2 * n) ==> r % 2
        == 0)) by {
        if r > FRACTIONS {
            lemma_units_doubled(r - 1);
            let w = units(r - 1);
            assert(2 * ((w + u) * d) == (2 * w + 2 * u) * d) by (nonlinear_arith);
        } else {
            lemma_units_parts(0, FRACTIONS as nat);
            assert(FRACTIONS * pow2(0) == FRACTIONS);
            lemma_units_increasing(2 * f - 1, 2 * f);
            assert((below + 2 * u) * d < 4 * (f * d)) by (nonlinear_arith)
                requires
                    below < 2 * f,
                    u == f,
                    d > 0,
            ;
        }
    }
    assert((r + f) % 2 == r % 2);
    if r + f > INFINITE {
        lemma_units_increasing(INFINITE - 1, r + f - 1);
        lemma_units_increasing(INFINITE as int, r + f);
        let (x, y) = (units(INFINITE - 1), units(INFINITE as int));
        assert((x + y) * d < (below + 2 * u) * d) by (nonlinear_arith)
            requires
                x < below,
                y < 2 * u,
                d > 0,
        ;
    }
}

/// A normal result times a power of two rounds to the number times that power, if it is finite.
pub proof fn lemma_rounded_scaled(n: nat, d: nat, k: nat)
    requires
        d > 0,
        FRACTIONS * d <= n,
        rounded(n * pow2(k), d) < INFINITE,
    ensures
        FRACTIONS <= rounded(n, d) < INFINITE,
        rounded(n * pow2(k), d) == rounded(n, d) + k * FRACTIONS,
        units(rounded(n * pow2(k), d)) == units(rounded(n, d)) * pow2(k),
    decreases k,
{
    lemma2_to64();
    let r = rounded(n, d);
    lemma_units_parts(0, FRACTIONS as nat);
    assert(FRACTIONS * pow2(0) == FRACTIONS);
    lemma_rounded_exact(FRACTIONS as int, (FRACTIONS * d) as nat, d);
    assert((FRACTIONS * d) * d <= n * d) by (nonlinear_arith)
        requires
            FRACTIONS * d <= n,
    ;
    lemma_rounded_ordered((FRACTIONS * d) as nat, d, n, d);
    if k == 0 {
        assert(n * pow2(0) == n);
        assert(0 * FRACTIONS == 0);
    } else {
        let j = (k - 1) as nat;
        let m = n * pow2(j);
        lemma_pow2_unfold(k);
        lemma_pow2_pos(j);
        assert(n * (2 * pow2(j)) == 2 * m) by (nonlinear_arith)
            requires
                m == n * pow2(j),
        ;
        assert(m * d <= (2 * m) * d) by (nonlinear_arith);
        assert(m >= n) by (nonlinear_arith)
            requires
                m == n * pow2(j),
                pow2(j) >= 1,
        ;
        lemma_rounded_ordered(m, d, 2 * m, d);
        lemma_rounded_scaled(n, d, j);
        let s = rounded(m, d);
        lemma_rounded(m, d);
        assert(s >= FRACTIONS) by (nonlinear_arith)
            requires
                s == r + j * FRACTIONS,
                r >= FRACTIONS,
        ;
        lemma_nearest_doubled(s, m, d);
        lemma_rounded_is(
            if s + FRACTIONS < INFINITE {
                s + FRACTIONS
            } else {
                INFINITE as int
            },
            2 * m,
            d,
        );
        assert(s + FRACTIONS == r + k * FRACTIONS) by (nonlinear_arith)
            requires
                s == r + j * FRACTIONS,
                k == j + 1,
        ;
    }
    lemma_units_raised(r, k);
}

/// Scaling keeps order.
pub proof fn lemma_scaled_order(a: Binary64, b: Binary64, c: Binary64, d: Binary64, k: nat)
    requires
        scaled(a, b, k),
        scaled(c, d, k),
    ensures
        a.below(c) <==> b.below(d),
        a.equals(c) <==> b.equals(d),
{
    lemma_order_is_by_value(a, c);
    lemma_order_is_by_value(b, d);
    lemma_pow2_pos(k);
    lemma_scaled_value(a, b, k);
    lemma_scaled_value(c, d, k);
    let p = pow2(k) as int;
    let (x, y) = (a.value(), c.value());
    assert((x < y <==> x * p < y * p) && (x == y <==> x * p == y * p)) by (nonlinear_arith)
        requires
            p > 0,
    ;
}

/// Scaling goes by size.
pub proof fn lemma_scaled_absolute(a: Binary64, b: Binary64, k: nat)
    requires
        scaled(a, b, k),
    ensures
        scaled(a.absolute(), b.absolute(), k),
{
    assert(a.absolute().magnitude() == a.magnitude());
    assert(b.absolute().magnitude() == b.magnitude());
}

/// Scaling multiplies the value.
pub proof fn lemma_scaled_value(a: Binary64, b: Binary64, k: nat)
    requires
        scaled(a, b, k),
    ensures
        b.value() == a.value() * pow2(k),
{
    let (x, p) = (a.size() as int, pow2(k) as int);
    assert((-x) * p == -(x * p)) by (nonlinear_arith);
}

/// The difference of scaled numbers is the scaled difference, where it is positive, normal and
/// finite.
pub proof fn lemma_scaled_difference(
    low: Binary64,
    low2: Binary64,
    high: Binary64,
    high2: Binary64,
    k: nat,
)
    requires
        scaled(low, low2, k),
        scaled(high, high2, k),
        low.below(high),
        high.difference(low).magnitude() >= FRACTIONS,
        high2.difference(low2).finite(),
    ensures
        scaled(high.difference(low), high2.difference(low2), k),
        !high.difference(low).negative(),
{
    lemma_scaled_order(low, low2, high, high2, k);
    lemma_scaled_value(low, low2, k);
    lemma_scaled_value(high, high2, k);
    let n = lemma_positive_difference(low, high);
    let n2 = lemma_positive_difference(low2, high2);
    let p = pow2(k) as int;
    let (x, y) = (high.value(), low.value());
    assert((x - y) * p == x * p - y * p) by (nonlinear_arith);
    assert(n2 == n * pow2(k));
    if n < FRACTIONS {
        assert(units(n as int) == n);
        lemma_rounded_exact(n as int, n, 1);
    }
    lemma_rounded_scaled(n, 1, k);
}

/// What a larger number has over a smaller one, in units.
proof fn lemma_positive_difference(low: Binary64, high: Binary64) -> (n: nat)
    requires
        low.finite(),
        high.finite(),
        low.below(high),
    ensures
        n == high.value() - low.value(),
        high.difference(low) == signed(false, rounded(n, 1)),
        high.difference(low).magnitude() == rounded(n, 1),
        !high.difference(low).negative(),
        0 <= rounded(n, 1) <= INFINITE,
{
    lemma_order_is_by_value(low, high);
    assert(low.opposite().magnitude() == low.magnitude());
    assert(low.opposite().value() == -low.value());
    let n = (high.value() - low.value()) as nat;
    lemma_rounded_range(n, 1);
    n
}

/// The product of a scaled number is the scaled product, where it is normal and finite.
#[verifier::rlimit(30)]
pub proof fn lemma_scaled_product(a: Binary64, b: Binary64, c: Binary64, k: nat)
    requires
        scaled(a, b, k),
        c.finite(),
        FRACTIONS * unit_scale() <= a.size() * c.size(),
        b.product(c).finite(),
    ensures
        scaled(a.product(c), b.product(c), k),
        a.product(c).magnitude() >= FRACTIONS,
{
    let n = a.size() * c.size();
    lemma_pow2_pos(1074);
    assert(b.size() * c.size() == n * pow2(k)) by (nonlinear_arith)
        requires
            b.size() == a.size() * pow2(k),
            n == a.size() * c.size(),
    ;
    lemma_rounded_range(n, unit_scale());
    lemma_rounded_range(n * pow2(k), unit_scale());
    lemma_rounded_scaled(n, unit_scale(), k);
}

/// Dividing by a scaled number gives what is scaled to the quotient by the number itself, where it
/// is normal and finite.
pub proof fn lemma_scaled_divisor(c: Binary64, a: Binary64, b: Binary64, k: nat)
    requires
        scaled(a, b, k),
        !a.is_zero(),
        c.finite(),
        FRACTIONS * b.size() <= c.size() * unit_scale(),
        c.quotient(a).finite(),
    ensures
        scaled(c.quotient(b), c.quotient(a), k),
{
    let n = c.size() * unit_scale();
    lemma_units_increasing(0, a.magnitude());
    lemma_pow2_pos(k);
    assert(b.size() > 0) by (nonlinear_arith)
        requires
            b.size() == a.size() * pow2(k),
            a.size() > 0,
            pow2(k) > 0,
    ;
    assert(units(0) == 0);
    assert((n * pow2(k)) * a.size() == n * b.size()) by (nonlinear_arith)
        requires
            b.size() == a.size() * pow2(k),
    ;
    lemma_rounded_ratio(n * pow2(k), b.size(), n, a.size());
    lemma_rounded_range(n, a.size());
    lemma_rounded_range(n, b.size());
    lemma_rounded_scaled(n, b.size(), k);
}

/// Dividing both by scaled numbers changes nothing.
pub proof fn lemma_scaled_ratio(a: Binary64, b: Binary64, c: Binary64, d: Binary64, k: nat)
    requires
        scaled(a, b, k),
        scaled(c, d, k),
        !c.is_zero(),
    ensures
        a.quotient(c) == b.quotient(d),
{
    lemma_units_increasing(0, c.magnitude());
    lemma_pow2_pos(k);
    assert(d.size() > 0) by (nonlinear_arith)
        requires
            d.size() == c.size() * pow2(k),
            c.size() > 0,
            pow2(k) > 0,
    ;
    assert(units(0) == 0);
    let scale = unit_scale();
    assert((a.size() * scale) * d.size() == (b.size() * scale) * c.size()) by (nonlinear_arith)
        requires
            b.size() == a.size() * pow2(k),
            d.size() == c.size() * pow2(k),
    ;
    lemma_rounded_ratio(a.size() * scale, c.size(), b.size() * scale, d.size());
}

/// What one factor gains the other loses.
pub proof fn lemma_scaled_factors(a: Binary64, b: Binary64, c: Binary64, d: Binary64, k: nat)
    requires
        scaled(a, b, k),
        scaled(d, c, k),
    ensures
        a.product(c) == b.product(d),
{
    assert(a.size() * c.size() == b.size() * d.size()) by (nonlinear_arith)
        requires
            b.size() == a.size() * pow2(k),
            c.size() == d.size() * pow2(k),
    ;
}

} // verus!
