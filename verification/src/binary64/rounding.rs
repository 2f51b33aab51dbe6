//! Rounding an exact result to the nearest magnitude.

use vstd::arithmetic::power2::{
    lemma2_to64, lemma2_to64_rest, lemma_pow2_adds, lemma_pow2_pos, lemma_pow2_strictly_increases,
    lemma_pow2_unfold, pow2,
};
use vstd::prelude::*;

use super::{nearest, rounded, units, FRACTIONS, INFINITE};

verus! {

/// The distance from a magnitude to the next one, as a power of two.
pub open spec fn gap(k: int) -> nat {
    if k < FRACTIONS {
        0
    } else {
        (k / FRACTIONS as int - 1) as nat
    }
}

/// Magnitudes are apart by the gap.
pub proof fn lemma_units_step(k: int)
    requires
        0 <= k,
    ensures
        units(k + 1) == units(k) + pow2(gap(k)),
{
    lemma2_to64();
    let f = FRACTIONS as int;
    if k + 1 < f {
    } else if k + 1 == f {
        assert((k + 1) % f == 0 && (k + 1) / f == 1);
        assert(units(k + 1) == f);
    } else {
        let e = k / f;
        let r = k % f;
        assert(k == f * e + r && 1 <= e) by (nonlinear_arith)
            requires
                e == k / f,
                r == k % f,
                f == 0x10_0000_0000_0000int,
                k >= f,
        ;
        let p = pow2((e - 1) as nat) as int;
        assert(units(k) == (f + r) * p) by {
            assert((f + r) * p >= 0) by (nonlinear_arith)
                requires
                    f + r >= 0,
                    p >= 0,
            ;
        }
        if r + 1 < f {
            vstd::arithmetic::div_mod::lemma_fundamental_div_mod_converse(k + 1, f, e, r + 1);
            assert((f + (r + 1)) * p == (f + r) * p + p) by (nonlinear_arith);
            assert(units(k + 1) == (f + (r + 1)) * p);
        } else {
            assert(k + 1 == (e + 1) * f + 0) by (nonlinear_arith)
                requires
                    k == f * e + r,
                    r + 1 == f,
            ;
            vstd::arithmetic::div_mod::lemma_fundamental_div_mod_converse(k + 1, f, e + 1, 0);
            lemma_pow2_unfold(e as nat);
            assert(f * (2 * p) == (f + r) * p + p) by (nonlinear_arith)
                requires
                    r + 1 == f,
            ;
            assert(units(k + 1) == f * (2 * p));
        }
    }
}

/// Larger magnitudes are larger numbers.
pub proof fn lemma_units_increasing(i: int, j: int)
    requires
        0 <= i < j,
    ensures
        units(i) < units(j),
    decreases j - i,
{
    lemma_units_step(j - 1);
    lemma_pow2_pos(gap(j - 1));
    if i < j - 1 {
        lemma_units_increasing(i, j - 1);
    }
}

/// A significand `q` at exponent `g` is the magnitude `g * FRACTIONS + q`.
pub proof fn lemma_units_parts(g: nat, q: nat)
    requires
        q <= 2 * FRACTIONS,
        g == 0 || q >= FRACTIONS,
    ensures
        units(g * FRACTIONS + q) == q * pow2(g),
{
    lemma2_to64();
    let f = FRACTIONS as int;
    let k = g * f + q;
    assert(k >= q) by (nonlinear_arith)
        requires
            k == g * f + q,
            f >= 0,
            g >= 0,
    ;
    if q < f {
        assert(g == 0);
        assert(k == q) by (nonlinear_arith)
            requires
                k == g * f + q,
                g == 0,
        ;
    } else if q < 2 * f {
        assert(k == (g + 1) * f + (q - f)) by (nonlinear_arith)
            requires
                k == g * f + q,
        ;
        vstd::arithmetic::div_mod::lemma_fundamental_div_mod_converse(k, f, (g + 1) as int, q - f);
    } else {
        assert(k == (g + 2) * f + 0) by (nonlinear_arith)
            requires
                k == g * f + q,
                q == 2 * f,
        ;
        vstd::arithmetic::div_mod::lemma_fundamental_div_mod_converse(k, f, (g + 2) as int, 0);
        lemma_pow2_unfold(g + 1);
        assert(f * (2 * pow2(g)) == q * pow2(g)) by (nonlinear_arith)
            requires
                q == 2 * f,
        ;
    }
}

/// The nearest magnitudes of two exact results are ordered as the results are.
pub proof fn lemma_nearest_ordered(k1: int, n1: nat, d1: nat, k2: int, n2: nat, d2: nat)
    requires
        nearest(k1, n1, d1),
        nearest(k2, n2, d2),
        d1 > 0,
        d2 > 0,
        n1 * d2 <= n2 * d1,
    ensures
        k1 <= k2,
{
    if k1 > k2 {
        let a = units(k1 - 1) + units(k1);
        let b = units(k2) + units(k2 + 1);
        assert(b <= a && (k2 + 1 < k1 ==> b < a)) by {
            if k2 + 1 < k1 {
                lemma_units_increasing(k2, k1 - 1);
                lemma_units_increasing(k2 + 1, k1);
            }
        }
        let dd = d1 * d2;
        assert(dd > 0) by (nonlinear_arith)
            requires
                d1 > 0,
                d2 > 0,
                dd == d1 * d2,
        ;
        assert((a * d1) * d2 == a * dd && (b * d2) * d1 == b * dd) by (nonlinear_arith)
            requires
                dd == d1 * d2,
        ;
        let x = a * d1;
        let y = b * d2;
        assert(x * d2 <= (2 * n1) * d2 && (x < 2 * n1 ==> x * d2 < (2 * n1) * d2))
            by (nonlinear_arith)
            requires
                x <= 2 * n1,
                d2 > 0,
        ;
        assert((2 * n2) * d1 <= y * d1 && (2 * n2 < y ==> (2 * n2) * d1 < y * d1))
            by (nonlinear_arith)
            requires
                2 * n2 <= y,
                d1 > 0,
        ;
        assert((2 * n1) * d2 == 2 * (n1 * d2) && (2 * n2) * d1 == 2 * (n2 * d1))
            by (nonlinear_arith);
        assert(b * dd <= a * dd && (b < a ==> b * dd < a * dd)) by (nonlinear_arith)
            requires
                b <= a,
                dd > 0,
        ;
    }
}

/// One exact result has one nearest magnitude.
pub proof fn lemma_nearest_unique(j: int, k: int, n: nat, d: nat)
    requires
        nearest(j, n, d),
        nearest(k, n, d),
        d > 0,
    ensures
        j == k,
{
    lemma_nearest_ordered(j, n, d, k, n, d);
    lemma_nearest_ordered(k, n, d, j, n, d);
}

/// Where `n / d` is at most the midpoint above `k`, a nearest magnitude exists.
proof fn lemma_nearest_from(k: int, n: nat, d: nat)
    requires
        0 <= k <= INFINITE,
        d > 0,
        k < INFINITE ==> 2 * n <= (units(k) + units(k + 1)) * d,
    ensures
        exists|j: int| nearest(j, n, d),
    decreases k,
{
    let low = (units(k - 1) + units(k)) * d;
    if k > 0 && (2 * n < low || (2 * n == low && k % 2 != 0)) {
        lemma_nearest_from(k - 1, n, d);
    } else if k < INFINITE && 2 * n == (units(k) + units(k + 1)) * d && k % 2 != 0 {
        if k + 1 < INFINITE {
            lemma_units_increasing(k, k + 2);
            assert((units(k) + units(k + 1)) * d < (units(k + 1) + units(k + 2)) * d)
                by (nonlinear_arith)
                requires
                    units(k) < units(k + 2),
                    d > 0,
            ;
        }
        assert(nearest(k + 1, n, d));
    } else {
        assert(nearest(k, n, d));
    }
}

/// Every exact result has a nearest magnitude.
pub proof fn lemma_rounded(n: nat, d: nat)
    requires
        d > 0,
    ensures
        nearest(rounded(n, d), n, d),
{
    lemma_nearest_from(INFINITE as int, n, d);
}

/// A magnitude that is nearest is what [`rounded`] picks.
pub proof fn lemma_rounded_is(k: int, n: nat, d: nat)
    requires
        nearest(k, n, d),
        d > 0,
    ensures
        rounded(n, d) == k,
{
    lemma_rounded(n, d);
    lemma_nearest_unique(rounded(n, d), k, n, d);
}

/// Nothing rounds to zero.
pub proof fn lemma_rounded_zero(d: nat)
    requires
        d > 0,
    ensures
        rounded(0, d) == 0,
{
    assert(nearest(0, 0, d)) by {
        assert(units(0) == 0 && units(1) == 1);
    }
    lemma_rounded_is(0, 0, d);
}

/// A significand whose remainder has been dropped rounds to itself or to the next one.
proof fn lemma_nearest_step(g: nat, q: nat, up: bool, n: nat, d: nat)
    requires
        d > 0,
        q < 2 * FRACTIONS,
        g == 0 || q >= FRACTIONS,
        g < 2046,
        q * (pow2(g) * d) <= n < (q + 1) * (pow2(g) * d),
        up <==> (2 * q + 1) * (pow2(g) * d) < 2 * n || ((2 * q + 1) * (pow2(g) * d) == 2 * n && q
            % 2 == 1),
    ensures
        nearest(
            g * FRACTIONS + q + if up {
                1int
            } else {
                0
            },
            n,
            d,
        ),
{
    let f = FRACTIONS as int;
    let k = g * f + q;
    let w = pow2(g) * d;
    lemma_units_parts(g, q);
    lemma_units_parts(g, (q + 1) as nat);
    assert(0 <= k && k + 1 <= INFINITE) by (nonlinear_arith)
        requires
            k == g * f + q,
            f == 0x10_0000_0000_0000int,
            0 <= g <= 2045,
            0 <= q < 2 * f,
            INFINITE == 2047 * 0x10_0000_0000_0000int,
    ;
    assert(k % 2 == q % 2) by (nonlinear_arith)
        requires
            k == g * f + q,
            f == 2 * 0x8_0000_0000_0000int,
    ;
    assert((units(k) + units(k + 1)) * d == (2 * q + 1) * w) by (nonlinear_arith)
        requires
            units(k) == q * pow2(g),
            units(k + 1) == (q + 1) * pow2(g),
            w == pow2(g) * d,
    ;
    if up {
        if k + 1 < INFINITE {
            lemma_units_increasing(k + 1, k + 2);
            assert((q + 1) * w == units(k + 1) * d) by (nonlinear_arith)
                requires
                    units(k + 1) == (q + 1) * pow2(g),
                    w == pow2(g) * d,
            ;
            assert(2 * n < (units(k + 1) + units(k + 2)) * d) by (nonlinear_arith)
                requires
                    n < units(k + 1) * d,
                    units(k + 1) < units(k + 2),
                    d > 0,
            ;
        }
    } else {
        if k > 0 {
            lemma_units_increasing(k - 1, k);
            assert(q * w == units(k) * d) by (nonlinear_arith)
                requires
                    units(k) == q * pow2(g),
                    w == pow2(g) * d,
            ;
            assert((units(k - 1) + units(k)) * d < 2 * n) by (nonlinear_arith)
                requires
                    units(k) * d <= n,
                    units(k - 1) < units(k),
                    d > 0,
            ;
        }
    }
}

/// What is at least the first power of two beyond the finite numbers rounds to infinity.
proof fn lemma_nearest_infinite(n: nat, d: nat)
    requires
        d > 0,
        FRACTIONS * (pow2(2046) * d) <= n,
    ensures
        nearest(INFINITE as int, n, d),
{
    lemma_units_parts(2046, FRACTIONS as nat);
    lemma_units_increasing(INFINITE - 1, INFINITE as int);
    assert((units(INFINITE - 1) + units(INFINITE as int)) * d < 2 * n) by (nonlinear_arith)
        requires
            units(INFINITE as int) == FRACTIONS * pow2(2046),
            units(INFINITE - 1) < units(INFINITE as int),
            FRACTIONS * (pow2(2046) * d) <= n,
            d > 0,
    ;
}

/// The exact result `n / d` seen through a significand: it is `sig * 2^exp` units, or, where
/// something was dropped, lies strictly between that and `(sig + 1) * 2^exp` units.
pub open spec fn encloses(sig: int, exp: int, dropped: bool, n: nat, d: nat) -> bool {
    let step = pow2((exp + 5000) as nat) * d;
    let exact = n * pow2(5000);
    if dropped {
        sig * step < exact < (sig + 1) * step
    } else {
        sig * step == exact
    }
}

proof fn lemma_one_shifted(s: u128)
    requires
        s < 128,
    ensures
        (1u128 << s) == pow2(s as nat),
    decreases s,
{
    lemma2_to64();
    if s == 0 {
        assert(1u128 << 0u128 == 1) by (bit_vector);
    } else {
        lemma_one_shifted((s - 1) as u128);
        lemma_pow2_unfold(s as nat);
        assert((1u128 << s) == 2 * (1u128 << ((s - 1) as u128))) by (bit_vector)
            requires
                1 <= s < 128,
        ;
    }
}

/// Two to the power `s`.
pub fn power_of_two(s: u32) -> (r: u128)
    requires
        s < 128,
    ensures
        r == pow2(s as nat),
{
    proof {
        lemma_one_shifted(s as u128);
    }
    1u128 << (s as u128)
}

proof fn lemma_leading_zeros(x: u64)
    requires
        x > 0,
    ensures
        vstd::std_specs::bits::u64_leading_zeros(x) < 64,
        pow2((63 - vstd::std_specs::bits::u64_leading_zeros(x)) as nat) <= x,
        x < pow2((64 - vstd::std_specs::bits::u64_leading_zeros(x)) as nat),
{
    lemma2_to64();
    let z = vstd::std_specs::bits::u64_leading_zeros(x) as u64;
    vstd::std_specs::bits::axiom_u64_leading_zeros(x);
    let s = (63 - z) as u64;
    vstd::bits::lemma_u64_shr_is_div(x, s);
    assert(x >> s != 0) by (bit_vector)
        requires
            (x >> s) & 1u64 != 0u64,
    ;
    lemma_pow2_pos(s as nat);
    if x < pow2(s as nat) {
        vstd::arithmetic::div_mod::lemma_basic_div(x as int, pow2(s as nat) as int);
    }
    if z > 0 {
        let t = (64 - z) as u64;
        vstd::bits::lemma_u64_shr_is_div(x, t);
        lemma_pow2_pos(t as nat);
        if x >= pow2(t as nat) {
            vstd::arithmetic::div_mod::lemma_div_non_zero(x as int, pow2(t as nat) as int);
        }
    } else {
        lemma_pow2_unfold(64);
        assert(pow2(63) == 0x8000_0000_0000_0000);
    }
}

/// Whether a count is a power of two.
pub fn is_power_of_two(count: u64) -> (r: bool)
    ensures
        r == exists|s: nat| s < 64 && count == #[trigger] pow2(s),
{
    if count == 0 {
        proof {
            assert forall|s: nat| s < 64 implies count != #[trigger] pow2(s) by {
                lemma_pow2_pos(s);
            }
        }
        return false;
    }
    let top: u32 = 63 - count.leading_zeros();
    proof {
        lemma_leading_zeros(count);
        assert forall|s: nat| s < 64 && count == #[trigger] pow2(s) implies s == top by {
            if s < top {
                lemma_pow2_strictly_increases(s, top as nat);
            } else if s > top {
                if s > top + 1 {
                    lemma_pow2_strictly_increases((top + 1) as nat, s);
                }
            }
        }
    }
    power_of_two(top) == count as u128
}

/// The number of bits of a positive number.
fn bit_length(x: u128) -> (r: u32)
    requires
        x > 0,
    ensures
        1 <= r <= 128,
        pow2((r - 1) as nat) <= x < pow2(r as nat),
{
    let high: u128 = x / 0x1_0000_0000_0000_0000u128;
    let ghost w = 0x1_0000_0000_0000_0000int;
    proof {
        lemma2_to64();
        lemma_pow2_unfold(64);
        assert(pow2(64) == w);
    }
    if high > 0 {
        let z: u32 = (high as u64).leading_zeros();
        proof {
            lemma_leading_zeros(high as u64);
            let b = (64 - z) as nat;
            lemma_pow2_adds((b - 1) as nat, 64);
            lemma_pow2_adds(b, 64);
            let lo = pow2((b - 1) as nat) as int;
            let hi = pow2(b) as int;
            assert(lo * w <= x < hi * w) by (nonlinear_arith)
                requires
                    lo <= high < hi,
                    high == x as int / w,
                    w == 0x1_0000_0000_0000_0000int,
                    x >= 0,
            ;
        }
        128 - z
    } else {
        let z: u32 = (x as u64).leading_zeros();
        proof {
            lemma_leading_zeros(x as u64);
        }
        64 - z
    }
}

/// The facts that decide a rounding, in terms of the significand that is left after dropping
/// the low bits of `sig`.
proof fn lemma_dropped_bits(
    sig: nat,
    exp: int,
    dropped: bool,
    n: nat,
    d: nat,
    drop: nat,
    q: nat,
    rem: nat,
)
    requires
        encloses(sig as int, exp, dropped, n, d),
        d > 0,
        -4999 <= exp,
        1 <= drop,
        0 <= exp + drop,
        sig == q * pow2(drop) + rem,
        rem < pow2(drop),
    ensures
        q * (pow2((exp + drop) as nat) * d) <= n < (q + 1) * (pow2((exp + drop) as nat) * d),
        ({
            let w = pow2((exp + drop) as nat) * d;
            let half = pow2((drop - 1) as nat);
            &&& rem > half ==> (2 * q + 1) * w < 2 * n
            &&& rem == half && dropped ==> (2 * q + 1) * w < 2 * n
            &&& rem == half && !dropped ==> (2 * q + 1) * w == 2 * n
            &&& rem < half ==> 2 * n < (2 * q + 1) * w
        }),
{
    let g = (exp + drop) as nat;
    let b = pow2(5000) as int;
    let p = pow2(drop) as int;
    let half = pow2((drop - 1) as nat) as int;
    let c = pow2((exp + 5000) as nat) as int;
    let step = c * d;
    let w = pow2(g) * d;
    let exact = n * b;
    lemma_pow2_pos(5000);
    lemma_pow2_pos((exp + 5000) as nat);
    lemma_pow2_unfold(drop);
    lemma_pow2_adds(drop, (exp + 5000) as nat);
    lemma_pow2_adds(g, 5000);
    assert(p * c == pow2(g) * b);
    assert(step > 0) by (nonlinear_arith)
        requires
            c > 0,
            d > 0,
            step == c * d,
    ;
    assert(p * step == w * b) by (nonlinear_arith)
        requires
            p * c == pow2(g) * b,
            step == c * d,
            w == pow2(g) * d,
    ;
    // everything is compared after multiplying by `b`
    assert(q * w * b == (q * p) * step) by (nonlinear_arith)
        requires
            p * step == w * b,
    ;
    assert((q + 1) * w * b == (q * p + p) * step) by (nonlinear_arith)
        requires
            p * step == w * b,
    ;
    assert((2 * q + 1) * w * b == (2 * (q * p) + p) * step) by (nonlinear_arith)
        requires
            p * step == w * b,
    ;
    let s = sig as int;
    assert((s + 1) * step == s * step + step) by (nonlinear_arith);
    assert((q * p) * step <= s * step) by (nonlinear_arith)
        requires
            q * p <= s,
            step > 0,
    ;
    assert((s + 1) * step <= (q * p + p) * step) by (nonlinear_arith)
        requires
            s + 1 <= q * p + p,
            step > 0,
    ;
    assert(q * w <= n && n < (q + 1) * w) by (nonlinear_arith)
        requires
            q * w * b <= n * b,
            n * b < (q + 1) * w * b,
            b > 0,
    ;
    let mid = 2 * (q * p) + p;
    let twice = 2 * n * b;
    assert(twice == 2 * exact) by (nonlinear_arith)
        requires
            exact == n * b,
            twice == 2 * n * b,
    ;
    assert(2 * (s * step) == (2 * s) * step && 2 * ((s + 1) * step) == (2 * s + 2) * step)
        by (nonlinear_arith);
    if rem > half {
        assert(mid * step < (2 * s) * step) by (nonlinear_arith)
            requires
                mid < 2 * s,
                step > 0,
        ;
    } else if rem == half {
        assert(mid == 2 * s);
    } else {
        assert((2 * s + 2) * step <= mid * step) by (nonlinear_arith)
            requires
                2 * s + 2 <= mid,
                step > 0,
        ;
        assert((2 * s) * step < mid * step) by (nonlinear_arith)
            requires
                2 * s < mid,
                step > 0,
        ;
    }
    let u = (2 * q + 1) * w;
    assert((u * b < twice ==> u < 2 * n) && (u * b == twice ==> u == 2 * n) && (twice < u * b ==> 2
        * n < u)) by (nonlinear_arith)
        requires
            twice == 2 * n * b,
            b > 0,
    ;
}

/// The magnitude nearest to the exact result that a significand encloses.
pub(crate) fn round(
    sig: u128,
    exp: i32,
    dropped: bool,
    Ghost(n): Ghost<nat>,
    Ghost(d): Ghost<nat>,
) -> (k: u64)
    requires
        0 < sig < 0x8000_0000_0000_0000_0000_0000_0000_0000,
        dropped ==> sig >= 0x8000_0000_0000_0000,
        -4000 <= exp <= 4000,
        d > 0,
        encloses(sig as int, exp as int, dropped, n, d),
    ensures
        k == rounded(n, d),
        nearest(k as int, n, d),
{
    proof {
        lemma2_to64();
        lemma2_to64_rest();
        lemma_pow2_adds(63, 64);
        assert(pow2(127) == 0x8000_0000_0000_0000_0000_0000_0000_0000);
    }
    let mut wide: u128 = sig;
    let mut low: i32 = exp;
    if sig < 0x8000_0000_0000_0000 {
        wide = sig * 0x8000_0000_0000_0000;
        low = exp - 63;
        proof {
            lemma_pow2_adds(63, (low + 5000) as nat);
            assert(wide * (pow2((low + 5000) as nat) * d) == sig * (pow2((exp + 5000) as nat) * d))
                by (nonlinear_arith)
                requires
                    wide == sig * pow2(63),
                    pow2((exp + 5000) as nat) == pow2(63) * pow2((low + 5000) as nat),
            ;
        }
    }
    let length: u32 = bit_length(wide);
    proof {
        if length < 64 {
            lemma_pow2_strictly_increases(length as nat, 63);
        }
        if length > 127 {
            lemma_pow2_strictly_increases(127, (length - 1) as nat);
        }
    }
    let spare: i32 = length as i32 - 53;
    let drop: i32 = if low + spare < 0 {
        -low
    } else {
        spare
    };
    let k: u64;
    if drop >= 128 {
        k = 0;
        proof {
            let b = pow2(5000) as int;
            let c = pow2((low + 5000) as nat) as int;
            let step = c * d;
            lemma_pow2_pos(5000);
            lemma_pow2_pos((low + 5000) as nat);
            lemma_pow2_adds(128, (low + 5000) as nat);
            lemma_pow2_unfold(128);
            if low + 5128 < 5000 {
                lemma_pow2_strictly_increases((low + 5128) as nat, 5000);
            }
            assert(pow2(128) * c <= b);
            assert((wide + 1) * step == wide * step + step) by (nonlinear_arith);
            assert(step > 0) by (nonlinear_arith)
                requires
                    c > 0,
                    d > 0,
                    step == c * d,
            ;
            assert(2 * n < d) by (nonlinear_arith)
                requires
                    n * b < (wide + 1) * step,
                    2 * (wide + 1) <= pow2(128),
                    pow2(128) * c <= b,
                    step == c * d,
                    c > 0,
                    d > 0,
                    b > 0,
            {
                assert(2 * (n * b) < (2 * (wide + 1)) * step);
                assert((2 * (wide + 1)) * step <= pow2(128) * step);
                assert(pow2(128) * step == (pow2(128) * c) * d);
                assert((pow2(128) * c) * d <= b * d);
            }
            assert(units(0) == 0 && units(1) == 1);
        }
    } else if low + drop >= 2046 {
        k = INFINITE;
        proof {
            let g = (low + drop) as nat;
            let p = pow2(drop as nat) as int;
            lemma_pow2_pos(drop as nat);
            lemma_pow2_adds(52, drop as nat);
            let q = wide as int / p;
            let rem = wide as int % p;
            assert(wide == q * p + rem && 0 <= rem < p) by (nonlinear_arith)
                requires
                    q == wide as int / p,
                    rem == wide as int % p,
                    p > 0,
            ;
            assert(q >= FRACTIONS) by (nonlinear_arith)
                requires
                    wide == q * p + rem,
                    rem < p,
                    wide >= FRACTIONS * p,
                    p > 0,
            ;
            lemma_dropped_bits(
                wide as nat,
                low as int,
                dropped,
                n,
                d,
                drop as nat,
                q as nat,
                rem as nat,
            );
            if g > 2046 {
                lemma_pow2_strictly_increases(2046, g);
            }
            assert(FRACTIONS * (pow2(2046) * d) <= q * (pow2(g) * d)) by (nonlinear_arith)
                requires
                    FRACTIONS <= q,
                    pow2(2046) <= pow2(g),
                    d > 0,
                    pow2(2046) >= 0,
            ;
            lemma_nearest_infinite(n, d);
        }
    } else {
        let p: u128 = power_of_two(drop as u32);
        proof {
            lemma_pow2_pos(drop as nat);
        }
        let q: u128 = wide / p;
        proof {
            assert(wide == q * p + wide % p && wide % p < p) by (nonlinear_arith)
                requires
                    q == wide / p,
                    p > 0,
            ;
            lemma_pow2_adds(53, spare as nat);
            if spare < drop {
                lemma_pow2_strictly_increases(spare as nat, drop as nat);
            }
            assert(q < 2 * FRACTIONS) by (nonlinear_arith)
                requires
                    wide >= q * p,
                    wide < 2 * FRACTIONS * pow2(spare as nat),
                    pow2(spare as nat) <= p,
                    p > 0,
            ;
            if spare == drop {
                lemma_pow2_adds(52, spare as nat);
                assert(q >= FRACTIONS) by (nonlinear_arith)
                    requires
                        wide < q * p + p,
                        wide >= FRACTIONS * p,
                        p > 0,
                ;
            }
        }
        let rem: u128 = wide % p;
        let half: u128 = p / 2;
        let up: bool = rem > half || (rem == half && (dropped || q % 2 == 1));
        let g: u64 = (low + drop) as u64;
        proof {
            lemma_pow2_unfold(drop as nat);
            lemma_dropped_bits(
                wide as nat,
                low as int,
                dropped,
                n,
                d,
                drop as nat,
                q as nat,
                rem as nat,
            );
            lemma_nearest_step(g as nat, q as nat, up, n, d);
            assert(g * FRACTIONS <= 2045 * FRACTIONS) by (nonlinear_arith)
                requires
                    g <= 2045,
            ;
        }
        k = g * FRACTIONS + q as u64 + if up {
            1
        } else {
            0
        };
    }
    proof {
        lemma_rounded_is(k as int, n, d);
    }
    k
}

} // verus!
