//! Addition, subtraction, multiplication, division and conversion.

use vstd::arithmetic::power2::{lemma_pow2_adds, lemma_pow2_pos, lemma_pow2_unfold, pow2};
use vstd::prelude::*;

use super::rounding::{encloses, lemma_rounded_zero, power_of_two, round};
use super::{rounded, signed, unit_scale, units, Binary64, FRACTIONS, INFINITE, NOT_A_NUMBER, SIGN};

verus! {

/// The word with a sign and a magnitude.
fn join(negative: bool, k: u64) -> (r: Binary64)
    requires
        k < SIGN,
    ensures
        r == signed(negative, k as int),
{
    if negative {
        Binary64 { bits: k + SIGN }
    } else {
        Binary64 { bits: k }
    }
}

/// The significand and the exponent of a finite magnitude.
fn parts(k: u64) -> (r: (u64, u32))
    requires
        k < INFINITE,
    ensures
        r.0 < 2 * FRACTIONS,
        1 <= r.1 <= 2046,
        r.1 == 1 || r.0 >= FRACTIONS,
        k < FRACTIONS ==> r.1 == 1,
        k >= FRACTIONS ==> r.1 == k / FRACTIONS,
        r.0 == 0 <==> k == 0,
        units(k as int) == r.0 * pow2((r.1 - 1) as nat),
{
    let e: u64 = k / FRACTIONS;
    let f: u64 = k % FRACTIONS;
    if e == 0 {
        proof {
            vstd::arithmetic::power2::lemma2_to64();
            assert(f * pow2(0) == f);
        }
        (f, 1)
    } else {
        proof {
            let p = pow2((e - 1) as nat) as int;
            assert((FRACTIONS + f) * p >= 0) by (nonlinear_arith)
                requires
                    FRACTIONS + f >= 0,
                    p >= 0,
            ;
            assert(units(k as int) == (FRACTIONS + f) * p);
        }
        (FRACTIONS + f, e as u32)
    }
}

proof fn lemma_product_enclosed(
    a_sig: nat,
    a_exp: nat,
    b_sig: nat,
    b_exp: nat,
    a_size: nat,
    b_size: nat,
)
    requires
        a_size == a_sig * pow2(a_exp),
        b_size == b_sig * pow2(b_exp),
    ensures
        encloses(
            (a_sig * b_sig) as int,
            a_exp + b_exp - 1074,
            false,
            a_size * b_size,
            unit_scale(),
        ),
{
    let step = pow2((a_exp + b_exp - 1074 + 5000) as nat) * pow2(1074);
    lemma_pow2_adds((a_exp + b_exp - 1074 + 5000) as nat, 1074);
    lemma_pow2_adds(a_exp, b_exp);
    lemma_pow2_adds(a_exp + b_exp, 5000);
    let pa = pow2(a_exp);
    let pb = pow2(b_exp);
    let b = pow2(5000);
    assert((a_sig * b_sig) * ((pa * pb) * b) == ((a_sig * pa) * (b_sig * pb)) * b)
        by (nonlinear_arith);
}

/// A significand shifted up to its full length, and by how much.
fn normalized(sig: u64) -> (r: (u64, u32))
    requires
        0 < sig < 2 * FRACTIONS,
    ensures
        FRACTIONS <= r.0 < 2 * FRACTIONS,
        r.1 <= 52,
        r.0 == sig * pow2(r.1 as nat),
{
    let mut full: u64 = sig;
    let mut shift: u32 = 0;
    proof {
        vstd::arithmetic::power2::lemma2_to64();
        vstd::arithmetic::power2::lemma2_to64_rest();
    }
    while full < FRACTIONS
        invariant
            0 < sig < 2 * FRACTIONS,
            0 < full < 2 * FRACTIONS,
            full == sig * pow2(shift as nat),
            shift <= 52,
        decreases 2 * FRACTIONS - full,
    {
        proof {
            lemma_pow2_unfold((shift + 1) as nat);
            assert(sig * (2 * pow2(shift as nat)) == 2 * full) by (nonlinear_arith)
                requires
                    full == sig * pow2(shift as nat),
            ;
            if shift >= 52 {
                vstd::arithmetic::power2::lemma2_to64_rest();
                assert(full >= FRACTIONS) by (nonlinear_arith)
                    requires
                        full == sig * pow2(52),
                        pow2(52) == FRACTIONS,
                        sig > 0,
                ;
            }
        }
        full = full * 2;
        shift = shift + 1;
    }
    (full, shift)
}

proof fn lemma_quotient_enclosed(
    q: nat,
    rem: nat,
    a_sig: nat,
    a_exp: nat,
    a_shift: nat,
    a_size: nat,
    b_sig: nat,
    b_exp: nat,
    b_shift: nat,
    b_size: nat,
)
    requires
        a_size * pow2(a_shift) == a_sig * pow2(a_exp),
        b_size * pow2(b_shift) == b_sig * pow2(b_exp),
        a_sig * pow2(74) == q * b_sig + rem,
        rem < b_sig,
        a_exp <= 2045,
        b_exp <= 2045,
        a_shift <= 52,
        b_shift <= 52,
    ensures
        encloses(
            q as int,
            a_exp - a_shift - b_exp + b_shift + 1000,
            rem > 0,
            a_size * unit_scale(),
            b_size,
        ),
{
    let exp = a_exp - a_shift - b_exp + b_shift + 1000;
    let c = pow2((exp + 5000) as nat);
    let step = c * b_size;
    let exact = (a_size * pow2(1074)) * pow2(5000);
    let s = pow2(a_shift) * pow2(b_shift);
    let common = pow2((a_exp + b_shift + 6000) as nat);
    lemma_pow2_pos(a_shift);
    lemma_pow2_pos(b_shift);
    lemma_pow2_pos((a_exp + b_shift + 6000) as nat);
    // both sides, multiplied by `s`, are multiples of `common`
    assert(c * pow2(b_exp) * pow2(a_shift) == common) by {
        lemma_pow2_adds((exp + 5000) as nat, b_exp);
        lemma_pow2_adds((exp + 5000 + b_exp) as nat, a_shift);
    }
    assert(pow2(a_exp) * pow2(1074) * pow2(5000) * pow2(b_shift) == pow2(74) * common) by {
        lemma_pow2_adds(a_exp, 1074);
        lemma_pow2_adds(a_exp + 1074, 5000);
        lemma_pow2_adds(a_exp + 6074, b_shift);
        lemma_pow2_adds(74, (a_exp + b_shift + 6000) as nat);
    }
    assert(step * s == b_sig * common) by (nonlinear_arith)
        requires
            step == c * b_size,
            s == pow2(a_shift) * pow2(b_shift),
            b_size * pow2(b_shift) == b_sig * pow2(b_exp),
            c * pow2(b_exp) * pow2(a_shift) == common,
    ;
    assert(exact * s == (a_sig * pow2(74)) * common) by {
        let (x, y, z) = (pow2(1074), pow2(5000), pow2(b_shift));
        let (pa, pe, pt) = (pow2(a_shift), pow2(a_exp), pow2(74));
        assert(((a_size * x) * y) * (pa * z) == (a_size * pa) * (x * y * z)) by (nonlinear_arith);
        assert((a_sig * pe) * (x * y * z) == a_sig * (pe * x * y * z)) by (nonlinear_arith);
        assert(a_sig * (pt * common) == (a_sig * pt) * common) by (nonlinear_arith);
    }
    assert(s > 0) by (nonlinear_arith)
        requires
            s == pow2(a_shift) * pow2(b_shift),
            pow2(a_shift) > 0,
            pow2(b_shift) > 0,
    ;
    assert((q * step) * s == (q * b_sig) * common) by (nonlinear_arith)
        requires
            step * s == b_sig * common,
    ;
    assert(((q + 1) * step) * s == (q * b_sig + b_sig) * common) by (nonlinear_arith)
        requires
            step * s == b_sig * common,
    ;
    let lo = q * b_sig;
    let mid = a_sig * pow2(74);
    let hi = q * b_sig + b_sig;
    assert(rem > 0 ==> lo * common < mid * common && mid * common < hi * common)
        by (nonlinear_arith)
        requires
            mid == lo + rem,
            rem < b_sig,
            hi == lo + b_sig,
            common > 0,
    ;
    let l = q * step;
    let h = (q + 1) * step;
    assert((l * s < exact * s ==> l < exact) && (exact * s < h * s ==> exact < h) && (l * s == exact
        * s ==> l == exact)) by (nonlinear_arith)
        requires
            s > 0,
    ;
}

/// The larger of two sizes, plus or minus the smaller one, seen through a significand.
///
/// `kept` and `lost` are the whole part and the rest of the smaller significand, shifted to
/// the larger one's exponent.
proof fn lemma_sum_enclosed(
    big_sig: nat,
    big_exp: nat,
    small_sig: nat,
    small_exp: nat,
    big_size: nat,
    small_size: nat,
    kept: nat,
    lost: nat,
)
    requires
        big_size == big_sig * pow2(big_exp),
        small_size == small_sig * pow2(small_exp),
        small_exp <= big_exp <= 2045,
        big_exp - small_exp <= 64 ==> lost == 0 && kept == small_sig * pow2(
            (64 - (big_exp - small_exp)) as nat,
        ),
        big_exp - small_exp > 64 ==> {
            let p = pow2((big_exp - small_exp - 64) as nat);
            small_sig == kept * p + lost && lost < p
        },
    ensures
        encloses((big_sig * pow2(64) + kept) as int, big_exp - 64, lost > 0, big_size + small_size, 1),
        big_size >= small_size ==> encloses(
            big_sig * pow2(64) - kept - if lost > 0 {
                1int
            } else {
                0
            },
            big_exp - 64,
            lost > 0,
            (big_size - small_size) as nat,
            1,
        ),
{
    let b = pow2(5000);
    let step = pow2((big_exp + 4936) as nat);
    let full = big_sig * pow2(64);
    lemma_pow2_adds(64, (big_exp + 4936) as nat);
    lemma_pow2_adds(big_exp, 5000);
    lemma_pow2_adds(small_exp, 5000);
    lemma_pow2_pos((big_exp + 4936) as nat);
    assert(big_size * b == full * step) by (nonlinear_arith)
        requires
            big_size == big_sig * pow2(big_exp),
            full == big_sig * pow2(64),
            pow2(64) * step == pow2(big_exp) * b,
    ;
    let u = pow2((small_exp + 5000) as nat);
    lemma_pow2_pos((small_exp + 5000) as nat);
    assert(small_size * b == small_sig * u) by (nonlinear_arith)
        requires
            small_size == small_sig * pow2(small_exp),
            u == pow2(small_exp) * b,
    ;
    if big_exp - small_exp <= 64 {
        let t = (64 - (big_exp - small_exp)) as nat;
        lemma_pow2_adds(t, (big_exp + 4936) as nat);
        assert(small_size * b == kept * step) by (nonlinear_arith)
            requires
                small_size * b == small_sig * u,
                kept == small_sig * pow2(t),
                u == pow2(t) * step,
        ;
    } else {
        let t = (big_exp - small_exp - 64) as nat;
        let p = pow2(t);
        lemma_pow2_adds(t, (small_exp + 5000) as nat);
        assert(step == p * u);
        assert(small_size * b == kept * step + lost * u && lost * u < step && (lost > 0 ==> lost * u
            > 0) && (lost == 0 ==> lost * u == 0)) by (nonlinear_arith)
            requires
                small_size * b == small_sig * u,
                small_sig == kept * p + lost,
                lost < p,
                step == p * u,
                u > 0,
        ;
    }
    let extra = small_size * b - kept * step;
    assert((big_size + small_size) * b == big_size * b + small_size * b) by (nonlinear_arith);
    assert((full + kept) * step == full * step + kept * step) by (nonlinear_arith);
    assert((full + kept + 1) * step == full * step + kept * step + step) by (nonlinear_arith);
    assert(step * 1 == step);
    if big_size >= small_size {
        assert((big_size - small_size) * b == big_size * b - small_size * b) by (nonlinear_arith);
        assert((full - kept) * step == full * step - kept * step) by (nonlinear_arith);
        assert((full - kept - 1) * step == full * step - kept * step - step) by (nonlinear_arith);
    }
}

impl Binary64 {
    /// The number nearest to a count.
    pub fn from_count(count: u64) -> (r: Self)
        ensures
            r == Binary64::of(count as nat),
    {
        let ghost n = count as nat * unit_scale();
        if count == 0 {
            proof {
                assert(n == 0) by (nonlinear_arith)
                    requires
                        n == 0 * unit_scale(),
                ;
                lemma_rounded_zero(1);
            }
            return join(false, 0);
        }
        proof {
            lemma_pow2_adds(1074, 5000);
            assert(count * (pow2(6074) * 1) == n * pow2(5000)) by (nonlinear_arith)
                requires
                    n == count * pow2(1074),
                    pow2(6074) == pow2(1074) * pow2(5000),
            ;
        }
        let k: u64 = round(count as u128, 1074, false, Ghost(n), Ghost(1));
        join(false, k)
    }

    /// `self * other`.
    pub fn mul(self, other: Self) -> (r: Self)
        ensures
            r == self.product(other),
    {
        let (a_negative, a) = self.split();
        let (b_negative, b) = other.split();
        let negative = a_negative != b_negative;
        if a > INFINITE || b > INFINITE {
            return Binary64 { bits: NOT_A_NUMBER };
        }
        if a == INFINITE || b == INFINITE {
            if a == 0 || b == 0 {
                return Binary64 { bits: NOT_A_NUMBER };
            }
            return join(negative, INFINITE);
        }
        let ghost n = units(a as int) * units(b as int);
        let (a_sig, a_exp) = parts(a);
        let (b_sig, b_exp) = parts(b);
        proof {
            lemma_pow2_pos(1074);
        }
        if a == 0 || b == 0 {
            proof {
                assert(n == 0) by (nonlinear_arith)
                    requires
                        n == units(a as int) * units(b as int),
                        units(a as int) == 0 || units(b as int) == 0,
                ;
                lemma_rounded_zero(unit_scale());
            }
            return join(negative, 0);
        }
        assert(0 < a_sig * b_sig < 0x40_0000_0000_0000 * 0x40_0000_0000_0000) by (nonlinear_arith)
            requires
                0 < a_sig < 0x40_0000_0000_0000,
                0 < b_sig < 0x40_0000_0000_0000,
        ;
        let sig: u128 = a_sig as u128 * b_sig as u128;
        proof {
            lemma_product_enclosed(
                a_sig as nat,
                (a_exp - 1) as nat,
                b_sig as nat,
                (b_exp - 1) as nat,
                units(a as int),
                units(b as int),
            );
        }
        let k: u64 = round(
            sig,
            a_exp as i32 + b_exp as i32 - 1076,
            false,
            Ghost(n),
            Ghost(unit_scale()),
        );
        join(negative, k)
    }

    /// `self / other`.
    pub fn div(self, other: Self) -> (r: Self)
        ensures
            r == self.quotient(other),
    {
        let (a_negative, a) = self.split();
        let (b_negative, b) = other.split();
        let negative = a_negative != b_negative;
        if a > INFINITE || b > INFINITE {
            return Binary64 { bits: NOT_A_NUMBER };
        }
        if a == INFINITE {
            if b == INFINITE {
                return Binary64 { bits: NOT_A_NUMBER };
            }
            return join(negative, INFINITE);
        }
        if b == INFINITE {
            return join(negative, 0);
        }
        if b == 0 {
            if a == 0 {
                return Binary64 { bits: NOT_A_NUMBER };
            }
            return join(negative, INFINITE);
        }
        let ghost n = units(a as int) * unit_scale();
        let ghost d = units(b as int);
        let (a_sig, a_exp) = parts(a);
        let (b_sig, b_exp) = parts(b);
        proof {
            super::rounding::lemma_units_increasing(0, b as int);
        }
        if a == 0 {
            proof {
                assert(n == 0) by (nonlinear_arith)
                    requires
                        n == 0 * unit_scale(),
                ;
                lemma_rounded_zero(d);
            }
            return join(negative, 0);
        }
        let (a_full, a_shift) = normalized(a_sig);
        let (b_full, b_shift) = normalized(b_sig);
        proof {
            vstd::arithmetic::power2::lemma2_to64();
            vstd::arithmetic::power2::lemma2_to64_rest();
            lemma_pow2_adds(10, 64);
            assert(pow2(74) == 0x400_0000_0000_0000_0000);
        }
        let wide: u128 = a_full as u128 * 0x400_0000_0000_0000_0000;
        let sig: u128 = wide / b_full as u128;
        let rem: u128 = wide % b_full as u128;
        let exp: i32 = a_exp as i32 - a_shift as i32 - b_exp as i32 + b_shift as i32 + 1000;
        proof {
            assert(wide == sig * b_full + rem && rem < b_full) by (nonlinear_arith)
                requires
                    sig == wide / b_full as u128,
                    rem == wide % b_full as u128,
                    b_full > 0,
            ;
            assert(0x8000_0000_0000_0000 <= sig < 0x8000_0000_0000_0000_0000_0000_0000_0000)
                by (nonlinear_arith)
                requires
                    wide == sig * b_full + rem,
                    rem < b_full,
                    wide == a_full * 0x400_0000_0000_0000_0000,
                    0x10_0000_0000_0000 <= a_full < 0x20_0000_0000_0000,
                    0x10_0000_0000_0000 <= b_full < 0x20_0000_0000_0000,
                    sig >= 0,
                    rem >= 0,
            ;
            let pa = pow2((a_exp - 1) as nat);
            let pb = pow2((b_exp - 1) as nat);
            assert(units(a as int) * pow2(a_shift as nat) == a_full * pa) by (nonlinear_arith)
                requires
                    units(a as int) == a_sig * pa,
                    a_full == a_sig * pow2(a_shift as nat),
            ;
            assert(units(b as int) * pow2(b_shift as nat) == b_full * pb) by (nonlinear_arith)
                requires
                    units(b as int) == b_sig * pb,
                    b_full == b_sig * pow2(b_shift as nat),
            ;
            lemma_quotient_enclosed(
                sig as nat,
                rem as nat,
                a_full as nat,
                (a_exp - 1) as nat,
                a_shift as nat,
                units(a as int),
                b_full as nat,
                (b_exp - 1) as nat,
                b_shift as nat,
                d,
            );
        }
        let k: u64 = round(sig, exp, rem > 0, Ghost(n), Ghost(d));
        join(negative, k)
    }

    /// `self + other`.
    pub fn add(self, other: Self) -> (r: Self)
        ensures
            r == self.sum(other),
    {
        let (a_negative, a) = self.split();
        let (b_negative, b) = other.split();
        if a > INFINITE || b > INFINITE {
            return Binary64 { bits: NOT_A_NUMBER };
        }
        if a == INFINITE {
            if b == INFINITE && a_negative != b_negative {
                return Binary64 { bits: NOT_A_NUMBER };
            }
            return self;
        }
        if b == INFINITE {
            return other;
        }
        proof {
            if a < b {
                super::rounding::lemma_units_increasing(a as int, b as int);
            } else if b < a {
                super::rounding::lemma_units_increasing(b as int, a as int);
            }
            if a > 0 {
                super::rounding::lemma_units_increasing(0, a as int);
            }
            if b > 0 {
                super::rounding::lemma_units_increasing(0, b as int);
            }
        }
        if a == b && (a == 0 || a_negative != b_negative) {
            return join(a_negative && b_negative, 0);
        }
        let (negative, big, small) = if a >= b {
            (a_negative, a, b)
        } else {
            (b_negative, b, a)
        };
        let k: u64 = Self::combined(big, small, a_negative == b_negative);
        join(negative, k)
    }

    /// The nearest magnitude to the sum, or to the difference, of two sizes.
    fn combined(big: u64, small: u64, plus: bool) -> (k: u64)
        requires
            small <= big < INFINITE,
            units(small as int) <= units(big as int),
            0 < big,
            !plus ==> units(small as int) < units(big as int),
        ensures
            plus ==> k == rounded(units(big as int) + units(small as int), 1),
            !plus ==> k == rounded((units(big as int) - units(small as int)) as nat, 1),
            k < SIGN,
    {
        let (big_sig, big_exp) = parts(big);
        let (small_sig, small_exp) = parts(small);
        proof {
            vstd::arithmetic::power2::lemma2_to64();
            vstd::arithmetic::power2::lemma2_to64_rest();
            assert(small / FRACTIONS <= big / FRACTIONS);
        }
        let full: u128 = big_sig as u128 * 0x1_0000_0000_0000_0000;
        let apart: u32 = big_exp - small_exp;
        let kept: u128;
        let lost: u128;
        if apart <= 64 {
            let p: u128 = power_of_two(64 - apart);
            proof {
                lemma_pow2_pos((64 - apart) as nat);
                if apart > 0 {
                    vstd::arithmetic::power2::lemma_pow2_strictly_increases(
                        (64 - apart) as nat,
                        64,
                    );
                }
                assert(small_sig * p <= 0x20_0000_0000_0000 * 0x1_0000_0000_0000_0000)
                    by (nonlinear_arith)
                    requires
                        0 <= small_sig <= 0x20_0000_0000_0000,
                        0 <= p <= 0x1_0000_0000_0000_0000,
                ;
            }
            kept = small_sig as u128 * p;
            lost = 0;
        } else if apart < 128 {
            let p: u128 = power_of_two(apart - 64);
            proof {
                lemma_pow2_pos((apart - 64) as nat);
            }
            kept = small_sig as u128 / p;
            lost = small_sig as u128 % p;
            proof {
                assert(small_sig == kept * p + lost && lost < p && kept <= small_sig)
                    by (nonlinear_arith)
                    requires
                        kept == small_sig as u128 / p,
                        lost == small_sig as u128 % p,
                        p > 0,
                ;
            }
        } else {
            kept = 0;
            lost = small_sig as u128;
            proof {
                vstd::arithmetic::power2::lemma_pow2_strictly_increases(
                    63,
                    (apart - 64) as nat,
                );
            }
        }
        proof {
            lemma_sum_enclosed(
                big_sig as nat,
                (big_exp - 1) as nat,
                small_sig as nat,
                (small_exp - 1) as nat,
                units(big as int),
                units(small as int),
                kept as nat,
                lost as nat,
            );
        }
        let exp: i32 = big_exp as i32 - 65;
        let dropped = lost > 0;
        if plus {
            let ghost n = units(big as int) + units(small as int);
            round(full + kept, exp, dropped, Ghost(n), Ghost(1))
        } else {
            let ghost n = (units(big as int) - units(small as int)) as nat;
            let borrow: u128 = if dropped {
                1
            } else {
                0
            };
            proof {
                let b = pow2(5000);
                let step = pow2((exp + 5000) as nat);
                lemma_pow2_pos(5000);
                lemma_pow2_pos((exp + 5000) as nat);
                let rest = full - kept - borrow;
                if rest < 0 {
                    assert((rest + 1) * (step * 1) <= 0) by (nonlinear_arith)
                        requires
                            rest + 1 <= 0,
                            step > 0,
                    ;
                    assert(rest * (step * 1) <= 0) by (nonlinear_arith)
                        requires
                            rest <= 0,
                            step > 0,
                    ;
                    assert(n * b > 0) by (nonlinear_arith)
                        requires
                            n > 0,
                            b > 0,
                    ;
                }
                if rest == 0 && !dropped {
                    assert(n * b > 0) by (nonlinear_arith)
                        requires
                            n > 0,
                            b > 0,
                    ;
                    assert(0 * (step * 1) == 0);
                }
            }
            round(full - kept - borrow, exp, dropped, Ghost(n), Ghost(1))
        }
    }

    /// The nearest whole `u32`: a half goes up, what is below zero or not a number gives zero,
    /// and what is too large gives the largest.
    pub fn to_whole(self) -> (r: u32)
        ensures
            r == self.whole(),
    {
        let (negative, k) = self.split();
        if negative || k > INFINITE {
            return 0;
        }
        if k == INFINITE {
            return u32::MAX;
        }
        let (sig, exp) = parts(k);
        let ghost scale = pow2(1074);
        let ghost c = pow2((exp - 1) as nat);
        let ghost size = units(k as int);
        proof {
            vstd::arithmetic::power2::lemma2_to64();
            vstd::arithmetic::power2::lemma2_to64_rest();
            lemma_pow2_pos(1074);
            lemma_pow2_pos((exp - 1) as nat);
        }
        if exp >= 1055 {
            proof {
                lemma_pow2_adds(1054, 20);
                if exp > 1055 {
                    vstd::arithmetic::power2::lemma_pow2_strictly_increases(
                        1054,
                        (exp - 1) as nat,
                    );
                }
                assert(size >= 0x1_0000_0000 * scale) by (nonlinear_arith)
                    requires
                        size == sig * c,
                        sig >= 0x1_0000_0000 * 0x10_0000,
                        c >= pow2(1054),
                        scale == pow2(1054) * 0x10_0000,
                        pow2(1054) >= 0,
                ;
                assert((2 * size + scale) / (2 * scale) >= 0x1_0000_0000) by (nonlinear_arith)
                    requires
                        size >= 0x1_0000_0000 * scale,
                        scale > 0,
                ;
            }
            return u32::MAX;
        }
        if exp < 1022 {
            proof {
                lemma_pow2_adds(1020, 54);
                if exp < 1021 {
                    vstd::arithmetic::power2::lemma_pow2_strictly_increases(
                        (exp - 1) as nat,
                        1020,
                    );
                }
                assert(2 * size < scale) by (nonlinear_arith)
                    requires
                        size == sig * c,
                        sig < 0x20_0000_0000_0000,
                        c <= pow2(1020),
                        scale == pow2(1020) * 0x40_0000_0000_0000,
                        c > 0,
                ;
                assert((2 * size + scale) / (2 * scale) == 0) by (nonlinear_arith)
                    requires
                        0 <= 2 * size < scale,
                ;
            }
            return 0;
        }
        let p: u128 = power_of_two(1075 - exp);
        proof {
            lemma_pow2_adds((exp - 1) as nat, (1075 - exp) as nat);
            lemma_pow2_unfold((1075 - exp) as nat);
            lemma_pow2_pos((1074 - exp) as nat);
            if 1075 - exp < 53 {
                vstd::arithmetic::power2::lemma_pow2_strictly_increases((1075 - exp) as nat, 53);
            }
        }
        let whole: u128 = (sig as u128 + p / 2) / p;
        proof {
            let rem = (sig + p / 2) % (p as int);
            assert(sig + p / 2 == whole * p + rem && 0 <= rem < p) by (nonlinear_arith)
                requires
                    whole == (sig + p / 2) / (p as int),
                    rem == (sig + p / 2) % (p as int),
                    p > 0,
            ;
            assert(2 * size + scale == whole * (2 * scale) + (2 * rem) * c && 0 <= (2 * rem) * c < 2
                * scale) by (nonlinear_arith)
                requires
                    2 * sig + p == 2 * (whole * p) + 2 * rem,
                    size == sig * c,
                    scale == c * p,
                    0 <= rem < p,
                    c > 0,
            ;
            vstd::arithmetic::div_mod::lemma_fundamental_div_mod_converse(
                (2 * size + scale) as int,
                (2 * scale) as int,
                whole as int,
                ((2 * rem) * c) as int,
            );
        }
        if whole > 0xffff_ffff {
            u32::MAX
        } else {
            whole as u32
        }
    }

    /// `self - other`.
    pub fn sub(self, other: Self) -> (r: Self)
        ensures
            r == self.difference(other),
    {
        self.add(other.neg())
    }
}

} // verus!
