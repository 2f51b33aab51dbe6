use dynamo_custom_policy_builtin::binary64::Binary64;

/// Words that reach every branch: zeros, subnormals, powers of two, ties, huge and infinite
/// numbers, words that are not numbers, and their opposites.
fn words() -> Vec<u64> {
    let mut words: Vec<u64> = vec![
        0,
        1,
        2,
        3,
        0x000f_ffff_ffff_ffff,
        0x0010_0000_0000_0000,
        0x0010_0000_0000_0001,
        0x001f_ffff_ffff_ffff,
        0x0020_0000_0000_0000,
        0x7fef_ffff_ffff_ffff,
        0x7fe0_0000_0000_0000,
        0x7ff0_0000_0000_0000,
        0x7ff8_0000_0000_0000,
        0x7ff0_0000_0000_0001,
        0x3fe0_0000_0000_0000,
        0x3fdf_ffff_ffff_ffff,
        0x3ff0_0000_0000_0000,
        0x3ff0_0000_0000_0001,
        0x3fef_ffff_ffff_ffff,
        0x4340_0000_0000_0000,
        0x4340_0000_0000_0001,
        0x433f_ffff_ffff_ffff,
        0x1ff0_0000_0000_0000,
        0x1e60_0000_0000_0000,
        0x41ef_ffff_ffe0_0000,
        0x41ef_ffff_fff0_0000,
        0x41f0_0000_0000_0000,
        0.1f64.to_bits(),
        1.5f64.to_bits(),
        2.5f64.to_bits(),
        3.0f64.to_bits(),
        1e300f64.to_bits(),
        1e-300f64.to_bits(),
        std::f64::consts::PI.to_bits(),
    ];
    let mut state: u64 = 0x9e37_79b9_7f4a_7c15;
    for i in 0..200u64 {
        state ^= state << 13;
        state ^= state >> 7;
        state ^= state << 17;
        words.push(if i % 2 == 0 {
            state
        } else {
            // exponents near each other, so that sums cancel and carry
            (state & 0x000f_ffff_ffff_ffff) | ((1000 + state % 80) << 52)
        });
    }
    let opposites: Vec<u64> = words.iter().map(|w| w ^ (1 << 63)).collect();
    words.extend(opposites);
    words
}

fn agree(ours: Binary64, native: f64) {
    if native.is_nan() {
        assert!(f64::from_bits(ours.bits).is_nan());
    } else {
        assert_eq!(ours.bits, native.to_bits());
    }
}

#[test]
fn arithmetic_agrees_with_the_machine() {
    let words = words();
    for &a in &words {
        let (x, m) = (Binary64::from_bits(a), f64::from_bits(a));
        for &b in &words {
            let (y, n) = (Binary64::from_bits(b), f64::from_bits(b));
            agree(x.add(y), m + n);
            agree(x.sub(y), m - n);
            agree(x.mul(y), m * n);
            agree(x.div(y), m / n);
            assert_eq!(x.lt(y), m < n);
            assert_eq!(x.le(y), m <= n);
            assert_eq!(x.same(y), m == n);
        }
        agree(x.neg(), -m);
        agree(x.abs(), m.abs());
        assert_eq!(x.is_finite(), m.is_finite());
        assert_eq!(f64::from_bits(x.max_zero().bits), m.max(0.0));
        assert_eq!(x.to_whole(), m.round().max(0.0) as u32);
    }
}

#[test]
fn counts_agree_with_the_machine() {
    for count in [0, 1, 7, 127, 2048, (1 << 53) - 1, 1 << 53, (1 << 53) + 1, (1 << 53) + 3, u64::MAX] {
        agree(Binary64::from_count(count), count as f64);
    }
    for shift in 0..64 {
        agree(Binary64::from_count(1 << shift), (1u64 << shift) as f64);
        agree(Binary64::from_count(u64::MAX >> shift), (u64::MAX >> shift) as f64);
    }
}

#[test]
fn small_counts_add_and_multiply_exactly() {
    for (a, b) in [(0, 0), (1, 1), (7, 127), (1 << 26, (1 << 27) - 1), ((1 << 52) + 3, 5), (3, 1 << 51)] {
        let (x, y) = (Binary64::from_count(a), Binary64::from_count(b));
        assert_eq!(x.add(y), Binary64::from_count(a + b));
        assert_eq!(x.mul(y), Binary64::from_count(a * b));
        assert_eq!(x.add(y), y.add(x));
        assert_eq!(x.mul(y), y.mul(x));
    }
    // one bit more is one too many
    assert_eq!(Binary64::from_count((1 << 53) + 1), Binary64::from_count(1 << 53));
}
