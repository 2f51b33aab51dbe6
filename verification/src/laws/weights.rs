//! How weights become probabilities, and where a sample falls.

use vstd::arithmetic::power2::{
    lemma2_to64, lemma2_to64_rest, lemma_pow2_adds, lemma_pow2_pos, lemma_pow2_strictly_increases,
    pow2,
};
use vstd::prelude::*;

use crate::binary64::laws::{
    lemma_count_exact, lemma_one, lemma_order_is_by_value, lemma_over_one, lemma_rounded_exact,
    lemma_rounded_ratio, lemma_whole_magnitude,
};
use crate::binary64::rounding::lemma_rounded_zero;
use crate::binary64::{signed, unit_scale, units, Binary64, FRACTIONS, INFINITE, ONE};
use crate::picker::Entry;
use crate::softmax::{
    cumulative, falls_by, falls_on, highest_cost, lowest_cost, total_weight, Scaling, MINUS_ONE,
};

verus! {

/// The total takes in every weight: one more weight is added to it, however many there are.
pub proof fn law_total_takes_in_every_weight(weights: Seq<Binary64>, weight: Binary64)
    ensures
        total_weight(Seq::empty()) == signed(false, 0),
        total_weight(weights.push(weight)) == total_weight(weights).sum(weight),
{
    assert(weights.push(weight).drop_last() =~= weights);
}

/// A sample falls on the first row at which the probabilities up to it, each a weight over the
/// total of all weights, add up to the sample; and on the last row where none does.
pub proof fn law_where_a_sample_falls(weights: Seq<Binary64>, sample: Binary64, row: int)
    requires
        0 <= row < weights.len(),
    ensures
        cumulative(weights, total_weight(weights), 0) == signed(false, 0),
        cumulative(weights, total_weight(weights), row + 1) == cumulative(
            weights,
            total_weight(weights),
            row,
        ).sum(weights[row].quotient(total_weight(weights))),
        falls_by(weights, sample, row) <==> {
            let reached = cumulative(weights, total_weight(weights), row + 1);
            !sample.is_nan() && !reached.is_nan() && sample.rank() <= reached.rank()
        },
        falls_on(weights, sample, row) <==> {
            &&& forall|i: int| 0 <= i < row ==> !#[trigger] falls_by(weights, sample, i)
            &&& row == weights.len() - 1 || falls_by(weights, sample, row)
        },
{
}

/// `i` of `2^s` equal shares of one.
pub open spec fn share(i: nat, s: nat) -> Binary64 {
    Binary64::of(i).quotient(Binary64::of(pow2(s)))
}

/// Shares are exact.
proof fn lemma_share(i: nat, s: nat)
    requires
        s <= 52,
        i <= pow2(s),
    ensures
        share(i, s).finite(),
        !share(i, s).negative(),
        share(i, s).size() == i * pow2((1074 - s) as nat),
        i == 0 ==> share(i, s) == signed(false, 0),
{
    let scale = unit_scale();
    let (p, g) = (pow2(s), (1074 - s) as nat);
    lemma2_to64();
    lemma2_to64_rest();
    lemma_pow2_pos(s);
    lemma_pow2_pos(1074);
    if s < 52 {
        lemma_pow2_strictly_increases(s, 52);
    }
    lemma_count_exact(i);
    lemma_count_exact(p);
    lemma_pow2_adds(s, g);
    let d = p * scale;
    assert(d > 0) by (nonlinear_arith)
        requires
            d == p * scale,
            p > 0,
            scale > 0,
    ;
    assert(units(0) == 0);
    let n = i * pow2(g);
    assert((i * scale * scale) * 1 == n * d) by (nonlinear_arith)
        requires
            scale == p * pow2(g),
            n == i * pow2(g),
            d == p * scale,
    ;
    lemma_rounded_ratio(i * scale * scale, d, n, 1);
    if i == 0 {
        assert(n == 0) by (nonlinear_arith)
            requires
                n == i * pow2(g),
                i == 0,
        ;
        lemma_rounded_zero(1);
    } else {
        if g > 52 {
            lemma_pow2_strictly_increases(52, g);
        }
        assert(FRACTIONS <= n) by (nonlinear_arith)
            requires
                n == i * pow2(g),
                i >= 1,
                FRACTIONS <= pow2(g),
        ;
        let k = lemma_whole_magnitude(i, g);
        lemma_rounded_exact(k, n, 1);
    }
}

/// One more share is the next share.
proof fn lemma_next_share(i: nat, s: nat)
    requires
        s <= 52,
        i < pow2(s),
    ensures
        share(i, s).sum(share(1, s)) == share(i + 1, s),
{
    lemma_share(i, s);
    lemma_share(1, s);
    lemma_share(i + 1, s);
    let g = pow2((1074 - s) as nat);
    lemma_pow2_pos((1074 - s) as nat);
    assert(i * g + 1 * g == (i + 1) * g) by (nonlinear_arith);
    assert((i + 1) * g > 0) by (nonlinear_arith)
        requires
            g > 0,
    ;
    lemma_rounded_exact(share(i + 1, s).magnitude(), (i + 1) * g, 1);
}

/// So many weights of one share each.
pub open spec fn equal_weights(n: nat, s: nat) -> Seq<Binary64> {
    Seq::new(n, |i: int| share(1, s))
}

proof fn lemma_equal_total(n: nat, s: nat)
    requires
        s <= 52,
        n <= pow2(s),
    ensures
        total_weight(equal_weights(n, s)) == share(n, s),
    decreases n,
{
    lemma_share(0, s);
    if n > 0 {
        let m = (n - 1) as nat;
        lemma_equal_total(m, s);
        assert(equal_weights(n, s).drop_last() =~= equal_weights(m, s));
        lemma_next_share(m, s);
    }
}

proof fn lemma_equal_reached(n: nat, s: nat)
    requires
        s <= 52,
        n <= pow2(s),
    ensures
        cumulative(equal_weights(pow2(s), s), Binary64 { bits: ONE }, n as int) == share(n, s),
    decreases n,
{
    lemma_pow2_pos(s);
    lemma_share(0, s);
    lemma_share(1, s);
    if n > 0 {
        let m = (n - 1) as nat;
        lemma_equal_reached(m, s);
        lemma_over_one(share(1, s));
        lemma_next_share(m, s);
    }
}

/// Equal weights share alike: of `n` rows with the weight `1 / n` each, `n` a power of two, a sample
/// above `row / n` and up to `(row + 1) / n` falls on that row. So every row can be sampled, however
/// many there are.
pub proof fn law_equal_weights_share_alike(s: nat, sample: Binary64, row: nat)
    requires
        s <= 52,
        row < pow2(s),
        row == 0 || share(row, s).below(sample),
        sample.below(share(row + 1, s)) || sample.equals(share(row + 1, s)),
    ensures
        falls_on(equal_weights(pow2(s), s), sample, row as int),
{
    let n = pow2(s);
    let weights = equal_weights(n, s);
    lemma_equal_total(n, s);
    lemma_share(n, s);
    lemma_one();
    lemma_pow2_adds(s, (1074 - s) as nat);
    lemma_same_size(share(n, s));
    lemma_equal_reached(row + 1, s);
    assert(falls_by(weights, sample, row as int));
    assert forall|i: int| 0 <= i < row implies !#[trigger] falls_by(weights, sample, i) by {
        lemma_equal_reached((i + 1) as nat, s);
        lemma_share((i + 1) as nat, s);
        lemma_share(row, s);
        let g = pow2((1074 - s) as nat);
        assert((i + 1) * g <= row * g) by (nonlinear_arith)
            requires
                i + 1 <= row,
                g >= 0,
        ;
        lemma_order_is_by_value(share(row, s), share((i + 1) as nat, s));
    }
}

/// A number without a minus sign that is as large as one is one.
proof fn lemma_same_size(x: Binary64)
    requires
        x.finite(),
        !x.negative(),
        x.size() == unit_scale(),
    ensures
        x == (Binary64 { bits: ONE }),
{
    lemma_one();
    lemma_order_is_by_value(x, Binary64 { bits: ONE });
}

/// The lowest and the highest cost are those of some entries.
pub proof fn law_extremes_are_costs(entries: Seq<Entry>)
    requires
        entries.len() > 0,
        forall|i: int| 0 <= i < entries.len() ==> (#[trigger] entries[i]).1.finite(),
    ensures
        exists|i: int| 0 <= i < entries.len() && (#[trigger] entries[i]).1 == lowest_cost(entries),
        exists|i: int| 0 <= i < entries.len() && (#[trigger] entries[i]).1 == highest_cost(entries),
    decreases entries.len(),
{
    let front = entries.drop_last();
    let last = entries.len() - 1;
    assert(entries[last].1 == entries.last().1);
    if front.len() > 0 {
        assert forall|i: int| 0 <= i < front.len() implies (#[trigger] front[i]).1.finite() by {
            assert(front[i] == entries[i]);
        }
        law_extremes_are_costs(front);
        let low = choose|i: int|
            0 <= i < front.len() && (#[trigger] front[i]).1 == lowest_cost(front);
        let high = choose|i: int|
            0 <= i < front.len() && (#[trigger] front[i]).1 == highest_cost(front);
        assert(entries[low] == front[low]);
        assert(entries[high] == front[high]);
    } else {
        assert(lowest_cost(front) == signed(false, INFINITE as int));
        assert(highest_cost(front) == signed(true, INFINITE as int));
    }
}

/// The exponent of a cost between a lowest and a highest one: its distance from the lowest, over the
/// range times the temperature, with a minus sign, each step rounded. Costs whose range is not finite
/// are first divided by the larger extreme in size.
pub proof fn law_exponents(
    low: Binary64,
    high: Binary64,
    temperature: Binary64,
    cost: Binary64,
    divisor: Binary64,
)
    requires
        high.difference(low).finite() ==> divisor.bits == ONE,
        !high.difference(low).finite() && low.absolute().below(high.absolute()) ==> divisor
            == high.absolute(),
        !high.difference(low).finite() && !low.absolute().below(high.absolute()) ==> divisor
            == low.absolute(),
    ensures
        ({
            let start = low.quotient(divisor);
            let range = high.quotient(divisor).difference(start);
            let factor = (Binary64 { bits: MINUS_ONE }).quotient(range.product(temperature));
            Scaling::between(low, high, temperature).exponent(cost) == cost.quotient(
                divisor,
            ).product(factor).difference(start.product(factor))
        }),
        MINUS_ONE == ONE + 0x8000_0000_0000_0000,
{
}

} // verus!
