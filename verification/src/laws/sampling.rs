//! What holds of sampling by softmax.

use vstd::arithmetic::power2::lemma_pow2_pos;
use vstd::prelude::*;

use crate::binary64::laws::{
    lemma_less_itself, lemma_one, lemma_order_is_by_value, lemma_over_one, lemma_product_reversed,
    lemma_quotient_ordered, lemma_rounded_exact, lemma_rounded_ordered, lemma_rounded_range,
    lemma_sum_ordered, ordered,
};
use crate::binary64::rounding::lemma_units_increasing;
use crate::binary64::scaling::{
    lemma_scaled_absolute, lemma_scaled_difference, lemma_scaled_divisor, lemma_scaled_factors,
    lemma_scaled_order, lemma_scaled_product, lemma_scaled_ratio, scaled,
};
use crate::binary64::{signed, unit_scale, Binary64, FRACTIONS, INFINITE, ONE};
use crate::picker::Entry;
use crate::softmax::{
    falls_by, falls_on, highest_cost, lowest_cost, total_weight, Scaling, MINUS_ONE,
};

verus! {

/// The lowest and the highest cost bound every cost.
pub proof fn law_costs_lie_between(entries: Seq<Entry>)
    requires
        entries.len() > 0,
        forall|i: int| 0 <= i < entries.len() ==> (#[trigger] entries[i]).1.finite(),
    ensures
        lowest_cost(entries).finite(),
        highest_cost(entries).finite(),
        forall|i: int|
            0 <= i < entries.len() ==> ordered(lowest_cost(entries), (#[trigger] entries[i]).1)
                && ordered(entries[i].1, highest_cost(entries)),
    decreases entries.len(),
{
    let front = entries.drop_last();
    assert(entries[entries.len() - 1] == entries.last());
    if front.len() > 0 {
        assert forall|i: int| 0 <= i < front.len() implies (#[trigger] front[i]).1.finite() by {
            assert(front[i] == entries[i]);
        }
        law_costs_lie_between(front);
        assert forall|i: int| 0 <= i < entries.len() implies ordered(
            lowest_cost(entries),
            (#[trigger] entries[i]).1,
        ) && ordered(entries[i].1, highest_cost(entries)) by {
            if i < front.len() {
                assert(front[i] == entries[i]);
            }
        }
    } else {
        assert(lowest_cost(front) == signed(false, INFINITE as int));
        assert(highest_cost(front) == signed(true, INFINITE as int));
    }
}

/// A number divided by one that is no smaller in size is at most one in size.
proof fn lemma_ratio(x: Binary64, m: Binary64)
    requires
        x.finite(),
        m.finite(),
        !m.negative(),
        !m.is_zero(),
        x.magnitude() <= m.magnitude(),
    ensures
        x.quotient(m).finite(),
        x.quotient(m).negative() == x.negative(),
{
    lemma_one();
    lemma_units_increasing(0, m.magnitude());
    if x.magnitude() < m.magnitude() {
        lemma_units_increasing(x.magnitude(), m.magnitude());
    }
    let scale = unit_scale();
    assert((x.size() * scale) * 1 <= scale * m.size()) by (nonlinear_arith)
        requires
            x.size() <= m.size(),
    ;
    lemma_rounded_exact(ONE as int, scale, 1);
    lemma_rounded_ordered(x.size() * scale, m.size(), scale, 1);
    lemma_rounded_range(x.size() * scale, m.size());
}

/// Of two different finite numbers, the larger in size is not zero.
proof fn lemma_larger(low: Binary64, high: Binary64) -> (m: Binary64)
    requires
        low.finite(),
        high.finite(),
        low.below(high),
    ensures
        m == if low.absolute().below(high.absolute()) {
            high.absolute()
        } else {
            low.absolute()
        },
        m.finite(),
        !m.negative(),
        !m.is_zero(),
        low.magnitude() <= m.magnitude(),
        high.magnitude() <= m.magnitude(),
{
    if low.absolute().below(high.absolute()) {
        high.absolute()
    } else {
        low.absolute()
    }
}

/// Two finite costs are divided by a positive number, stay finite and keep their signs.
proof fn lemma_magnitude(low: Binary64, high: Binary64, temperature: Binary64) -> (m: Binary64)
    requires
        low.finite(),
        high.finite(),
        low.below(high),
    ensures
        m == Scaling::between(low, high, temperature).magnitude,
        m.finite(),
        !m.negative(),
        !m.is_zero(),
        low.quotient(m).finite(),
        high.quotient(m).finite(),
        low.quotient(m).negative() == low.negative(),
        high.quotient(m).negative() == high.negative(),
{
    if high.difference(low).finite() {
        lemma_one();
        lemma_over_one(low);
        lemma_over_one(high);
        Binary64 { bits: ONE }
    } else {
        let m = lemma_larger(low, high);
        lemma_ratio(low, m);
        lemma_ratio(high, m);
        m
    }
}

/// A number less one that is not above it has no minus sign.
proof fn lemma_range(a: Binary64, b: Binary64)
    requires
        a.finite(),
        b.finite(),
        ordered(a, b),
        b.negative() ==> a.negative(),
    ensures
        !b.difference(a).is_nan(),
        !b.difference(a).negative(),
{
    lemma_order_is_by_value(a, b);
    lemma_order_is_by_value(b, a);
    assert(a.opposite().value() == -a.value());
    lemma_rounded_range((b.value() - a.value()) as nat, 1);
}

/// Minus one over a product without a minus sign has a minus sign.
proof fn lemma_factor(range: Binary64, temperature: Binary64)
    requires
        !range.is_nan(),
        !range.negative(),
        signed(false, 0).below(temperature),
    ensures
        ({
            let factor = (Binary64 { bits: MINUS_ONE }).quotient(range.product(temperature));
            factor.is_nan() || factor.negative()
        }),
{
    let minus = Binary64 { bits: MINUS_ONE };
    let d = range.product(temperature);
    lemma_pow2_pos(1074);
    lemma_rounded_range(range.size() * temperature.size(), unit_scale());
    if !d.is_nan() && d.finite() && !d.is_zero() {
        lemma_units_increasing(0, d.magnitude());
        lemma_rounded_range(minus.size() * unit_scale(), d.size());
    }
}

/// What the scaling between two different finite costs looks like: the divisor is positive, and the
/// factor has a minus sign.
proof fn lemma_scaling(low: Binary64, high: Binary64, temperature: Binary64)
    requires
        low.finite(),
        high.finite(),
        low.below(high),
        signed(false, 0).below(temperature),
    ensures
        ({
            let scaling = Scaling::between(low, high, temperature);
            &&& scaling.magnitude.finite()
            &&& !scaling.magnitude.negative()
            &&& !scaling.magnitude.is_zero()
            &&& scaling.factor.is_nan() || scaling.factor.negative()
        }),
{
    let m = lemma_magnitude(low, high, temperature);
    let (a, b) = (low.quotient(m), high.quotient(m));
    lemma_quotient_ordered(low, high, m);
    lemma_range(a, b);
    lemma_factor(b.difference(a), temperature);
}

/// A worker that costs no more never gets a smaller exponent, and so never a smaller weight,
/// than one that costs more. Exponents that overflow to what is not a number are left out.
pub proof fn law_cheaper_weighs_no_less(
    low: Binary64,
    high: Binary64,
    temperature: Binary64,
    cost: Binary64,
    dearer: Binary64,
)
    requires
        low.finite(),
        high.finite(),
        low.below(high),
        signed(false, 0).below(temperature),
        cost.finite(),
        dearer.finite(),
        ordered(cost, dearer),
        !Scaling::between(low, high, temperature).exponent(cost).is_nan(),
        !Scaling::between(low, high, temperature).exponent(dearer).is_nan(),
    ensures
        ordered(
            Scaling::between(low, high, temperature).exponent(dearer),
            Scaling::between(low, high, temperature).exponent(cost),
        ),
{
    let scaling = Scaling::between(low, high, temperature);
    lemma_scaling(low, high, temperature);
    let m = scaling.magnitude;
    lemma_quotient_ordered(cost, dearer, m);
    let (a, b) = (cost.quotient(m), dearer.quotient(m));
    let f = scaling.factor;
    assert(!a.product(f).is_nan() && !b.product(f).is_nan());
    lemma_product_reversed(a, b, f);
    lemma_sum_ordered(b.product(f), a.product(f), scaling.offset.opposite());
}

/// The cheapest worker has exponent zero, so that its weight is one.
pub proof fn law_cheapest_has_exponent_zero(
    low: Binary64,
    high: Binary64,
    temperature: Binary64,
)
    requires
        Scaling::between(low, high, temperature).offset.finite(),
    ensures
        Scaling::between(low, high, temperature).exponent(low) == signed(false, 0),
{
    lemma_less_itself(Scaling::between(low, high, temperature).offset);
}

/// A sample falls on one row.
pub proof fn law_sample_falls_on_one_row(
    weights: Seq<Binary64>,
    sample: Binary64,
    a: int,
    b: int,
)
    requires
        falls_on(weights, sample, a),
        falls_on(weights, sample, b),
    ensures
        a == b,
{
    if a < b {
        assert(!falls_by(weights, sample, a));
    } else if b < a {
        assert(!falls_by(weights, sample, b));
    }
}

/// A heavier row is no less likely.
pub proof fn law_heavier_is_likelier(weights: Seq<Binary64>, row: int, other: int)
    requires
        total_weight(weights).finite(),
        signed(false, 0).below(total_weight(weights)),
        ordered(weights[other], weights[row]),
    ensures
        ordered(
            weights[other].quotient(total_weight(weights)),
            weights[row].quotient(total_weight(weights)),
        ),
{
    lemma_quotient_ordered(weights[other], weights[row], total_weight(weights));
}

/// The exponent of each cost, as softmax hands them out for costs that differ.
pub open spec fn exponents_of(entries: Seq<Entry>, temperature: Binary64) -> Seq<Binary64> {
    Seq::new(
        entries.len(),
        |i: int|
            Scaling::between(lowest_cost(entries), highest_cost(entries), temperature).exponent(
                entries[i].1,
            ),
    )
}

/// Weights are ordered as exponents are, as exponentials are.
pub open spec fn weighs_by(exponents: Seq<Binary64>, weights: Seq<Binary64>) -> bool {
    &&& weights.len() == exponents.len()
    &&& forall|i: int, j: int|
        0 <= i < weights.len() && 0 <= j < weights.len() && ordered(exponents[i], exponents[j])
            ==> ordered(#[trigger] weights[i], #[trigger] weights[j])
}

/// A cheaper row is no less likely, and the cheapest one is the likeliest.
pub proof fn law_cheaper_is_likelier(
    entries: Seq<Entry>,
    temperature: Binary64,
    weights: Seq<Binary64>,
    row: int,
    other: int,
)
    requires
        forall|i: int| 0 <= i < entries.len() ==> (#[trigger] entries[i]).1.finite(),
        lowest_cost(entries).below(highest_cost(entries)),
        signed(false, 0).below(temperature),
        forall|i: int|
            0 <= i < entries.len() ==> !(#[trigger] exponents_of(entries, temperature)[i]).is_nan(),
        weighs_by(exponents_of(entries, temperature), weights),
        total_weight(weights).finite(),
        signed(false, 0).below(total_weight(weights)),
        0 <= row < entries.len(),
        0 <= other < entries.len(),
        ordered(entries[row].1, entries[other].1) || entries[row].1.equals(lowest_cost(entries)),
    ensures
        ordered(
            weights[other].quotient(total_weight(weights)),
            weights[row].quotient(total_weight(weights)),
        ),
{
    let exponents = exponents_of(entries, temperature);
    law_costs_lie_between(entries);
    assert(ordered(lowest_cost(entries), entries[other].1));
    assert(!exponents[row].is_nan() && !exponents[other].is_nan());
    law_cheaper_weighs_no_less(
        lowest_cost(entries),
        highest_cost(entries),
        temperature,
        entries[row].1,
        entries[other].1,
    );
    assert(ordered(exponents[other], exponents[row]));
    law_heavier_is_likelier(weights, row, other);
}

/// Nothing overflows or falls below the normal numbers on the way to the factor of either of two
/// scalings: not the range of the costs, not the range times the temperature, not the factor.
/// Where both ranges are too large to be subtracted, nothing is asked.
pub open spec fn scales_alike(
    low: Binary64,
    high: Binary64,
    low2: Binary64,
    high2: Binary64,
    temperature: Binary64,
) -> bool {
    let range = high.difference(low);
    let range2 = high2.difference(low2);
    let one = Binary64 { bits: ONE };
    if range.finite() && range2.finite() {
        &&& range.magnitude() >= FRACTIONS
        &&& temperature.finite()
        &&& FRACTIONS * unit_scale() <= range.size() * temperature.size()
        &&& range2.product(temperature).finite()
        &&& FRACTIONS * range2.product(temperature).size() <= one.size() * unit_scale()
        &&& Scaling::between(low, high, temperature).factor.finite()
    } else {
        !range.finite() && !range2.finite()
    }
}

/// The exponent of a scaled cost under the scaled scaling.
proof fn lemma_same_exponent(
    low: Binary64,
    low2: Binary64,
    high: Binary64,
    high2: Binary64,
    temperature: Binary64,
    cost: Binary64,
    cost2: Binary64,
    k: nat,
)
    requires
        scaled(low, low2, k),
        scaled(high, high2, k),
        scaled(cost, cost2, k),
        low.below(high),
        scales_alike(low, high, low2, high2, temperature),
    ensures
        Scaling::between(low, high, temperature).exponent(cost) == Scaling::between(
            low2,
            high2,
            temperature,
        ).exponent(cost2),
{
    let one = Binary64 { bits: ONE };
    let minus = Binary64 { bits: MINUS_ONE };
    lemma_scaled_order(low, low2, high, high2, k);
    let range = high.difference(low);
    let range2 = high2.difference(low2);
    if range.finite() && range2.finite() {
        lemma_over_one(low);
        lemma_over_one(high);
        lemma_over_one(low2);
        lemma_over_one(high2);
        lemma_over_one(cost);
        lemma_over_one(cost2);
        lemma_scaled_difference(low, low2, high, high2, k);
        lemma_scaled_product(range, range2, temperature, k);
        assert(minus.size() == one.size() && minus.finite());
        let (d, d2) = (range.product(temperature), range2.product(temperature));
        lemma_scaled_divisor(minus, d, d2, k);
        let (f, f2) = (minus.quotient(d), minus.quotient(d2));
        lemma_scaled_factors(low, low2, f, f2, k);
        lemma_scaled_factors(cost, cost2, f, f2, k);
    } else {
        let m = lemma_larger(low, high);
        let m2 = lemma_larger(low2, high2);
        lemma_scaled_absolute(low, low2, k);
        lemma_scaled_absolute(high, high2, k);
        lemma_scaled_order(low.absolute(), low2.absolute(), high.absolute(), high2.absolute(), k);
        assert(scaled(m, m2, k));
        lemma_scaled_ratio(low, low2, m, m2, k);
        lemma_scaled_ratio(high, high2, m, m2, k);
        lemma_scaled_ratio(cost, cost2, m, m2, k);
    }
}

/// Scaling every cost scales the lowest and the highest.
proof fn lemma_scaled_extremes(entries: Seq<Entry>, other: Seq<Entry>, k: nat)
    requires
        0 < entries.len() == other.len(),
        forall|i: int| 0 <= i < entries.len() ==> scaled((#[trigger] entries[i]).1, other[i].1, k),
    ensures
        scaled(lowest_cost(entries), lowest_cost(other), k),
        scaled(highest_cost(entries), highest_cost(other), k),
    decreases entries.len(),
{
    let (front, other_front) = (entries.drop_last(), other.drop_last());
    let (last, other_last) = (entries[entries.len() - 1].1, other[other.len() - 1].1);
    assert(scaled(last, other_last, k));
    if front.len() > 0 {
        assert forall|i: int| 0 <= i < front.len() implies scaled(
            (#[trigger] front[i]).1,
            other_front[i].1,
            k,
        ) by {
            assert(front[i] == entries[i]);
        }
        lemma_scaled_extremes(front, other_front, k);
        lemma_scaled_order(last, other_last, lowest_cost(front), lowest_cost(other_front), k);
        lemma_scaled_order(highest_cost(front), highest_cost(other_front), last, other_last, k);
    } else {
        assert(lowest_cost(front) == signed(false, INFINITE as int));
        assert(highest_cost(front) == signed(true, INFINITE as int));
        assert(lowest_cost(other_front) == signed(false, INFINITE as int));
        assert(highest_cost(other_front) == signed(true, INFINITE as int));
    }
}

/// Only costs relative to their range matter: multiplying every cost by one power of two, where
/// nothing overflows or falls below the normal numbers, leaves the exponents as they are to the
/// last bit, and with them the weights and the row on which a sample falls.
pub proof fn law_only_relative_costs_matter(
    entries: Seq<Entry>,
    other: Seq<Entry>,
    temperature: Binary64,
    k: nat,
)
    requires
        0 < entries.len() == other.len(),
        forall|i: int| 0 <= i < entries.len() ==> scaled((#[trigger] entries[i]).1, other[i].1, k),
        lowest_cost(entries).below(highest_cost(entries)) ==> scales_alike(
            lowest_cost(entries),
            highest_cost(entries),
            lowest_cost(other),
            highest_cost(other),
            temperature,
        ),
    ensures
        lowest_cost(entries).equals(highest_cost(entries)) <==> lowest_cost(other).equals(
            highest_cost(other),
        ),
        !lowest_cost(entries).equals(highest_cost(entries)) ==> exponents_of(entries, temperature)
            == exponents_of(other, temperature),
{
    let (low, high) = (lowest_cost(entries), highest_cost(entries));
    let (low2, high2) = (lowest_cost(other), highest_cost(other));
    lemma_scaled_extremes(entries, other, k);
    lemma_scaled_order(low, low2, high, high2, k);
    if !low.equals(high) {
        assert forall|i: int| 0 <= i < entries.len() implies (#[trigger] entries[i]).1.finite() by {
            assert(scaled(entries[i].1, other[i].1, k));
        }
        law_costs_lie_between(entries);
        assert(ordered(low, entries[0].1) && ordered(entries[0].1, high));
        assert forall|i: int| 0 <= i < entries.len() implies exponents_of(entries, temperature)[i]
            == exponents_of(other, temperature)[i] by {
            assert(scaled(entries[i].1, other[i].1, k));
            lemma_same_exponent(
                low,
                low2,
                high,
                high2,
                temperature,
                entries[i].1,
                other[i].1,
                k,
            );
        }
        assert(exponents_of(entries, temperature) =~= exponents_of(other, temperature));
    }
}

} // verus!
