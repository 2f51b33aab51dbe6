//! Sampling among workers by softmax over their costs.
//!
//! The exponential lies between the two halves: the caller raises `e` to each of the exponents
//! that [`softmax_weights`] hands out, and [`softmax_sample_index`] goes on with the results.

use vstd::prelude::*;

use crate::binary64::{signed, Binary64, INFINITE, ONE};
use crate::picker::Entry;

verus! {

/// The word of minus one.
pub const MINUS_ONE: u64 = 0xbff0_0000_0000_0000;

/// The lowest cost of entries.
pub open spec fn lowest_cost(entries: Seq<Entry>) -> Binary64
    decreases entries.len(),
{
    if entries.len() == 0 {
        signed(false, INFINITE as int)
    } else {
        let lowest = lowest_cost(entries.drop_last());
        if entries.last().1.below(lowest) {
            entries.last().1
        } else {
            lowest
        }
    }
}

/// The highest cost of entries.
pub open spec fn highest_cost(entries: Seq<Entry>) -> Binary64
    decreases entries.len(),
{
    if entries.len() == 0 {
        signed(true, INFINITE as int)
    } else {
        let highest = highest_cost(entries.drop_last());
        if highest.below(entries.last().1) {
            entries.last().1
        } else {
            highest
        }
    }
}

/// How costs are brought to exponents: divided by `magnitude`, multiplied by `factor` and
/// lowered by `offset`.
#[derive(Clone, Copy, Debug, PartialEq, Eq, Structural)]
pub struct Scaling {
    pub magnitude: Binary64,
    pub factor: Binary64,
    pub offset: Binary64,
}

impl Scaling {
    /// The scaling for costs between `low` and `high`. Costs too far apart to be subtracted
    /// are first divided by the larger of the two in size.
    pub open spec fn between(low: Binary64, high: Binary64, temperature: Binary64) -> Self {
        let magnitude = if high.difference(low).finite() {
            Binary64 { bits: ONE }
        } else if low.absolute().below(high.absolute()) {
            high.absolute()
        } else {
            low.absolute()
        };
        let start = low.quotient(magnitude);
        let factor = (Binary64 { bits: MINUS_ONE }).quotient(
            high.quotient(magnitude).difference(start).product(temperature),
        );
        Scaling { magnitude, factor, offset: start.product(factor) }
    }

    /// The exponent of a cost.
    pub open spec fn exponent(self, cost: Binary64) -> Binary64 {
        cost.quotient(self.magnitude).product(self.factor).difference(self.offset)
    }

    fn new(low: Binary64, high: Binary64, temperature: Binary64) -> (r: Self)
        ensures
            r == Scaling::between(low, high, temperature),
    {
        let magnitude = if high.sub(low).is_finite() {
            Binary64::one()
        } else if low.abs().lt(high.abs()) {
            high.abs()
        } else {
            low.abs()
        };
        let start = low.div(magnitude);
        let factor = Binary64::from_bits(MINUS_ONE).div(
            high.div(magnitude).sub(start).mul(temperature),
        );
        Scaling { magnitude, factor, offset: start.mul(factor) }
    }
}

/// The weights by which entries are sampled.
#[derive(Clone, Debug)]
pub enum SoftmaxWeights {
    /// All costs are the same, and so are these weights.
    Equal(Vec<Binary64>),
    /// The weights are the exponentials of these numbers.
    Exponents(Vec<Binary64>),
}

/// The weights of entries at a temperature, short of the exponential.
pub fn softmax_weights(entries: &Vec<Entry>, temperature: Binary64) -> (r: SoftmaxWeights)
    requires
        entries@.len() > 0,
        !temperature.equals(signed(false, 0)),
    ensures
        ({
            let low = lowest_cost(entries@);
            let high = highest_cost(entries@);
            match r {
                SoftmaxWeights::Equal(weights) => low.equals(high) && weights@ == Seq::new(
                    entries@.len(),
                    |i: int|
                        (Binary64 { bits: ONE }).quotient(Binary64::of(entries@.len())),
                ),
                SoftmaxWeights::Exponents(exponents) => !low.equals(high) && exponents@ == Seq::new(
                    entries@.len(),
                    |i: int| Scaling::between(low, high, temperature).exponent(entries@[i].1),
                ),
            }
        }),
{
    let mut low = Binary64::from_bits(INFINITE);
    let mut high = Binary64::from_bits(INFINITE).neg();
    let mut i: usize = 0;
    while i < entries.len()
        invariant
            i <= entries@.len(),
            low == lowest_cost(entries@.take(i as int)),
            high == highest_cost(entries@.take(i as int)),
        decreases entries@.len() - i,
    {
        assert(entries@.take(i + 1).drop_last() =~= entries@.take(i as int));
        let cost = entries[i].1;
        if cost.lt(low) {
            low = cost;
        }
        if high.lt(cost) {
            high = cost;
        }
        i = i + 1;
    }
    assert(entries@.take(i as int) =~= entries@);
    let mut values: Vec<Binary64> = Vec::new();
    let mut j: usize = 0;
    if low.same(high) {
        let weight = Binary64::one().div(Binary64::from_count(entries.len() as u64));
        while j < entries.len()
            invariant
                j <= entries@.len(),
                weight == (Binary64 { bits: ONE }).quotient(Binary64::of(entries@.len())),
                values@ == Seq::new(j as nat, |i: int| weight),
            decreases entries@.len() - j,
        {
            values.push(weight);
            j = j + 1;
            assert(values@ =~= Seq::new(j as nat, |i: int| weight));
        }
        assert(values@ =~= Seq::new(
            entries@.len(),
            |i: int| (Binary64 { bits: ONE }).quotient(Binary64::of(entries@.len())),
        ));
        SoftmaxWeights::Equal(values)
    } else {
        let scaling = Scaling::new(low, high, temperature);
        while j < entries.len()
            invariant
                j <= entries@.len(),
                values@ == Seq::new(j as nat, |i: int| scaling.exponent(entries@[i].1)),
            decreases entries@.len() - j,
        {
            let exponent = entries[j].1.div(scaling.magnitude).mul(scaling.factor).sub(
                scaling.offset,
            );
            values.push(exponent);
            j = j + 1;
            assert(values@ =~= Seq::new(j as nat, |i: int| scaling.exponent(entries@[i].1)));
        }
        SoftmaxWeights::Exponents(values)
    }
}

/// The sum of weights, added up in order.
pub open spec fn total_weight(weights: Seq<Binary64>) -> Binary64
    decreases weights.len(),
{
    if weights.len() == 0 {
        signed(false, 0)
    } else {
        total_weight(weights.drop_last()).sum(weights.last())
    }
}

/// The sum of the first `n` probabilities, each a weight over the total.
pub open spec fn cumulative(weights: Seq<Binary64>, total: Binary64, n: int) -> Binary64
    decreases n,
{
    if n <= 0 {
        signed(false, 0)
    } else {
        cumulative(weights, total, n - 1).sum(weights[n - 1].quotient(total))
    }
}

/// Whether a sample falls at or before row `row`.
pub open spec fn falls_by(weights: Seq<Binary64>, sample: Binary64, row: int) -> bool {
    let reached = cumulative(weights, total_weight(weights), row + 1);
    sample.below(reached) || sample.equals(reached)
}

/// A sample falls on the first row whose cumulative probability reaches it, and on the last row
/// where none does.
pub open spec fn falls_on(weights: Seq<Binary64>, sample: Binary64, row: int) -> bool {
    &&& 0 <= row < weights.len()
    &&& forall|i: int| 0 <= i < row ==> !#[trigger] falls_by(weights, sample, i)
    &&& row < weights.len() - 1 ==> falls_by(weights, sample, row)
}

/// The row on which a sample falls.
pub fn softmax_sample_index(weights: &Vec<Binary64>, sample: Binary64) -> (r: usize)
    requires
        weights@.len() > 0,
    ensures
        falls_on(weights@, sample, r as int),
{
    let mut total = Binary64::zero();
    let mut i: usize = 0;
    while i < weights.len()
        invariant
            i <= weights@.len(),
            total == total_weight(weights@.take(i as int)),
        decreases weights@.len() - i,
    {
        assert(weights@.take(i + 1).drop_last() =~= weights@.take(i as int));
        total = total.add(weights[i]);
        i = i + 1;
    }
    assert(weights@.take(i as int) =~= weights@);
    let mut reached = Binary64::zero();
    let mut row: usize = 0;
    while row < weights.len()
        invariant
            row <= weights@.len(),
            total == total_weight(weights@),
            reached == cumulative(weights@, total, row as int),
            forall|i: int| 0 <= i < row ==> !#[trigger] falls_by(weights@, sample, i),
        decreases weights@.len() - row,
    {
        reached = reached.add(weights[row].div(total));
        if sample.le(reached) {
            assert(falls_by(weights@, sample, row as int));
            return row;
        }
        assert(!falls_by(weights@, sample, row as int));
        row = row + 1;
    }
    weights.len() - 1
}

/// The entry on which a sample falls.
pub fn sampled_entry(entries: &Vec<Entry>, weights: &Vec<Binary64>, sample: Binary64) -> (r: Entry)
    requires
        entries@.len() > 0,
        entries@.len() == weights@.len(),
    ensures
        exists|row: int| #[trigger] falls_on(weights@, sample, row) && r == entries@[row],
{
    let row: usize = softmax_sample_index(weights, sample);
    entries[row]
}

} // verus!
