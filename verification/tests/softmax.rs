use dynamo_custom_policy_builtin::binary64::Binary64;
use dynamo_custom_policy_builtin::softmax::{
    sampled_entry, softmax_sample_index, softmax_weights, SoftmaxWeights,
};

fn number(value: f64) -> Binary64 {
    Binary64::from_bits(value.to_bits())
}

fn value(number: &Binary64) -> f64 {
    f64::from_bits(number.bits)
}

fn entries(costs: &[f64]) -> Vec<(usize, Binary64)> {
    costs.iter().enumerate().map(|(row, &cost)| (row, number(cost))).collect()
}

fn exponents(costs: &[f64], temperature: f64) -> Vec<f64> {
    match softmax_weights(&entries(costs), number(temperature)) {
        SoftmaxWeights::Exponents(exponents) => exponents.iter().map(value).collect(),
        SoftmaxWeights::Equal(_) => panic!("costs differ"),
    }
}

/// The same in the machine's own arithmetic, with the exponential in the middle.
fn native_index(costs: &[f64], temperature: f64, sample: f64) -> usize {
    let low = costs.iter().copied().fold(f64::INFINITY, f64::min);
    let high = costs.iter().copied().fold(f64::NEG_INFINITY, f64::max);
    let mut weights: Vec<f64> = if low == high {
        vec![1.0 / costs.len() as f64; costs.len()]
    } else {
        let magnitude =
            if (high - low).is_finite() { 1.0 } else { low.abs().max(high.abs()) };
        let start = low / magnitude;
        let scale = -1.0 / ((high / magnitude - start) * temperature);
        let offset = start * scale;
        costs.iter().map(|cost| (cost / magnitude * scale - offset).exp()).collect()
    };
    let sum: f64 = weights.iter().sum();
    for weight in weights.iter_mut() {
        *weight /= sum;
    }
    let mut cumulative = 0.0;
    for (row, weight) in weights.iter().enumerate() {
        cumulative += weight;
        if sample <= cumulative {
            return row;
        }
    }
    costs.len() - 1
}

fn index(costs: &[f64], temperature: f64, sample: f64) -> usize {
    let weights = match softmax_weights(&entries(costs), number(temperature)) {
        SoftmaxWeights::Equal(weights) => weights,
        SoftmaxWeights::Exponents(exponents) => {
            exponents.iter().map(|exponent| number(value(exponent).exp())).collect()
        }
    };
    softmax_sample_index(&weights, number(sample))
}

#[test]
fn equal_costs_weigh_the_same() {
    for costs in [vec![3.5; 3], vec![0.0, -0.0, 0.0], vec![-2.0]] {
        match softmax_weights(&entries(&costs), number(0.7)) {
            SoftmaxWeights::Equal(weights) => {
                assert_eq!(weights, vec![number(1.0 / costs.len() as f64); costs.len()]);
            }
            SoftmaxWeights::Exponents(_) => panic!("costs are equal"),
        }
    }
}

#[test]
fn exponents_fall_from_zero_to_the_inverse_temperature() {
    assert_eq!(exponents(&[1.0, 3.0, 2.0], 0.5), vec![0.0, -2.0, -1.0]);
    assert_eq!(exponents(&[-4.0, 4.0], 0.25), vec![0.0, -4.0]);
    // too far apart to be subtracted
    assert_eq!(exponents(&[-1e308, 1e308, 0.0], 1.0), vec![0.0, -1.0, -0.5]);
}

#[test]
fn samples_fall_where_the_formula_says() {
    let tables: [&[f64]; 6] = [
        &[1.0, 3.0, 2.0],
        &[5.5],
        &[2.0, 2.0, 2.0, 2.0],
        &[-1e308, 1e308, 3.0, 1e308],
        &[0.1, 0.2, 0.30000000000000004, 17.25, 0.1],
        &[1e-310, 2e-310, 0.0],
    ];
    for costs in tables {
        for temperature in [0.01, 0.5, 1.0, 7.0, -2.0] {
            for step in 0..=64 {
                let sample = step as f64 / 64.0;
                assert_eq!(
                    index(costs, temperature, sample),
                    native_index(costs, temperature, sample)
                );
            }
        }
    }
}

#[test]
fn cheaper_rows_are_sampled_more_often() {
    let mut hits = [0; 3];
    for step in 0..1000 {
        hits[index(&[2.0, 1.0, 3.0], 0.5, step as f64 / 1000.0)] += 1;
    }
    assert!(hits[1] > hits[0] && hits[0] > hits[2] && hits[2] > 0);
}

#[test]
fn the_first_row_that_reaches_the_sample_is_taken() {
    let weights = vec![number(1.0), number(1.0), number(2.0)];
    for (sample, row) in [(0.0, 0), (0.25, 0), (0.26, 1), (0.5, 1), (0.51, 2), (1.0, 2)] {
        assert_eq!(softmax_sample_index(&weights, number(sample)), row);
    }
    // the last row where none reaches it
    assert_eq!(softmax_sample_index(&weights, number(1.5)), 2);
    assert_eq!(softmax_sample_index(&weights, number(f64::NAN)), 2);
    assert_eq!(softmax_sample_index(&vec![number(f64::NAN), number(1.0)], number(0.1)), 1);
}

#[test]
fn a_sampled_entry_keeps_its_row_and_cost() {
    let entries = vec![(7, number(1.0)), (3, number(2.0)), (5, number(4.0))];
    let weights = vec![number(1.0), number(1.0), number(2.0)];
    for (sample, entry) in [(0.1, 0), (0.3, 1), (0.9, 2), (2.0, 2)] {
        assert_eq!(sampled_entry(&entries, &weights, number(sample)), entries[entry]);
    }
}

#[test]
fn only_relative_costs_matter() {
    let costs = [0.1, 0.2, 0.30000000000000004, 17.25, 0.1, 0.0, -3.5];
    for power in [-200, -3, 1, 7, 300] {
        let scaled: Vec<f64> = costs.iter().map(|cost| cost * 2f64.powi(power)).collect();
        for temperature in [0.3, 1.0, 4.5] {
            assert_eq!(exponents(&costs, temperature), exponents(&scaled, temperature));
            for step in 0..=16 {
                let sample = step as f64 / 16.0;
                assert_eq!(
                    index(&costs, temperature, sample),
                    index(&scaled, temperature, sample)
                );
            }
        }
    }
}
