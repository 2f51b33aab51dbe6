//! How the cost of a worker moves with its load and its overlap.

use vstd::arithmetic::power2::lemma_pow2_pos;
use vstd::prelude::*;

use super::costs::{
    decays_finitely, law_scorer_agrees_with_picker, lemma_count_positive, loads_of, multiplier_of,
};
use crate::binary64::laws::{
    lemma_count_finite, lemma_counts_ordered, lemma_difference_reversed, lemma_not_below_product,
    lemma_not_below_sum, lemma_one, lemma_over_one, lemma_product_commutes, lemma_product_ordered,
    lemma_quotient_ordered, lemma_quotient_reversed, lemma_rounded_exact, lemma_rounded_ordered,
    lemma_rounded_range, lemma_sum_commutes, lemma_sum_ordered, lemma_times_one, not_below_zero,
    ordered,
};
use crate::binary64::rounding::lemma_units_increasing;
use crate::binary64::{signed, unit_scale, units, Binary64, ONE};
use crate::cost::{excess_over, raw_tokens, shared_blocks, CostModel};
use crate::inputs::{
    WorkerCacheInput, WorkerCandidate, WorkerLoadInput, WorkerSelectionContext,
};
use crate::scorer::Scorer;

verus! {

/// Where overlap credit decays, at a finite rate and with lengths above zero, it is divided by a
/// number that is at least one.
proof fn lemma_decay(
    model: CostModel,
    context: WorkerSelectionContext,
    floor: usize,
    load: WorkerLoadInput,
) -> (divisor: Binary64)
    requires
        decays_finitely(model, context),
        model.uses_decay(context),
    ensures
        !divisor.negative(),
        ordered(Binary64 { bits: ONE }, divisor),
        divisor == (Binary64 { bits: ONE }).sum(
            model.config.overlap_score_credit_decay.product(load_share(context, floor, load)),
        ),
        !load_share(context, floor, load).is_nan(),
        !load_share(context, floor, load).negative(),
        !model.config.overlap_score_credit_decay.product(
            load_share(context, floor, load),
        ).is_nan(),
{
    let one = Binary64 { bits: ONE };
    let zero = signed(false, 0);
    let rate = model.config.overlap_score_credit_decay;
    let block = Binary64::of(context.block_size as nat);
    let request = Binary64::of(context.request_blocks as nat);
    let excess = excess_over(load.active_prefill_tokens as int, floor as int);
    let count = Binary64::of(excess);
    lemma_one();
    lemma_count_finite(excess);
    lemma_count_positive(context.block_size as nat);
    lemma_count_positive(context.request_blocks as nat);
    lemma_unsigned_quotient(count, block);
    lemma_unsigned_quotient(count.quotient(block), request);
    let share = load_share(context, floor, load);
    let added = rate.product(share);
    lemma_not_below_product(rate, share);
    lemma_pow2_pos(1074);
    lemma_rounded_range(rate.size() * share.size(), unit_scale());
    assert(ordered(zero, added));
    lemma_sum_commutes(one, zero);
    lemma_sum_commutes(one, added);
    lemma_rounded_exact(ONE as int, unit_scale(), 1);
    assert(units(0) == 0);
    assert(zero.sum(one) == one);
    lemma_rounded_range((one.value() + added.value()) as nat, 1);
    lemma_sum_ordered(zero, added, one);
    one.sum(added)
}

/// The prefill load of a worker above the floor, in lengths of the request.
pub open spec fn load_share(
    context: WorkerSelectionContext,
    floor: usize,
    load: WorkerLoadInput,
) -> Binary64 {
    Binary64::of(excess_over(load.active_prefill_tokens as int, floor as int)).quotient(
        Binary64::of(context.block_size as nat),
    ).quotient(Binary64::of(context.request_blocks as nat))
}

proof fn lemma_unsigned_quotient(a: Binary64, b: Binary64)
    requires
        !a.is_nan(),
        !a.negative(),
        b.finite(),
        !b.negative(),
        !b.is_zero(),
    ensures
        !a.quotient(b).is_nan(),
        !a.quotient(b).negative(),
{
    lemma_units_increasing(0, b.magnitude());
    lemma_rounded_range(a.size() * unit_scale(), b.size());
}

/// Overlap credit decays with prefill load: a worker with more tokens in prefill keeps no larger
/// a share of its credit, and no worker keeps more than all of it.
pub proof fn law_credit_decays_with_load(
    model: CostModel,
    context: WorkerSelectionContext,
    floor: usize,
    load: WorkerLoadInput,
    busier: WorkerLoadInput,
)
    requires
        load.active_prefill_tokens <= busier.active_prefill_tokens,
        model.uses_decay(context) ==> decays_finitely(model, context),
    ensures
        ordered(model.decay(context, floor, busier), model.decay(context, floor, load)),
        ordered(model.decay(context, floor, load), Binary64 { bits: ONE }),
{
    let one = Binary64 { bits: ONE };
    let rate = model.config.overlap_score_credit_decay;
    let block = Binary64::of(context.block_size as nat);
    let request = Binary64::of(context.request_blocks as nat);
    lemma_one();
    if model.uses_decay(context) {
        let a = excess_over(load.active_prefill_tokens as int, floor as int);
        let b = excess_over(busier.active_prefill_tokens as int, floor as int);
        lemma_counts_ordered(a, b);
        lemma_count_positive(context.block_size as nat);
        lemma_count_positive(context.request_blocks as nat);
        lemma_quotient_ordered(Binary64::of(a), Binary64::of(b), block);
        lemma_quotient_ordered(
            Binary64::of(a).quotient(block),
            Binary64::of(b).quotient(block),
            request,
        );
        let less = load_share(context, floor, load);
        let more = load_share(context, floor, busier);
        let low = lemma_decay(model, context, floor, load);
        let high = lemma_decay(model, context, floor, busier);
        lemma_product_commutes(rate, less);
        lemma_product_commutes(rate, more);
        lemma_product_ordered(less, more, rate);
        lemma_sum_commutes(one, rate.product(less));
        lemma_sum_commutes(one, rate.product(more));
        lemma_sum_ordered(rate.product(less), rate.product(more), one);
        lemma_quotient_reversed(one, low, high);
        lemma_quotient_reversed(one, one, low);
        lemma_over_one(one);
    }
}

/// Decode load is never an advantage: of two workers with finite costs that differ in decode load
/// alone, the one with more of it costs no less.
pub proof fn law_decode_load_costs(
    model: CostModel,
    context: WorkerSelectionContext,
    floor: usize,
    cache: WorkerCacheInput,
    load: WorkerLoadInput,
    preference: Option<Binary64>,
    more: Binary64,
)
    requires
        ordered(load.decode_cost_blocks, more),
        load.decode_cost_blocks.finite(),
        more.finite(),
        not_below_zero(multiplier_of(preference)),
        model.cost_of(context, floor, cache, load, preference).finite(),
        model.cost_of(
            context,
            floor,
            cache,
            WorkerLoadInput { decode_cost_blocks: more, ..load },
            preference,
        ).finite(),
    ensures
        ordered(
            model.cost_of(context, floor, cache, load, preference),
            model.cost_of(
                context,
                floor,
                cache,
                WorkerLoadInput { decode_cost_blocks: more, ..load },
                preference,
            ),
        ),
{
    let heavier = WorkerLoadInput { decode_cost_blocks: more, ..load };
    let credit = model.credit(context, floor, cache, load);
    let requests = model.request_cost(load);
    let (a, b) = (
        model.logit(context, floor, cache, load),
        model.logit(context, floor, cache, heavier),
    );
    let multiplier = multiplier_of(preference);
    lemma_number_product(a, multiplier);
    lemma_number_product(b, multiplier);
    if model.subtracts_from_decode(context) {
        lemma_reduced_load(load.decode_cost_blocks, more, credit, requests);
    } else {
        let prefill = model.config.prefill_load_scale.product(
            Binary64::of(raw_tokens(context, cache, load) as nat).quotient(
                Binary64::of(context.block_size as nat),
            ).difference(credit).at_least_zero(),
        );
        lemma_added_load(prefill, load.decode_cost_blocks, more, requests);
    }
    lemma_product_ordered(a, b, multiplier);
}

/// Overlap is never a disadvantage: of two workers with finite credits and costs that differ in
/// device overlap alone, the one with more of it costs no more.
pub proof fn law_overlap_saves(
    model: CostModel,
    context: WorkerSelectionContext,
    floor: usize,
    cache: WorkerCacheInput,
    load: WorkerLoadInput,
    preference: Option<Binary64>,
    more: Binary64,
)
    requires
        ordered(cache.device_overlap_blocks, more),
        context.has_tier_matches,
        model.uses_decay(context) ==> decays_finitely(model, context),
        not_below_zero(model.config.overlap_score_credit),
        not_below_zero(model.config.prefill_load_scale),
        not_below_zero(multiplier_of(preference)),
        ({
            let richer = WorkerCacheInput { device_overlap_blocks: more, ..cache };
            &&& model.credit(context, floor, cache, load).finite()
            &&& model.credit(context, floor, richer, load).finite()
            &&& model.cost_of(context, floor, cache, load, preference).finite()
            &&& model.cost_of(context, floor, richer, load, preference).finite()
        }),
    ensures
        ordered(
            model.cost_of(
                context,
                floor,
                WorkerCacheInput { device_overlap_blocks: more, ..cache },
                load,
                preference,
            ),
            model.cost_of(context, floor, cache, load, preference),
        ),
{
    let richer = WorkerCacheInput { device_overlap_blocks: more, ..cache };
    let x = model.credit(context, floor, cache, load);
    let y = model.credit(context, floor, richer, load);
    lemma_more_credit(model, context, floor, cache, load, more);
    let (a, b) = (
        model.logit(context, floor, cache, load),
        model.logit(context, floor, richer, load),
    );
    let multiplier = multiplier_of(preference);
    let requests = model.request_cost(load);
    lemma_one();
    lemma_number_product(a, multiplier);
    lemma_number_product(b, multiplier);
    if model.subtracts_from_decode(context) {
        let reduced = lemma_reduced(load.decode_cost_blocks, x, y);
        lemma_sum_ordered(reduced.1, reduced.0, requests);
    } else {
        let blocks = Binary64::of(raw_tokens(context, cache, load) as nat).quotient(
            Binary64::of(context.block_size as nat),
        );
        let scale = model.config.prefill_load_scale;
        let (low, high) = lemma_reduced(blocks, x, y);
        lemma_scaled_load(scale, high, low, load.decode_cost_blocks, requests);
    }
    lemma_product_ordered(b, a, multiplier);
}

/// What more credit leaves of a load.
proof fn lemma_reduced(load: Binary64, less: Binary64, more: Binary64) -> (r: (Binary64, Binary64))
    requires
        ordered(less, more),
        less.finite(),
        more.finite(),
    ensures
        r.0 == load.difference(less).at_least_zero(),
        r.1 == load.difference(more).at_least_zero(),
        ordered(r.1, r.0),
{
    let (x, y) = (load.difference(less), load.difference(more));
    if !load.is_nan() {
        lemma_number_difference(load, less);
        lemma_number_difference(load, more);
        lemma_difference_reversed(load, less, more);
    }
    (x.at_least_zero(), y.at_least_zero())
}

/// Subtracting a finite number from a number gives a number.
proof fn lemma_number_difference(a: Binary64, b: Binary64)
    requires
        !a.is_nan(),
        b.finite(),
    ensures
        !a.difference(b).is_nan(),
{
    let exact = a.value() - b.value();
    lemma_rounded_range(exact as nat, 1);
    lemma_rounded_range((-exact) as nat, 1);
}

proof fn lemma_scaled_load(
    scale: Binary64,
    a: Binary64,
    b: Binary64,
    decode: Binary64,
    requests: Binary64,
)
    requires
        ordered(a, b),
        not_below_zero(scale),
        !scale.product(a).sum(decode).sum(requests).is_nan(),
        !scale.product(b).sum(decode).sum(requests).is_nan(),
    ensures
        ordered(
            scale.product(a).sum(decode).sum(requests),
            scale.product(b).sum(decode).sum(requests),
        ),
{
    lemma_product_commutes(scale, a);
    lemma_product_commutes(scale, b);
    lemma_product_ordered(a, b, scale);
    lemma_sum_ordered(scale.product(a), scale.product(b), decode);
    lemma_sum_ordered(scale.product(a).sum(decode), scale.product(b).sum(decode), requests);
}

proof fn lemma_more_credit(
    model: CostModel,
    context: WorkerSelectionContext,
    floor: usize,
    cache: WorkerCacheInput,
    load: WorkerLoadInput,
    more: Binary64,
)
    requires
        ordered(cache.device_overlap_blocks, more),
        context.has_tier_matches,
        model.uses_decay(context) ==> decays_finitely(model, context),
        not_below_zero(model.config.overlap_score_credit),
        ({
            let richer = WorkerCacheInput { device_overlap_blocks: more, ..cache };
            &&& model.credit(context, floor, cache, load).finite()
            &&& model.credit(context, floor, richer, load).finite()
        }),
    ensures
        ordered(
            model.credit(context, floor, cache, load),
            model.credit(
                context,
                floor,
                WorkerCacheInput { device_overlap_blocks: more, ..cache },
                load,
            ),
        ),
{
    let credit = model.overlap_credit(context);
    let decay = model.decay(context, floor, load);
    lemma_falling_decay(model, context, floor, load, load);
    assert(not_below_zero(credit));
    lemma_not_below_product(credit, decay);
    lemma_credit_terms(
        credit.product(decay),
        cache.device_overlap_blocks,
        more,
        model.config.host_cache_hit_weight.product(cache.host_overlap_blocks),
        model.config.disk_cache_hit_weight.product(cache.disk_overlap_blocks),
        model.config.shared_cache_multiplier.product(
            Binary64::of(shared_blocks(context, cache) as nat),
        ),
    );
}

proof fn lemma_divided_one(divisor: Binary64)
    requires
        !divisor.negative(),
        ordered(Binary64 { bits: ONE }, divisor),
    ensures
        !(Binary64 { bits: ONE }).quotient(divisor).negative(),
{
    let one = Binary64 { bits: ONE };
    lemma_one();
    if divisor.finite() {
        lemma_unsigned_quotient(one, divisor);
    }
}

proof fn lemma_credit_terms(
    weight: Binary64,
    a: Binary64,
    b: Binary64,
    host: Binary64,
    disk: Binary64,
    shared: Binary64,
)
    requires
        ordered(a, b),
        not_below_zero(weight),
        weight.product(a).sum(host).sum(disk).sum(shared).finite(),
        weight.product(b).sum(host).sum(disk).sum(shared).finite(),
    ensures
        ordered(
            weight.product(a).sum(host).sum(disk).sum(shared),
            weight.product(b).sum(host).sum(disk).sum(shared),
        ),
{
    let (x, y) = (weight.product(a), weight.product(b));
    lemma_number_sum(x.sum(host).sum(disk), shared);
    lemma_number_sum(y.sum(host).sum(disk), shared);
    lemma_number_sum(x.sum(host), disk);
    lemma_number_sum(y.sum(host), disk);
    lemma_number_sum(x, host);
    lemma_number_sum(y, host);
    lemma_number_product(weight, a);
    lemma_product_commutes(weight, a);
    lemma_product_commutes(weight, b);
    lemma_product_ordered(a, b, weight);
    lemma_sum_ordered(x, y, host);
    lemma_sum_ordered(x.sum(host), y.sum(host), disk);
    lemma_sum_ordered(x.sum(host).sum(disk), y.sum(host).sum(disk), shared);
}

/// The terms of a number are numbers.
proof fn lemma_number_sum(a: Binary64, b: Binary64)
    requires
        !a.sum(b).is_nan(),
    ensures
        !a.is_nan(),
        !b.is_nan(),
{
}

/// The factors of a number are numbers.
proof fn lemma_number_product(a: Binary64, b: Binary64)
    requires
        !a.product(b).is_nan(),
    ensures
        !a.is_nan(),
        !b.is_nan(),
{
}

proof fn lemma_reduced_load(a: Binary64, b: Binary64, credit: Binary64, requests: Binary64)
    requires
        ordered(a, b),
        a.finite(),
        b.finite(),
        !a.difference(credit).at_least_zero().sum(requests).is_nan(),
        !b.difference(credit).at_least_zero().sum(requests).is_nan(),
    ensures
        ordered(
            a.difference(credit).at_least_zero().sum(requests),
            b.difference(credit).at_least_zero().sum(requests),
        ),
{
    let (x, y) = (a.difference(credit), b.difference(credit));
    assert(ordered(x.at_least_zero(), y.at_least_zero())) by {
        if !credit.is_nan() {
            lemma_finite_difference(a, credit);
            lemma_finite_difference(b, credit);
            lemma_sum_ordered(a, b, credit.opposite());
        }
    }
    lemma_sum_ordered(x.at_least_zero(), y.at_least_zero(), requests);
}

proof fn lemma_added_load(prefill: Binary64, a: Binary64, b: Binary64, requests: Binary64)
    requires
        ordered(a, b),
        !prefill.sum(a).sum(requests).is_nan(),
        !prefill.sum(b).sum(requests).is_nan(),
    ensures
        ordered(prefill.sum(a).sum(requests), prefill.sum(b).sum(requests)),
{
    lemma_sum_commutes(prefill, a);
    lemma_sum_commutes(prefill, b);
    lemma_sum_ordered(a, b, prefill);
    lemma_sum_ordered(prefill.sum(a), prefill.sum(b), requests);
}

/// Subtracting from a finite number gives a number.
proof fn lemma_finite_difference(a: Binary64, b: Binary64)
    requires
        a.finite(),
        !b.is_nan(),
    ensures
        !a.difference(b).is_nan(),
{
    let exact = a.value() - b.value();
    lemma_rounded_range(exact as nat, 1);
    lemma_rounded_range((-exact) as nat, 1);
}

/// Two numbers that are at least zero, the first not above the second.
pub open spec fn rising(a: Binary64, b: Binary64) -> bool {
    &&& ordered(a, b)
    &&& not_below_zero(a)
}

/// Adding up keeps order.
proof fn lemma_rising_sum(a: Binary64, b: Binary64, c: Binary64, d: Binary64)
    requires
        rising(a, b),
        rising(c, d),
    ensures
        rising(a.sum(c), b.sum(d)),
{
    lemma_number_of_sum(a, c);
    lemma_number_of_sum(b, c);
    lemma_number_of_sum(b, d);
    lemma_sum_ordered(a, b, c);
    lemma_sum_commutes(b, c);
    lemma_sum_commutes(b, d);
    lemma_sum_ordered(c, d, b);
}

/// Numbers that are at least zero add up to such a number.
proof fn lemma_number_of_sum(a: Binary64, b: Binary64)
    requires
        rising(a, a),
        rising(b, b),
    ensures
        rising(a.sum(b), a.sum(b)),
{
    lemma_not_below_sum(a, b);
    lemma_rounded_range((a.value() + b.value()) as nat, 1);
    assert(units(0) == 0);
}

/// Multiplying finite numbers keeps order.
proof fn lemma_rising_product(a: Binary64, b: Binary64, c: Binary64, d: Binary64)
    requires
        rising(a, b),
        rising(c, d),
        b.finite(),
        d.finite(),
    ensures
        rising(a.product(c), b.product(d)),
{
    lemma_number_of_product(a, c);
    lemma_number_of_product(b, c);
    lemma_number_of_product(b, d);
    lemma_product_ordered(a, b, c);
    lemma_product_commutes(b, c);
    lemma_product_commutes(b, d);
    lemma_product_ordered(c, d, b);
}

/// Finite numbers that are at least zero multiply to a number that is.
proof fn lemma_number_of_product(a: Binary64, b: Binary64)
    requires
        rising(a, a),
        rising(b, b),
        a.finite(),
        b.finite(),
    ensures
        rising(a.product(b), a.product(b)),
{
    lemma_not_below_product(a, b);
    lemma_pow2_pos(1074);
    lemma_rounded_range(a.size() * b.size(), unit_scale());
}

/// Taking credit away leaves something finite, more where there was more and less where the credit
/// is larger.
proof fn lemma_rising_rest(a: Binary64, b: Binary64, more: Binary64, less: Binary64)
    requires
        rising(a, b),
        b.finite(),
        rising(less, more),
    ensures
        rising(a.difference(more).at_least_zero(), b.difference(less).at_least_zero()),
        b.difference(less).at_least_zero().finite(),
{
    lemma_finite_difference(a, more);
    lemma_finite_difference(b, more);
    lemma_finite_difference(b, less);
    lemma_sum_ordered(a, b, more.opposite());
    lemma_difference_reversed(b, less, more);
    lemma_rest_finite(b, less);
}

proof fn lemma_rest_finite(a: Binary64, credit: Binary64)
    requires
        rising(a, a),
        a.finite(),
        rising(credit, credit),
    ensures
        a.difference(credit).at_least_zero().finite(),
{
    if credit.finite() {
        assert(units(0) == 0);
        let exact = a.value() - credit.value();
        assert(credit.opposite().value() == -credit.value());
        if exact > 0 {
            lemma_rounded_ordered(exact as nat, 1, a.size(), 1);
            lemma_rounded_exact(a.magnitude(), a.size(), 1);
            lemma_rounded_range(exact as nat, 1);
        } else {
            lemma_rounded_range((-exact) as nat, 1);
        }
    }
}

/// A count over a count above zero is finite.
proof fn lemma_blocks(a: nat, b: nat, block: nat)
    requires
        a <= b <= u64::MAX,
        0 < block <= u64::MAX,
    ensures
        rising(
            Binary64::of(a).quotient(Binary64::of(block)),
            Binary64::of(b).quotient(Binary64::of(block)),
        ),
        Binary64::of(b).quotient(Binary64::of(block)).finite(),
{
    let one = Binary64 { bits: ONE };
    let d = Binary64::of(block);
    lemma_one();
    lemma_rounded_exact(ONE as int, unit_scale(), 1);
    assert(1 * unit_scale() == unit_scale());
    assert(Binary64::of(1) == one);
    lemma_counts_ordered(1, block);
    lemma_counts_ordered(a, b);
    lemma_count_finite(a);
    lemma_count_finite(b);
    lemma_count_positive(block);
    lemma_quotient_ordered(Binary64::of(a), Binary64::of(b), d);
    lemma_unsigned_quotient(Binary64::of(a), d);
    lemma_unsigned_quotient(Binary64::of(b), d);
    lemma_quotient_reversed(Binary64::of(b), one, d);
    lemma_over_one(Binary64::of(b));
}

/// A finite number that is at least zero.
pub open spec fn sound(x: Binary64) -> bool {
    x.finite() && not_below_zero(x)
}

/// Finite weights that are not below zero, and lengths above zero.
pub open spec fn sound_settings(model: CostModel, context: WorkerSelectionContext) -> bool {
    &&& sound(model.config.overlap_score_credit)
    &&& sound(model.config.overlap_score_credit_decay)
    &&& sound(model.config.prefill_load_scale)
    &&& sound(model.config.decode_active_request_weight)
    &&& sound(model.config.host_cache_hit_weight)
    &&& sound(model.config.disk_cache_hit_weight)
    &&& sound(model.config.shared_cache_multiplier)
    &&& context.block_size > 0
    &&& context.request_blocks > 0
}

/// Finite overlaps and loads that are not below zero.
pub open spec fn sound_worker(cache: WorkerCacheInput, load: WorkerLoadInput) -> bool {
    &&& sound(cache.device_overlap_blocks)
    &&& sound(cache.host_overlap_blocks)
    &&& sound(cache.disk_overlap_blocks)
    &&& sound(load.decode_cost_blocks)
}

/// The second worker has no less load of any kind and no more overlap of any tier than the first.
/// In what else a cost depends on they are alike.
pub open spec fn worse_placed(
    cache: WorkerCacheInput,
    load: WorkerLoadInput,
    other_cache: WorkerCacheInput,
    other_load: WorkerLoadInput,
) -> bool {
    &&& load.active_prefill_tokens <= other_load.active_prefill_tokens
    &&& load.active_requests <= other_load.active_requests
    &&& ordered(load.decode_cost_blocks, other_load.decode_cost_blocks)
    &&& ordered(other_cache.device_overlap_blocks, cache.device_overlap_blocks)
    &&& ordered(other_cache.host_overlap_blocks, cache.host_overlap_blocks)
    &&& ordered(other_cache.disk_overlap_blocks, cache.disk_overlap_blocks)
    &&& other_cache.shared_beyond_device_blocks <= cache.shared_beyond_device_blocks
    &&& load.available == other_load.available
    &&& cache.cached_tokens == other_cache.cached_tokens
}

/// What is left of overlap credit is a finite number, of which a busier worker has no more.
proof fn lemma_falling_decay(
    model: CostModel,
    context: WorkerSelectionContext,
    floor: usize,
    load: WorkerLoadInput,
    busier: WorkerLoadInput,
)
    requires
        load.active_prefill_tokens <= busier.active_prefill_tokens,
        model.uses_decay(context) ==> decays_finitely(model, context),
    ensures
        rising(model.decay(context, floor, busier), model.decay(context, floor, load)),
        model.decay(context, floor, load).finite(),
{
    law_credit_decays_with_load(model, context, floor, load, busier);
    lemma_one();
    if model.uses_decay(context) {
        let divisor = lemma_decay(model, context, floor, busier);
        lemma_divided_one(divisor);
        let divisor = lemma_decay(model, context, floor, load);
        lemma_divided_one(divisor);
    }
}

/// More overlap of any tier and less prefill load earn no less credit.
proof fn lemma_rising_credit(
    model: CostModel,
    context: WorkerSelectionContext,
    floor: usize,
    cache: WorkerCacheInput,
    load: WorkerLoadInput,
    other_cache: WorkerCacheInput,
    other_load: WorkerLoadInput,
)
    requires
        context.has_tier_matches,
        sound_settings(model, context),
        sound_worker(cache, load),
        sound_worker(other_cache, other_load),
        worse_placed(cache, load, other_cache, other_load),
    ensures
        rising(
            model.credit(context, floor, other_cache, other_load),
            model.credit(context, floor, cache, load),
        ),
{
    let one = Binary64 { bits: ONE };
    let config = model.config;
    let credit = model.overlap_credit(context);
    let (low, high) = (
        model.decay(context, floor, other_load),
        model.decay(context, floor, load),
    );
    lemma_one();
    lemma_falling_decay(model, context, floor, load, other_load);
    assert(sound(credit));
    let (p, q) = (credit.product(low), credit.product(high));
    lemma_rising_product(credit, credit, low, high);
    assert(q.finite()) by {
        law_credit_decays_with_load(model, context, floor, load, load);
        lemma_rising_product(credit, credit, high, one);
        lemma_times_one(credit);
    }
    let (a, b) = (other_cache, cache);
    lemma_rising_product(p, q, a.device_overlap_blocks, b.device_overlap_blocks);
    let w = config.host_cache_hit_weight;
    lemma_rising_product(w, w, a.host_overlap_blocks, b.host_overlap_blocks);
    let w = config.disk_cache_hit_weight;
    lemma_rising_product(w, w, a.disk_overlap_blocks, b.disk_overlap_blocks);
    let (m, n) = (a.shared_beyond_device_blocks as nat, b.shared_beyond_device_blocks as nat);
    let w = config.shared_cache_multiplier;
    lemma_counts_ordered(m, n);
    lemma_count_finite(m);
    lemma_count_finite(n);
    lemma_rising_product(w, w, Binary64::of(m), Binary64::of(n));
    lemma_rising_terms(
        p.product(a.device_overlap_blocks),
        q.product(b.device_overlap_blocks),
        config.host_cache_hit_weight.product(a.host_overlap_blocks),
        config.host_cache_hit_weight.product(b.host_overlap_blocks),
        config.disk_cache_hit_weight.product(a.disk_overlap_blocks),
        config.disk_cache_hit_weight.product(b.disk_overlap_blocks),
        w.product(Binary64::of(m)),
        w.product(Binary64::of(n)),
    );
}

proof fn lemma_rising_terms(
    a: Binary64,
    b: Binary64,
    c: Binary64,
    d: Binary64,
    e: Binary64,
    f: Binary64,
    g: Binary64,
    h: Binary64,
)
    requires
        rising(a, b),
        rising(c, d),
        rising(e, f),
        rising(g, h),
    ensures
        rising(a.sum(c).sum(e).sum(g), b.sum(d).sum(f).sum(h)),
{
    lemma_rising_sum(a, b, c, d);
    lemma_rising_sum(a.sum(c), b.sum(d), e, f);
    lemma_rising_sum(a.sum(c).sum(e), b.sum(d).sum(f), g, h);
}

/// A worker with no less load and no more overlap has no lower cost before its preference.
proof fn lemma_rising_logit(
    model: CostModel,
    context: WorkerSelectionContext,
    floor: usize,
    cache: WorkerCacheInput,
    load: WorkerLoadInput,
    other_cache: WorkerCacheInput,
    other_load: WorkerLoadInput,
)
    requires
        context.has_tier_matches,
        sound_settings(model, context),
        sound_worker(cache, load),
        sound_worker(other_cache, other_load),
        worse_placed(cache, load, other_cache, other_load),
    ensures
        rising(
            model.logit(context, floor, cache, load),
            model.logit(context, floor, other_cache, other_load),
        ),
{
    let more = model.credit(context, floor, cache, load);
    let less = model.credit(context, floor, other_cache, other_load);
    lemma_rising_credit(model, context, floor, cache, load, other_cache, other_load);
    let (m, n) = (load.active_requests as nat, other_load.active_requests as nat);
    let w = model.config.decode_active_request_weight;
    lemma_counts_ordered(m, n);
    lemma_count_finite(m);
    lemma_count_finite(n);
    lemma_rising_product(w, w, Binary64::of(m), Binary64::of(n));
    let (x, y) = (load.decode_cost_blocks, other_load.decode_cost_blocks);
    if model.subtracts_from_decode(context) {
        lemma_rising_rest(x, y, more, less);
        lemma_rising_sum(
            x.difference(more).at_least_zero(),
            y.difference(less).at_least_zero(),
            model.request_cost(load),
            model.request_cost(other_load),
        );
    } else {
        let block = context.block_size as nat;
        let a = raw_tokens(context, cache, load) as nat;
        let b = raw_tokens(context, other_cache, other_load) as nat;
        let (p, q) = (
            Binary64::of(a).quotient(Binary64::of(block)),
            Binary64::of(b).quotient(Binary64::of(block)),
        );
        lemma_blocks(a, b, block);
        lemma_rising_rest(p, q, more, less);
        let (r, s) = (
            p.difference(more).at_least_zero(),
            q.difference(less).at_least_zero(),
        );
        let scale = model.config.prefill_load_scale;
        lemma_rising_product(scale, scale, r, s);
        lemma_rising_sum(scale.product(r), scale.product(s), x, y);
        lemma_rising_sum(
            scale.product(r).sum(x),
            scale.product(s).sum(y),
            model.request_cost(load),
            model.request_cost(other_load),
        );
    }
}

/// A cost follows the load and goes against the overlap: with finite weights that are not below
/// zero, a worker with no less prefill load, decode load and active requests, and no more device,
/// host, disk and shared overlap, costs no less. An infinite cost times a preference of zero, which
/// is not a number, is left out.
pub proof fn law_cost_follows_load_and_overlap(
    model: CostModel,
    context: WorkerSelectionContext,
    floor: usize,
    cache: WorkerCacheInput,
    load: WorkerLoadInput,
    other_cache: WorkerCacheInput,
    other_load: WorkerLoadInput,
    preference: Option<Binary64>,
)
    requires
        context.has_tier_matches,
        sound_settings(model, context),
        sound_worker(cache, load),
        sound_worker(other_cache, other_load),
        worse_placed(cache, load, other_cache, other_load),
        not_below_zero(multiplier_of(preference)),
        !model.cost_of(context, floor, cache, load, preference).is_nan(),
        !model.cost_of(context, floor, other_cache, other_load, preference).is_nan(),
    ensures
        ordered(
            model.cost_of(context, floor, cache, load, preference),
            model.cost_of(context, floor, other_cache, other_load, preference),
        ),
{
    lemma_rising_logit(model, context, floor, cache, load, other_cache, other_load);
    lemma_product_ordered(
        model.logit(context, floor, cache, load),
        model.logit(context, floor, other_cache, other_load),
        multiplier_of(preference),
    );
}

/// A cost is not below zero where load, its weights and the preference are not, whatever credit is
/// taken off.
pub proof fn law_cost_is_not_below_zero(
    model: CostModel,
    context: WorkerSelectionContext,
    floor: usize,
    cache: WorkerCacheInput,
    load: WorkerLoadInput,
    preference: Option<Binary64>,
)
    requires
        not_below_zero(model.config.prefill_load_scale),
        not_below_zero(model.config.decode_active_request_weight),
        not_below_zero(load.decode_cost_blocks),
        not_below_zero(multiplier_of(preference)),
    ensures
        not_below_zero(model.cost_of(context, floor, cache, load, preference)),
{
    let credit = model.credit(context, floor, cache, load);
    let requests = model.request_cost(load);
    lemma_count_finite(load.active_requests as nat);
    lemma_not_below_product(
        model.config.decode_active_request_weight,
        Binary64::of(load.active_requests as nat),
    );
    if model.subtracts_from_decode(context) {
        lemma_not_below_sum(load.decode_cost_blocks.difference(credit).at_least_zero(), requests);
    } else {
        let scale = model.config.prefill_load_scale;
        let rest = Binary64::of(raw_tokens(context, cache, load) as nat).quotient(
            Binary64::of(context.block_size as nat),
        ).difference(credit).at_least_zero();
        lemma_not_below_product(scale, rest);
        lemma_not_below_sum(scale.product(rest), load.decode_cost_blocks);
        lemma_not_below_sum(scale.product(rest).sum(load.decode_cost_blocks), requests);
    }
    lemma_not_below_product(
        model.logit(context, floor, cache, load),
        multiplier_of(preference),
    );
}

/// The scores of a prepared scorer follow the load, go against the overlap and are not below zero:
/// of two candidates with the same preference that are in the prepared set, the one with no less
/// load of any kind and no more overlap of any tier scores no less.
pub proof fn law_score_follows_load_and_overlap(
    model: CostModel,
    context: WorkerSelectionContext,
    candidates: Seq<WorkerCandidate>,
    row: int,
    other: int,
)
    requires
        context.has_tier_matches,
        sound_settings(model, context),
        forall|i: int|
            0 <= i < candidates.len() ==> (#[trigger] candidates[i]).cache is Some
                && candidates[i].load is Some,
        0 <= row < candidates.len(),
        0 <= other < candidates.len(),
        sound_worker(candidates[row].cache->0, candidates[row].load->0),
        sound_worker(candidates[other].cache->0, candidates[other].load->0),
        worse_placed(
            candidates[row].cache->0,
            candidates[row].load->0,
            candidates[other].cache->0,
            candidates[other].load->0,
        ),
        candidates[row].preferred_taint_multiplier == candidates[other].preferred_taint_multiplier,
        not_below_zero(multiplier_of(candidates[row].preferred_taint_multiplier)),
        ({
            let scorer = Scorer::of(
                model.config,
                model.is_decode,
                model.plain_decode,
            ).prepared_for(context, candidates);
            &&& !scorer.score_of(context, candidates[row]).is_nan()
            &&& !scorer.score_of(context, candidates[other]).is_nan()
        }),
    ensures
        ({
            let scorer = Scorer::of(
                model.config,
                model.is_decode,
                model.plain_decode,
            ).prepared_for(context, candidates);
            &&& ordered(
                scorer.score_of(context, candidates[row]),
                scorer.score_of(context, candidates[other]),
            )
            &&& not_below_zero(scorer.score_of(context, candidates[row]))
        }),
{
    let floor = model.prefill_floor(context, loads_of(candidates));
    let (a, b) = (candidates[row], candidates[other]);
    let preference = a.preferred_taint_multiplier;
    law_scorer_agrees_with_picker(model, context, candidates, row);
    law_scorer_agrees_with_picker(model, context, candidates, other);
    law_cost_follows_load_and_overlap(
        model,
        context,
        floor,
        a.cache->0,
        a.load->0,
        b.cache->0,
        b.load->0,
        preference,
    );
    law_cost_is_not_below_zero(model, context, floor, a.cache->0, a.load->0, preference);
}

} // verus!
