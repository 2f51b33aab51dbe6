//! What holds of costs and scores.

use vstd::arithmetic::power2::{lemma_pow2_pos, pow2};
use vstd::prelude::*;

use crate::binary64::laws::{
    lemma_count_finite, lemma_not_below_product, lemma_not_below_sum, lemma_one, lemma_over_one,
    lemma_reciprocal_division, lemma_rounded_exact, lemma_rounded_ordered, lemma_rounded_range,
    lemma_same_product, lemma_same_sum, lemma_times_one, lemma_zero_product, lemma_zero_sum,
    lemma_zero_times_count, not_below_zero, same_number,
};
use crate::binary64::rounding::lemma_rounded_zero;
use crate::binary64::{signed, unit_scale, units, Binary64, ONE};
use crate::config::KvRouterConfig;
use crate::cost::{
    device_overlap, excess_over, hits_countable, least_prefill, raw_tokens, shared_blocks, CostModel,
};
use crate::inputs::{
    hits_at_or_beyond, lemma_hits_bounded, SharedCacheHits, WorkerCacheInput, WorkerCandidate,
    WorkerLoadInput, WorkerSelectionContext,
};
use crate::scorer::{least_candidate_prefill, IntegerDivisor, PreparedRequest, Scorer};

verus! {

/// The reciprocal of a divisor never shows: dividing by a prepared count is division by that
/// count, to the last bit, for every count and every numerator.
pub proof fn law_prepared_division(count: u64, numerator: Binary64)
    ensures
        IntegerDivisor::for_count(count).divided(numerator) == numerator.quotient(
            Binary64::of(count as nat),
        ),
{
    if exists|s: nat| s < 64 && count == #[trigger] pow2(s) {
        let s = choose|s: nat| s < 64 && count == #[trigger] pow2(s);
        lemma_reciprocal_division(numerator, s);
    }
}

/// The positions of sorted ranges at `from` or beyond.
pub open spec fn positions(ranges: Seq<(u32, u32)>, from: int) -> Set<int> {
    Set::new(
        |p: int|
            p >= from && exists|i: int|
                0 <= i < ranges.len() && (#[trigger] ranges[i]).0 <= p < ranges[i].1,
    )
}

/// Where ranges are in order and do not overlap, counting hits counts positions, and there are never
/// too many to count.
pub proof fn law_hits_count_positions(hits: SharedCacheHits, from: int)
    requires
        hits.sorted(),
        0 <= from,
    ensures
        positions(hits.ranges@, from).finite(),
        positions(hits.ranges@, from).len() == hits_at_or_beyond(hits.ranges@, from),
        hits.counts_from(from),
{
    lemma_hits(hits.ranges@, from);
}

proof fn lemma_hits(ranges: Seq<(u32, u32)>, from: int)
    requires
        forall|i: int| 0 <= i < ranges.len() ==> (#[trigger] ranges[i]).0 <= ranges[i].1,
        forall|i: int, j: int|
            0 <= i < j < ranges.len() ==> (#[trigger] ranges[i]).1 <= (#[trigger] ranges[j]).0,
        0 <= from,
    ensures
        positions(ranges, from).finite(),
        positions(ranges, from).len() == hits_at_or_beyond(ranges, from),
        0 <= hits_at_or_beyond(ranges, from),
        hits_at_or_beyond(ranges, from) <= if ranges.len() == 0 {
            0
        } else {
            ranges.last().1 as int
        },
    decreases ranges.len(),
{
    if ranges.len() == 0 {
        assert(positions(ranges, from) =~= Set::empty());
    } else {
        let front = ranges.drop_last();
        lemma_hits(front, from);
        let (start, end) = ranges.last();
        let first = if start < from {
            from
        } else {
            start as int
        };
        if front.len() > 0 {
            assert(ranges[ranges.len() - 2].1 <= ranges[ranges.len() - 1].0);
        }
        let tail = vstd::set_lib::set_int_range(
            first,
            if end > first {
                end as int
            } else {
                first
            },
        );
        vstd::set_lib::lemma_int_range(
            first,
            if end > first {
                end as int
            } else {
                first
            },
        );
        assert(positions(ranges, from) =~= positions(front, from).union(tail)) by {
            assert forall|p: int| positions(ranges, from).contains(p) implies positions(
                front,
                from,
            ).union(tail).contains(p) by {
                let i = choose|i: int|
                    0 <= i < ranges.len() && (#[trigger] ranges[i]).0 <= p < ranges[i].1;
                if i < front.len() {
                    assert(front[i].0 <= p < front[i].1);
                }
            }
            assert forall|p: int| positions(front, from).union(tail).contains(p) implies positions(
                ranges,
                from,
            ).contains(p) by {
                if positions(front, from).contains(p) {
                    let i = choose|i: int|
                        0 <= i < front.len() && (#[trigger] front[i]).0 <= p < front[i].1;
                    assert(ranges[i].0 <= p < ranges[i].1);
                } else {
                    assert(ranges[ranges.len() - 1].0 <= p < ranges[ranges.len() - 1].1);
                }
            }
        }
        assert(positions(front, from).disjoint(tail)) by {
            assert forall|p: int| positions(front, from).contains(p) implies !tail.contains(p) by {
                let i = choose|i: int|
                    0 <= i < front.len() && (#[trigger] front[i]).0 <= p < front[i].1;
                assert(ranges[i].1 <= ranges[ranges.len() - 1].0);
            }
        }
        vstd::set_lib::lemma_set_disjoint_lens(positions(front, from), tail);
    }
}

/// The loads of candidates.
pub open spec fn loads_of(candidates: Seq<WorkerCandidate>) -> Seq<WorkerLoadInput> {
    candidates.map_values(|candidate: WorkerCandidate| candidate.load->0)
}

proof fn lemma_least_candidate_prefill(candidates: Seq<WorkerCandidate>)
    requires
        forall|i: int| 0 <= i < candidates.len() ==> (#[trigger] candidates[i]).load is Some,
    ensures
        least_candidate_prefill(candidates) == least_prefill(loads_of(candidates)),
    decreases candidates.len(),
{
    if candidates.len() > 0 {
        let front = candidates.drop_last();
        assert forall|i: int| 0 <= i < front.len() implies (#[trigger] front[i]).load is Some by {
            assert(front[i] == candidates[i]);
        }
        lemma_least_candidate_prefill(front);
        assert(loads_of(candidates).drop_last() =~= loads_of(front));
        assert(candidates[candidates.len() - 1].load is Some);
    }
}

proof fn lemma_shared_blocks(context: WorkerSelectionContext, cache: WorkerCacheInput)
    requires
        hits_countable(context, cache),
    ensures
        0 <= shared_blocks(context, cache) <= u32::MAX,
{
    if !context.has_tier_matches {
        if let Some(hits) = context.shared_cache_hits {
            let from = device_overlap(context, cache).whole() as int;
            lemma_hits_bounded(hits.ranges@, hits.ranges@.len() as int, from);
            assert(hits.ranges@.take(hits.ranges@.len() as int) =~= hits.ranges@);
        }
    }
}

/// A prepared scorer and the picker put the same cost on every worker, to the last bit: neither
/// the prepared divisors nor the terms that a zero weight leaves out show in a score.
pub proof fn law_scorer_agrees_with_picker(
    model: CostModel,
    context: WorkerSelectionContext,
    candidates: Seq<WorkerCandidate>,
    row: int,
)
    requires
        0 <= row < candidates.len(),
        candidates[row].cache is Some,
        candidates[row].load is Some,
        model.uses_decay(context) ==> forall|i: int|
            0 <= i < candidates.len() ==> (#[trigger] candidates[i]).load is Some,
        hits_countable(context, candidates[row].cache->0),
    ensures
        Scorer::of(model.config, model.is_decode, model.plain_decode).prepared_for(
            context,
            candidates,
        ).score_of(context, candidates[row]) == model.cost_of(
            context,
            model.prefill_floor(context, loads_of(candidates)),
            candidates[row].cache->0,
            candidates[row].load->0,
            candidates[row].preferred_taint_multiplier,
        ),
{
    let config = model.config;
    let cache = candidates[row].cache->0;
    let load = candidates[row].load->0;
    if model.uses_decay(context) {
        lemma_least_candidate_prefill(candidates);
    }
    lemma_shared_blocks(context, cache);
    let floor = model.prefill_floor(context, loads_of(candidates));
    let block = context.block_size as u64;
    let excess = Binary64::of(excess_over(load.active_prefill_tokens as int, floor as int));
    law_prepared_division(block, excess);
    law_prepared_division(
        context.request_blocks,
        excess.quotient(Binary64::of(context.block_size as nat)),
    );
    law_prepared_division(block, Binary64::of(raw_tokens(context, cache, load) as nat));
    if config.shared_cache_multiplier.equals(signed(false, 0)) {
        lemma_zero_times_count(
            config.shared_cache_multiplier,
            shared_blocks(context, cache) as nat,
        );
    }
    if config.decode_active_request_weight.equals(signed(false, 0)) {
        lemma_zero_times_count(config.decode_active_request_weight, load.active_requests as nat);
    }
}

/// Preparing leaves nothing of an earlier selection behind.
pub proof fn law_preparing_resets(
    scorer: Scorer,
    earlier: PreparedRequest,
    context: WorkerSelectionContext,
    candidates: Seq<WorkerCandidate>,
)
    ensures
        scorer.with(earlier).prepared_for(context, candidates) == scorer.prepared_for(
            context,
            candidates,
        ),
{
}

/// Nothing, less a number that is at least zero, leaves nothing.
proof fn lemma_nothing_left(nothing: Binary64, credit: Binary64)
    requires
        nothing.is_nan() || nothing == signed(false, 0),
        not_below_zero(credit),
    ensures
        nothing.difference(credit).at_least_zero() == signed(false, 0),
{
    assert(units(0) == 0);
    lemma_rounded_range(credit.size(), 1);
}

/// Cache credit is not below zero: the weights and the overlaps that go into it are not.
pub open spec fn credits_not_below_zero(
    model: CostModel,
    context: WorkerSelectionContext,
    cache: WorkerCacheInput,
) -> bool {
    &&& not_below_zero(model.config.host_cache_hit_weight)
    &&& not_below_zero(model.config.disk_cache_hit_weight)
    &&& not_below_zero(model.config.shared_cache_multiplier)
    &&& not_below_zero(device_overlap(context, cache))
    &&& not_below_zero(cache.host_overlap_blocks)
    &&& not_below_zero(cache.disk_overlap_blocks)
}

/// The multiplier that a preference stands for.
pub open spec fn multiplier_of(preference: Option<Binary64>) -> Binary64 {
    match preference {
        Some(multiplier) => multiplier,
        None => Binary64 { bits: ONE },
    }
}

/// What a worker costs by its decode load, its active requests and its preference alone.
pub open spec fn load_cost(
    config: KvRouterConfig,
    load: WorkerLoadInput,
    preference: Option<Binary64>,
) -> Binary64 {
    load.decode_cost_blocks.sum(
        config.decode_active_request_weight.product(Binary64::of(load.active_requests as nat)),
    ).product(multiplier_of(preference))
}

/// Plain disaggregated decode is load-only: where weights and overlaps are not below zero, a worker
/// costs its decode load and its active requests, times its preference, and nothing else. What is
/// cached, on the worker or in the shared cache, and how long the request is do not show, not even
/// in the last bit.
pub proof fn law_plain_decode_is_load_only(
    model: CostModel,
    context: WorkerSelectionContext,
    floor: usize,
    cache: WorkerCacheInput,
    load: WorkerLoadInput,
    preference: Option<Binary64>,
    other_context: WorkerSelectionContext,
    other_floor: usize,
    other: WorkerCacheInput,
)
    requires
        model.plain_decode,
        !context.tracks_prefill_tokens,
        hits_countable(context, cache),
        credits_not_below_zero(model, context, cache),
        !other_context.tracks_prefill_tokens,
        hits_countable(other_context, other),
        credits_not_below_zero(model, other_context, other),
    ensures
        model.cost_of(context, floor, cache, load, preference) == model.cost_of(
            other_context,
            other_floor,
            other,
            load,
            preference,
        ),
        model.config.prefill_load_scale.finite() ==> same_number(
            model.cost_of(context, floor, cache, load, preference),
            load_cost(model.config, load, preference),
        ),
{
    lemma_load_only(model, context, floor, cache, load);
    lemma_load_only(model, other_context, other_floor, other, load);
    let scale = model.config.prefill_load_scale;
    if scale.finite() {
        let nothing = scale.product(signed(false, 0));
        let (decode, requests) = (load.decode_cost_blocks, model.request_cost(load));
        lemma_zero_product(scale, signed(false, 0));
        lemma_zero_sum(nothing, decode);
        lemma_same_sum(nothing.sum(decode), decode, requests);
        lemma_same_product(
            nothing.sum(decode).sum(requests),
            decode.sum(requests),
            multiplier_of(preference),
        );
    }
}

proof fn lemma_load_only(
    model: CostModel,
    context: WorkerSelectionContext,
    floor: usize,
    cache: WorkerCacheInput,
    load: WorkerLoadInput,
)
    requires
        model.plain_decode,
        !context.tracks_prefill_tokens,
        hits_countable(context, cache),
        credits_not_below_zero(model, context, cache),
    ensures
        model.logit(context, floor, cache, load) == model.config.prefill_load_scale.product(
            signed(false, 0),
        ).sum(load.decode_cost_blocks).sum(model.request_cost(load)),
{
    let zero = signed(false, 0);
    let one = Binary64 { bits: ONE };
    lemma_one();
    lemma_shared_blocks(context, cache);
    let shared = Binary64::of(shared_blocks(context, cache) as nat);
    lemma_count_finite(shared_blocks(context, cache) as nat);
    let device = device_overlap(context, cache);
    let a = zero.product(one).product(device);
    let b = model.config.host_cache_hit_weight.product(cache.host_overlap_blocks);
    let c = model.config.disk_cache_hit_weight.product(cache.disk_overlap_blocks);
    let d = model.config.shared_cache_multiplier.product(shared);
    lemma_not_below_product(zero, one);
    lemma_not_below_product(zero.product(one), device);
    lemma_not_below_product(model.config.host_cache_hit_weight, cache.host_overlap_blocks);
    lemma_not_below_product(model.config.disk_cache_hit_weight, cache.disk_overlap_blocks);
    lemma_not_below_product(model.config.shared_cache_multiplier, shared);
    lemma_not_below_sum(a, b);
    lemma_not_below_sum(a.sum(b), c);
    lemma_not_below_sum(a.sum(b).sum(c), d);
    let credit = a.sum(b).sum(c).sum(d);
    assert(credit == model.credit(context, floor, cache, load));
    let block = Binary64::of(context.block_size as nat);
    lemma_count_finite(context.block_size as nat);
    lemma_of_zero();
    let none = Binary64::of(0).quotient(block);
    assert(none.is_nan() || none == zero) by {
        if !block.is_zero() {
            crate::binary64::rounding::lemma_units_increasing(0, block.magnitude());
            assert(0 * unit_scale() == 0);
            lemma_rounded_zero(block.size());
        }
    }
    assert(raw_tokens(context, cache, load) == 0);
    lemma_nothing_left(none, credit);
}

proof fn lemma_of_zero()
    ensures
        Binary64::of(0) == signed(false, 0),
{
    assert(0 * unit_scale() == 0);
    lemma_rounded_zero(1);
}

/// A count above zero is a number above zero.
pub proof fn lemma_count_positive(count: nat)
    requires
        0 < count <= u64::MAX,
    ensures
        Binary64::of(count).finite(),
        !Binary64::of(count).negative(),
        !Binary64::of(count).is_zero(),
{
    lemma_count_finite(count);
    lemma_one();
    let scale = unit_scale();
    lemma_rounded_exact(ONE as int, scale, 1);
    assert(scale * 1 <= (count * scale) * 1) by (nonlinear_arith)
        requires
            count >= 1,
            scale >= 0,
    ;
    lemma_rounded_ordered(scale, 1, count * scale, 1);
    lemma_rounded_range(count * scale, 1);
}

/// Overlap credit decays at a finite rate, with lengths above zero.
pub open spec fn decays_finitely(model: CostModel, context: WorkerSelectionContext) -> bool {
    &&& context.block_size > 0
    &&& context.request_blocks > 0
    &&& model.config.overlap_score_credit_decay.finite()
}

/// The least loaded worker keeps its full overlap credit.
pub proof fn law_least_loaded_keeps_credit(
    model: CostModel,
    context: WorkerSelectionContext,
    floor: usize,
    load: WorkerLoadInput,
)
    requires
        load.active_prefill_tokens <= floor,
        model.uses_decay(context) ==> decays_finitely(model, context),
    ensures
        model.decay(context, floor, load).bits == ONE,
{
    let one = Binary64 { bits: ONE };
    let zero = signed(false, 0);
    let rate = model.config.overlap_score_credit_decay;
    let block = Binary64::of(context.block_size as nat);
    let request = Binary64::of(context.request_blocks as nat);
    if model.uses_decay(context) {
        lemma_of_zero();
        lemma_one();
        lemma_count_positive(context.block_size as nat);
        lemma_count_positive(context.request_blocks as nat);
        lemma_pow2_pos(1074);
        assert(units(0) == 0);
        assert(0 * unit_scale() == 0);
        crate::binary64::rounding::lemma_units_increasing(0, block.magnitude());
        lemma_rounded_zero(block.size());
        assert(zero.quotient(block) == zero);
        crate::binary64::rounding::lemma_units_increasing(0, request.magnitude());
        lemma_rounded_zero(request.size());
        assert(zero.quotient(request) == zero);
        assert(rate.size() * 0 == 0);
        lemma_rounded_zero(unit_scale());
        assert(rate.product(zero) == zero);
        lemma_rounded_exact(ONE as int, unit_scale(), 1);
        assert(one.sum(zero) == one);
        lemma_over_one(one);
    }
}

/// A worker without a preference costs what its cache and load say.
pub proof fn law_no_preference(
    model: CostModel,
    context: WorkerSelectionContext,
    floor: usize,
    cache: WorkerCacheInput,
    load: WorkerLoadInput,
)
    requires
        !model.logit(context, floor, cache, load).is_nan(),
    ensures
        model.cost_of(context, floor, cache, load, None) == model.logit(
            context,
            floor,
            cache,
            load,
        ),
{
    lemma_times_one(model.logit(context, floor, cache, load));
}

} // verus!
