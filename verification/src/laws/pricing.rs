//! What a worker costs, from what the host reports of it.

use vstd::arithmetic::power2::{lemma2_to64, lemma_pow2_adds, lemma_pow2_pos, pow2};
use vstd::prelude::*;

use super::costs::{lemma_count_positive, multiplier_of};
use crate::binary64::laws::{
    lemma_count_exact, lemma_counts_combine, lemma_one, lemma_product_commutes,
    lemma_quotient_reversed, lemma_rounded_exact, lemma_rounded_range, lemma_rounded_ratio,
    lemma_sum_commutes, lemma_sum_ordered, lemma_times_one, lemma_zero_product, ordered,
};
use crate::binary64::rounding::{
    lemma_rounded, lemma_rounded_zero, lemma_units_increasing, lemma_units_parts,
};
use crate::binary64::{rounded, signed, unit_scale, units, Binary64, FRACTIONS, ONE};
use crate::cost::{raw_tokens, shared_blocks, CostModel};
use crate::inputs::{hits_at_or_beyond, WorkerCacheInput, WorkerLoadInput, WorkerSelectionContext};

verus! {

/// How many shared-cache blocks a worker earns credit for: what the host counted where tiers were
/// reported, and otherwise the hits from the estimated overlap on.
pub open spec fn shared_count(
    context: WorkerSelectionContext,
    cache: WorkerCacheInput,
    shared: int,
) -> bool {
    &&& context.has_tier_matches ==> shared == cache.shared_beyond_device_blocks
    &&& !context.has_tier_matches && context.shared_cache_hits is None ==> shared == 0
    &&& !context.has_tier_matches && context.shared_cache_hits is Some ==> shared
        == hits_at_or_beyond(
        context.shared_cache_hits->0.ranges@,
        cache.estimated_overlap.whole() as int,
    )
}

/// The larger of two whole numbers.
pub open spec fn larger(a: int, b: int) -> int {
    if a < b {
        b
    } else {
        a
    }
}

/// The price of a request that counts toward prefill load. The tokens charged to an available worker
/// are its backlog and the longer of the prompt and its cached part, up to the largest `usize`; to
/// another worker, the prompt. Credit decays at every rate above zero, by the backlog above the
/// floor in lengths of the request.
pub proof fn law_tracked_price(
    model: CostModel,
    context: WorkerSelectionContext,
    floor: usize,
    cache: WorkerCacheInput,
    load: WorkerLoadInput,
    preference: Option<Binary64>,
    tokens: nat,
    excess: nat,
    shared: int,
)
    requires
        context.tracks_prefill_tokens,
        !load.available ==> tokens == context.prompt_tokens,
        load.available && load.active_prefill_tokens + larger(
            context.prompt_tokens as int,
            cache.cached_tokens as int,
        ) <= usize::MAX ==> tokens == load.active_prefill_tokens + larger(
            context.prompt_tokens as int,
            cache.cached_tokens as int,
        ),
        load.available && load.active_prefill_tokens + larger(
            context.prompt_tokens as int,
            cache.cached_tokens as int,
        ) > usize::MAX ==> tokens == usize::MAX,
        excess == larger(load.active_prefill_tokens - floor, 0),
        shared_count(context, cache, shared),
    ensures
        ({
            let config = model.config;
            let one = Binary64 { bits: ONE };
            let block = Binary64::of(context.block_size as nat);
            let length = Binary64::of(context.request_blocks as nat);
            let rate = config.overlap_score_credit_decay;
            let kept = if rate.is_nan() || rate.rank() <= 0 {
                one
            } else {
                one.quotient(
                    one.sum(rate.product(Binary64::of(excess).quotient(block).quotient(length))),
                )
            };
            let overlap = if context.has_tier_matches {
                cache.device_overlap_blocks
            } else {
                cache.estimated_overlap
            };
            let credit = config.overlap_score_credit.product(kept).product(overlap).sum(
                config.host_cache_hit_weight.product(cache.host_overlap_blocks),
            ).sum(config.disk_cache_hit_weight.product(cache.disk_overlap_blocks)).sum(
                config.shared_cache_multiplier.product(Binary64::of(shared as nat)),
            );
            let rest = Binary64::of(tokens).quotient(block).difference(credit);
            let charged = if rest.is_nan() || rest.rank() <= 0 {
                Binary64 { bits: 0 }
            } else {
                rest
            };
            model.cost_of(context, floor, cache, load, preference)
                == config.prefill_load_scale.product(charged).sum(load.decode_cost_blocks).sum(
                config.decode_active_request_weight.product(
                    Binary64::of(load.active_requests as nat),
                ),
            ).product(multiplier_of(preference))
        }),
{
    lemma_kept(model, context, floor, load, excess);
    assert(raw_tokens(context, cache, load) == tokens);
    assert(shared_blocks(context, cache) == shared);
    let rest = Binary64::of(tokens).quotient(Binary64::of(context.block_size as nat)).difference(
        model.credit(context, floor, cache, load),
    );
    lemma_charged(rest);
}

/// What is left of a credit.
proof fn lemma_kept(
    model: CostModel,
    context: WorkerSelectionContext,
    floor: usize,
    load: WorkerLoadInput,
    excess: nat,
)
    requires
        context.tracks_prefill_tokens,
        excess == larger(load.active_prefill_tokens - floor, 0),
    ensures
        ({
            let one = Binary64 { bits: ONE };
            let rate = model.config.overlap_score_credit_decay;
            model.decay(context, floor, load) == if rate.is_nan() || rate.rank() <= 0 {
                one
            } else {
                one.quotient(
                    one.sum(
                        rate.product(
                            Binary64::of(excess).quotient(
                                Binary64::of(context.block_size as nat),
                            ).quotient(Binary64::of(context.request_blocks as nat)),
                        ),
                    ),
                )
            }
        }),
{
}

/// What is charged of what is left after credit.
proof fn lemma_charged(rest: Binary64)
    ensures
        rest.at_least_zero() == if rest.is_nan() || rest.rank() <= 0 {
            Binary64 { bits: 0 }
        } else {
            rest
        },
{
}

/// The price of a request that does not count toward prefill load. Nothing decays and no tokens are
/// charged. On a decode pool whose overlap earns credit, the credit is taken off the decode load.
pub proof fn law_untracked_price(
    model: CostModel,
    context: WorkerSelectionContext,
    floor: usize,
    cache: WorkerCacheInput,
    load: WorkerLoadInput,
    preference: Option<Binary64>,
    shared: int,
)
    requires
        !context.tracks_prefill_tokens,
        shared_count(context, cache, shared),
    ensures
        ({
            let config = model.config;
            let zero = Binary64 { bits: 0 };
            let one = Binary64 { bits: ONE };
            let earned = if model.plain_decode {
                zero
            } else {
                config.overlap_score_credit
            };
            let overlap = if context.has_tier_matches {
                cache.device_overlap_blocks
            } else {
                cache.estimated_overlap
            };
            let credit = earned.product(one).product(overlap).sum(
                config.host_cache_hit_weight.product(cache.host_overlap_blocks),
            ).sum(config.disk_cache_hit_weight.product(cache.disk_overlap_blocks)).sum(
                config.shared_cache_multiplier.product(Binary64::of(shared as nat)),
            );
            let requests = config.decode_active_request_weight.product(
                Binary64::of(load.active_requests as nat),
            );
            let from_decode = model.is_decode && !earned.is_nan() && earned.rank() > 0;
            let rest = if from_decode {
                load.decode_cost_blocks.difference(credit)
            } else {
                Binary64::of(0).quotient(Binary64::of(context.block_size as nat)).difference(credit)
            };
            let charged = if rest.is_nan() || rest.rank() <= 0 {
                zero
            } else {
                rest
            };
            let before = if from_decode {
                charged.sum(requests)
            } else {
                config.prefill_load_scale.product(charged).sum(load.decode_cost_blocks).sum(
                    requests,
                )
            };
            model.cost_of(context, floor, cache, load, preference) == before.product(
                multiplier_of(preference),
            )
        }),
{
}

/// Adding or taking away a zero leaves a number without a minus sign as it is.
proof fn lemma_with_zero(x: Binary64, zero: Binary64)
    requires
        x.finite(),
        !x.negative(),
        zero.is_zero(),
    ensures
        x.sum(zero) == x,
        x.difference(zero) == x,
{
    assert(units(0) == 0);
    if !x.is_zero() {
        lemma_units_increasing(0, x.magnitude());
        lemma_rounded_exact(x.magnitude(), x.size(), 1);
    }
}

/// A multiple of a count, over that count.
proof fn lemma_count_quotient(q: nat, b: nat)
    requires
        0 < b,
        q * b <= 2 * FRACTIONS,
        b <= 2 * FRACTIONS,
    ensures
        Binary64::of(q * b).quotient(Binary64::of(b)) == Binary64::of(q),
{
    let scale = unit_scale();
    lemma_pow2_pos(1074);
    lemma_count_exact(q * b);
    lemma_count_exact(b);
    lemma_count_positive(b);
    let d = b * scale;
    assert(d > 0) by (nonlinear_arith)
        requires
            d == b * scale,
            b > 0,
            scale > 0,
    ;
    let n = (q * b) * scale * scale;
    assert(n * 1 == (q * scale) * d) by (nonlinear_arith)
        requires
            n == (q * b) * scale * scale,
            d == b * scale,
    ;
    lemma_rounded_ratio(n, d, q * scale, 1);
}

/// A finite weight times a zero, four times over, earns nothing.
proof fn lemma_no_credit(
    earned: Binary64,
    kept: Binary64,
    overlap: Binary64,
    a: Binary64,
    b: Binary64,
    c: Binary64,
    host: Binary64,
    disk: Binary64,
)
    requires
        earned.product(kept).finite(),
        overlap.is_zero(),
        a.finite(),
        b.finite(),
        c.finite(),
        host.is_zero(),
        disk.is_zero(),
    ensures
        earned.product(kept).product(overlap).sum(a.product(host)).sum(b.product(disk)).sum(
            c.product(Binary64::of(0)),
        ).is_zero(),
{
    lemma_of_nothing();
    lemma_zero_product(earned.product(kept), overlap);
    lemma_zero_product(a, host);
    lemma_zero_product(b, disk);
    lemma_zero_product(c, Binary64::of(0));
    let w = earned.product(kept).product(overlap);
    let (x, y, z) = (a.product(host), b.product(disk), c.product(Binary64::of(0)));
    lemma_zeros(w, x);
    lemma_zeros(w.sum(x), y);
    lemma_zeros(w.sum(x).sum(y), z);
}

proof fn lemma_zeros(a: Binary64, b: Binary64)
    requires
        a.is_zero(),
        b.is_zero(),
    ensures
        a.sum(b).is_zero(),
{
    assert(units(0) == 0);
}

proof fn lemma_of_nothing()
    ensures
        Binary64::of(0) == signed(false, 0),
{
    assert(0 * unit_scale() == 0);
    lemma_rounded_zero(1);
}

/// A backlog costs its blocks, one for one: with nothing cached, a scale of one and no active
/// requests, an available worker costs the tokens of its backlog and of the prompt, in blocks, and
/// its decode load, as whole numbers. So `k` blocks more of backlog cost exactly `k` more, however
/// long the backlog is.
pub proof fn law_backlog_costs_its_blocks(
    model: CostModel,
    context: WorkerSelectionContext,
    floor: usize,
    cache: WorkerCacheInput,
    load: WorkerLoadInput,
    blocks: nat,
    decode: nat,
)
    requires
        context.tracks_prefill_tokens,
        context.has_tier_matches,
        load.available,
        context.block_size > 0,
        load.active_prefill_tokens + larger(context.prompt_tokens as int, cache.cached_tokens as int)
            == blocks * context.block_size,
        blocks * context.block_size <= 2 * FRACTIONS,
        blocks * context.block_size <= usize::MAX,
        load.decode_cost_blocks == Binary64::of(decode),
        blocks + decode <= 2 * FRACTIONS,
        load.active_requests == 0,
        model.config.prefill_load_scale == (Binary64 { bits: ONE }),
        model.config.decode_active_request_weight.finite(),
        cache.device_overlap_blocks.is_zero(),
        cache.host_overlap_blocks.is_zero(),
        cache.disk_overlap_blocks.is_zero(),
        cache.shared_beyond_device_blocks == 0,
        model.config.overlap_score_credit.product(model.decay(context, floor, load)).finite(),
        model.config.host_cache_hit_weight.finite(),
        model.config.disk_cache_hit_weight.finite(),
        model.config.shared_cache_multiplier.finite(),
    ensures
        model.cost_of(context, floor, cache, load, None) == Binary64::of(blocks + decode),
{
    let config = model.config;
    let one = Binary64 { bits: ONE };
    let block = context.block_size as nat;
    let excess = larger(load.active_prefill_tokens - floor, 0) as nat;
    law_tracked_price(
        model,
        context,
        floor,
        cache,
        load,
        None,
        blocks * block,
        excess,
        0,
    );
    assert(blocks <= blocks * block) by (nonlinear_arith)
        requires
            block >= 1,
    ;
    lemma_count_quotient(blocks, block);
    let kept = model.decay(context, floor, load);
    let credit = model.credit(context, floor, cache, load);
    lemma_no_credit(
        config.overlap_score_credit,
        kept,
        cache.device_overlap_blocks,
        config.host_cache_hit_weight,
        config.disk_cache_hit_weight,
        config.shared_cache_multiplier,
        cache.host_overlap_blocks,
        cache.disk_overlap_blocks,
    );
    assert(credit.is_zero());
    lemma_count_exact(blocks);
    lemma_count_exact(decode);
    lemma_count_exact(blocks + decode);
    lemma_with_zero(Binary64::of(blocks), credit);
    lemma_of_nothing();
    let requests = config.decode_active_request_weight.product(Binary64::of(0));
    lemma_zero_product(config.decode_active_request_weight, Binary64::of(0));
    lemma_times_one(Binary64::of(blocks));
    lemma_product_commutes(one, Binary64::of(blocks));
    lemma_counts_combine(blocks, decode);
    lemma_with_zero(Binary64::of(blocks + decode), requests);
    lemma_times_one(Binary64::of(blocks + decode));
    lemma_zero_blocks(blocks);
}

/// A count is zero or above zero.
proof fn lemma_zero_blocks(n: nat)
    requires
        n <= 2 * FRACTIONS,
    ensures
        !Binary64::of(n).is_nan(),
        Binary64::of(n).rank() <= 0 ==> Binary64::of(n) == (Binary64 { bits: 0 }),
{
    lemma_count_exact(n);
}

/// At any rate above zero, a backlog of one request above the floor leaves one over one plus the
/// rate of a worker's credit.
pub proof fn law_one_request_above_the_floor(
    model: CostModel,
    context: WorkerSelectionContext,
    floor: usize,
    load: WorkerLoadInput,
)
    requires
        context.tracks_prefill_tokens,
        model.config.overlap_score_credit_decay.finite(),
        model.config.overlap_score_credit_decay.rank() > 0,
        context.block_size > 0,
        context.request_blocks > 0,
        load.active_prefill_tokens - floor == context.request_blocks * context.block_size,
        context.request_blocks * context.block_size <= 2 * FRACTIONS,
    ensures
        ({
            let one = Binary64 { bits: ONE };
            model.decay(context, floor, load) == one.quotient(
                one.sum(model.config.overlap_score_credit_decay),
            )
        }),
{
    let one = Binary64 { bits: ONE };
    let rate = model.config.overlap_score_credit_decay;
    let (block, length) = (context.block_size as nat, context.request_blocks as nat);
    lemma_kept(model, context, floor, load, length * block);
    assert(length <= length * block && block <= length * block) by (nonlinear_arith)
        requires
            block >= 1,
            length >= 1,
    ;
    lemma_count_quotient(length, block);
    assert(1 * length == length);
    lemma_count_quotient(1, length);
    lemma_one();
    lemma_rounded_exact(ONE as int, unit_scale(), 1);
    assert(1 * unit_scale() == unit_scale());
    assert(Binary64::of(1) == one);
    lemma_times_one(rate);
}

/// The word after that of one.
pub const ABOVE_ONE: u64 = 0x3ff0_0000_0000_0001;

/// The word of the distance from one to the next number.
pub const ONE_STEP: u64 = 0x3cb0_0000_0000_0000;

/// One over a number above one is below one.
proof fn lemma_below_one(divisor: Binary64)
    requires
        ordered(Binary64 { bits: ABOVE_ONE }, divisor),
    ensures
        (Binary64 { bits: ONE }).quotient(divisor).below(Binary64 { bits: ONE }),
{
    let one = Binary64 { bits: ONE };
    let above = Binary64 { bits: ABOVE_ONE };
    let scale = unit_scale();
    lemma_one();
    lemma_quotient_reversed(one, above, divisor);
    let u = pow2(1021);
    lemma2_to64();
    vstd::arithmetic::power2::lemma2_to64_rest();
    lemma_pow2_pos(1021);
    lemma_pow2_adds(53, 1021);
    lemma_pow2_adds(1, 1021);
    assert(scale == 0x20_0000_0000_0000 * u);
    lemma_units_parts(1022, (FRACTIONS + 1) as nat);
    assert(1022 * FRACTIONS + (FRACTIONS + 1) == ABOVE_ONE);
    assert(pow2(1022) == 2 * u);
    assert(above.size() == (FRACTIONS + 1) * pow2(1022));
    lemma_units_parts(1021, (2 * FRACTIONS - 1) as nat);
    assert(1021 * FRACTIONS + (2 * FRACTIONS - 1) == ONE - 1);
    assert(units(ONE - 1) == (2 * FRACTIONS - 1) * u);
    let n = scale * scale;
    let d = above.size();
    let k = rounded(n, d);
    assert(d == 0x20_0000_0000_0002 * u) by (nonlinear_arith)
        requires
            d == 0x10_0000_0000_0001 * (2 * u),
    ;
    lemma_rounded(n, d);
    lemma_rounded_range(n, d);
    if k >= ONE {
        if k > ONE {
            lemma_units_increasing(ONE as int, k);
            lemma_units_increasing(ONE - 1, k - 1);
        }
        let low = units(k - 1) + units(k);
        assert(low >= (0x1f_ffff_ffff_ffff * u) + (0x20_0000_0000_0000 * u));
        assert(low * d > 2 * n) by (nonlinear_arith)
            requires
                low >= (0x1f_ffff_ffff_ffff * u) + (0x20_0000_0000_0000 * u),
                d == 0x20_0000_0000_0002 * u,
                n == (0x20_0000_0000_0000 * u) * (0x20_0000_0000_0000 * u),
                u > 0,
        {
            let v = u * u;
            assert(v > 0);
            assert(2 * n == 2 * (0x20_0000_0000_0000 * 0x20_0000_0000_0000) * v);
            assert((0x3f_ffff_ffff_ffff * u) * d == (0x3f_ffff_ffff_ffff * 0x20_0000_0000_0002) * v);
            assert(low * d >= (0x3f_ffff_ffff_ffff * u) * d);
        }
    }
}

/// Credit decays at every rate above zero: wherever the rate times the backlog above the floor, in
/// lengths of the request, is at least the step from one to the next number, a worker keeps strictly
/// less than its full credit.
pub proof fn law_every_rate_decays(
    model: CostModel,
    context: WorkerSelectionContext,
    floor: usize,
    load: WorkerLoadInput,
    excess: nat,
)
    requires
        context.tracks_prefill_tokens,
        model.config.overlap_score_credit_decay.rank() > 0,
        excess == larger(load.active_prefill_tokens - floor, 0),
        ordered(
            Binary64 { bits: ONE_STEP },
            model.config.overlap_score_credit_decay.product(
                Binary64::of(excess).quotient(Binary64::of(context.block_size as nat)).quotient(
                    Binary64::of(context.request_blocks as nat),
                ),
            ),
        ),
    ensures
        model.decay(context, floor, load).below(Binary64 { bits: ONE }),
{
    let one = Binary64 { bits: ONE };
    let step = Binary64 { bits: ONE_STEP };
    let rate = model.config.overlap_score_credit_decay;
    let added = rate.product(
        Binary64::of(excess).quotient(Binary64::of(context.block_size as nat)).quotient(
            Binary64::of(context.request_blocks as nat),
        ),
    );
    assert(!rate.is_nan());
    lemma_kept(model, context, floor, load, excess);
    lemma_step_above_one();
    lemma_sum_commutes(one, step);
    lemma_sum_commutes(one, added);
    lemma_one();
    lemma_rounded_range((one.value() + added.value()) as nat, 1);
    lemma_sum_ordered(step, added, one);
    lemma_below_one(one.sum(added));
}

proof fn lemma_step_above_one()
    ensures
        (Binary64 { bits: ONE }).sum(Binary64 { bits: ONE_STEP }) == (Binary64 { bits: ABOVE_ONE }),
{
    lemma_one();
    lemma2_to64();
    vstd::arithmetic::power2::lemma2_to64_rest();
    lemma_units_parts(970, FRACTIONS as nat);
    assert(970 * FRACTIONS + FRACTIONS == ONE_STEP);
    lemma_pow2_adds(52, 970);
    lemma_pow2_adds(52, 1022);
    lemma_units_parts(1022, (FRACTIONS + 1) as nat);
    assert(1022 * FRACTIONS + (FRACTIONS + 1) == ABOVE_ONE);
    let n = unit_scale() + pow2(1022);
    assert((FRACTIONS + 1) * pow2(1022) == n) by (nonlinear_arith)
        requires
            n == FRACTIONS * pow2(1022) + pow2(1022),
    ;
    lemma_rounded_exact(ABOVE_ONE as int, n, 1);
    let (one, step) = (Binary64 { bits: ONE }, Binary64 { bits: ONE_STEP });
    assert(step.magnitude() == ONE_STEP);
    assert(step.size() == pow2(1022));
    assert(one.size() == unit_scale());
    assert(one.value() + step.value() == n);
    lemma_pow2_pos(1022);
}

} // verus!
