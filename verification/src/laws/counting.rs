//! What is counted, and what can be.

use vstd::prelude::*;

use crate::binary64::{unit_scale, Binary64};
use crate::cost::{countable, hits_countable, tokens_countable};
use crate::inputs::{
    hits_at_or_beyond, SharedCacheHits, WorkerCacheInput, WorkerCandidate, WorkerInputView,
    WorkerLoadInput, WorkerSelectionContext, WorkerSelectionPolicyError,
};
use crate::picker::DefaultPicker;
use crate::scorer::{prepare_result, DefaultScorer, Scorer};

verus! {

/// One more range adds its positions from the start on, and none where it ends before.
pub proof fn law_one_more_range(ranges: Seq<(u32, u32)>, start: u32, end: u32, from: int)
    requires
        start <= end,
        0 <= from,
    ensures
        hits_at_or_beyond(Seq::empty(), from) == 0,
        end <= from ==> hits_at_or_beyond(ranges.push((start, end)), from) == hits_at_or_beyond(
            ranges,
            from,
        ),
        start >= from ==> hits_at_or_beyond(ranges.push((start, end)), from) == hits_at_or_beyond(
            ranges,
            from,
        ) + (end - start),
        start < from < end ==> hits_at_or_beyond(ranges.push((start, end)), from)
            == hits_at_or_beyond(ranges, from) + (end - from),
{
    assert(ranges.push((start, end)).drop_last() =~= ranges);
}

/// What can be counted: hits where no range beyond the position is reversed and they fit in 32 bits,
/// and tokens where backlog and uncached prompt fit in a word. Neither is asked where it is not read.
pub proof fn law_what_can_be_counted(
    context: WorkerSelectionContext,
    cache: WorkerCacheInput,
    load: WorkerLoadInput,
    hits: SharedCacheHits,
    from: int,
)
    ensures
        hits.counts_from(from) <==> {
            &&& forall|i: int|
                0 <= i < hits.ranges@.len() ==> (#[trigger] hits.ranges@[i]).1 <= from
                    || hits.ranges@[i].0 <= hits.ranges@[i].1
            &&& hits_at_or_beyond(hits.ranges@, from) <= 0xffff_ffff
        },
        !context.tracks_prefill_tokens ==> tokens_countable(context, cache, load),
        !load.available ==> tokens_countable(context, cache, load),
        context.prompt_tokens <= cache.cached_tokens ==> tokens_countable(context, cache, load),
        context.tracks_prefill_tokens && load.available && context.prompt_tokens
            > cache.cached_tokens ==> (tokens_countable(context, cache, load) <==> (
        load.active_prefill_tokens + context.prompt_tokens - cache.cached_tokens <= usize::MAX)),
        context.has_tier_matches ==> hits_countable(context, cache),
        context.shared_cache_hits is None ==> hits_countable(context, cache),
        !context.has_tier_matches && context.shared_cache_hits is Some ==> (hits_countable(
            context,
            cache,
        ) <==> context.shared_cache_hits->0.counts_from(cache.estimated_overlap.whole() as int)),
        countable(context, cache, load) <==> tokens_countable(context, cache, load)
            && hits_countable(context, cache),
{
}

/// A picker can decide on every selection with columns of one length whose rows can be counted. It
/// can also decide where a row cannot, if a row before it has a cost that is not finite.
pub proof fn law_what_can_be_decided(
    picker: DefaultPicker,
    context: WorkerSelectionContext,
    input: WorkerInputView,
)
    requires
        input.cache matches Some(cache) ==> cache@.len() == input.candidates@.len(),
        input.load matches Some(load) ==> load@.len() == input.candidates@.len(),
    ensures
        input.cache is None || input.load is None ==> picker.decidable(context, input),
        input.cache is Some && input.load is Some ==> (picker.decidable(context, input) <==> forall|
            i: int,
        |
            0 <= i < input.candidates@.len() && !#[trigger] countable(
                context,
                input.cache->0@[i],
                input.load->0@[i],
            ) ==> exists|j: int|
                0 <= j < i && !(#[trigger] picker.costs(
                    context,
                    input.candidates@,
                    input.cache->0@,
                    input.load->0@,
                )[j]).finite()),
{
}

/// A scorer can score every candidate that lacks an input, and otherwise every one whose tokens can
/// be counted, and its hits where their weight is not zero.
pub proof fn law_what_can_be_scored<const REQUEST_COST: bool, const SHARED_CREDIT: bool>(
    scorer: DefaultScorer<REQUEST_COST, SHARED_CREDIT>,
    context: WorkerSelectionContext,
    candidate: WorkerCandidate,
)
    ensures
        candidate.cache is None || candidate.load is None ==> scorer.scorable(context, candidate),
        candidate.cache is Some && candidate.load is Some ==> (scorer.scorable(context, candidate)
            <==> if SHARED_CREDIT {
            countable(context, candidate.cache->0, candidate.load->0)
        } else {
            tokens_countable(context, candidate.cache->0, candidate.load->0)
        }),
{
}

/// Preparing fails exactly where credit decays, at any rate above zero, and the load of some
/// candidate is missing.
pub proof fn law_preparing_needs_every_load(
    scorer: Scorer,
    context: WorkerSelectionContext,
    candidates: Seq<WorkerCandidate>,
    rate: Binary64,
)
    requires
        rate == match scorer {
            Scorer::Plain(s) => s.overlap_score_credit_decay,
            Scorer::Shared(s) => s.overlap_score_credit_decay,
            Scorer::Requests(s) => s.overlap_score_credit_decay,
            Scorer::Both(s) => s.overlap_score_credit_decay,
        },
    ensures
        prepare_result(scorer.preparation(context, 0).use_decay, candidates) is Err <==> {
            &&& context.tracks_prefill_tokens
            &&& !rate.is_nan() && rate.rank() > 0
            &&& exists|i: int| 0 <= i < candidates.len() && (#[trigger] candidates[i]).load is None
        },
        prepare_result(scorer.preparation(context, 0).use_decay, candidates) matches Err(error)
            ==> error == WorkerSelectionPolicyError::LoadInputUnavailable,
{
}

/// The whole number of a number without a minus sign is the nearest one, a half going up, or the
/// largest that fits. Below zero, and for what is not a number, it is zero.
pub proof fn law_whole_numbers(x: Binary64)
    ensures
        x.negative() || x.is_nan() ==> x.whole() == 0,
        !x.negative() && x.is_infinity() ==> x.whole() == u32::MAX,
        !x.negative() && x.finite() && x.whole() < u32::MAX ==> {
            &&& 2 * x.size() < (2 * x.whole() + 1) * unit_scale()
            &&& x.whole() > 0 ==> (2 * x.whole() - 1) * unit_scale() <= 2 * x.size()
        },
        !x.negative() && x.finite() && x.whole() == u32::MAX ==> (2 * u32::MAX - 1) * unit_scale()
            <= 2 * x.size(),
{
    let scale = unit_scale() as int;
    vstd::arithmetic::power2::lemma_pow2_pos(1074);
    let n = 2 * x.size() + scale;
    let q = n / (2 * scale);
    let rem = n % (2 * scale);
    assert(n == q * (2 * scale) + rem && 0 <= rem < 2 * scale && q >= 0) by (nonlinear_arith)
        requires
            q == n / (2 * scale),
            rem == n % (2 * scale),
            scale > 0,
            n >= 0,
    ;
    assert(q * (2 * scale) == (2 * q) * scale) by (nonlinear_arith);
    assert((2 * q + 1) * scale == (2 * q) * scale + scale) by (nonlinear_arith);
    assert((2 * q - 1) * scale == (2 * q) * scale - scale) by (nonlinear_arith);
    if q > u32::MAX {
        let m = 2 * u32::MAX as int - 1;
        assert(m * scale <= (2 * q - 1) * scale) by (nonlinear_arith)
            requires
                m <= 2 * q - 1,
                scale > 0,
        ;
    }
}

} // verus!
