//! Cache and load cost calculation, with what all workers of a selection share worked out once.

use vstd::arithmetic::power2::pow2;
use vstd::prelude::*;

use crate::binary64::rounding::is_power_of_two;
use crate::binary64::{signed, Binary64, ONE};
use crate::config::{is_decode_label, KvRouterConfig};
use crate::cost::{
    device_overlap, device_overlap_blocks, excess_over, hits_count, hits_countable, prefill_tokens,
    raw_tokens, shared_blocks, shared_hit_blocks, tokens_count, tokens_countable,
};
use crate::inputs::{
    WorkerCandidate, WorkerInputs, WorkerSelectionContext, WorkerSelectionPolicyError,
};

verus! {

/// A count to divide by. A power of two has an exact reciprocal, so dividing by it is done by
/// multiplication; any other count is divided by.
#[derive(Clone, Copy, Debug, PartialEq, Eq, Structural)]
pub struct IntegerDivisor {
    pub value: Binary64,
    pub reciprocal: Option<Binary64>,
}

impl IntegerDivisor {
    /// The divisor for a count.
    pub open spec fn for_count(count: u64) -> Self {
        let value = Binary64::of(count as nat);
        IntegerDivisor {
            value,
            reciprocal: if exists|s: nat| s < 64 && count == #[trigger] pow2(s) {
                Some((Binary64 { bits: ONE }).quotient(value))
            } else {
                None
            },
        }
    }

    /// What a number divided by this is.
    pub open spec fn divided(self, numerator: Binary64) -> Binary64 {
        match self.reciprocal {
            Some(reciprocal) => numerator.product(reciprocal),
            None => numerator.quotient(self.value),
        }
    }

    pub fn new(value: u64) -> (r: Self)
        ensures
            r == IntegerDivisor::for_count(value),
    {
        let number = Binary64::from_count(value);
        IntegerDivisor {
            value: number,
            reciprocal: if is_power_of_two(value) {
                Some(Binary64::one().div(number))
            } else {
                None
            },
        }
    }

    /// Divides a number.
    pub fn divide(self, numerator: Binary64) -> (r: Binary64)
        ensures
            r == self.divided(numerator),
    {
        match self.reciprocal {
            Some(reciprocal) => numerator.mul(reciprocal),
            None => numerator.div(self.value),
        }
    }
}

impl Default for IntegerDivisor {
    fn default() -> (r: Self)
        ensures
            r == IntegerDivisor::for_count(1),
    {
        IntegerDivisor::new(1)
    }
}

/// Values shared by every worker score in one selection.
#[derive(Clone, Copy, Debug, PartialEq, Eq, Structural)]
pub struct PreparedRequest {
    /// The least number of prefill tokens among the candidates, where credit decays.
    pub min_prefill: usize,
    pub block_size: IntegerDivisor,
    pub request_blocks: IntegerDivisor,
    pub overlap_credit: Binary64,
    pub use_decay: bool,
    pub subtract_from_decode: bool,
}

/// What is prepared before the first selection.
pub open spec fn unprepared() -> PreparedRequest {
    PreparedRequest {
        min_prefill: 0,
        block_size: IntegerDivisor::for_count(1),
        request_blocks: IntegerDivisor::for_count(1),
        overlap_credit: signed(false, 0),
        use_decay: false,
        subtract_from_decode: false,
    }
}

impl Default for PreparedRequest {
    fn default() -> (r: Self)
        ensures
            r == unprepared(),
    {
        PreparedRequest {
            min_prefill: 0,
            block_size: IntegerDivisor::default(),
            request_blocks: IntegerDivisor::default(),
            overlap_credit: Binary64::zero(),
            use_decay: false,
            subtract_from_decode: false,
        }
    }
}

/// The least number of prefill tokens among candidates that have a load, and the largest
/// `usize` for none.
pub open spec fn least_candidate_prefill(candidates: Seq<WorkerCandidate>) -> usize
    decreases candidates.len(),
{
    if candidates.len() == 0 {
        usize::MAX
    } else {
        let least = least_candidate_prefill(candidates.drop_last());
        match candidates.last().load {
            Some(load) if load.active_prefill_tokens < least => load.active_prefill_tokens,
            _ => least,
        }
    }
}

/// Whether the load of some candidate is unknown.
pub open spec fn misses_load(candidates: Seq<WorkerCandidate>) -> bool {
    exists|i: int| 0 <= i < candidates.len() && (#[trigger] candidates[i]).load is None
}

/// What preparing returns: where credit decays, every load has to be known.
pub open spec fn prepare_result(
    use_decay: bool,
    candidates: Seq<WorkerCandidate>,
) -> Result<(), WorkerSelectionPolicyError> {
    if use_decay && misses_load(candidates) {
        Err(WorkerSelectionPolicyError::LoadInputUnavailable)
    } else {
        Ok(())
    }
}

/// The prefill load against which decay is measured once prepared.
pub open spec fn prepared_floor(use_decay: bool, candidates: Seq<WorkerCandidate>) -> usize {
    if use_decay && !misses_load(candidates) {
        least_candidate_prefill(candidates)
    } else {
        0
    }
}

/// A scorer specialised by whether active requests cost anything and whether shared-cache hits
/// earn anything.
#[derive(Debug)]
pub struct DefaultScorer<const REQUEST_COST: bool, const SHARED_CREDIT: bool> {
    pub overlap_score_credit: Binary64,
    pub overlap_score_credit_decay: Binary64,
    pub host_cache_hit_weight: Binary64,
    pub disk_cache_hit_weight: Binary64,
    pub shared_cache_multiplier: Binary64,
    pub decode_active_request_weight: Binary64,
    pub prefill_load_scale: Binary64,
    pub is_decode: bool,
    pub plain_decode: bool,
    pub prepared: PreparedRequest,
}

impl<const REQUEST_COST: bool, const SHARED_CREDIT: bool> DefaultScorer<
    REQUEST_COST,
    SHARED_CREDIT,
> {
    /// The scorer for some settings, before the first selection.
    pub open spec fn of(config: KvRouterConfig, is_decode: bool, plain_decode: bool) -> Self {
        DefaultScorer {
            overlap_score_credit: config.overlap_score_credit,
            overlap_score_credit_decay: config.overlap_score_credit_decay,
            host_cache_hit_weight: config.host_cache_hit_weight,
            disk_cache_hit_weight: config.disk_cache_hit_weight,
            shared_cache_multiplier: config.shared_cache_multiplier,
            decode_active_request_weight: config.decode_active_request_weight,
            prefill_load_scale: config.prefill_load_scale,
            is_decode,
            plain_decode,
            prepared: unprepared(),
        }
    }

    pub fn new(config: &KvRouterConfig, worker_label: &'static str, plain_decode: bool) -> (r: Self)
        ensures
            r == Self::of(*config, worker_label@ == "decode"@, plain_decode),
    {
        DefaultScorer {
            overlap_score_credit: config.overlap_score_credit,
            overlap_score_credit_decay: config.overlap_score_credit_decay,
            host_cache_hit_weight: config.host_cache_hit_weight,
            disk_cache_hit_weight: config.disk_cache_hit_weight,
            shared_cache_multiplier: config.shared_cache_multiplier,
            decode_active_request_weight: config.decode_active_request_weight,
            prefill_load_scale: config.prefill_load_scale,
            is_decode: is_decode_label(worker_label),
            plain_decode,
            prepared: PreparedRequest::default(),
        }
    }

    /// The worker signals that this scorer reads.
    pub fn required_worker_inputs(&self) -> (r: WorkerInputs)
        ensures
            r == (WorkerInputs { cache: true, load: true, preferred_taint: true }),
    {
        WorkerInputs { cache: true, load: true, preferred_taint: true }
    }

    /// The credit for a block of device overlap in a selection.
    pub open spec fn overlap_credit(self, context: WorkerSelectionContext) -> Binary64 {
        if self.plain_decode && !context.tracks_prefill_tokens {
            signed(false, 0)
        } else {
            self.overlap_score_credit
        }
    }

    /// What is prepared for a selection, but for the least prefill load.
    pub open spec fn preparation(
        self,
        context: WorkerSelectionContext,
        min_prefill: usize,
    ) -> PreparedRequest {
        PreparedRequest {
            min_prefill,
            block_size: IntegerDivisor::for_count(context.block_size as u64),
            request_blocks: IntegerDivisor::for_count(context.request_blocks),
            overlap_credit: self.overlap_credit(context),
            use_decay: context.tracks_prefill_tokens && signed(false, 0).below(
                self.overlap_score_credit_decay,
            ),
            subtract_from_decode: self.is_decode && !context.tracks_prefill_tokens && signed(
                false,
                0,
            ).below(self.overlap_credit(context)),
        }
    }

    /// Prepares for a selection among the candidates that are left.
    pub fn prepare(
        &mut self,
        context: &WorkerSelectionContext,
        candidates: &Vec<WorkerCandidate>,
    ) -> (r: Result<(), WorkerSelectionPolicyError>)
        ensures
            r == prepare_result(old(self).preparation(*context, 0).use_decay, candidates@),
            *final(self) == (DefaultScorer {
                prepared: old(self).preparation(
                    *context,
                    prepared_floor(old(self).preparation(*context, 0).use_decay, candidates@),
                ),
                ..*old(self)
            }),
    {
        // Plain disaggregated decode is load-only. Conditional decode retains cache credit.
        let overlap_credit = if self.plain_decode && !context.tracks_prefill_tokens {
            Binary64::zero()
        } else {
            self.overlap_score_credit
        };
        let use_decay = context.tracks_prefill_tokens && Binary64::zero().lt(
            self.overlap_score_credit_decay,
        );
        let subtract_from_decode = self.is_decode && !context.tracks_prefill_tokens
            && Binary64::zero().lt(overlap_credit);
        self.prepared =
        PreparedRequest {
            min_prefill: 0,
            block_size: IntegerDivisor::new(context.block_size as u64),
            request_blocks: IntegerDivisor::new(context.request_blocks),
            overlap_credit,
            use_decay,
            subtract_from_decode,
        };
        if use_decay {
            let mut minimum: usize = usize::MAX;
            let mut i: usize = 0;
            while i < candidates.len()
                invariant
                    i <= candidates@.len(),
                    minimum == least_candidate_prefill(candidates@.take(i as int)),
                    forall|j: int| 0 <= j < i ==> (#[trigger] candidates@[j]).load is Some,
                    use_decay,
                    *self == (DefaultScorer {
                        prepared: old(self).preparation(*context, 0),
                        ..*old(self)
                    }),
                    self.prepared.use_decay,
                decreases candidates@.len() - i,
            {
                assert(candidates@.take(i + 1).drop_last() =~= candidates@.take(i as int));
                match candidates[i].load {
                    Some(load) => {
                        if load.active_prefill_tokens < minimum {
                            minimum = load.active_prefill_tokens;
                        }
                    },
                    None => {
                        assert(candidates@[i as int].load is None);
                        return Err(WorkerSelectionPolicyError::LoadInputUnavailable);
                    },
                }
                i = i + 1;
            }
            assert(candidates@.take(i as int) =~= candidates@);
            self.prepared.min_prefill = minimum;
        }
        Ok(())
    }

    /// The factor that is left of overlap credit.
    pub open spec fn decay(self, active_prefill_tokens: usize) -> Binary64 {
        let one = Binary64 { bits: ONE };
        if self.prepared.use_decay {
            let excess = self.prepared.block_size.divided(
                Binary64::of(
                    excess_over(active_prefill_tokens as int, self.prepared.min_prefill as int),
                ),
            );
            one.quotient(
                one.sum(
                    self.overlap_score_credit_decay.product(
                        self.prepared.request_blocks.divided(excess),
                    ),
                ),
            )
        } else {
            one
        }
    }

    /// The score of a candidate whose cache and load are known.
    pub open spec fn score_of(
        self,
        context: WorkerSelectionContext,
        candidate: WorkerCandidate,
    ) -> Binary64 {
        let cache = candidate.cache->0;
        let load = candidate.load->0;
        let shared_credit = if SHARED_CREDIT {
            self.shared_cache_multiplier.product(
                Binary64::of(shared_blocks(context, cache) as nat),
            )
        } else {
            self.shared_cache_multiplier
        };
        let request_cost = if REQUEST_COST {
            self.decode_active_request_weight.product(Binary64::of(load.active_requests as nat))
        } else {
            self.decode_active_request_weight
        };
        let credit = self.prepared.overlap_credit.product(
            self.decay(load.active_prefill_tokens),
        ).product(device_overlap(context, cache)).sum(
            self.host_cache_hit_weight.product(cache.host_overlap_blocks),
        ).sum(self.disk_cache_hit_weight.product(cache.disk_overlap_blocks)).sum(shared_credit);
        let logit = if self.prepared.subtract_from_decode {
            load.decode_cost_blocks.difference(credit).at_least_zero().sum(request_cost)
        } else {
            let prefill = self.prepared.block_size.divided(
                Binary64::of(raw_tokens(context, cache, load) as nat),
            ).difference(credit).at_least_zero();
            self.prefill_load_scale.product(prefill).sum(load.decode_cost_blocks).sum(request_cost)
        };
        logit.product(
            match candidate.preferred_taint_multiplier {
                Some(multiplier) => multiplier,
                None => Binary64 { bits: ONE },
            },
        )
    }

    /// What goes into the score of a candidate can be counted. Shared-cache hits go into it only
    /// where they earn something.
    pub open spec fn scorable(
        self,
        context: WorkerSelectionContext,
        candidate: WorkerCandidate,
    ) -> bool {
        candidate.cache is Some && candidate.load is Some ==> {
            &&& tokens_countable(context, candidate.cache->0, candidate.load->0)
            &&& SHARED_CREDIT ==> hits_countable(context, candidate.cache->0)
        }
    }

    /// Whether what goes into the score of a candidate can be counted.
    pub fn can_score(&self, context: &WorkerSelectionContext, candidate: &WorkerCandidate) -> (r:
        bool)
        ensures
            r == self.scorable(*context, *candidate),
    {
        match (&candidate.cache, &candidate.load) {
            (Some(cache), Some(load)) => {
                tokens_count(context, cache, load) && (!SHARED_CREDIT || hits_count(context, cache))
            },
            _ => true,
        }
    }

    /// Scores a candidate.
    pub fn score(
        &self,
        context: &WorkerSelectionContext,
        candidate: &WorkerCandidate,
    ) -> (r: Result<Binary64, WorkerSelectionPolicyError>)
        requires
            self.scorable(*context, *candidate),
        ensures
            r == if candidate.cache is None {
                Err::<Binary64, _>(WorkerSelectionPolicyError::CacheInputUnavailable)
            } else if candidate.load is None {
                Err::<Binary64, _>(WorkerSelectionPolicyError::LoadInputUnavailable)
            } else {
                Ok::<Binary64, WorkerSelectionPolicyError>(self.score_of(*context, *candidate))
            },
    {
        let cache = match &candidate.cache {
            Some(cache) => cache,
            None => {
                return Err(WorkerSelectionPolicyError::CacheInputUnavailable);
            },
        };
        let load = match &candidate.load {
            Some(load) => load,
            None => {
                return Err(WorkerSelectionPolicyError::LoadInputUnavailable);
            },
        };
        let device = device_overlap_blocks(context, cache);
        let shared_credit = if SHARED_CREDIT {
            let shared = shared_hit_blocks(context, cache);
            self.shared_cache_multiplier.mul(Binary64::from_count(shared as u64))
        } else {
            // Preserve signed zero when the configured weight is -0.0.
            self.shared_cache_multiplier
        };
        let decay = if self.prepared.use_decay {
            let above: usize = load.active_prefill_tokens.saturating_sub(
                self.prepared.min_prefill,
            );
            let excess = self.prepared.block_size.divide(Binary64::from_count(above as u64));
            Binary64::one().div(
                Binary64::one().add(
                    self.overlap_score_credit_decay.mul(
                        self.prepared.request_blocks.divide(excess),
                    ),
                ),
            )
        } else {
            Binary64::one()
        };
        let credit = self.prepared.overlap_credit.mul(decay).mul(device).add(
            self.host_cache_hit_weight.mul(cache.host_overlap_blocks),
        ).add(self.disk_cache_hit_weight.mul(cache.disk_overlap_blocks)).add(shared_credit);
        let request_cost = if REQUEST_COST {
            self.decode_active_request_weight.mul(
                Binary64::from_count(load.active_requests as u64),
            )
        } else {
            self.decode_active_request_weight
        };
        let logit = if self.prepared.subtract_from_decode {
            load.decode_cost_blocks.sub(credit).max_zero().add(request_cost)
        } else {
            let raw = prefill_tokens(context, cache, load);
            let prefill = self.prepared.block_size.divide(Binary64::from_count(raw as u64)).sub(
                credit,
            ).max_zero();
            self.prefill_load_scale.mul(prefill).add(load.decode_cost_blocks).add(request_cost)
        };
        let multiplier = match candidate.preferred_taint_multiplier {
            Some(multiplier) => multiplier,
            None => Binary64::one(),
        };
        Ok(logit.mul(multiplier))
    }
}

/// The scorer for some settings: optional terms are resolved once, so that a weight of zero
/// costs nothing in each score.
#[derive(Debug)]
pub enum Scorer {
    Plain(DefaultScorer<false, false>),
    Shared(DefaultScorer<false, true>),
    Requests(DefaultScorer<true, false>),
    Both(DefaultScorer<true, true>),
}

impl Scorer {
    /// The scorer for some settings, before the first selection.
    pub open spec fn of(config: KvRouterConfig, is_decode: bool, plain_decode: bool) -> Self {
        let requests = !config.decode_active_request_weight.equals(signed(false, 0));
        let shared = !config.shared_cache_multiplier.equals(signed(false, 0));
        match (requests, shared) {
            (false, false) => Scorer::Plain(DefaultScorer::of(config, is_decode, plain_decode)),
            (false, true) => Scorer::Shared(DefaultScorer::of(config, is_decode, plain_decode)),
            (true, false) => Scorer::Requests(DefaultScorer::of(config, is_decode, plain_decode)),
            (true, true) => Scorer::Both(DefaultScorer::of(config, is_decode, plain_decode)),
        }
    }

    /// What is prepared for a selection, but for the least prefill load.
    pub open spec fn preparation(
        self,
        context: WorkerSelectionContext,
        min_prefill: usize,
    ) -> PreparedRequest {
        match self {
            Scorer::Plain(scorer) => scorer.preparation(context, min_prefill),
            Scorer::Shared(scorer) => scorer.preparation(context, min_prefill),
            Scorer::Requests(scorer) => scorer.preparation(context, min_prefill),
            Scorer::Both(scorer) => scorer.preparation(context, min_prefill),
        }
    }

    /// This scorer with something else prepared.
    pub open spec fn with(self, prepared: PreparedRequest) -> Self {
        match self {
            Scorer::Plain(scorer) => Scorer::Plain(DefaultScorer { prepared, ..scorer }),
            Scorer::Shared(scorer) => Scorer::Shared(DefaultScorer { prepared, ..scorer }),
            Scorer::Requests(scorer) => Scorer::Requests(DefaultScorer { prepared, ..scorer }),
            Scorer::Both(scorer) => Scorer::Both(DefaultScorer { prepared, ..scorer }),
        }
    }

    /// This scorer prepared for a selection.
    pub open spec fn prepared_for(
        self,
        context: WorkerSelectionContext,
        candidates: Seq<WorkerCandidate>,
    ) -> Self {
        let use_decay = self.preparation(context, 0).use_decay;
        self.with(self.preparation(context, prepared_floor(use_decay, candidates)))
    }

    /// The score of a candidate whose cache and load are known.
    pub open spec fn score_of(
        self,
        context: WorkerSelectionContext,
        candidate: WorkerCandidate,
    ) -> Binary64 {
        match self {
            Scorer::Plain(scorer) => scorer.score_of(context, candidate),
            Scorer::Shared(scorer) => scorer.score_of(context, candidate),
            Scorer::Requests(scorer) => scorer.score_of(context, candidate),
            Scorer::Both(scorer) => scorer.score_of(context, candidate),
        }
    }

    /// The worker signals that this scorer reads.
    pub fn required_worker_inputs(&self) -> (r: WorkerInputs)
        ensures
            r == (WorkerInputs { cache: true, load: true, preferred_taint: true }),
    {
        match self {
            Scorer::Plain(scorer) => scorer.required_worker_inputs(),
            Scorer::Shared(scorer) => scorer.required_worker_inputs(),
            Scorer::Requests(scorer) => scorer.required_worker_inputs(),
            Scorer::Both(scorer) => scorer.required_worker_inputs(),
        }
    }

    /// Prepares for a selection among the candidates that are left.
    pub fn prepare(
        &mut self,
        context: &WorkerSelectionContext,
        candidates: &Vec<WorkerCandidate>,
    ) -> (r: Result<(), WorkerSelectionPolicyError>)
        ensures
            r == prepare_result(old(self).preparation(*context, 0).use_decay, candidates@),
            *final(self) == old(self).prepared_for(*context, candidates@),
    {
        match self {
            Scorer::Plain(scorer) => scorer.prepare(context, candidates),
            Scorer::Shared(scorer) => scorer.prepare(context, candidates),
            Scorer::Requests(scorer) => scorer.prepare(context, candidates),
            Scorer::Both(scorer) => scorer.prepare(context, candidates),
        }
    }

    /// What goes into the score of a candidate can be counted.
    pub open spec fn scorable(
        self,
        context: WorkerSelectionContext,
        candidate: WorkerCandidate,
    ) -> bool {
        match self {
            Scorer::Plain(scorer) => scorer.scorable(context, candidate),
            Scorer::Shared(scorer) => scorer.scorable(context, candidate),
            Scorer::Requests(scorer) => scorer.scorable(context, candidate),
            Scorer::Both(scorer) => scorer.scorable(context, candidate),
        }
    }

    /// Whether what goes into the score of a candidate can be counted.
    pub fn can_score(&self, context: &WorkerSelectionContext, candidate: &WorkerCandidate) -> (r:
        bool)
        ensures
            r == self.scorable(*context, *candidate),
    {
        match self {
            Scorer::Plain(scorer) => scorer.can_score(context, candidate),
            Scorer::Shared(scorer) => scorer.can_score(context, candidate),
            Scorer::Requests(scorer) => scorer.can_score(context, candidate),
            Scorer::Both(scorer) => scorer.can_score(context, candidate),
        }
    }

    /// Scores a candidate.
    pub fn score(
        &self,
        context: &WorkerSelectionContext,
        candidate: &WorkerCandidate,
    ) -> (r: Result<Binary64, WorkerSelectionPolicyError>)
        requires
            self.scorable(*context, *candidate),
        ensures
            r == if candidate.cache is None {
                Err::<Binary64, _>(WorkerSelectionPolicyError::CacheInputUnavailable)
            } else if candidate.load is None {
                Err::<Binary64, _>(WorkerSelectionPolicyError::LoadInputUnavailable)
            } else {
                Ok::<Binary64, WorkerSelectionPolicyError>(self.score_of(*context, *candidate))
            },
    {
        match self {
            Scorer::Plain(scorer) => scorer.score(context, candidate),
            Scorer::Shared(scorer) => scorer.score(context, candidate),
            Scorer::Requests(scorer) => scorer.score(context, candidate),
            Scorer::Both(scorer) => scorer.score(context, candidate),
        }
    }
}

/// Builds the scorer for some settings.
pub fn build(config: &KvRouterConfig, worker_label: &'static str, plain_decode: bool) -> (r: Scorer)
    ensures
        r == Scorer::of(*config, worker_label@ == "decode"@, plain_decode),
{
    let requests = !config.decode_active_request_weight.same(Binary64::zero());
    let shared = !config.shared_cache_multiplier.same(Binary64::zero());
    match (requests, shared) {
        (false, false) => Scorer::Plain(DefaultScorer::new(config, worker_label, plain_decode)),
        (false, true) => Scorer::Shared(DefaultScorer::new(config, worker_label, plain_decode)),
        (true, false) => Scorer::Requests(DefaultScorer::new(config, worker_label, plain_decode)),
        (true, true) => Scorer::Both(DefaultScorer::new(config, worker_label, plain_decode)),
    }
}

} // verus!
