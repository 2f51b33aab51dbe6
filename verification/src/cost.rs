//! The cost of one worker for one request.

use vstd::prelude::*;

use crate::binary64::{signed, Binary64, ONE};
use crate::config::KvRouterConfig;
use crate::inputs::{hits_at_or_beyond, WorkerCacheInput, WorkerLoadInput, WorkerSelectionContext};

verus! {

/// `a - b`, or zero where `b` is larger.
pub open spec fn excess_over(a: int, b: int) -> nat {
    if a > b {
        (a - b) as nat
    } else {
        0
    }
}

/// The overlap that earns device credit: the device tier where tiers were reported, the host's
/// estimate otherwise.
pub open spec fn device_overlap(
    context: WorkerSelectionContext,
    cache: WorkerCacheInput,
) -> Binary64 {
    if context.has_tier_matches {
        cache.device_overlap_blocks
    } else {
        cache.estimated_overlap
    }
}

/// The shared-cache blocks that the worker does not hold on its device.
pub open spec fn shared_blocks(context: WorkerSelectionContext, cache: WorkerCacheInput) -> int {
    if context.has_tier_matches {
        cache.shared_beyond_device_blocks as int
    } else {
        match context.shared_cache_hits {
            Some(hits) => hits_at_or_beyond(
                hits.ranges@,
                device_overlap(context, cache).whole() as int,
            ),
            None => 0,
        }
    }
}

/// The tokens that the worker would have in prefill with this request admitted.
pub open spec fn raw_tokens(
    context: WorkerSelectionContext,
    cache: WorkerCacheInput,
    load: WorkerLoadInput,
) -> int {
    if !context.tracks_prefill_tokens {
        0
    } else if load.available {
        let total = load.active_prefill_tokens + excess_over(
            context.prompt_tokens as int,
            cache.cached_tokens as int,
        ) + cache.cached_tokens;
        if total > usize::MAX {
            usize::MAX as int
        } else {
            total
        }
    } else {
        context.prompt_tokens as int
    }
}

/// The worker's prefill tokens and the uncached part of the prompt can be counted together.
pub open spec fn tokens_countable(
    context: WorkerSelectionContext,
    cache: WorkerCacheInput,
    load: WorkerLoadInput,
) -> bool {
    context.tracks_prefill_tokens && load.available ==> load.active_prefill_tokens + excess_over(
        context.prompt_tokens as int,
        cache.cached_tokens as int,
    ) <= usize::MAX
}

/// The shared-cache hits that the worker does not hold on its device can be counted. Where tiers
/// were reported, the host has counted them.
pub open spec fn hits_countable(
    context: WorkerSelectionContext,
    cache: WorkerCacheInput,
) -> bool {
    !context.has_tier_matches ==> (context.shared_cache_hits matches Some(hits)
        ==> hits.counts_from(device_overlap(context, cache).whole() as int))
}

/// What goes into the cost of a worker can be counted.
pub open spec fn countable(
    context: WorkerSelectionContext,
    cache: WorkerCacheInput,
    load: WorkerLoadInput,
) -> bool {
    tokens_countable(context, cache, load) && hits_countable(context, cache)
}

/// The least number of prefill tokens among workers, and the largest `usize` for no workers.
pub open spec fn least_prefill(loads: Seq<WorkerLoadInput>) -> usize
    decreases loads.len(),
{
    if loads.len() == 0 {
        usize::MAX
    } else {
        let least = least_prefill(loads.drop_last());
        let last = loads.last().active_prefill_tokens;
        if last < least {
            last
        } else {
            least
        }
    }
}

/// The settings by which a worker is costed.
#[derive(Clone, Copy, Debug, PartialEq, Eq, Structural)]
pub struct CostModel {
    pub config: KvRouterConfig,
    /// Whether the pool is labelled as a decode pool.
    pub is_decode: bool,
    /// Whether decode workers never run prefill.
    pub plain_decode: bool,
}

impl CostModel {
    /// The credit for a block of device overlap. Plain disaggregated decode is load-only.
    pub open spec fn overlap_credit(self, context: WorkerSelectionContext) -> Binary64 {
        if self.plain_decode && !context.tracks_prefill_tokens {
            signed(false, 0)
        } else {
            self.config.overlap_score_credit
        }
    }

    /// Whether overlap credit decays with prefill load.
    pub open spec fn uses_decay(self, context: WorkerSelectionContext) -> bool {
        context.tracks_prefill_tokens && signed(false, 0).below(
            self.config.overlap_score_credit_decay,
        )
    }

    /// The prefill load against which decay is measured.
    pub open spec fn prefill_floor(
        self,
        context: WorkerSelectionContext,
        loads: Seq<WorkerLoadInput>,
    ) -> usize {
        if self.uses_decay(context) {
            least_prefill(loads)
        } else {
            0
        }
    }

    /// The factor that is left of overlap credit: `1 / (1 + decay * excess / request)`, both
    /// lengths in blocks.
    pub open spec fn decay(
        self,
        context: WorkerSelectionContext,
        floor: usize,
        load: WorkerLoadInput,
    ) -> Binary64 {
        let one = Binary64 { bits: ONE };
        if self.uses_decay(context) {
            let excess = Binary64::of(
                excess_over(load.active_prefill_tokens as int, floor as int),
            ).quotient(Binary64::of(context.block_size as nat));
            one.quotient(
                one.sum(
                    self.config.overlap_score_credit_decay.product(
                        excess.quotient(Binary64::of(context.request_blocks as nat)),
                    ),
                ),
            )
        } else {
            one
        }
    }

    /// The blocks that cached prefixes take off the cost.
    pub open spec fn credit(
        self,
        context: WorkerSelectionContext,
        floor: usize,
        cache: WorkerCacheInput,
        load: WorkerLoadInput,
    ) -> Binary64 {
        self.overlap_credit(context).product(self.decay(context, floor, load)).product(
            device_overlap(context, cache),
        ).sum(self.config.host_cache_hit_weight.product(cache.host_overlap_blocks)).sum(
            self.config.disk_cache_hit_weight.product(cache.disk_overlap_blocks),
        ).sum(
            self.config.shared_cache_multiplier.product(
                Binary64::of(shared_blocks(context, cache) as nat),
            ),
        )
    }

    /// The cost of the worker's active requests.
    pub open spec fn request_cost(self, load: WorkerLoadInput) -> Binary64 {
        self.config.decode_active_request_weight.product(
            Binary64::of(load.active_requests as nat),
        )
    }

    /// Whether cache credit is taken off the decode load rather than off the prefill load.
    pub open spec fn subtracts_from_decode(self, context: WorkerSelectionContext) -> bool {
        self.is_decode && !context.tracks_prefill_tokens && signed(false, 0).below(
            self.overlap_credit(context),
        )
    }

    /// The cost before the preference of the request.
    pub open spec fn logit(
        self,
        context: WorkerSelectionContext,
        floor: usize,
        cache: WorkerCacheInput,
        load: WorkerLoadInput,
    ) -> Binary64 {
        let credit = self.credit(context, floor, cache, load);
        if self.subtracts_from_decode(context) {
            load.decode_cost_blocks.difference(credit).at_least_zero().sum(self.request_cost(load))
        } else {
            let prefill = Binary64::of(raw_tokens(context, cache, load) as nat).quotient(
                Binary64::of(context.block_size as nat),
            ).difference(credit).at_least_zero();
            self.config.prefill_load_scale.product(prefill).sum(load.decode_cost_blocks).sum(
                self.request_cost(load),
            )
        }
    }

    /// The cost of a worker.
    pub open spec fn cost_of(
        self,
        context: WorkerSelectionContext,
        floor: usize,
        cache: WorkerCacheInput,
        load: WorkerLoadInput,
        preference: Option<Binary64>,
    ) -> Binary64 {
        self.logit(context, floor, cache, load).product(
            match preference {
                Some(multiplier) => multiplier,
                None => Binary64 { bits: ONE },
            },
        )
    }

    /// Computes the cost of a worker.
    pub fn cost(
        &self,
        context: &WorkerSelectionContext,
        floor: usize,
        cache: &WorkerCacheInput,
        load: &WorkerLoadInput,
        preference: Option<Binary64>,
    ) -> (r: Binary64)
        requires
            countable(*context, *cache, *load),
        ensures
            r == self.cost_of(*context, floor, *cache, *load, preference),
    {
        let device = device_overlap_blocks(context, cache);
        let shared = shared_hit_blocks(context, cache);
        let decay = self.decay_factor(context, floor, load);
        let overlap_credit = self.overlap_weight(context);
        let credit = overlap_credit.mul(decay).mul(device).add(
            self.config.host_cache_hit_weight.mul(cache.host_overlap_blocks),
        ).add(self.config.disk_cache_hit_weight.mul(cache.disk_overlap_blocks)).add(
            self.config.shared_cache_multiplier.mul(Binary64::from_count(shared as u64)),
        );
        let request_cost = self.config.decode_active_request_weight.mul(
            Binary64::from_count(load.active_requests as u64),
        );
        let subtracts = self.is_decode && !context.tracks_prefill_tokens && Binary64::zero().lt(
            overlap_credit,
        );
        let logit = if subtracts {
            load.decode_cost_blocks.sub(credit).max_zero().add(request_cost)
        } else {
            let raw = prefill_tokens(context, cache, load);
            let prefill = Binary64::from_count(raw as u64).div(
                Binary64::from_count(context.block_size as u64),
            ).sub(credit).max_zero();
            self.config.prefill_load_scale.mul(prefill).add(load.decode_cost_blocks).add(
                request_cost,
            )
        };
        let multiplier = match preference {
            Some(multiplier) => multiplier,
            None => Binary64::one(),
        };
        logit.mul(multiplier)
    }

    /// The credit for a block of device overlap.
    pub fn overlap_weight(&self, context: &WorkerSelectionContext) -> (r: Binary64)
        ensures
            r == self.overlap_credit(*context),
    {
        if self.plain_decode && !context.tracks_prefill_tokens {
            Binary64::zero()
        } else {
            self.config.overlap_score_credit
        }
    }

    /// Whether overlap credit decays with prefill load.
    pub fn decays(&self, context: &WorkerSelectionContext) -> (r: bool)
        ensures
            r == self.uses_decay(*context),
    {
        context.tracks_prefill_tokens && Binary64::zero().lt(
            self.config.overlap_score_credit_decay,
        )
    }

    fn decay_factor(
        &self,
        context: &WorkerSelectionContext,
        floor: usize,
        load: &WorkerLoadInput,
    ) -> (r: Binary64)
        ensures
            r == self.decay(*context, floor, *load),
    {
        let one = Binary64::one();
        if self.decays(context) {
            let above: usize = load.active_prefill_tokens.saturating_sub(floor);
            let excess = Binary64::from_count(above as u64).div(
                Binary64::from_count(context.block_size as u64),
            );
            let blocks = Binary64::from_count(context.request_blocks);
            one.div(one.add(self.config.overlap_score_credit_decay.mul(excess.div(blocks))))
        } else {
            one
        }
    }
}

/// The overlap that earns device credit.
pub fn device_overlap_blocks(
    context: &WorkerSelectionContext,
    cache: &WorkerCacheInput,
) -> (r: Binary64)
    ensures
        r == device_overlap(*context, *cache),
{
    if context.has_tier_matches {
        cache.device_overlap_blocks
    } else {
        cache.estimated_overlap
    }
}

/// The shared-cache blocks that the worker does not hold on its device.
pub fn shared_hit_blocks(context: &WorkerSelectionContext, cache: &WorkerCacheInput) -> (r: u32)
    requires
        hits_countable(*context, *cache),
    ensures
        r == shared_blocks(*context, *cache),
{
    if context.has_tier_matches {
        cache.shared_beyond_device_blocks
    } else {
        match &context.shared_cache_hits {
            Some(hits) => hits.hits_beyond(device_overlap_blocks(context, cache).to_whole()),
            None => 0,
        }
    }
}

/// The tokens that the worker would have in prefill with this request admitted.
pub fn prefill_tokens(
    context: &WorkerSelectionContext,
    cache: &WorkerCacheInput,
    load: &WorkerLoadInput,
) -> (r: usize)
    requires
        tokens_countable(*context, *cache, *load),
    ensures
        r == raw_tokens(*context, *cache, *load),
{
    if !context.tracks_prefill_tokens {
        0
    } else if load.available {
        let uncached: usize = context.prompt_tokens.saturating_sub(cache.cached_tokens);
        (load.active_prefill_tokens + uncached).saturating_add(cache.cached_tokens)
    } else {
        context.prompt_tokens
    }
}

/// Whether the worker's prefill tokens and the uncached part of the prompt can be counted together.
pub fn tokens_count(
    context: &WorkerSelectionContext,
    cache: &WorkerCacheInput,
    load: &WorkerLoadInput,
) -> (r: bool)
    ensures
        r == tokens_countable(*context, *cache, *load),
{
    let uncached: usize = context.prompt_tokens.saturating_sub(cache.cached_tokens);
    !context.tracks_prefill_tokens || !load.available || load.active_prefill_tokens <= usize::MAX
        - uncached
}

/// Whether the shared-cache hits that the worker does not hold on its device can be counted.
pub fn hits_count(context: &WorkerSelectionContext, cache: &WorkerCacheInput) -> (r: bool)
    ensures
        r == hits_countable(*context, *cache),
{
    if context.has_tier_matches {
        true
    } else {
        match &context.shared_cache_hits {
            Some(hits) => hits.can_count(device_overlap_blocks(context, cache).to_whole()),
            None => true,
        }
    }
}

} // verus!
