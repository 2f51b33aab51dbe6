//! What a selection reads of the request and of each worker.

use vstd::prelude::*;

use crate::binary64::Binary64;

verus! {

/// A worker and one of its data-parallel ranks.
#[derive(Clone, Copy, Debug, PartialEq, Eq, Structural)]
pub struct WorkerWithDpRank {
    pub worker_id: u64,
    pub dp_rank: u32,
}

/// The groups of worker signals that a component asks the host for.
#[derive(Clone, Copy, Debug, PartialEq, Eq, Structural)]
pub struct WorkerInputs {
    pub cache: bool,
    pub load: bool,
    pub preferred_taint: bool,
}

/// Block positions found in the shared cache, as half-open ranges.
#[derive(Clone, Debug)]
pub struct SharedCacheHits {
    pub ranges: Vec<(u32, u32)>,
}

/// How many positions of the ranges are at `from` or beyond.
pub open spec fn hits_at_or_beyond(ranges: Seq<(u32, u32)>, from: int) -> int
    decreases ranges.len(),
{
    if ranges.len() == 0 {
        0
    } else {
        let (start, end) = ranges.last();
        let first = if start < from {
            from
        } else {
            start as int
        };
        hits_at_or_beyond(ranges.drop_last(), from) + if end > first {
            end - first
        } else {
            0
        }
    }
}

impl SharedCacheHits {
    /// The hits at `from` and beyond can be counted: no range that reaches beyond it ends before
    /// it starts, and there are not too many.
    pub open spec fn counts_from(self, from: int) -> bool {
        &&& forall|i: int|
            0 <= i < self.ranges@.len() && (#[trigger] self.ranges@[i]).1 > from
                ==> self.ranges@[i].0 <= self.ranges@[i].1
        &&& hits_at_or_beyond(self.ranges@, from) <= u32::MAX
    }

    /// The ranges are in order and do not overlap.
    pub open spec fn sorted(self) -> bool {
        &&& forall|i: int|
            0 <= i < self.ranges@.len() ==> (#[trigger] self.ranges@[i]).0 <= self.ranges@[i].1
        &&& forall|i: int, j: int|
            0 <= i < j < self.ranges@.len() ==> (#[trigger] self.ranges@[i]).1 <= (
            #[trigger] self.ranges@[j]).0
    }

    /// Whether the hits at positions `from` and beyond can be counted.
    pub fn can_count(&self, from: u32) -> (r: bool)
        ensures
            r == self.counts_from(from as int),
    {
        let mut hits: u32 = 0;
        let mut i: usize = 0;
        while i < self.ranges.len()
            invariant
                i <= self.ranges@.len(),
                hits == hits_at_or_beyond(self.ranges@.take(i as int), from as int),
                forall|j: int|
                    0 <= j < i && (#[trigger] self.ranges@[j]).1 > from ==> self.ranges@[j].0
                        <= self.ranges@[j].1,
            decreases self.ranges@.len() - i,
        {
            let (start, end) = self.ranges[i];
            proof {
                assert(self.ranges@.take(i + 1).drop_last() =~= self.ranges@.take(i as int));
                lemma_hits_bounded(self.ranges@, i + 1, from as int);
                assert(self.ranges@[i as int] == (start, end));
            }
            if end > from {
                if start > end {
                    return false;
                }
                let first = if start < from {
                    from
                } else {
                    start
                };
                if hits > u32::MAX - (end - first) {
                    return false;
                }
                hits = hits + (end - first);
            }
            i = i + 1;
        }
        assert(self.ranges@.take(i as int) =~= self.ranges@);
        true
    }

    /// Counts the hits at positions `from` and beyond.
    pub fn hits_beyond(&self, from: u32) -> (r: u32)
        requires
            self.counts_from(from as int),
        ensures
            r == hits_at_or_beyond(self.ranges@, from as int),
    {
        let mut hits: u32 = 0;
        let mut i: usize = 0;
        while i < self.ranges.len()
            invariant
                self.counts_from(from as int),
                i <= self.ranges@.len(),
                hits == hits_at_or_beyond(self.ranges@.take(i as int), from as int),
            decreases self.ranges@.len() - i,
        {
            let (start, end) = self.ranges[i];
            proof {
                assert(self.ranges@.take(i + 1).drop_last() =~= self.ranges@.take(i as int));
                lemma_hits_bounded(self.ranges@, i + 1, from as int);
                assert(self.ranges@[i as int] == (start, end));
            }
            if end > from {
                let first = if start < from {
                    from
                } else {
                    start
                };
                hits = hits + (end - first);
            }
            i = i + 1;
        }
        assert(self.ranges@.take(i as int) =~= self.ranges@);
        hits
    }
}

/// The first ranges have no more hits than all of them.
pub proof fn lemma_hits_bounded(ranges: Seq<(u32, u32)>, n: int, from: int)
    requires
        0 <= n <= ranges.len(),
    ensures
        0 <= hits_at_or_beyond(ranges.take(n), from) <= hits_at_or_beyond(ranges, from),
    decreases ranges.len(),
{
    if ranges.len() > 0 {
        let front = ranges.drop_last();
        if n == ranges.len() {
            assert(ranges.take(n) =~= ranges);
            assert(front.take(n - 1) =~= front);
            lemma_hits_bounded(front, n - 1, from);
        } else {
            assert(ranges.take(n) =~= front.take(n));
            lemma_hits_bounded(front, n, from);
        }
    }
}

/// Request-level values of one selection.
#[derive(Clone, Debug)]
pub struct WorkerSelectionContext {
    /// Prompt length in tokens.
    pub prompt_tokens: usize,
    /// Prompt length in KV blocks.
    pub request_blocks: u64,
    /// Tokens in one KV block.
    pub block_size: u32,
    /// Whether the request counts toward prefill load.
    pub tracks_prefill_tokens: bool,
    /// Whether matches were reported for each cache tier.
    pub has_tier_matches: bool,
    /// The result of the shared-cache lookup, if there was one.
    pub shared_cache_hits: Option<SharedCacheHits>,
    /// The worker that the host imposes, if any.
    pub pinned_worker: Option<WorkerWithDpRank>,
}

/// Cache overlap of one worker with the request.
#[derive(Clone, Copy, Debug, PartialEq, Eq, Structural)]
pub struct WorkerCacheInput {
    /// The host's estimate of the overlap, in weighted blocks.
    pub estimated_overlap: Binary64,
    /// The same estimate in tokens.
    pub cached_tokens: usize,
    /// Blocks on the device.
    pub device_overlap_blocks: Binary64,
    /// Blocks in host memory.
    pub host_overlap_blocks: Binary64,
    /// Blocks on disk.
    pub disk_overlap_blocks: Binary64,
    /// Blocks in the shared cache beyond those on the device.
    pub shared_beyond_device_blocks: u32,
}

/// Active load of one worker.
#[derive(Clone, Copy, Debug, PartialEq, Eq, Structural)]
pub struct WorkerLoadInput {
    /// Whether the host supplied a load for this worker.
    pub available: bool,
    /// Tokens in the prefill stage.
    pub active_prefill_tokens: usize,
    /// Projected decode footprint in blocks.
    pub decode_cost_blocks: Binary64,
    /// Active requests.
    pub active_requests: usize,
}

/// One worker as a scorer sees it.
#[derive(Clone, Copy, Debug, PartialEq, Eq, Structural)]
pub struct WorkerCandidate {
    pub cache: Option<WorkerCacheInput>,
    pub load: Option<WorkerLoadInput>,
    pub preferred_taint_multiplier: Option<Binary64>,
}

/// One worker as the picker sees it.
#[derive(Clone, Copy, Debug, PartialEq, Eq, Structural)]
pub struct ScoredWorkerCandidate {
    pub worker: WorkerWithDpRank,
    pub preferred_taint_multiplier: Option<Binary64>,
}

/// The picker's table: one row for each candidate, with the columns that were asked for.
#[derive(Clone, Debug)]
pub struct WorkerInputView {
    pub candidates: Vec<ScoredWorkerCandidate>,
    pub cache: Option<Vec<WorkerCacheInput>>,
    pub load: Option<Vec<WorkerLoadInput>>,
}

impl WorkerInputView {
    /// Each column has one entry for each candidate.
    pub open spec fn wf(self) -> bool {
        &&& self.cache matches Some(cache) ==> cache@.len() == self.candidates@.len()
        &&& self.load matches Some(load) ==> load@.len() == self.candidates@.len()
    }
}

/// Why a selection failed.
#[derive(Clone, Copy, Debug, PartialEq, Eq, Structural)]
pub enum WorkerSelectionPolicyError {
    CacheInputUnavailable,
    LoadInputUnavailable,
    NoEligibleWorker,
    NonFiniteCost,
}

/// The text of an error.
pub open spec fn error_text(error: WorkerSelectionPolicyError) -> Seq<char> {
    match error {
        WorkerSelectionPolicyError::CacheInputUnavailable => "cache input unavailable"@,
        WorkerSelectionPolicyError::LoadInputUnavailable => "load input unavailable"@,
        WorkerSelectionPolicyError::NoEligibleWorker => "no eligible worker"@,
        WorkerSelectionPolicyError::NonFiniteCost => "default policy produced non-finite cost"@,
    }
}

impl WorkerSelectionPolicyError {
    /// The text of this error.
    pub fn message(&self) -> (r: &'static str)
        ensures
            r@ == error_text(*self),
    {
        match self {
            WorkerSelectionPolicyError::CacheInputUnavailable => "cache input unavailable",
            WorkerSelectionPolicyError::LoadInputUnavailable => "load input unavailable",
            WorkerSelectionPolicyError::NoEligibleWorker => "no eligible worker",
            WorkerSelectionPolicyError::NonFiniteCost => "default policy produced non-finite cost",
        }
    }
}

} // verus!
