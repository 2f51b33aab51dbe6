//! Router settings that the policy reads.

use vstd::prelude::*;

use crate::binary64::{signed, Binary64, ONE};

verus! {

/// The word of three quarters.
pub const THREE_QUARTERS: u64 = 0x3fe8_0000_0000_0000;

/// The word of one quarter.
pub const ONE_QUARTER: u64 = 0x3fd0_0000_0000_0000;

/// The settings of the router that shape a worker's cost and the choice among workers.
#[derive(Clone, Copy, Debug, PartialEq, Eq, Structural)]
pub struct KvRouterConfig {
    /// Credit for each block of device-local prefix overlap.
    pub overlap_score_credit: Binary64,
    /// How fast that credit decays as a worker's prefill load rises above the least loaded one.
    pub overlap_score_credit_decay: Binary64,
    /// Scale of the prefill part of a cost.
    pub prefill_load_scale: Binary64,
    /// Cost of each active request.
    pub decode_active_request_weight: Binary64,
    /// Credit for each block found in host memory.
    pub host_cache_hit_weight: Binary64,
    /// Credit for each block found on disk.
    pub disk_cache_hit_weight: Binary64,
    /// Credit for each block found in the shared cache only.
    pub shared_cache_multiplier: Binary64,
    /// Zero picks the lowest cost; anything else samples by softmax.
    pub router_temperature: Binary64,
    /// Whether decode workers may also run prefill.
    pub conditional_disagg_enabled: bool,
}

/// The settings of a router that was given none.
pub open spec fn default_config() -> KvRouterConfig {
    KvRouterConfig {
        overlap_score_credit: Binary64 { bits: ONE },
        overlap_score_credit_decay: signed(false, 0),
        prefill_load_scale: Binary64 { bits: ONE },
        decode_active_request_weight: signed(false, 0),
        host_cache_hit_weight: Binary64 { bits: THREE_QUARTERS },
        disk_cache_hit_weight: Binary64 { bits: ONE_QUARTER },
        shared_cache_multiplier: signed(false, 0),
        router_temperature: signed(false, 0),
        conditional_disagg_enabled: false,
    }
}

impl Default for KvRouterConfig {
    fn default() -> (r: Self)
        ensures
            r == default_config(),
    {
        KvRouterConfig {
            overlap_score_credit: Binary64::one(),
            overlap_score_credit_decay: Binary64::zero(),
            prefill_load_scale: Binary64::one(),
            decode_active_request_weight: Binary64::zero(),
            host_cache_hit_weight: Binary64::from_bits(THREE_QUARTERS),
            disk_cache_hit_weight: Binary64::from_bits(ONE_QUARTER),
            shared_cache_multiplier: Binary64::zero(),
            router_temperature: Binary64::zero(),
            conditional_disagg_enabled: false,
        }
    }
}

/// The processing stage that a worker handles.
#[derive(Clone, Copy, Debug, PartialEq, Eq, Structural)]
pub enum WorkerType {
    Prefill,
    Decode,
    Encode,
    Aggregated,
}

/// The pool label of a stage: only prefill pools are told apart.
pub open spec fn label_of(role: WorkerType) -> Seq<char> {
    if role == WorkerType::Prefill {
        "prefill"@
    } else {
        "decode"@
    }
}

impl WorkerType {
    /// The pool label that the policy goes by.
    pub fn default_selector_label(&self) -> (r: &'static str)
        ensures
            r@ == label_of(*self),
    {
        match self {
            WorkerType::Prefill => "prefill",
            WorkerType::Decode | WorkerType::Encode | WorkerType::Aggregated => "decode",
        }
    }
}

/// Whether a pool label is the decode label.
pub fn is_decode_label(label: &str) -> (r: bool)
    ensures
        r == (label@ == "decode"@),
{
    label.to_owned() == "decode".to_owned()
}

} // verus!
