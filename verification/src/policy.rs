//! Construction of the default policy.

use vstd::prelude::*;

use crate::config::{default_config, label_of, KvRouterConfig, WorkerType};
use crate::inputs::WorkerInputs;
use crate::picker::DefaultPicker;
use crate::stream::SeededStream;

verus! {

/// A policy as its host runs it: a picker, with no filters and no scorers before it.
#[derive(Clone, Copy, Debug)]
pub struct WorkerSelectionPolicy {
    /// The label of the worker pool.
    pub worker_label: &'static str,
    /// Whether an eligible affinity target is the only candidate.
    pub exclusive_affinity: bool,
    pub picker: DefaultPicker,
}

impl WorkerSelectionPolicy {
    /// The default policy for some settings, a pool label, and a stream to draw from.
    pub open spec fn of(
        config: KvRouterConfig,
        worker_label: &'static str,
        rng: Option<SeededStream>,
        plain_decode: bool,
    ) -> Self {
        WorkerSelectionPolicy {
            worker_label,
            exclusive_affinity: true,
            picker: DefaultPicker { plain_decode, config, worker_label, rng },
        }
    }
}

/// Whether a pool decodes only: a decode pool whose workers may not also run prefill.
pub open spec fn decodes_only(config: KvRouterConfig, role: WorkerType) -> bool {
    role == WorkerType::Decode && !config.conditional_disagg_enabled
}

/// Constructs the default policy from configured parameters. Per-request score overrides are
/// not used.
pub fn default_policy(config: KvRouterConfig, worker_label: &'static str) -> (r:
    WorkerSelectionPolicy)
    ensures
        r == WorkerSelectionPolicy::of(config, worker_label, None, false),
{
    policy_with_rng(config, worker_label, None, false)
}

/// Constructs the default policy, with a stream to draw from where it is to be reproducible.
pub fn policy_with_rng(
    config: KvRouterConfig,
    worker_label: &'static str,
    rng: Option<SeededStream>,
    plain_decode: bool,
) -> (r: WorkerSelectionPolicy)
    ensures
        r == WorkerSelectionPolicy::of(config, worker_label, rng, plain_decode),
{
    let picker = DefaultPicker { plain_decode, config, worker_label, rng };
    WorkerSelectionPolicy { worker_label, exclusive_affinity: true, picker }
}

/// Constructs the default policy for a pool.
pub fn policy_for_role(config: KvRouterConfig, role: WorkerType) -> (r: WorkerSelectionPolicy)
    ensures
        r.worker_label@ == label_of(role),
        r == WorkerSelectionPolicy::of(config, r.worker_label, None, decodes_only(config, role)),
{
    let plain_decode = role == WorkerType::Decode && !config.conditional_disagg_enabled;
    policy_with_rng(config, role.default_selector_label(), None, plain_decode)
}

/// The factory that a routing host installs: it makes the default policy for each pool.
#[derive(Clone, Copy, Debug)]
pub struct DefaultFactory;

/// The factory of default policies.
pub fn default_factory() -> (r: DefaultFactory)
    ensures
        r == DefaultFactory,
{
    DefaultFactory
}

impl DefaultFactory {
    /// Makes the policy for a pool.
    pub fn create(&self, config: &KvRouterConfig, role: WorkerType) -> (r: WorkerSelectionPolicy)
        ensures
            r.worker_label@ == label_of(role),
            r == WorkerSelectionPolicy::of(
                *config,
                r.worker_label,
                None,
                decodes_only(*config, role),
            ),
    {
        policy_for_role(*config, role)
    }
}

/// A selector for direct callers and replay.
#[derive(Debug)]
pub struct DefaultWorkerSelector {
    pub kv_router_config: KvRouterConfig,
    pub worker_type: &'static str,
    pub policy: WorkerSelectionPolicy,
    /// The stream that the selector starts from, where it is reproducible.
    pub rng: Option<SeededStream>,
}

impl DefaultWorkerSelector {
    /// The selector for some settings, a pool label, and a stream to draw from.
    pub open spec fn of(
        config: KvRouterConfig,
        worker_type: &'static str,
        rng: Option<SeededStream>,
    ) -> Self {
        DefaultWorkerSelector {
            kv_router_config: config,
            worker_type,
            policy: WorkerSelectionPolicy::of(config, worker_type, rng, false),
            rng,
        }
    }

    /// The given settings, or those of a router that was given none.
    pub open spec fn settings(config: Option<KvRouterConfig>) -> KvRouterConfig {
        match config {
            Some(config) => config,
            None => default_config(),
        }
    }

    pub fn new(config: Option<KvRouterConfig>, worker_type: &'static str) -> (r: Self)
        ensures
            r == Self::of(Self::settings(config), worker_type, None),
    {
        Self::with_rng(or_default(config), worker_type, None)
    }

    /// Constructs a reproducible selector.
    pub fn new_seeded(
        config: Option<KvRouterConfig>,
        worker_type: &'static str,
        seed: u64,
    ) -> (r: Self)
        ensures
            r == Self::of(Self::settings(config), worker_type, Some(SeededStream { state: seed })),
    {
        Self::with_rng(or_default(config), worker_type, Some(SeededStream::with_seed(seed)))
    }

    /// Constructs a selector, with a stream to draw from where it is to be reproducible.
    pub fn with_rng(
        config: KvRouterConfig,
        worker_type: &'static str,
        rng: Option<SeededStream>,
    ) -> (r: Self)
        ensures
            r == Self::of(config, worker_type, rng),
    {
        DefaultWorkerSelector {
            policy: policy_with_rng(config, worker_type, rng, false),
            kv_router_config: config,
            worker_type,
            rng,
        }
    }

    /// A selector with the settings of this one that draws on from where a stream is now.
    pub fn drawing_from(&self, rng: Option<SeededStream>) -> (r: Self)
        ensures
            r == Self::of(self.kv_router_config, self.worker_type, rng),
    {
        Self::with_rng(self.kv_router_config, self.worker_type, rng)
    }

    /// The worker signals that this selector asks its host for.
    pub fn required_worker_inputs(&self) -> (r: WorkerInputs)
        ensures
            r == (WorkerInputs { cache: true, load: true, preferred_taint: false }),
    {
        WorkerInputs { cache: true, load: true, preferred_taint: false }
    }

    /// An eligible affinity target is the only candidate.
    pub fn uses_exclusive_affinity_target(&self) -> (r: bool)
        ensures
            r,
    {
        true
    }
}

fn or_default(config: Option<KvRouterConfig>) -> (r: KvRouterConfig)
    ensures
        r == DefaultWorkerSelector::settings(config),
{
    match config {
        Some(config) => config,
        None => KvRouterConfig::default(),
    }
}

} // verus!
