//! Startup parameters of the default policy.

use vstd::prelude::*;
use vstd::string::StringExecFns;

use crate::binary64::{signed, Binary64};
use crate::config::{label_of, KvRouterConfig, WorkerType};
use crate::policy::{decodes_only, policy_for_role, WorkerSelectionPolicy};

verus! {

/// The name under which the default policy is registered.
pub const PROVIDER_NAME: &'static str = "dynamo-default-cost-fn";

/// Settings that replace those of the router. What is not given stays as the router has it.
#[derive(Clone, Copy, Debug, PartialEq, Eq, Structural)]
pub struct Parameters {
    pub overlap_score_credit: Option<Binary64>,
    pub overlap_score_credit_decay: Option<Binary64>,
    pub prefill_load_scale: Option<Binary64>,
    pub decode_active_request_weight: Option<Binary64>,
    pub host_cache_hit_weight: Option<Binary64>,
    pub disk_cache_hit_weight: Option<Binary64>,
    pub shared_cache_multiplier: Option<Binary64>,
    pub router_temperature: Option<Binary64>,
}

/// A parameter that is not finite, or is negative.
#[derive(Clone, Copy, Debug)]
pub struct ParameterError {
    pub name: &'static str,
}

impl ParameterError {
    /// The text of this error.
    pub fn message(&self) -> (r: String)
        ensures
            r@ == self.name@ + " must be finite and non-negative"@,
    {
        let mut text = String::from_str(self.name);
        text.append(" must be finite and non-negative");
        text
    }
}

/// Whether a parameter may be used: it is not given, or finite and not below zero.
pub open spec fn acceptable(value: Option<Binary64>) -> bool {
    value matches Some(number) ==> number.finite() && !number.below(signed(false, 0))
}

/// A parameter, or the router's setting where it is not given.
pub open spec fn given_or(value: Option<Binary64>, setting: Binary64) -> Binary64 {
    match value {
        Some(number) => number,
        None => setting,
    }
}

/// The parameters by name, in the order in which they are checked.
pub open spec fn named(parameters: Parameters) -> Seq<(Seq<char>, Option<Binary64>)> {
    seq![
        ("overlap_score_credit"@, parameters.overlap_score_credit),
        ("overlap_score_credit_decay"@, parameters.overlap_score_credit_decay),
        ("prefill_load_scale"@, parameters.prefill_load_scale),
        ("decode_active_request_weight"@, parameters.decode_active_request_weight),
        ("host_cache_hit_weight"@, parameters.host_cache_hit_weight),
        ("disk_cache_hit_weight"@, parameters.disk_cache_hit_weight),
        ("shared_cache_multiplier"@, parameters.shared_cache_multiplier),
        ("router_temperature"@, parameters.router_temperature),
    ]
}

/// The first parameters, up to `n`, may all be used.
pub open spec fn acceptable_up_to(parameters: Parameters, n: int) -> bool {
    forall|i: int| 0 <= i < n ==> acceptable(#[trigger] named(parameters)[i].1)
}

/// The settings of a router with parameters in place of some of them.
pub open spec fn overridden(config: KvRouterConfig, parameters: Parameters) -> KvRouterConfig {
    KvRouterConfig {
        overlap_score_credit: given_or(
            parameters.overlap_score_credit,
            config.overlap_score_credit,
        ),
        overlap_score_credit_decay: given_or(
            parameters.overlap_score_credit_decay,
            config.overlap_score_credit_decay,
        ),
        prefill_load_scale: given_or(parameters.prefill_load_scale, config.prefill_load_scale),
        decode_active_request_weight: given_or(
            parameters.decode_active_request_weight,
            config.decode_active_request_weight,
        ),
        host_cache_hit_weight: given_or(
            parameters.host_cache_hit_weight,
            config.host_cache_hit_weight,
        ),
        disk_cache_hit_weight: given_or(
            parameters.disk_cache_hit_weight,
            config.disk_cache_hit_weight,
        ),
        shared_cache_multiplier: given_or(
            parameters.shared_cache_multiplier,
            config.shared_cache_multiplier,
        ),
        router_temperature: given_or(parameters.router_temperature, config.router_temperature),
        conditional_disagg_enabled: config.conditional_disagg_enabled,
    }
}

fn is_acceptable(value: Option<Binary64>) -> (r: bool)
    ensures
        r == acceptable(value),
{
    match value {
        Some(number) => number.is_finite() && !number.lt(Binary64::zero()),
        None => true,
    }
}

impl Parameters {
    /// Checks the parameters in order, and names the first that may not be used.
    pub fn validate(&self) -> (r: Result<(), ParameterError>)
        ensures
            match r {
                Ok(_) => acceptable_up_to(*self, 8),
                Err(error) => exists|i: int|
                    {
                        &&& 0 <= i < 8
                        &&& error.name@ == (#[trigger] named(*self)[i]).0
                        &&& !acceptable(named(*self)[i].1)
                        &&& acceptable_up_to(*self, i)
                    },
            },
    {
        let list: [(&'static str, Option<Binary64>); 8] = [
            ("overlap_score_credit", self.overlap_score_credit),
            ("overlap_score_credit_decay", self.overlap_score_credit_decay),
            ("prefill_load_scale", self.prefill_load_scale),
            ("decode_active_request_weight", self.decode_active_request_weight),
            ("host_cache_hit_weight", self.host_cache_hit_weight),
            ("disk_cache_hit_weight", self.disk_cache_hit_weight),
            ("shared_cache_multiplier", self.shared_cache_multiplier),
            ("router_temperature", self.router_temperature),
        ];
        let ghost names = named(*self);
        assert forall|j: int| 0 <= j < 8 implies (#[trigger] list@[j]).0@ == names[j].0 && list@[j].1
            == names[j].1 by {}
        let mut i: usize = 0;
        while i < 8
            invariant
                i <= 8,
                names == named(*self),
                forall|j: int|
                    0 <= j < 8 ==> (#[trigger] list@[j]).0@ == names[j].0 && list@[j].1 == names[j].1,
                acceptable_up_to(*self, i as int),
            decreases 8 - i,
        {
            let (name, value) = list[i];
            assert(list@[i as int].1 == names[i as int].1);
            if !is_acceptable(value) {
                return Err(ParameterError { name });
            }
            i = i + 1;
        }
        Ok(())
    }

    /// Puts the parameters in place of a router's settings.
    pub fn apply(&self, config: &KvRouterConfig) -> (r: KvRouterConfig)
        ensures
            r == overridden(*config, *self),
            self.overlap_score_credit matches Some(v) ==> r.overlap_score_credit == v,
            self.overlap_score_credit is None ==> r.overlap_score_credit
                == config.overlap_score_credit,
            self.overlap_score_credit_decay matches Some(v) ==> r.overlap_score_credit_decay == v,
            self.overlap_score_credit_decay is None ==> r.overlap_score_credit_decay
                == config.overlap_score_credit_decay,
            self.prefill_load_scale matches Some(v) ==> r.prefill_load_scale == v,
            self.prefill_load_scale is None ==> r.prefill_load_scale == config.prefill_load_scale,
            self.decode_active_request_weight matches Some(v) ==> r.decode_active_request_weight
                == v,
            self.decode_active_request_weight is None ==> r.decode_active_request_weight
                == config.decode_active_request_weight,
            self.host_cache_hit_weight matches Some(v) ==> r.host_cache_hit_weight == v,
            self.host_cache_hit_weight is None ==> r.host_cache_hit_weight
                == config.host_cache_hit_weight,
            self.disk_cache_hit_weight matches Some(v) ==> r.disk_cache_hit_weight == v,
            self.disk_cache_hit_weight is None ==> r.disk_cache_hit_weight
                == config.disk_cache_hit_weight,
            self.shared_cache_multiplier matches Some(v) ==> r.shared_cache_multiplier == v,
            self.shared_cache_multiplier is None ==> r.shared_cache_multiplier
                == config.shared_cache_multiplier,
            self.router_temperature matches Some(v) ==> r.router_temperature == v,
            self.router_temperature is None ==> r.router_temperature == config.router_temperature,
            r.conditional_disagg_enabled == config.conditional_disagg_enabled,
    {
        let mut config = *config;
        if let Some(value) = self.overlap_score_credit {
            config.overlap_score_credit = value;
        }
        if let Some(value) = self.overlap_score_credit_decay {
            config.overlap_score_credit_decay = value;
        }
        if let Some(value) = self.prefill_load_scale {
            config.prefill_load_scale = value;
        }
        if let Some(value) = self.decode_active_request_weight {
            config.decode_active_request_weight = value;
        }
        if let Some(value) = self.host_cache_hit_weight {
            config.host_cache_hit_weight = value;
        }
        if let Some(value) = self.disk_cache_hit_weight {
            config.disk_cache_hit_weight = value;
        }
        if let Some(value) = self.shared_cache_multiplier {
            config.shared_cache_multiplier = value;
        }
        if let Some(value) = self.router_temperature {
            config.router_temperature = value;
        }
        config
    }
}

/// The factory that a host gets for parameters that may be used.
#[derive(Clone, Copy, Debug)]
pub struct ParameterizedFactory {
    pub parameters: Parameters,
}

/// Makes a factory of parameters, unless one of them may not be used.
pub fn provide(parameters: Parameters) -> (r: Result<ParameterizedFactory, ParameterError>)
    ensures
        match r {
            Ok(factory) => factory.parameters == parameters && acceptable_up_to(parameters, 8),
            Err(error) => exists|i: int|
                {
                    &&& 0 <= i < 8
                    &&& error.name@ == (#[trigger] named(parameters)[i]).0
                    &&& !acceptable(named(parameters)[i].1)
                    &&& acceptable_up_to(parameters, i)
                },
        },
{
    match parameters.validate() {
        Ok(_) => Ok(ParameterizedFactory { parameters }),
        Err(error) => Err(error),
    }
}

impl ParameterizedFactory {
    /// Makes the policy for a pool.
    pub fn create(&self, config: &KvRouterConfig, role: WorkerType) -> (r: WorkerSelectionPolicy)
        ensures
            r.worker_label@ == label_of(role),
            r == WorkerSelectionPolicy::of(
                overridden(*config, self.parameters),
                r.worker_label,
                None,
                decodes_only(*config, role),
            ),
    {
        policy_for_role(self.parameters.apply(config), role)
    }
}

} // verus!
