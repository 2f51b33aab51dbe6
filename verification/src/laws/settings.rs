//! What holds of settings, and of what is built from them.

use vstd::prelude::*;

use crate::binary64::Binary64;
use crate::config::{default_config, label_of, KvRouterConfig, WorkerType};
use crate::parameters::{acceptable, acceptable_up_to, named, overridden, Parameters};
use crate::picker::DefaultPicker;
use crate::policy::{decodes_only, DefaultWorkerSelector, WorkerSelectionPolicy};
use crate::stream::SeededStream;

verus! {

/// One setting after parameters: the parameter where it is given, to the last bit, and the router's
/// setting where it is not.
pub open spec fn replaced(given: Option<Binary64>, setting: Binary64, result: Binary64) -> bool {
    &&& given matches Some(value) ==> result.bits == value.bits
    &&& given is None ==> result.bits == setting.bits
}

/// Every parameter that is given replaces the setting of its name, whatever its value, and nothing
/// else changes.
pub proof fn law_given_parameters_replace(config: KvRouterConfig, parameters: Parameters)
    ensures
        ({
            let r = overridden(config, parameters);
            &&& replaced(
                parameters.overlap_score_credit,
                config.overlap_score_credit,
                r.overlap_score_credit,
            )
            &&& replaced(
                parameters.overlap_score_credit_decay,
                config.overlap_score_credit_decay,
                r.overlap_score_credit_decay,
            )
            &&& replaced(
                parameters.prefill_load_scale,
                config.prefill_load_scale,
                r.prefill_load_scale,
            )
            &&& replaced(
                parameters.decode_active_request_weight,
                config.decode_active_request_weight,
                r.decode_active_request_weight,
            )
            &&& replaced(
                parameters.host_cache_hit_weight,
                config.host_cache_hit_weight,
                r.host_cache_hit_weight,
            )
            &&& replaced(
                parameters.disk_cache_hit_weight,
                config.disk_cache_hit_weight,
                r.disk_cache_hit_weight,
            )
            &&& replaced(
                parameters.shared_cache_multiplier,
                config.shared_cache_multiplier,
                r.shared_cache_multiplier,
            )
            &&& replaced(
                parameters.router_temperature,
                config.router_temperature,
                r.router_temperature,
            )
            &&& r.conditional_disagg_enabled == config.conditional_disagg_enabled
        }),
{
}

/// A parameter may be used exactly where it is not given, or is a finite number that is zero, of
/// either sign, or above.
pub proof fn law_what_a_parameter_may_be(value: Option<Binary64>)
    ensures
        acceptable(value) <==> match value {
            Some(number) => number.magnitude() < 0x7ff0_0000_0000_0000 && (!number.negative()
                || number.magnitude() == 0),
            None => true,
        },
{
}

/// Eight parameters are checked, in this order and under these names.
pub proof fn law_parameters_are_checked_in_order(parameters: Parameters, n: int)
    requires
        0 <= n <= 8,
    ensures
        named(parameters).len() == 8,
        named(parameters)[0] == ("overlap_score_credit"@, parameters.overlap_score_credit),
        named(parameters)[1] == (
            "overlap_score_credit_decay"@,
            parameters.overlap_score_credit_decay,
        ),
        named(parameters)[2] == ("prefill_load_scale"@, parameters.prefill_load_scale),
        named(parameters)[3] == (
            "decode_active_request_weight"@,
            parameters.decode_active_request_weight,
        ),
        named(parameters)[4] == ("host_cache_hit_weight"@, parameters.host_cache_hit_weight),
        named(parameters)[5] == ("disk_cache_hit_weight"@, parameters.disk_cache_hit_weight),
        named(parameters)[6] == ("shared_cache_multiplier"@, parameters.shared_cache_multiplier),
        named(parameters)[7] == ("router_temperature"@, parameters.router_temperature),
        acceptable_up_to(parameters, n) <==> {
            &&& n > 0 ==> acceptable(parameters.overlap_score_credit)
            &&& n > 1 ==> acceptable(parameters.overlap_score_credit_decay)
            &&& n > 2 ==> acceptable(parameters.prefill_load_scale)
            &&& n > 3 ==> acceptable(parameters.decode_active_request_weight)
            &&& n > 4 ==> acceptable(parameters.host_cache_hit_weight)
            &&& n > 5 ==> acceptable(parameters.disk_cache_hit_weight)
            &&& n > 6 ==> acceptable(parameters.shared_cache_multiplier)
            &&& n > 7 ==> acceptable(parameters.router_temperature)
        },
{
    let names = named(parameters);
    if acceptable_up_to(parameters, n) {
        assert(n > 0 ==> acceptable(names[0].1));
        assert(n > 1 ==> acceptable(names[1].1));
        assert(n > 2 ==> acceptable(names[2].1));
        assert(n > 3 ==> acceptable(names[3].1));
        assert(n > 4 ==> acceptable(names[4].1));
        assert(n > 5 ==> acceptable(names[5].1));
        assert(n > 6 ==> acceptable(names[6].1));
        assert(n > 7 ==> acceptable(names[7].1));
    }
}

/// A policy keeps the settings, the label and the stream that it is built with, and lets an affinity
/// target be the only candidate.
pub proof fn law_policies_keep_their_settings(
    config: KvRouterConfig,
    worker_label: &'static str,
    rng: Option<SeededStream>,
    plain_decode: bool,
)
    ensures
        ({
            let policy = WorkerSelectionPolicy::of(config, worker_label, rng, plain_decode);
            let selector = DefaultWorkerSelector::of(config, worker_label, rng);
            &&& policy.exclusive_affinity
            &&& policy.worker_label == worker_label
            &&& policy.picker.config == config
            &&& policy.picker.worker_label == worker_label
            &&& policy.picker.rng == rng
            &&& policy.picker.plain_decode == plain_decode
            &&& selector.kv_router_config == config
            &&& selector.worker_type == worker_label
            &&& selector.rng == rng
            &&& selector.policy == WorkerSelectionPolicy::of(config, worker_label, rng, false)
            &&& DefaultWorkerSelector::settings(Some(config)) == config
            &&& DefaultWorkerSelector::settings(None) == default_config()
        }),
{
}

/// Only a decode pool whose workers may not also run prefill decodes only, and only a prefill pool
/// is not labelled as a decode pool.
pub proof fn law_pools(config: KvRouterConfig, role: WorkerType)
    ensures
        decodes_only(config, role) <==> role is Decode && !config.conditional_disagg_enabled,
        role is Prefill ==> label_of(role) == "prefill"@,
        role !is Prefill ==> label_of(role) == "decode"@,
{
}

/// A picker costs by its own settings, and takes its pool for a decode pool by the label alone.
pub proof fn law_pickers_cost_by_their_settings(picker: DefaultPicker)
    ensures
        picker.model().config == picker.config,
        picker.model().plain_decode == picker.plain_decode,
        picker.model().is_decode <==> picker.worker_label@ == "decode"@,
        picker.picks_lowest() <==> picker.config.router_temperature.magnitude() == 0,
{
}

} // verus!
