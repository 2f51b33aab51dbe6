use dynamo_custom_policy_builtin::binary64::Binary64;
use dynamo_custom_policy_builtin::config::{KvRouterConfig, WorkerType};
use dynamo_custom_policy_builtin::parameters::{
    provide, ParameterError, Parameters, PROVIDER_NAME,
};

fn number(value: f64) -> Binary64 {
    Binary64::from_bits(value.to_bits())
}

fn none() -> Parameters {
    Parameters {
        overlap_score_credit: None,
        overlap_score_credit_decay: None,
        prefill_load_scale: None,
        decode_active_request_weight: None,
        host_cache_hit_weight: None,
        disk_cache_hit_weight: None,
        shared_cache_multiplier: None,
        router_temperature: None,
    }
}

const NAMES: [&str; 8] = [
    "overlap_score_credit",
    "overlap_score_credit_decay",
    "prefill_load_scale",
    "decode_active_request_weight",
    "host_cache_hit_weight",
    "disk_cache_hit_weight",
    "shared_cache_multiplier",
    "router_temperature",
];

fn with(mut parameters: Parameters, name: &str, value: f64) -> Parameters {
    let value = Some(number(value));
    match name {
        "overlap_score_credit" => parameters.overlap_score_credit = value,
        "overlap_score_credit_decay" => parameters.overlap_score_credit_decay = value,
        "prefill_load_scale" => parameters.prefill_load_scale = value,
        "decode_active_request_weight" => parameters.decode_active_request_weight = value,
        "host_cache_hit_weight" => parameters.host_cache_hit_weight = value,
        "disk_cache_hit_weight" => parameters.disk_cache_hit_weight = value,
        "shared_cache_multiplier" => parameters.shared_cache_multiplier = value,
        "router_temperature" => parameters.router_temperature = value,
        _ => unreachable!(),
    }
    parameters
}

#[test]
fn each_bad_parameter_is_named() {
    for name in NAMES {
        for bad in [-1.0, -1e-300, f64::NAN, f64::INFINITY, f64::NEG_INFINITY] {
            let error = with(none(), name, bad).validate().unwrap_err();
            assert_eq!(error.name, name);
            assert_eq!(error.message(), format!("{name} must be finite and non-negative"));
            assert_eq!(provide(with(none(), name, bad)).unwrap_err().name, name);
        }
        for good in [0.0, -0.0, 1.0, 1e300, 5e-324] {
            assert!(with(none(), name, good).validate().is_ok());
        }
    }
    assert!(none().validate().is_ok());
}

#[test]
fn the_first_bad_parameter_is_named() {
    let mut parameters = none();
    for name in NAMES.iter().rev() {
        parameters = with(parameters, name, f64::NAN);
        assert_eq!(parameters.validate().unwrap_err().name, *name);
    }
}

#[test]
fn errors_name_the_parameter_and_the_rule() {
    assert_eq!(
        ParameterError { name: "router_temperature" }.message(),
        "router_temperature must be finite and non-negative"
    );
    assert_eq!(PROVIDER_NAME, "dynamo-default-cost-fn");
}

#[test]
fn parameters_replace_what_they_name() {
    let base = KvRouterConfig { conditional_disagg_enabled: true, ..KvRouterConfig::default() };
    assert_eq!(none().apply(&base), base);
    let mut parameters = none();
    for (place, name) in NAMES.iter().enumerate() {
        parameters = with(parameters, name, 10.0 + place as f64);
    }
    let config = parameters.apply(&base);
    assert_eq!(
        config,
        KvRouterConfig {
            overlap_score_credit: number(10.0),
            overlap_score_credit_decay: number(11.0),
            prefill_load_scale: number(12.0),
            decode_active_request_weight: number(13.0),
            host_cache_hit_weight: number(14.0),
            disk_cache_hit_weight: number(15.0),
            shared_cache_multiplier: number(16.0),
            router_temperature: number(17.0),
            conditional_disagg_enabled: true,
        }
    );
    assert_eq!(parameters.apply(&config), config);
    let one = with(none(), "prefill_load_scale", 3.0);
    assert_eq!(
        one.apply(&base),
        KvRouterConfig { prefill_load_scale: number(3.0), ..base }
    );
}

#[test]
fn a_provided_factory_uses_its_parameters() {
    let factory = provide(with(none(), "router_temperature", 0.5)).unwrap();
    let base = KvRouterConfig::default();
    let decode = factory.create(&base, WorkerType::Decode);
    assert_eq!(decode.worker_label, "decode");
    assert!(decode.exclusive_affinity && decode.picker.plain_decode);
    assert_eq!(decode.picker.config.router_temperature, number(0.5));
    assert_eq!(decode.picker.config.host_cache_hit_weight, number(0.75));
    let prefill = factory.create(&base, WorkerType::Prefill);
    assert_eq!(prefill.worker_label, "prefill");
    assert!(!prefill.picker.plain_decode);
}
