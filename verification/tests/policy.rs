use dynamo_custom_policy_builtin::binary64::Binary64;
use dynamo_custom_policy_builtin::config::{is_decode_label, KvRouterConfig, WorkerType};
use dynamo_custom_policy_builtin::inputs::WorkerInputs;
use dynamo_custom_policy_builtin::policy::{
    default_factory, default_policy, policy_for_role, policy_with_rng, DefaultWorkerSelector,
};
use dynamo_custom_policy_builtin::stream::SeededStream;

fn number(value: f64) -> Binary64 {
    Binary64::from_bits(value.to_bits())
}

#[test]
fn default_settings_are_the_hosts() {
    let host = dynamo_kv_router::KvRouterConfig::default();
    assert_eq!(
        KvRouterConfig::default(),
        KvRouterConfig {
            overlap_score_credit: number(host.overlap_score_credit),
            overlap_score_credit_decay: number(host.overlap_score_credit_decay),
            prefill_load_scale: number(host.prefill_load_scale),
            decode_active_request_weight: number(host.decode_active_request_weight),
            host_cache_hit_weight: number(host.host_cache_hit_weight),
            disk_cache_hit_weight: number(host.disk_cache_hit_weight),
            shared_cache_multiplier: number(host.shared_cache_multiplier.unwrap_or(0.0)),
            router_temperature: number(host.router_temperature),
            conditional_disagg_enabled: host.conditional_disagg_enabled,
        }
    );
    assert_eq!(KvRouterConfig::default().host_cache_hit_weight, number(0.75));
    assert_eq!(KvRouterConfig::default().disk_cache_hit_weight, number(0.25));
}

#[test]
fn the_default_policy_has_one_picker() {
    let config = KvRouterConfig { prefill_load_scale: number(2.0), ..KvRouterConfig::default() };
    let policy = default_policy(config, "decode");
    assert_eq!(policy.worker_label, "decode");
    assert!(policy.exclusive_affinity);
    assert_eq!(policy.picker.worker_label, "decode");
    assert_eq!(policy.picker.config, config);
    assert_eq!(policy.picker.rng, None);
    assert!(!policy.picker.plain_decode);
    let seeded = policy_with_rng(config, "prefill", Some(SeededStream::with_seed(8)), true);
    assert_eq!(seeded.picker.rng, Some(SeededStream { state: 8 }));
    assert!(seeded.picker.plain_decode);
}

#[test]
fn only_unconditional_decode_pools_decode_only() {
    for conditional_disagg_enabled in [false, true] {
        let config = KvRouterConfig { conditional_disagg_enabled, ..KvRouterConfig::default() };
        for role in [
            WorkerType::Prefill,
            WorkerType::Decode,
            WorkerType::Encode,
            WorkerType::Aggregated,
        ] {
            let plain = role == WorkerType::Decode && !conditional_disagg_enabled;
            for policy in [policy_for_role(config, role), default_factory().create(&config, role)] {
                assert_eq!(policy.picker.plain_decode, plain);
                assert_eq!(policy.worker_label, role.default_selector_label());
                assert_eq!(policy.picker.config, config);
                assert_eq!(policy.picker.rng, None);
            }
        }
    }
}

#[test]
fn selectors_fall_back_to_default_settings() {
    let selector = DefaultWorkerSelector::new(None, "decode");
    assert_eq!(selector.kv_router_config, KvRouterConfig::default());
    assert_eq!(selector.worker_type, "decode");
    assert_eq!(selector.rng, None);
    assert_eq!(selector.policy.picker.rng, None);
    let config = KvRouterConfig { router_temperature: number(0.3), ..KvRouterConfig::default() };
    let seeded = DefaultWorkerSelector::new_seeded(Some(config), "prefill", 99);
    assert_eq!(seeded.kv_router_config, config);
    assert_eq!(seeded.rng, Some(SeededStream { state: 99 }));
    assert_eq!(seeded.policy.picker.rng, seeded.rng);
    assert!(!seeded.policy.picker.plain_decode);
    assert_eq!(seeded.policy.picker.config, config);
}

#[test]
fn selectors_ask_for_cache_and_load() {
    let selector = DefaultWorkerSelector::new(None, "decode");
    assert_eq!(
        selector.required_worker_inputs(),
        WorkerInputs { cache: true, load: true, preferred_taint: false }
    );
    assert!(selector.uses_exclusive_affinity_target());
}

#[test]
fn only_one_label_is_decode() {
    assert!(is_decode_label("decode"));
    for label in ["", "Decode", "decode ", "prefill", "decod"] {
        assert!(!is_decode_label(label));
    }
}
