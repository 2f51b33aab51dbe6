use dynamo_custom_policy_builtin::binary64::Binary64;
use dynamo_custom_policy_builtin::config::KvRouterConfig;
use dynamo_custom_policy_builtin::cost::CostModel;
use dynamo_custom_policy_builtin::inputs::{
    SharedCacheHits, WorkerCacheInput, WorkerCandidate, WorkerInputs, WorkerLoadInput,
    WorkerSelectionContext, WorkerSelectionPolicyError,
};
use dynamo_custom_policy_builtin::scorer::{
    build, DefaultScorer, IntegerDivisor, PreparedRequest, Scorer,
};

fn number(value: f64) -> Binary64 {
    Binary64::from_bits(value.to_bits())
}

/// Numbers for settings, all different, with every weight in use.
fn settings() -> KvRouterConfig {
    KvRouterConfig {
        overlap_score_credit: number(0.9),
        overlap_score_credit_decay: number(1.7),
        prefill_load_scale: number(1.1),
        decode_active_request_weight: number(0.3),
        host_cache_hit_weight: number(0.7),
        disk_cache_hit_weight: number(0.2),
        shared_cache_multiplier: number(0.45),
        router_temperature: number(0.0),
        conditional_disagg_enabled: false,
    }
}

fn request() -> WorkerSelectionContext {
    WorkerSelectionContext {
        prompt_tokens: 1000,
        request_blocks: 63,
        block_size: 16,
        tracks_prefill_tokens: true,
        has_tier_matches: false,
        shared_cache_hits: Some(SharedCacheHits { ranges: vec![(0, 4), (6, 20), (30, 31)] }),
        pinned_worker: None,
    }
}

fn cached() -> WorkerCacheInput {
    WorkerCacheInput {
        estimated_overlap: number(7.5),
        cached_tokens: 120,
        device_overlap_blocks: number(5.0),
        host_overlap_blocks: number(3.0),
        disk_overlap_blocks: number(11.0),
        shared_beyond_device_blocks: 9,
    }
}

fn loaded(active_prefill_tokens: usize) -> WorkerLoadInput {
    WorkerLoadInput {
        available: true,
        active_prefill_tokens,
        decode_cost_blocks: number(40.3),
        active_requests: 5,
    }
}

fn candidate(cache: WorkerCacheInput, load: WorkerLoadInput) -> WorkerCandidate {
    WorkerCandidate { cache: Some(cache), load: Some(load), preferred_taint_multiplier: None }
}

fn value(number: Binary64) -> f64 {
    f64::from_bits(number.bits)
}

/// The cost formula in the machine's own arithmetic.
fn native_cost(
    config: &KvRouterConfig,
    is_decode: bool,
    plain_decode: bool,
    context: &WorkerSelectionContext,
    floor: usize,
    cache: &WorkerCacheInput,
    load: &WorkerLoadInput,
    preference: Option<f64>,
) -> f64 {
    let device = value(if context.has_tier_matches {
        cache.device_overlap_blocks
    } else {
        cache.estimated_overlap
    });
    let shared = if context.has_tier_matches {
        cache.shared_beyond_device_blocks
    } else {
        let from = device.round().max(0.0) as u32;
        context.shared_cache_hits.as_ref().map_or(0, |hits| {
            hits.ranges
                .iter()
                .map(|&(start, end)| (start..end).filter(|&position| position >= from).count())
                .sum::<usize>() as u32
        })
    };
    let decay_rate = value(config.overlap_score_credit_decay);
    let decay = if context.tracks_prefill_tokens && decay_rate > 0.0 {
        let excess =
            load.active_prefill_tokens.saturating_sub(floor) as f64 / context.block_size as f64;
        1.0 / (1.0 + decay_rate * (excess / context.request_blocks as f64))
    } else {
        1.0
    };
    let overlap_credit = if plain_decode && !context.tracks_prefill_tokens {
        0.0
    } else {
        value(config.overlap_score_credit)
    };
    let credit = overlap_credit * decay * device
        + value(config.host_cache_hit_weight) * value(cache.host_overlap_blocks)
        + value(config.disk_cache_hit_weight) * value(cache.disk_overlap_blocks)
        + value(config.shared_cache_multiplier) * shared as f64;
    let request_cost = value(config.decode_active_request_weight) * load.active_requests as f64;
    let logit = if is_decode && !context.tracks_prefill_tokens && overlap_credit > 0.0 {
        (value(load.decode_cost_blocks) - credit).max(0.0) + request_cost
    } else {
        let raw_tokens = if !context.tracks_prefill_tokens {
            0
        } else if load.available {
            let uncached = context.prompt_tokens.saturating_sub(cache.cached_tokens);
            (load.active_prefill_tokens + uncached).saturating_add(cache.cached_tokens)
        } else {
            context.prompt_tokens
        };
        let prefill = (raw_tokens as f64 / context.block_size as f64 - credit).max(0.0);
        value(config.prefill_load_scale) * prefill + value(load.decode_cost_blocks) + request_cost
    };
    logit * preference.unwrap_or(1.0)
}

#[test]
fn prepared_division_preserves_score_rounding() {
    let counts = [0, 1, 7, 127, 2048, (1 << 53) - 1, 1 << 53, u64::MAX];
    for block_size in (0..32)
        .map(|shift| 1u64 << shift)
        .chain([3, 17, 63, u32::MAX as u64])
    {
        for request_blocks in (0..64).map(|shift| 1u64 << shift).chain([3, 127, u64::MAX]) {
            for count in counts {
                let blocks = IntegerDivisor::new(block_size).divide(number(count as f64));
                let expected = count as f64 / block_size as f64;
                assert_eq!(blocks.bits, expected.to_bits());
                assert_eq!(
                    IntegerDivisor::new(request_blocks).divide(blocks).bits,
                    (expected / request_blocks as f64).to_bits(),
                );
            }
        }
    }
}

#[test]
fn only_powers_of_two_have_a_reciprocal() {
    for shift in 0..64 {
        let divisor = IntegerDivisor::new(1 << shift);
        assert_eq!(divisor.value, number((1u64 << shift) as f64));
        assert_eq!(divisor.reciprocal, Some(number(1.0 / (1u64 << shift) as f64)));
    }
    for count in [0, 3, 6, 17, 63, u32::MAX as u64, u64::MAX, (1 << 63) + 1] {
        assert_eq!(IntegerDivisor::new(count).reciprocal, None);
    }
    assert_eq!(IntegerDivisor::default(), IntegerDivisor::new(1));
}

#[test]
fn costs_and_scores_agree_with_the_formula() {
    let mut cases = 0;
    for bits in 0..512u32 {
        let on = |bit: u32| bits >> bit & 1 == 1;
        let mut config = settings();
        if on(0) {
            config.decode_active_request_weight = number(if on(1) { -0.0 } else { 0.0 });
        }
        if on(2) {
            config.shared_cache_multiplier = number(if on(1) { -0.0 } else { 0.0 });
        }
        if on(3) {
            config.overlap_score_credit_decay = number(0.0);
        }
        let mut context = request();
        context.tracks_prefill_tokens = on(4);
        context.has_tier_matches = on(5);
        if on(6) {
            context.shared_cache_hits = None;
        }
        let plain_decode = on(7);
        let label = if on(8) { "decode" } else { "prefill" };
        for (block_size, request_blocks) in [(16, 63), (17, 64), (1, 1)] {
            context.block_size = block_size;
            context.request_blocks = request_blocks;
            for preference in [None, Some(0.35)] {
                let mut idle = loaded(64);
                idle.available = false;
                let loads = [loaded(300), loaded(4096), idle, loaded(64)];
                let model = CostModel { config, is_decode: on(8), plain_decode };
                let floor = if model.decays(&context) { 64 } else { 0 };
                let candidates: Vec<WorkerCandidate> = loads
                    .iter()
                    .map(|&load| WorkerCandidate {
                        preferred_taint_multiplier: preference.map(number),
                        ..candidate(cached(), load)
                    })
                    .collect();
                let mut scorer = build(&config, label, plain_decode);
                assert_eq!(scorer.prepare(&context, &candidates), Ok(()));
                for (row, load) in loads.iter().enumerate() {
                    let expected = native_cost(
                        &config,
                        on(8),
                        plain_decode,
                        &context,
                        floor,
                        &cached(),
                        load,
                        preference,
                    );
                    let cost =
                        model.cost(&context, floor, &cached(), load, preference.map(number));
                    assert_eq!(cost.bits, expected.to_bits());
                    let score = scorer.score(&context, &candidates[row]).unwrap();
                    assert_eq!(score.bits, expected.to_bits());
                    cases += 1;
                }
            }
        }
    }
    assert_eq!(cases, 512 * 3 * 2 * 4);
}

#[test]
fn one_cost_by_hand() {
    // 256 tokens are 16 blocks; half credit for 8 blocks leaves 12, and one request adds 0.5
    let config = KvRouterConfig {
        overlap_score_credit: number(0.5),
        decode_active_request_weight: number(0.5),
        ..KvRouterConfig::default()
    };
    let context = WorkerSelectionContext {
        prompt_tokens: 256,
        request_blocks: 16,
        shared_cache_hits: None,
        ..request()
    };
    let cache = WorkerCacheInput {
        estimated_overlap: number(8.0),
        cached_tokens: 128,
        device_overlap_blocks: number(0.0),
        host_overlap_blocks: number(0.0),
        disk_overlap_blocks: number(0.0),
        shared_beyond_device_blocks: 0,
    };
    let load = WorkerLoadInput {
        available: true,
        active_prefill_tokens: 0,
        decode_cost_blocks: number(2.0),
        active_requests: 1,
    };
    let model = CostModel { config, is_decode: false, plain_decode: false };
    assert_eq!(model.cost(&context, 0, &cache, &load, None), number(14.5));
    assert_eq!(model.cost(&context, 0, &cache, &load, Some(number(2.0))), number(29.0));
}

#[test]
fn a_weight_of_minus_zero_keeps_its_sign() {
    let config = KvRouterConfig {
        shared_cache_multiplier: number(-0.0),
        decode_active_request_weight: number(-0.0),
        ..KvRouterConfig::default()
    };
    let scorer = build(&config, "decode", true);
    match scorer {
        Scorer::Plain(plain) => {
            assert_eq!(plain.shared_cache_multiplier, number(-0.0));
            assert_eq!(plain.decode_active_request_weight, number(-0.0));
        }
        _ => panic!("both weights are zero"),
    }
}

#[test]
fn building_tells_the_weights_apart() {
    let mut config = KvRouterConfig::default();
    assert!(matches!(build(&config, "prefill", false), Scorer::Plain(_)));
    config.shared_cache_multiplier = number(0.5);
    assert!(matches!(build(&config, "prefill", false), Scorer::Shared(_)));
    config.decode_active_request_weight = number(0.5);
    assert!(matches!(build(&config, "prefill", false), Scorer::Both(_)));
    config.shared_cache_multiplier = number(0.0);
    assert!(matches!(build(&config, "prefill", false), Scorer::Requests(_)));
}

#[test]
fn a_new_scorer_has_nothing_prepared() {
    let scorer = DefaultScorer::<true, true>::new(&settings(), "decode", true);
    assert!(scorer.is_decode && scorer.plain_decode);
    assert_eq!(scorer.prepared, PreparedRequest::default());
    assert_eq!(scorer.prepared.overlap_credit, number(0.0));
    assert_eq!(scorer.prefill_load_scale, number(1.1));
    assert!(!DefaultScorer::<false, true>::new(&settings(), "decoder", true).is_decode);
    let all = WorkerInputs { cache: true, load: true, preferred_taint: true };
    assert_eq!(scorer.required_worker_inputs(), all);
    assert_eq!(build(&settings(), "prefill", false).required_worker_inputs(), all);
}

#[test]
fn preparing_needs_every_load_only_where_credit_decays() {
    let blank = WorkerCandidate { cache: None, load: None, preferred_taint_multiplier: None };
    let candidates = vec![candidate(cached(), loaded(90)), blank];
    let mut scorer = build(&settings(), "prefill", false);
    assert_eq!(
        scorer.prepare(&request(), &candidates),
        Err(WorkerSelectionPolicyError::LoadInputUnavailable)
    );
    let untracked = WorkerSelectionContext { tracks_prefill_tokens: false, ..request() };
    assert_eq!(scorer.prepare(&untracked, &candidates), Ok(()));
    let mut steady = build(
        &KvRouterConfig { overlap_score_credit_decay: number(0.0), ..settings() },
        "prefill",
        false,
    );
    assert_eq!(steady.prepare(&request(), &candidates), Ok(()));
}

#[test]
fn scoring_names_the_missing_input() {
    let scorer = build(&settings(), "prefill", false);
    let whole = candidate(cached(), loaded(90));
    assert_eq!(
        scorer.score(&request(), &WorkerCandidate { cache: None, ..whole }),
        Err(WorkerSelectionPolicyError::CacheInputUnavailable)
    );
    assert_eq!(
        scorer.score(&request(), &WorkerCandidate { load: None, ..whole }),
        Err(WorkerSelectionPolicyError::LoadInputUnavailable)
    );
    assert_eq!(
        scorer.score(&request(), &WorkerCandidate { cache: None, load: None, ..whole }),
        Err(WorkerSelectionPolicyError::CacheInputUnavailable)
    );
    assert!(scorer.score(&request(), &whole).is_ok());
}

#[test]
fn preparing_again_forgets_the_selection_before() {
    let few = vec![candidate(cached(), loaded(500))];
    let many = vec![candidate(cached(), loaded(10)), candidate(cached(), loaded(500))];
    let mut used = build(&settings(), "decode", true);
    assert_eq!(used.prepare(&request(), &many), Ok(()));
    let busy = used.score(&request(), &few[0]).unwrap();
    assert_eq!(used.prepare(&request(), &few), Ok(()));
    let mut fresh = build(&settings(), "decode", true);
    assert_eq!(fresh.prepare(&request(), &few), Ok(()));
    let alone = fresh.score(&request(), &few[0]).unwrap();
    assert_eq!(used.score(&request(), &few[0]).unwrap(), alone);
    // alone, the worker is the least loaded one and keeps its credit
    assert!(value(alone) < value(busy));
}

#[test]
fn plain_decode_reads_load_alone() {
    let model = CostModel { config: settings(), is_decode: true, plain_decode: true };
    let context = WorkerSelectionContext { tracks_prefill_tokens: false, ..request() };
    let nothing = WorkerCacheInput {
        estimated_overlap: number(0.0),
        cached_tokens: 0,
        device_overlap_blocks: number(0.0),
        host_overlap_blocks: number(0.0),
        disk_overlap_blocks: number(0.0),
        shared_beyond_device_blocks: 0,
    };
    let cost = model.cost(&context, 0, &cached(), &loaded(10), None);
    assert_eq!(cost, model.cost(&context, 0, &nothing, &loaded(900), None));
    assert_eq!(cost.bits, (1.1 * 0.0 + 40.3 + 0.3 * 5.0f64).to_bits());
    // where decode workers may also run prefill, overlap counts
    let conditional = CostModel { plain_decode: false, ..model };
    assert!(value(conditional.cost(&context, 0, &cached(), &loaded(10), None)) < value(cost));
}

#[test]
fn credit_decays_as_load_rises() {
    let model = CostModel { config: settings(), is_decode: false, plain_decode: false };
    let mut context = request();
    // a prompt that costs nothing, so that only credit moves with the load
    context.has_tier_matches = true;
    let saved = |tokens: usize| {
        let bare = WorkerCacheInput { device_overlap_blocks: number(0.0), ..cached() };
        value(model.cost(&context, 64, &bare, &loaded(tokens), None))
            - value(model.cost(&context, 64, &cached(), &loaded(tokens), None))
    };
    assert!(saved(64) > saved(640));
    assert!(saved(640) > saved(6400));
    assert!((saved(64) - 1.1 * 0.9 * 5.0).abs() < 1e-9);
}

#[test]
fn more_decode_load_costs_more_and_more_overlap_less() {
    let model = CostModel { config: settings(), is_decode: true, plain_decode: false };
    for tracks_prefill_tokens in [false, true] {
        let context =
            WorkerSelectionContext { tracks_prefill_tokens, has_tier_matches: true, ..request() };
        let base = value(model.cost(&context, 0, &cached(), &loaded(99), None));
        let heavier = WorkerLoadInput { decode_cost_blocks: number(41.0), ..loaded(99) };
        assert!(value(model.cost(&context, 0, &cached(), &heavier, None)) > base);
        let richer = WorkerCacheInput { device_overlap_blocks: number(6.0), ..cached() };
        assert!(value(model.cost(&context, 0, &richer, &loaded(99), None)) < base);
    }
}

#[test]
fn token_counts_saturate() {
    let model = CostModel { config: settings(), is_decode: false, plain_decode: false };
    let mut context = request();
    context.prompt_tokens = 5;
    let cache = WorkerCacheInput { cached_tokens: usize::MAX, ..cached() };
    let expected = native_cost(
        &settings(),
        false,
        false,
        &context,
        0,
        &cache,
        &loaded(77),
        None,
    );
    assert_eq!(model.cost(&context, 0, &cache, &loaded(77), None).bits, expected.to_bits());
}

#[test]
fn costs_follow_every_load_and_go_against_every_overlap() {
    for tracks_prefill_tokens in [false, true] {
        let context =
            WorkerSelectionContext { tracks_prefill_tokens, has_tier_matches: true, ..request() };
        let mut set = vec![candidate(cached(), loaded(10)), candidate(cached(), loaded(99))];
        let (cache, load) = (cached(), loaded(99));
        let better = [
            candidate(WorkerCacheInput { device_overlap_blocks: number(6.0), ..cache }, load),
            candidate(WorkerCacheInput { host_overlap_blocks: number(4.0), ..cache }, load),
            candidate(WorkerCacheInput { disk_overlap_blocks: number(12.0), ..cache }, load),
            candidate(WorkerCacheInput { shared_beyond_device_blocks: 10, ..cache }, load),
            candidate(cache, WorkerLoadInput { decode_cost_blocks: number(40.0), ..load }),
            candidate(cache, WorkerLoadInput { active_requests: 4, ..load }),
            candidate(cache, loaded(98)),
        ];
        set.extend(better);
        for preference in [None, Some(0.5), Some(0.0), Some(-0.0)] {
            for candidate in set.iter_mut() {
                candidate.preferred_taint_multiplier = preference.map(number);
            }
            let mut scorer = build(&settings(), "decode", false);
            assert_eq!(scorer.prepare(&context, &set), Ok(()));
            let scores: Vec<f64> = set
                .iter()
                .map(|candidate| value(scorer.score(&context, candidate).unwrap()))
                .collect();
            for (place, score) in scores.iter().enumerate().skip(2) {
                assert!(*score >= 0.0);
                assert!(*score <= scores[1]);
                let prefill = place == 8;
                if value(preference.map_or(number(1.0), number)) > 0.0
                    && (tracks_prefill_tokens || !prefill)
                {
                    assert!(*score < scores[1]);
                }
            }
        }
    }
}

#[test]
fn plain_decode_costs_its_load_whatever_is_cached() {
    let config = KvRouterConfig {
        host_cache_hit_weight: number(-0.0),
        shared_cache_multiplier: number(3.0),
        prefill_load_scale: number(-2.0),
        ..settings()
    };
    let model = CostModel { config, is_decode: true, plain_decode: true };
    let expected = (40.3 + 0.3 * 5.0) * 0.25f64;
    for (block_size, ranges) in [(16, vec![(0, 100)]), (7, vec![]), (0, vec![(3, 9), (20, 40)])] {
        let context = WorkerSelectionContext {
            tracks_prefill_tokens: false,
            block_size,
            shared_cache_hits: Some(SharedCacheHits { ranges }),
            ..request()
        };
        let cache = WorkerCacheInput { disk_overlap_blocks: number(-0.0), ..cached() };
        for floor in [0, 70] {
            let cost = model.cost(&context, floor, &cache, &loaded(10), Some(number(0.25)));
            assert_eq!(value(cost), expected);
        }
    }
}

#[test]
fn hits_need_to_count_only_where_they_earn_something() {
    let context = WorkerSelectionContext {
        shared_cache_hits: Some(SharedCacheHits { ranges: vec![(99, 50)] }),
        ..request()
    };
    let row = candidate(cached(), loaded(10));
    let sharing = build(&settings(), "prefill", false);
    assert!(!sharing.can_score(&context, &row));
    assert!(sharing.can_score(&request(), &row));
    let config = KvRouterConfig { shared_cache_multiplier: number(0.0), ..settings() };
    let plain = build(&config, "prefill", false);
    assert!(plain.can_score(&context, &row));
    assert_eq!(plain.score(&context, &row), plain.score(&request(), &row));
    let full = candidate(cached(), loaded(usize::MAX));
    assert!(!plain.can_score(&context, &full));
    assert!(plain.can_score(&context, &WorkerCandidate { load: None, ..full }));
}
