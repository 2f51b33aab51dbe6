use dynamo_custom_policy_builtin::binary64::Binary64;
use dynamo_custom_policy_builtin::config::KvRouterConfig;
use dynamo_custom_policy_builtin::inputs::{
    ScoredWorkerCandidate, SharedCacheHits, WorkerCacheInput, WorkerInputView, WorkerInputs, WorkerLoadInput,
    WorkerSelectionContext, WorkerSelectionPolicyError, WorkerWithDpRank,
};
use dynamo_custom_policy_builtin::picker::{lowest_by_draws, Choice, DefaultPicker, Leader};
use dynamo_custom_policy_builtin::policy::{default_policy, DefaultWorkerSelector};
use dynamo_custom_policy_builtin::stream::SeededStream;

fn number(value: f64) -> Binary64 {
    Binary64::from_bits(value.to_bits())
}

/// A selection in which a worker costs what its decode load says.
fn context() -> WorkerSelectionContext {
    WorkerSelectionContext {
        prompt_tokens: 64,
        request_blocks: 4,
        block_size: 16,
        tracks_prefill_tokens: false,
        has_tier_matches: false,
        shared_cache_hits: None,
        pinned_worker: None,
    }
}

fn table(workers: &[(u64, u32, f64)]) -> WorkerInputView {
    WorkerInputView {
        candidates: workers
            .iter()
            .map(|&(worker_id, dp_rank, _)| ScoredWorkerCandidate {
                worker: WorkerWithDpRank { worker_id, dp_rank },
                preferred_taint_multiplier: None,
            })
            .collect(),
        cache: Some(
            workers
                .iter()
                .map(|_| WorkerCacheInput {
                    estimated_overlap: number(0.0),
                    cached_tokens: 0,
                    device_overlap_blocks: number(0.0),
                    host_overlap_blocks: number(0.0),
                    disk_overlap_blocks: number(0.0),
                    shared_beyond_device_blocks: 0,
                })
                .collect(),
        ),
        load: Some(
            workers
                .iter()
                .map(|&(_, _, cost)| WorkerLoadInput {
                    available: true,
                    active_prefill_tokens: 0,
                    decode_cost_blocks: number(cost),
                    active_requests: 0,
                })
                .collect(),
        ),
    }
}

fn picker(temperature: f64, seed: Option<u64>) -> DefaultPicker {
    DefaultPicker {
        plain_decode: false,
        config: KvRouterConfig {
            router_temperature: number(temperature),
            ..KvRouterConfig::default()
        },
        worker_label: "prefill",
        rng: seed.map(SeededStream::with_seed),
    }
}

fn row(choice: Choice) -> (usize, Binary64) {
    match choice {
        Choice::Row(row, cost) => (row, cost),
        Choice::Sample(_) => panic!("nothing to sample"),
    }
}

#[test]
fn each_missing_input_is_an_error() {
    let whole = table(&[(1, 0, 2.0)]);
    let error = |input: &WorkerInputView| picker(0.0, None).decide(&context(), input).unwrap_err();
    let mut no_cache = whole.clone();
    no_cache.cache = None;
    assert_eq!(error(&no_cache), WorkerSelectionPolicyError::CacheInputUnavailable);
    let mut neither = no_cache.clone();
    neither.load = None;
    assert_eq!(error(&neither), WorkerSelectionPolicyError::CacheInputUnavailable);
    let mut no_load = whole.clone();
    no_load.load = None;
    assert_eq!(error(&no_load), WorkerSelectionPolicyError::LoadInputUnavailable);
    assert_eq!(error(&table(&[])), WorkerSelectionPolicyError::NoEligibleWorker);
}

#[test]
fn a_cost_that_is_not_finite_is_an_error() {
    for bad in [f64::INFINITY, f64::NEG_INFINITY, f64::NAN] {
        for place in 0..3 {
            let mut workers = [(1, 0, 2.0), (2, 0, 3.0), (3, 0, 2.0)];
            workers[place].2 = bad;
            for (temperature, seed) in [(0.0, None), (0.0, Some(7)), (0.5, None), (0.5, Some(7))] {
                let mut picker = picker(temperature, seed);
                assert_eq!(
                    picker.decide(&context(), &table(&workers)).unwrap_err(),
                    WorkerSelectionPolicyError::NonFiniteCost
                );
                assert_eq!(picker.rng, seed.map(SeededStream::with_seed));
            }
        }
    }
}

#[test]
fn the_lowest_cost_is_picked() {
    let workers = [(4, 0, 9.5), (2, 0, 3.25), (3, 1, 4.0), (1, 0, 3.5)];
    for seed in [None, Some(11)] {
        let choice = picker(0.0, seed).decide(&context(), &table(&workers)).unwrap();
        assert_eq!(row(choice), (1, number(3.25)));
    }
    // costs below zero are costs
    let negative = [(1, 0, 0.0), (2, 0, -1.5), (3, 0, -1.25)];
    let choice = picker(-0.0, None).decide(&context(), &table(&negative)).unwrap();
    assert_eq!(row(choice), (1, number(-1.5)));
}

#[test]
fn ties_are_broken_at_random() {
    let workers = [(1, 0, 5.0), (2, 0, 2.0), (3, 0, 2.0), (4, 0, 7.0), (5, 0, 2.0)];
    let mut hits = [0; 5];
    for _ in 0..400 {
        let choice = picker(0.0, None).decide(&context(), &table(&workers)).unwrap();
        let (row, cost) = row(choice);
        assert_eq!(cost, number(2.0));
        hits[row] += 1;
    }
    assert_eq!(hits[0] + hits[3], 0);
    assert!(hits[1] > 60 && hits[2] > 60 && hits[4] > 60);
}

#[test]
fn the_two_zeros_tie_and_the_first_names_the_cost() {
    let workers = [(1, 0, -0.0), (2, 0, 0.0)];
    // two zeros add up to a zero without a sign, so neither keeps one
    for _ in 0..20 {
        let choice = picker(0.0, None).decide(&context(), &table(&workers)).unwrap();
        assert_eq!(row(choice).1, number(0.0));
    }
}

#[test]
fn offers_follow_the_draws() {
    let mut leader = Leader::new();
    leader.offer(0, number(4.0), 3);
    assert_eq!(leader, Leader { row: 0, cost: number(4.0), ties: 1 });
    leader.offer(1, number(4.0), 1);
    assert_eq!(leader, Leader { row: 0, cost: number(4.0), ties: 2 });
    leader.offer(2, number(4.0), 0);
    assert_eq!(leader, Leader { row: 2, cost: number(4.0), ties: 3 });
    leader.offer(3, number(5.0), 0);
    assert_eq!(leader, Leader { row: 2, cost: number(4.0), ties: 3 });
    leader.offer(4, number(-1.0), 9);
    assert_eq!(leader, Leader { row: 4, cost: number(-1.0), ties: 1 });
}

#[test]
fn given_draws_single_out_a_row() {
    let costs: Vec<Binary64> = [5.0, 2.0, 2.0, 7.0, 2.0].into_iter().map(number).collect();
    let row = |draws: [usize; 5]| lowest_by_draws(&costs, &draws.to_vec()).row;
    assert_eq!(row([1, 1, 1, 1, 1]), 1);
    assert_eq!(row([1, 1, 0, 1, 1]), 2);
    assert_eq!(row([1, 1, 1, 1, 0]), 4);
    assert_eq!(row([0, 0, 0, 0, 2]), 2);
    assert_eq!(row([0; 5]), 4);
    let leader = lowest_by_draws(&costs, &vec![1; 5]);
    assert_eq!(leader, Leader { row: 1, cost: number(2.0), ties: 3 });
    assert_eq!(leader.bound(), 4);
    assert_eq!(lowest_by_draws(&vec![], &vec![]), Leader::new());
}

#[test]
fn seeded_ties_follow_the_generator() {
    let workers = [
        (9, 0, 2.0),
        (3, 1, 2.0),
        (3, 0, 2.0),
        (7, 0, 2.5),
        (1, 4, 2.0),
        (12, 0, 2.0),
        (5, 2, 3.0),
    ];
    let mut order: Vec<usize> = (0..workers.len()).collect();
    order.sort_by_key(|&row| (workers[row].0, workers[row].1));
    for seed in 0..200 {
        let mut picker = picker(0.0, Some(seed));
        let mut rng = fastrand::Rng::with_seed(seed);
        for _ in 0..5 {
            let mut best = 0;
            let mut best_cost = f64::INFINITY;
            let mut ties = 0;
            for (index, &row) in order.iter().enumerate() {
                let cost = workers[row].2;
                if cost < best_cost {
                    best = index;
                    best_cost = cost;
                    ties = 1;
                } else if cost == best_cost {
                    ties += 1;
                    if rng.usize(0..ties) == 0 {
                        best = index;
                    }
                }
            }
            let choice = picker.decide(&context(), &table(&workers)).unwrap();
            assert_eq!(row(choice), (order[best], number(2.0)));
            assert_eq!(picker.rng.unwrap().state, rng.get_seed());
        }
    }
}

#[test]
fn replay_does_not_depend_on_row_order() {
    let workers = [(9, 0, 2.0), (3, 1, 2.0), (3, 0, 2.0), (7, 0, 2.5), (1, 4, 2.0)];
    let mut turned = workers;
    turned.reverse();
    turned.swap(1, 3);
    for seed in 0..50 {
        let mut first = picker(0.0, Some(seed));
        let mut second = picker(0.0, Some(seed));
        for _ in 0..4 {
            let (a, cost) = row(first.decide(&context(), &table(&workers)).unwrap());
            let (b, same) = row(second.decide(&context(), &table(&turned)).unwrap());
            assert_eq!((workers[a].0, workers[a].1), (turned[b].0, turned[b].1));
            assert_eq!(cost, same);
            assert_eq!(first.rng, second.rng);
        }
    }
}

#[test]
fn a_pinned_worker_is_the_first_row() {
    let workers = [(4, 0, 9.5), (2, 0, 3.25)];
    let pinned = WorkerSelectionContext {
        pinned_worker: Some(WorkerWithDpRank { worker_id: 4, dp_rank: 0 }),
        ..context()
    };
    for (temperature, seed) in [(0.0, Some(3)), (0.5, None), (0.5, Some(3))] {
        let mut picker = picker(temperature, seed);
        let choice = picker.decide(&pinned, &table(&workers)).unwrap();
        assert_eq!(row(choice), (0, number(9.5)));
        assert_eq!(picker.rng, seed.map(SeededStream::with_seed));
    }
    // the lowest cost needs no pin
    let choice = picker(0.0, None).decide(&pinned, &table(&workers)).unwrap();
    assert_eq!(row(choice), (1, number(3.25)));
}

#[test]
fn a_temperature_hands_out_entries_to_sample() {
    let workers = [(9, 0, 2.0), (3, 1, 2.25), (3, 0, 2.5), (7, 0, 2.75)];
    for temperature in [0.5, -1.0, f64::NAN] {
        match picker(temperature, None).decide(&context(), &table(&workers)).unwrap() {
            Choice::Sample(entries) => assert_eq!(
                entries,
                vec![
                    (0, number(2.0)),
                    (1, number(2.25)),
                    (2, number(2.5)),
                    (3, number(2.75))
                ]
            ),
            Choice::Row(..) => panic!("one entry is to be sampled"),
        }
        let mut seeded = picker(temperature, Some(5));
        match seeded.decide(&context(), &table(&workers)).unwrap() {
            Choice::Sample(entries) => assert_eq!(
                entries,
                vec![
                    (2, number(2.5)),
                    (1, number(2.25)),
                    (3, number(2.75)),
                    (0, number(2.0))
                ]
            ),
            Choice::Row(..) => panic!("one entry is to be sampled"),
        }
        // the sample is the caller's to draw
        assert_eq!(seeded.rng, Some(SeededStream::with_seed(5)));
    }
}

#[test]
fn preferences_and_decay_reach_the_choice() {
    let mut input = table(&[(1, 0, 4.0), (2, 0, 3.0)]);
    input.candidates[0].preferred_taint_multiplier = Some(number(0.5));
    let choice = picker(0.0, None).decide(&context(), &input).unwrap();
    assert_eq!(row(choice), (0, number(2.0)));
    // both hold four blocks; only the least loaded worker keeps its credit whole
    let mut input = table(&[(1, 0, 0.0), (2, 0, 0.0)]);
    for cache in input.cache.as_mut().unwrap() {
        cache.estimated_overlap = number(4.0);
        cache.cached_tokens = 64;
    }
    input.load.as_mut().unwrap()[0].active_prefill_tokens = 192;
    input.load.as_mut().unwrap()[1].active_prefill_tokens = 128;
    let counted = WorkerSelectionContext { tracks_prefill_tokens: true, ..context() };
    let mut decaying = picker(0.0, None);
    decaying.config.overlap_score_credit_decay = number(1.0);
    let choice = decaying.decide(&counted, &input).unwrap();
    // (128 + 64) / 16 blocks, less four
    assert_eq!(row(choice), (1, number(8.0)));
    let mut single = table(&[(1, 0, 0.0)]);
    single.load.as_mut().unwrap()[0].active_prefill_tokens = 192;
    single.cache.as_mut().unwrap()[0].estimated_overlap = number(4.0);
    let choice = decaying.decide(&counted, &single).unwrap();
    assert_eq!(row(choice), (0, number(12.0)));
}

#[test]
fn selectors_that_share_a_stream_choose_as_one() {
    let workers = [(9, 0, 2.0), (3, 1, 2.0), (3, 0, 2.0), (7, 0, 2.0), (1, 4, 2.0)];
    let mut alone = DefaultWorkerSelector::new_seeded(None, "prefill", 21).policy.picker;
    let first = DefaultWorkerSelector::new_seeded(None, "prefill", 21);
    let mut stream = first.rng;
    for _ in 0..20 {
        let expected = row(alone.decide(&context(), &table(&workers)).unwrap());
        let mut shared = first.drawing_from(stream).policy.picker;
        let choice = row(shared.decide(&context(), &table(&workers)).unwrap());
        stream = shared.rng;
        assert_eq!(choice, expected);
    }
    assert_ne!(stream, first.rng);
}

#[test]
fn the_picker_reads_all_signals() {
    assert_eq!(
        default_policy(KvRouterConfig::default(), "decode").picker.required_worker_inputs(),
        WorkerInputs { cache: true, load: true, preferred_taint: true }
    );
}

#[test]
fn streams_draw_as_the_generator_does() {
    for seed in [0, 1, 42, u64::MAX] {
        let mut stream = SeededStream::with_seed(seed);
        let mut rng = fastrand::Rng::with_seed(seed);
        for bound in [1, 2, 3, 10, 1 << 40, usize::MAX] {
            assert_eq!(stream.draw(bound), rng.usize(0..bound));
            assert_eq!(stream.state, rng.get_seed());
        }
    }
}

#[test]
fn only_rows_before_an_error_need_to_count() {
    let counted = WorkerSelectionContext { tracks_prefill_tokens: true, ..context() };
    let mut input = table(&[(1, 0, 2.0), (2, 0, 3.0), (3, 0, 4.0)]);
    let mut chooser = picker(0.0, None);
    assert!(chooser.can_decide(&counted, &input));
    input.load.as_mut().unwrap()[2].active_prefill_tokens = usize::MAX;
    assert!(!chooser.can_decide(&counted, &input));
    // untracked, nothing is added up
    assert!(chooser.can_decide(&context(), &input));
    // a cost that is not finite comes first
    input.load.as_mut().unwrap()[1].decode_cost_blocks = number(f64::INFINITY);
    assert!(chooser.can_decide(&counted, &input));
    assert_eq!(
        chooser.decide(&counted, &input).unwrap_err(),
        WorkerSelectionPolicyError::NonFiniteCost
    );
    // a missing column comes before anything is counted
    input.load = None;
    assert!(chooser.can_decide(&counted, &input));
    input.cache.as_mut().unwrap().pop();
    assert!(!chooser.can_decide(&counted, &input));
}

#[test]
fn hits_that_no_row_reads_need_not_count() {
    let reversed = SharedCacheHits { ranges: vec![(9, 5)] };
    let mut context = WorkerSelectionContext { shared_cache_hits: Some(reversed), ..context() };
    let input = table(&[(1, 0, 2.0)]);
    let mut chooser = picker(0.0, None);
    assert!(!chooser.can_decide(&context, &input));
    context.has_tier_matches = true;
    assert!(chooser.can_decide(&context, &input));
    assert_eq!(row(chooser.decide(&context, &input).unwrap()), (0, number(2.0)));
}

#[test]
fn plain_decode_chooses_by_load_alone() {
    let workers = [(9, 0, 2.0), (3, 1, 2.0), (3, 0, 2.0), (7, 0, 2.5), (1, 4, 2.0)];
    let bare = table(&workers);
    let mut rich = table(&workers);
    for (row, cache) in rich.cache.as_mut().unwrap().iter_mut().enumerate() {
        cache.estimated_overlap = number(row as f64);
        cache.host_overlap_blocks = number(10.0 * row as f64);
        cache.disk_overlap_blocks = number(-0.0);
        cache.cached_tokens = 16 * row;
    }
    let hits = SharedCacheHits { ranges: vec![(0, 3), (5, 9)] };
    let shared = WorkerSelectionContext { shared_cache_hits: Some(hits), ..context() };
    for seed in 0..30 {
        let mut first = picker(0.0, Some(seed));
        first.plain_decode = true;
        first.worker_label = "decode";
        first.config.shared_cache_multiplier = number(2.0);
        let mut second = first;
        for _ in 0..3 {
            let choice = row(first.decide(&context(), &bare).unwrap());
            assert_eq!(choice, row(second.decide(&shared, &rich).unwrap()));
            assert_eq!(choice.1, number(2.0));
            assert_eq!(first.rng, second.rng);
        }
    }
}
