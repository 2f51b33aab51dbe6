use dynamo_custom_policy_builtin::config::WorkerType;
use dynamo_custom_policy_builtin::inputs::{SharedCacheHits, WorkerSelectionPolicyError};

#[test]
fn hits_beyond_counts_positions() {
    let ranges = vec![(0, 4), (4, 4), (6, 20), (30, 31), (40, u32::MAX)];
    let hits = SharedCacheHits { ranges: ranges.clone() };
    let host = dynamo_kv_router::SharedCacheHits::from_ranges(
        ranges.iter().map(|&(start, end)| start..end).collect(),
    );
    for from in [0, 1, 3, 4, 5, 6, 7, 19, 20, 21, 30, 31, 39, 40, 41, u32::MAX - 1, u32::MAX] {
        assert_eq!(hits.hits_beyond(from), host.hits_beyond(from));
    }
    assert_eq!(hits.hits_beyond(7), 13 + 1 + (u32::MAX - 40));
    assert_eq!(SharedCacheHits { ranges: vec![] }.hits_beyond(0), 0);
    // ranges out of order, or overlapping, add up
    let mixed = SharedCacheHits { ranges: vec![(8, 12), (0, 10)] };
    assert_eq!(mixed.hits_beyond(0), 14);
    assert_eq!(mixed.hits_beyond(9), 4);
}

#[test]
fn pool_labels_are_the_hosts() {
    for (role, host) in [
        (WorkerType::Prefill, dynamo_kv_router::WorkerType::Prefill),
        (WorkerType::Decode, dynamo_kv_router::WorkerType::Decode),
        (WorkerType::Encode, dynamo_kv_router::WorkerType::Encode),
        (WorkerType::Aggregated, dynamo_kv_router::WorkerType::Aggregated),
    ] {
        assert_eq!(role.default_selector_label(), host.default_selector_label());
    }
    assert_eq!(WorkerType::Prefill.default_selector_label(), "prefill");
    assert_eq!(WorkerType::Encode.default_selector_label(), "decode");
}

#[test]
fn errors_have_their_texts() {
    for (error, text) in [
        (WorkerSelectionPolicyError::CacheInputUnavailable, "cache input unavailable"),
        (WorkerSelectionPolicyError::LoadInputUnavailable, "load input unavailable"),
        (WorkerSelectionPolicyError::NoEligibleWorker, "no eligible worker"),
        (WorkerSelectionPolicyError::NonFiniteCost, "default policy produced non-finite cost"),
    ] {
        assert_eq!(error.message(), text);
    }
}

#[test]
fn only_hits_that_are_reached_need_to_count() {
    let reversed = SharedCacheHits { ranges: vec![(9, 5), (6, 20)] };
    assert!(!reversed.can_count(0));
    assert!(!reversed.can_count(4));
    assert!(reversed.can_count(5));
    assert_eq!(reversed.hits_beyond(5), 14);
    assert_eq!(reversed.hits_beyond(10), 10);
    let many = SharedCacheHits { ranges: vec![(0, u32::MAX), (0, 10)] };
    assert!(!many.can_count(0));
    assert!(!many.can_count(4));
    assert!(many.can_count(5));
    assert_eq!(many.hits_beyond(5), u32::MAX);
    assert!(SharedCacheHits { ranges: vec![] }.can_count(0));
}
