use videos::algo::{
    algo, cache_filling, cache_spreading, descent, descent_gain, validate, GainMode, Mode,
    ValidationError,
};
use videos::amend::{descent_amend, segmented_gain};
use videos::types::{CacheInfo, Endpoint, LatencyTable, Request, Video};

fn endpoint_with(entries: &[(i32, i32)]) -> LatencyTable {
    let mut table = LatencyTable::new();
    for &(k, v) in entries {
        table.insert(k, v);
    }
    table
}

#[test]
fn test_gain_1() {
    let cache_info = CacheInfo::new(1, 500);
    let videos = vec![Video::new(0, 100)];
    let endpoint0_relation = endpoint_with(&[(-1, 200), (0, 100)]);
    let endpoints = vec![Endpoint::new(0, endpoint0_relation)];
    let requests = vec![Request::new(0, 0, 1000)];
    let gain = descent_gain(GainMode::PureGain, &cache_info, &videos, endpoints, requests);
    let first = gain.iter().find(|t| t.2 == 100000).unwrap();
    assert_eq!((first.0, first.1), (0, 0));
}

#[test]
fn test_gain_2() {
    let cache_info = CacheInfo::new(1, 500);
    let videos = vec![Video::new(0, 100), Video::new(1, 200)];
    let endpoint0_relation = endpoint_with(&[(-1, 200), (0, 100)]);
    let endpoints = vec![Endpoint::new(0, endpoint0_relation)];
    let requests = vec![Request::new(0, 0, 1000), Request::new(1, 0, 1500)];
    let gain = descent_gain(GainMode::PureGain, &cache_info, &videos, endpoints, requests);

    let first = gain.iter().find(|t| t.2 == 100000).unwrap();
    assert_eq!((first.0, first.1), (0, 0));
    let second = gain.iter().find(|t| t.2 == 150000).unwrap();
    assert_eq!((second.0, second.1), (1, 0));
}

#[test]
fn test_gain_3() {
    let cache_info = CacheInfo::new(1, 500);
    let videos = vec![Video::new(0, 100)];
    let endpoint0_relation = endpoint_with(&[(-1, 300), (0, 200)]);
    let endpoint1_relation = endpoint_with(&[(-1, 300), (0, 100)]);
    let endpoints = vec![
        Endpoint::new(0, endpoint0_relation),
        Endpoint::new(1, endpoint1_relation),
    ];
    let requests = vec![Request::new(0, 0, 1000), Request::new(0, 1, 1500)];
    let gain = descent_gain(GainMode::PureGain, &cache_info, &videos, endpoints, requests);

    // Per-endpoint savings are (300-200)*1000 and (300-100)*1500, summed
    // with exact arithmetic.
    let first = gain.iter().find(|t| t.2 == 100000 + 300000).unwrap();
    assert_eq!((first.0, first.1), (0, 0));
}

#[test]
fn test_breakdown_sums_to_score() {
    let cache_info = CacheInfo::new(1, 500);
    let videos = vec![Video::new(0, 100)];
    let endpoints = vec![
        Endpoint::new(0, endpoint_with(&[(-1, 300), (0, 200)])),
        Endpoint::new(1, endpoint_with(&[(-1, 300), (0, 100)])),
    ];
    let requests = vec![Request::new(0, 0, 1000), Request::new(0, 1, 1500)];
    let segmented = segmented_gain(&cache_info, &videos, endpoints, requests);
    assert_eq!(segmented.len(), 1);
    assert_eq!(segmented[0].video_id, 0);
    assert_eq!(segmented[0].cache_id, 0);
    assert_eq!(segmented[0].savings, vec![(0, 100000), (1, 300000)]);
    let total: i128 = segmented[0].savings.iter().map(|e| e.1).sum();
    assert_eq!(total, 400000);
}

#[test]
fn test_scenario_a_item_is_placed() {
    let cache_info = CacheInfo::new(1, 500);
    let videos = vec![Video::new(0, 100)];
    let endpoints = vec![Endpoint::new(0, endpoint_with(&[(-1, 200), (0, 100)]))];
    let requests = vec![Request::new(0, 0, 1000)];
    let result = descent(GainMode::PureGain, cache_info, videos, endpoints, requests);
    assert_eq!(result, vec![vec![0]]);
}

#[test]
fn test_scenario_b_higher_score_first_both_fit() {
    let cache_info = CacheInfo::new(1, 500);
    let videos = vec![Video::new(0, 100), Video::new(1, 200)];
    let endpoints = vec![Endpoint::new(0, endpoint_with(&[(-1, 200), (0, 100)]))];
    let requests = vec![Request::new(0, 0, 1000), Request::new(1, 0, 1500)];
    let gain = descent_gain(
        GainMode::PureGain,
        &cache_info,
        &videos,
        vec![Endpoint::new(0, endpoint_with(&[(-1, 200), (0, 100)]))],
        requests.clone(),
    );
    // Item 1 scores 150000 > 100000, so it is attempted first.
    assert_eq!(gain[0], (1, 0, 150000));
    assert_eq!(gain[1], (0, 0, 100000));
    let result = descent(GainMode::PureGain, cache_info, videos, endpoints, requests);
    assert_eq!(result, vec![vec![0, 1]]);
}

#[test]
fn test_audience_score_zero_demand_is_zero() {
    let cache_info = CacheInfo::new(1, 500);
    let videos = vec![Video::new(0, 100)];
    let endpoints = vec![Endpoint::new(0, endpoint_with(&[(-1, 200), (0, 100)]))];
    let requests = vec![];
    let gain = descent_gain(GainMode::GainOverAudience, &cache_info, &videos, endpoints, requests);
    assert_eq!(gain, vec![(0, 0, 0)]);
}

#[test]
fn test_gain_over_cost_truncates() {
    let cache_info = CacheInfo::new(1, 500);
    let videos = vec![Video::new(0, 3)];
    let endpoints = vec![Endpoint::new(0, endpoint_with(&[(-1, 200), (0, 100)]))];
    let requests = vec![Request::new(0, 0, 1)];
    // Raw gain 100 over size 3 truncates toward zero.
    let gain = descent_gain(GainMode::GainOverCost, &cache_info, &videos, endpoints, requests);
    assert_eq!(gain, vec![(0, 0, 33)]);
}

#[test]
fn test_zero_caches_empty_output() {
    let cache_info = CacheInfo::new(0, 100);
    let result = algo(Mode::Descent, cache_info, vec![], vec![], vec![]).unwrap();
    assert_eq!(result, Vec::<Vec<i32>>::new());
}

#[test]
fn test_zero_items_empty_output() {
    let cache_info = CacheInfo::new(1, 100);
    let endpoints = vec![Endpoint::new(0, endpoint_with(&[(-1, 200), (0, 100)]))];
    let result = algo(Mode::Descent, cache_info, vec![], endpoints, vec![]).unwrap();
    assert_eq!(result, vec![Vec::<i32>::new()]);
}

#[test]
fn test_cache_spreading_round_robin() {
    let cache_info = CacheInfo::new(2, 10);
    let videos = vec![Video::new(0, 5), Video::new(1, 5), Video::new(2, 5)];
    let result = cache_spreading(cache_info, videos);
    assert_eq!(result, vec![vec![0, 2], vec![1]]);
}

#[test]
fn test_cache_spreading_never_retries() {
    let cache_info = CacheInfo::new(2, 10);
    // Video 1 does not fit cache 1 and is simply never placed.
    let videos = vec![Video::new(0, 5), Video::new(1, 11), Video::new(2, 5)];
    let result = cache_spreading(cache_info, videos);
    assert_eq!(result, vec![vec![0, 2], vec![]]);
}

#[test]
fn test_cache_filling_first_fit() {
    let cache_info = CacheInfo::new(2, 10);
    let videos = vec![Video::new(0, 5), Video::new(1, 5), Video::new(2, 5)];
    let result = cache_filling(cache_info, videos);
    assert_eq!(result, vec![vec![0, 1], vec![2]]);
}

#[test]
fn test_cache_filling_skips_unplaceable() {
    let cache_info = CacheInfo::new(1, 10);
    let videos = vec![Video::new(0, 7), Video::new(1, 11), Video::new(2, 3)];
    let result = cache_filling(cache_info, videos);
    assert_eq!(result, vec![vec![0, 2]]);
}

#[test]
fn test_best_video_places_by_demand() {
    let cache_info = CacheInfo::new(1, 500);
    let videos = vec![Video::new(0, 100), Video::new(1, 200)];
    let endpoints = vec![Endpoint::new(0, endpoint_with(&[(-1, 200), (0, 100)]))];
    let requests = vec![Request::new(0, 0, 1000), Request::new(1, 0, 1500)];
    let result = algo(Mode::BestVideo, cache_info, videos, endpoints, requests).unwrap();
    assert_eq!(result, vec![vec![0, 1]]);
}

#[test]
fn test_descent_amend_places_best_pair() {
    let cache_info = CacheInfo::new(1, 500);
    let videos = vec![Video::new(0, 100), Video::new(1, 200)];
    let endpoints = vec![Endpoint::new(0, endpoint_with(&[(-1, 200), (0, 100)]))];
    let requests = vec![Request::new(0, 0, 1000), Request::new(1, 0, 1500)];
    let result = descent_amend(cache_info, videos, endpoints, requests);
    assert_eq!(result, vec![vec![0, 1]]);
}

#[test]
fn test_descent_amend_discounts_shared_endpoint() {
    // One video, two caches, one endpoint served by both: once the video
    // is stored on the first cache, the second placement gains nothing
    // and is not made.
    let cache_info = CacheInfo::new(2, 500);
    let videos = vec![Video::new(0, 100)];
    let endpoints = vec![Endpoint::new(0, endpoint_with(&[(-1, 200), (0, 100), (1, 100)]))];
    let requests = vec![Request::new(0, 0, 1000)];
    let result = descent_amend(cache_info, videos, endpoints, requests);
    assert_eq!(result, vec![vec![0], vec![]]);
}

#[test]
fn test_dummy_mode_stores_nothing() {
    let cache_info = CacheInfo::new(2, 100);
    let videos = vec![Video::new(0, 5)];
    let result = algo(Mode::Dummy, cache_info, videos, vec![], vec![]).unwrap();
    assert_eq!(result, Vec::<Vec<i32>>::new());
}

#[test]
fn test_validate_accepts_well_formed_input() {
    let cache_info = CacheInfo::new(1, 500);
    let videos = vec![Video::new(0, 100)];
    let endpoints = vec![Endpoint::new(0, endpoint_with(&[(-1, 200), (0, 100)]))];
    let requests = vec![Request::new(0, 0, 1000)];
    assert!(validate(&cache_info, &videos, &endpoints, &requests).is_ok());
}

#[test]
fn test_error_bad_cache_info() {
    let r = algo(Mode::Descent, CacheInfo::new(-1, 10), vec![], vec![], vec![]);
    assert_eq!(r.unwrap_err(), ValidationError::BadCacheInfo);
}

#[test]
fn test_error_bad_video_id() {
    let r = algo(Mode::Descent, CacheInfo::new(1, 10), vec![Video::new(5, 1)], vec![], vec![]);
    assert_eq!(r.unwrap_err(), ValidationError::BadVideoId);
}

#[test]
fn test_error_bad_video_size() {
    let r = algo(Mode::Descent, CacheInfo::new(1, 10), vec![Video::new(0, -1)], vec![], vec![]);
    assert_eq!(r.unwrap_err(), ValidationError::BadVideoSize);
}

#[test]
fn test_error_bad_endpoint_id() {
    let endpoints = vec![Endpoint::new(3, endpoint_with(&[(-1, 200)]))];
    let r = algo(Mode::Descent, CacheInfo::new(1, 10), vec![], endpoints, vec![]);
    assert_eq!(r.unwrap_err(), ValidationError::BadEndpointId);
}

#[test]
fn test_error_missing_origin_latency() {
    let endpoints = vec![Endpoint::new(0, endpoint_with(&[(0, 100)]))];
    let r = algo(Mode::Descent, CacheInfo::new(1, 10), vec![], endpoints, vec![]);
    assert_eq!(r.unwrap_err(), ValidationError::MissingOriginLatency);
}

#[test]
fn test_error_unknown_cache_id() {
    let endpoints = vec![Endpoint::new(0, endpoint_with(&[(-1, 200), (5, 100)]))];
    let r = algo(Mode::Descent, CacheInfo::new(1, 10), vec![], endpoints, vec![]);
    assert_eq!(r.unwrap_err(), ValidationError::UnknownCacheId);
}

#[test]
fn test_error_unknown_video_id() {
    let endpoints = vec![Endpoint::new(0, endpoint_with(&[(-1, 200), (0, 100)]))];
    let requests = vec![Request::new(3, 0, 10)];
    let r = algo(Mode::Descent, CacheInfo::new(1, 10), vec![Video::new(0, 1)], endpoints, requests);
    assert_eq!(r.unwrap_err(), ValidationError::UnknownVideoId);
}

#[test]
fn test_error_unknown_endpoint_id() {
    let endpoints = vec![Endpoint::new(0, endpoint_with(&[(-1, 200), (0, 100)]))];
    let requests = vec![Request::new(0, 3, 10)];
    let r = algo(Mode::Descent, CacheInfo::new(1, 10), vec![Video::new(0, 1)], endpoints, requests);
    assert_eq!(r.unwrap_err(), ValidationError::UnknownEndpointId);
}

#[test]
fn test_later_demand_record_overwrites_earlier() {
    let cache_info = CacheInfo::new(1, 500);
    let videos = vec![Video::new(0, 100)];
    let endpoints = vec![Endpoint::new(0, endpoint_with(&[(-1, 200), (0, 100)]))];
    let requests = vec![Request::new(0, 0, 1000), Request::new(0, 0, 7)];
    let gain = descent_gain(GainMode::PureGain, &cache_info, &videos, endpoints, requests);
    assert_eq!(gain, vec![(0, 0, 700)]);
}

#[test]
fn test_negative_saving_reduces_score() {
    // The cache path is slower than the origin: the contribution is
    // negative and not clamped.
    let cache_info = CacheInfo::new(1, 500);
    let videos = vec![Video::new(0, 100)];
    let endpoints = vec![Endpoint::new(0, endpoint_with(&[(-1, 100), (0, 300)]))];
    let requests = vec![Request::new(0, 0, 10)];
    let gain = descent_gain(GainMode::PureGain, &cache_info, &videos, endpoints, requests);
    assert_eq!(gain, vec![(0, 0, -2000)]);
}
