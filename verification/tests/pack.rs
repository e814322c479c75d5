use videos::amend::{gain, gain_simple, segmented_gain};
use videos::pack::{left_space, FilledCache};
use videos::types::{CacheInfo, Endpoint, LatencyTable, Request, Video};

#[test]
fn test_add_video_exact_fit_is_accepted() {
    let mut cache = FilledCache::new(100);
    assert!(cache.add_video(&Video::new(0, 100)));
    assert_eq!(cache.remaining_capacity, 0);
    assert_eq!(cache.videos, vec![0]);
}

#[test]
fn test_add_video_rejects_oversize() {
    let mut cache = FilledCache::new(100);
    assert!(!cache.add_video(&Video::new(0, 101)));
    assert_eq!(cache.remaining_capacity, 100);
    assert!(cache.videos.is_empty());
}

#[test]
fn test_add_video_tracks_remaining_capacity() {
    let mut cache = FilledCache::new(100);
    assert!(cache.add_video(&Video::new(2, 30)));
    assert!(cache.add_video(&Video::new(0, 50)));
    assert!(!cache.add_video(&Video::new(1, 21)));
    assert!(cache.add_video(&Video::new(1, 20)));
    assert_eq!(cache.remaining_capacity, 0);
    assert_eq!(cache.videos, vec![0, 1, 2]);
}

#[test]
fn test_left_space_sums_remaining() {
    let filled = vec![FilledCache::new(10), FilledCache::new(15)];
    assert_eq!(left_space(&filled), 25);
}

#[test]
fn test_gain_simple_zero_when_video_does_not_fit() {
    let videos = vec![Video::new(0, 100)];
    let filled = vec![FilledCache::new(50)];
    let local_gains = vec![(0, 7000i128)];
    assert_eq!(gain_simple(0, 0, &videos, &local_gains, &filled), 0);
    let roomy = vec![FilledCache::new(100)];
    assert_eq!(gain_simple(0, 0, &videos, &local_gains, &roomy), 7000);
}

#[test]
fn test_gain_looks_up_pair() {
    let cache_info = CacheInfo::new(1, 500);
    let videos = vec![Video::new(0, 100)];
    let mut table = LatencyTable::new();
    table.insert(-1, 200);
    table.insert(0, 100);
    let endpoints = vec![Endpoint::new(0, table)];
    let requests = vec![Request::new(0, 0, 1000)];
    let gains = segmented_gain(&cache_info, &videos, endpoints, requests);
    let filled = vec![FilledCache::new(500)];
    assert_eq!(gain(0, 0, &videos, &gains, &filled), 100000);
}

#[test]
fn test_latency_table_insert_overwrites() {
    let mut table = LatencyTable::new();
    table.insert(0, 5);
    table.insert(1, 9);
    table.insert(0, 7);
    assert_eq!(table.get(0), Some(7));
    assert_eq!(table.get(1), Some(9));
    assert_eq!(table.get(2), None);
    assert_eq!(table.len(), 2);
    let mut keys = table.keys();
    keys.sort();
    assert_eq!(keys, vec![0, 1]);
}
