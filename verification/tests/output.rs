use videos::output::{produce_output, CacheAndVideos};

#[test]
fn test_produce_output() {
    let result = vec![vec![1, 2, 3], vec![], vec![1, 4]];
    assert_eq!("2\n0 1 2 3\n2 1 4\n", produce_output(result));
}

#[test]
fn test_produce_output_empty_mapping() {
    assert_eq!("0\n", produce_output(vec![]));
}

#[test]
fn test_produce_output_all_empty_sets() {
    assert_eq!("0\n", produce_output(vec![vec![], vec![], vec![]]));
}

#[test]
fn test_produce_output_negative_id() {
    assert_eq!("1\n0 -3\n", produce_output(vec![vec![-3]]));
}

#[test]
fn test_produce_output_multi_digit() {
    let mut result = Vec::new();
    for _ in 0..12 {
        result.push(vec![]);
    }
    result.push(vec![2048]);
    assert_eq!("1\n12 2048\n", produce_output(result));
}

#[test]
fn test_cache_and_videos_new() {
    let line = CacheAndVideos::new(3, vec![1, 2]);
    assert_eq!(line.cache_id, 3);
    assert_eq!(line.video_ids, vec![1, 2]);
}
