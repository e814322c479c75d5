use videos::parser::{parse, string_to_i32, Header};

#[test]
fn test_invalid_header() {
    let result_option = parse("0 0 0 0");
    assert!(result_option.is_none());
}

#[test]
fn test_invalid_videos() {
    let result_option = parse("0 0 0 0 0");
    assert!(result_option.is_none());
}

#[test]
fn test_invalid_video_count() {
    let result_option = parse("1 0 0 0 0\n");
    assert!(result_option.is_none());
}

#[test]
fn test_cache_info_and_videos() {
    let result_option = parse("2 0 0 123 456\n12 34");
    assert!(result_option.is_some());

    let (cache_info, videos, endpoints, _) = result_option.unwrap();
    assert_eq!(123, cache_info.count);
    assert_eq!(456, cache_info.capacity);
    assert_eq!(2, videos.len());
    assert_eq!(0, videos[0].id);
    assert_eq!(12, videos[0].size);
    assert_eq!(1, videos[1].id);
    assert_eq!(34, videos[1].size);
    assert_eq!(0, endpoints.len());
}

#[test]
fn test_end_to_end() {
    let result_option = parse(
        "5 2 4 3 100\n\
    50 50 80 30 110\n\
    1000 3\n\
    0 100\n\
    2 100\n\
    1 300\n\
    500 0\n\
    3 0 1500\n\
    0 1 1000\n\
    4 0 500\n\
    1 0 1000",
    );
    assert!(result_option.is_some());

    let (cache_info, videos, endpoints, requests) = result_option.unwrap();
    assert_eq!(3, cache_info.count);
    assert_eq!(100, cache_info.capacity);
    assert_eq!(5, videos.len());
    assert_eq!(50, videos[0].size);
    assert_eq!(50, videos[1].size);
    assert_eq!(80, videos[2].size);
    assert_eq!(30, videos[3].size);
    assert_eq!(110, videos[4].size);
    assert_eq!(2, endpoints.len());
    assert_eq!(4, endpoints[0].cache_to_latency.len());
    assert_eq!(1000, endpoints[0].cache_to_latency.get(-1).unwrap());
    assert_eq!(100, endpoints[0].cache_to_latency.get(0).unwrap());
    assert_eq!(300, endpoints[0].cache_to_latency.get(1).unwrap());
    assert_eq!(100, endpoints[0].cache_to_latency.get(2).unwrap());
    assert_eq!(500, endpoints[1].cache_to_latency.get(-1).unwrap());
    assert_eq!(4, requests.len());
    assert_eq!(3, requests[0].video_id);
    assert_eq!(0, requests[0].endpoint_id);
    assert_eq!(1500, requests[0].count);
    assert_eq!(0, requests[1].video_id);
    assert_eq!(1, requests[1].endpoint_id);
    assert_eq!(1000, requests[1].count);
    assert_eq!(4, requests[2].video_id);
    assert_eq!(0, requests[2].endpoint_id);
    assert_eq!(500, requests[2].count);
    assert_eq!(1, requests[3].video_id);
    assert_eq!(0, requests[3].endpoint_id);
    assert_eq!(1000, requests[3].count);
}

#[test]
fn test_trailing_line_after_requests_fails() {
    // Every line after the endpoint blocks must be a request record.
    let result_option = parse("1 0 1 1 100\n50\n0 0 10\n");
    assert!(result_option.is_none());
}

#[test]
fn test_request_count_must_match() {
    let result_option = parse("1 0 2 1 100\n50\n0 0 10");
    assert!(result_option.is_none());
}

#[test]
fn test_string_to_i32_accepts_plain_numbers() {
    assert_eq!(string_to_i32("0"), Some(0));
    assert_eq!(string_to_i32("42"), Some(42));
    assert_eq!(string_to_i32("+42"), Some(42));
    assert_eq!(string_to_i32("-42"), Some(-42));
    assert_eq!(string_to_i32("0042"), Some(42));
    assert_eq!(string_to_i32("2147483647"), Some(2147483647));
    assert_eq!(string_to_i32("-2147483648"), Some(-2147483648));
}

#[test]
fn test_string_to_i32_rejects_bad_tokens() {
    assert_eq!(string_to_i32(""), None);
    assert_eq!(string_to_i32("+"), None);
    assert_eq!(string_to_i32("-"), None);
    assert_eq!(string_to_i32("4x"), None);
    assert_eq!(string_to_i32(" 4"), None);
    assert_eq!(string_to_i32("2147483648"), None);
    assert_eq!(string_to_i32("-2147483649"), None);
}

#[test]
fn test_header_new_is_zeroed() {
    let header = Header::new();
    assert_eq!(header.video_count, 0);
    assert_eq!(header.endpoint_count, 0);
    assert_eq!(header.request_count, 0);
    assert_eq!(header.cache_count, 0);
    assert_eq!(header.cache_size, 0);
}
