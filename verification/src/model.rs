//! The mathematical model behind the gain computation: what a well-formed
//! input is, how much demand a (video, endpoint) pair carries, which
//! endpoints a cache can serve, and the latency gain of placing a video on a
//! cache.
//!
//! All placement strategies and their contracts are stated over these
//! functions.

use vstd::prelude::*;

use crate::types::{CacheInfo, Endpoint, Request, Video};

verus! {

/// Cache count and capacity are non-negative.
pub open spec fn cache_info_ok(cache_info: CacheInfo) -> bool {
    cache_info.count >= 0 && cache_info.capacity >= 0
}

/// Video ids are dense: the video at position `i` has id `i`.
pub open spec fn video_ids_ok(videos: Seq<Video>) -> bool {
    forall|i: int| 0 <= i < videos.len() ==> (#[trigger] videos[i]).id == i
}

/// Every video size is non-negative.
pub open spec fn video_sizes_ok(videos: Seq<Video>) -> bool {
    forall|i: int| 0 <= i < videos.len() ==> (#[trigger] videos[i]).size >= 0
}

/// Every video size is strictly positive (needed to divide a gain by it).
pub open spec fn positive_sizes(videos: Seq<Video>) -> bool {
    forall|i: int| 0 <= i < videos.len() ==> (#[trigger] videos[i]).size > 0
}

/// Endpoint ids are dense: the endpoint at position `e` has id `e`.
pub open spec fn endpoint_ids_ok(endpoints: Seq<Endpoint>) -> bool {
    forall|e: int| 0 <= e < endpoints.len() ==> (#[trigger] endpoints[e]).id == e
}

/// Every endpoint's latency table carries the origin sentinel `-1`.
pub open spec fn endpoint_origins_ok(endpoints: Seq<Endpoint>) -> bool {
    forall|e: int|
        0 <= e < endpoints.len() ==> (#[trigger] endpoints[e]).cache_to_latency@.contains_key(-1)
}

/// Every key of a latency table is the origin sentinel or a known cache id.
pub open spec fn endpoint_keys_ok(endpoints: Seq<Endpoint>, cache_count: int) -> bool {
    forall|e: int, k: int|
        0 <= e < endpoints.len() && #[trigger] endpoints[e].cache_to_latency@.contains_key(k) ==> k
            == -1 || 0 <= k < cache_count
}

/// Every demand record cites a known video id.
pub open spec fn request_videos_ok(requests: Seq<Request>, n_videos: int) -> bool {
    forall|i: int| 0 <= i < requests.len() ==> 0 <= (#[trigger] requests[i]).video_id < n_videos
}

/// Every demand record cites a known endpoint id.
pub open spec fn request_endpoints_ok(requests: Seq<Request>, n_endpoints: int) -> bool {
    forall|i: int| 0 <= i < requests.len() ==> 0 <= (#[trigger] requests[i]).endpoint_id < n_endpoints
}

/// Every demand record cites a known video id and endpoint id.
pub open spec fn request_refs_ok(requests: Seq<Request>, n_videos: int, n_endpoints: int) -> bool {
    request_videos_ok(requests, n_videos) && request_endpoints_ok(requests, n_endpoints)
}

/// A well-formed input, as the parsing collaborator is contracted to
/// deliver it.
pub open spec fn valid_input(
    cache_info: CacheInfo,
    videos: Seq<Video>,
    endpoints: Seq<Endpoint>,
    requests: Seq<Request>,
) -> bool {
    &&& cache_info_ok(cache_info)
    &&& video_ids_ok(videos)
    &&& video_sizes_ok(videos)
    &&& endpoint_ids_ok(endpoints)
    &&& endpoint_origins_ok(endpoints)
    &&& endpoint_keys_ok(endpoints, cache_info.count as int)
    &&& request_refs_ok(requests, videos.len() as int, endpoints.len() as int)
}

/// The request volume observed for video `v` at endpoint `e`: the count of
/// the latest demand record for the pair, or 0 when there is none.
pub open spec fn demand_at(requests: Seq<Request>, v: int, e: int) -> int
    decreases requests.len(),
{
    if requests.len() == 0 {
        0
    } else if requests.last().video_id == v && requests.last().endpoint_id == e {
        requests.last().count as int
    } else {
        demand_at(requests.drop_last(), v, e)
    }
}

/// Whether endpoint `e` can be served from cache `c` at all.
pub open spec fn reachable(endpoints: Seq<Endpoint>, c: int, e: int) -> bool
    recommends
        0 <= e < endpoints.len(),
{
    endpoints[e].cache_to_latency@.contains_key(c)
}

/// The latency from endpoint `e` to the origin datacenter.
pub open spec fn origin_lat(endpoints: Seq<Endpoint>, e: int) -> int
    recommends
        0 <= e < endpoints.len(),
{
    endpoints[e].cache_to_latency@[-1]
}

/// The latency from endpoint `e` to cache `c`.
pub open spec fn cache_lat(endpoints: Seq<Endpoint>, c: int, e: int) -> int
    recommends
        0 <= e < endpoints.len(),
        reachable(endpoints, c, e),
{
    endpoints[e].cache_to_latency@[c]
}

/// The latency saved at endpoint `e` by placing video `v` on cache `c`:
/// the latency difference to the origin, weighted by the demand. Zero when
/// the cache does not serve the endpoint; negative contributions are kept.
pub open spec fn saving(
    endpoints: Seq<Endpoint>,
    requests: Seq<Request>,
    v: int,
    c: int,
    e: int,
) -> int
    recommends
        0 <= e < endpoints.len(),
{
    if reachable(endpoints, c, e) {
        (origin_lat(endpoints, e) - cache_lat(endpoints, c, e)) * demand_at(requests, v, e)
    } else {
        0
    }
}

/// Partial sum of `saving` over the endpoints `0 .. n`.
pub open spec fn raw_gain_upto(
    endpoints: Seq<Endpoint>,
    requests: Seq<Request>,
    v: int,
    c: int,
    n: int,
) -> int
    decreases n,
{
    if n <= 0 {
        0
    } else {
        raw_gain_upto(endpoints, requests, v, c, n - 1) + saving(endpoints, requests, v, c, n - 1)
    }
}

/// The raw gain of placing video `v` on cache `c`: latency saved summed
/// over every endpoint the cache serves.
pub open spec fn raw_gain(endpoints: Seq<Endpoint>, requests: Seq<Request>, v: int, c: int) -> int {
    raw_gain_upto(endpoints, requests, v, c, endpoints.len() as int)
}

/// Partial sum of the demand for `v` over the endpoints `0 .. n` that cache
/// `c` serves.
pub open spec fn pair_demand_upto(
    endpoints: Seq<Endpoint>,
    requests: Seq<Request>,
    v: int,
    c: int,
    n: int,
) -> int
    decreases n,
{
    if n <= 0 {
        0
    } else {
        pair_demand_upto(endpoints, requests, v, c, n - 1) + if reachable(endpoints, c, n - 1) {
            demand_at(requests, v, n - 1)
        } else {
            0
        }
    }
}

/// The total demand for video `v` over the endpoints that cache `c` serves.
pub open spec fn pair_demand(
    endpoints: Seq<Endpoint>,
    requests: Seq<Request>,
    v: int,
    c: int,
) -> int {
    pair_demand_upto(endpoints, requests, v, c, endpoints.len() as int)
}

/// Division that truncates toward zero, as the `/` of the executable code
/// does on machine integers.
pub open spec fn tdiv(a: int, b: int) -> int
    recommends
        b != 0,
{
    let q = abs_int(a) / abs_int(b);
    if (a < 0) != (b < 0) {
        -q
    } else {
        q
    }
}

/// The absolute value of an integer.
pub open spec fn abs_int(a: int) -> int {
    if a < 0 {
        -a
    } else {
        a
    }
}

/// A demand value always fits in the count field it came from.
pub proof fn lemma_demand_at_bounds(requests: Seq<Request>, v: int, e: int)
    ensures
        -0x8000_0000 <= demand_at(requests, v, e) < 0x8000_0000,
    decreases requests.len(),
{
    if requests.len() > 0 && !(requests.last().video_id == v && requests.last().endpoint_id == e) {
        lemma_demand_at_bounds(requests.drop_last(), v, e);
    }
}

/// One endpoint's contribution is well below `2^63` in magnitude.
pub proof fn lemma_saving_bound(
    endpoints: Seq<Endpoint>,
    requests: Seq<Request>,
    v: int,
    c: int,
    e: int,
)
    requires
        0 <= e < endpoints.len(),
        endpoint_origins_ok(endpoints),
    ensures
        -0x8000_0000_0000_0000 < saving(endpoints, requests, v, c, e) < 0x8000_0000_0000_0000,
{
    if reachable(endpoints, c, e) {
        crate::types::LatencyTable::lemma_values_bounded(&endpoints[e].cache_to_latency);
        lemma_demand_at_bounds(requests, v, e);
        assert(endpoints[e].cache_to_latency@.contains_key(-1));
        assert(endpoints[e].cache_to_latency@.contains_key(c));
        let d = origin_lat(endpoints, e) - cache_lat(endpoints, c, e);
        let m = demand_at(requests, v, e);
        assert(-0x8000_0000_0000_0000 < d * m < 0x8000_0000_0000_0000) by (nonlinear_arith)
            requires
                -0x1_0000_0000 < d < 0x1_0000_0000,
                -0x8000_0000 <= m < 0x8000_0000,
        ;
    }
}

/// The raw-gain partial sums grow by less than `2^63` per endpoint.
pub proof fn lemma_raw_gain_upto_bound(
    endpoints: Seq<Endpoint>,
    requests: Seq<Request>,
    v: int,
    c: int,
    n: int,
)
    requires
        0 <= n <= endpoints.len(),
        endpoint_origins_ok(endpoints),
    ensures
        -(n * 0x8000_0000_0000_0000) <= raw_gain_upto(endpoints, requests, v, c, n) <= n
            * 0x8000_0000_0000_0000,
    decreases n,
{
    if n > 0 {
        lemma_raw_gain_upto_bound(endpoints, requests, v, c, n - 1);
        lemma_saving_bound(endpoints, requests, v, c, n - 1);
    }
}

/// The demand partial sums grow by less than `2^31` per endpoint.
pub proof fn lemma_pair_demand_upto_bound(
    endpoints: Seq<Endpoint>,
    requests: Seq<Request>,
    v: int,
    c: int,
    n: int,
)
    requires
        0 <= n <= endpoints.len(),
    ensures
        -(n * 0x8000_0000) <= pair_demand_upto(endpoints, requests, v, c, n) <= n * 0x8000_0000,
    decreases n,
{
    if n > 0 {
        lemma_pair_demand_upto_bound(endpoints, requests, v, c, n - 1);
        lemma_demand_at_bounds(requests, v, n - 1);
    }
}

/// Dense i32 ids keep a sequence shorter than `2^31 + 1` entries.
pub proof fn lemma_endpoints_len_bound(endpoints: Seq<Endpoint>)
    requires
        endpoint_ids_ok(endpoints),
    ensures
        endpoints.len() <= 0x8000_0000,
{
    if endpoints.len() > 0x8000_0000 {
        assert(endpoints[0x8000_0000].id == 0x8000_0000int);
        assert(false);
    }
}

/// Dense i32 ids keep the video list shorter than `2^31 + 1` entries.
pub proof fn lemma_videos_len_bound(videos: Seq<Video>)
    requires
        video_ids_ok(videos),
    ensures
        videos.len() <= 0x8000_0000,
{
    if videos.len() > 0x8000_0000 {
        assert(videos[0x8000_0000].id == 0x8000_0000int);
        assert(false);
    }
}

/// Truncating division never grows the magnitude of its left argument.
pub proof fn lemma_tdiv_magnitude(a: int, b: int)
    requires
        b != 0,
    ensures
        abs_int(tdiv(a, b)) <= abs_int(a),
{
    let q = abs_int(a) / abs_int(b);
    assert(0 <= q <= abs_int(a)) by (nonlinear_arith)
        requires
            abs_int(a) >= 0,
            abs_int(b) >= 1,
            q == abs_int(a) / abs_int(b),
    ;
}

} // verus!
