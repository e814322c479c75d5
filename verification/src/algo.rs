//! The placement strategies and their shared machinery: input validation,
//! the scoring policies, and the dispatcher `algo`.

use vstd::prelude::*;

use crate::model::{
    cache_info_ok, endpoint_ids_ok, endpoint_keys_ok, endpoint_origins_ok, pair_demand, raw_gain,
    request_endpoints_ok, request_videos_ok, tdiv, valid_input, video_ids_ok, video_sizes_ok,
};
use crate::types::{CacheInfo, Endpoint, Request, Video};

verus! {

/// Which placement strategy to run.
#[derive(Debug, Clone, Copy, PartialEq, Eq)]
pub enum Mode {
    Dummy,
    CacheSpreading,
    CacheFilling,
    Descent,
    DescentCost,
    DescentAudience,
    BestVideo,
    DescentAmend,
}

/// How a raw gain is turned into the score of a (video, cache) pair.
#[derive(Debug, Clone, Copy, PartialEq, Eq)]
pub enum GainMode {
    PureGain,
    GainOverCost,
    GainOverAudience,
}

/// A defect in the input records: an upstream parsing contract violation
/// that fails the whole run.
#[derive(Debug, Clone, Copy, PartialEq, Eq)]
pub enum ValidationError {
    /// The cache count or the cache capacity is negative.
    BadCacheInfo,
    /// A video's id does not match its position.
    BadVideoId,
    /// A video has a negative size.
    BadVideoSize,
    /// An endpoint's id does not match its position.
    BadEndpointId,
    /// An endpoint's latency table lacks the origin entry.
    MissingOriginLatency,
    /// A latency table cites a cache id the system does not know.
    UnknownCacheId,
    /// A demand record cites a video id the system does not know.
    UnknownVideoId,
    /// A demand record cites an endpoint id the system does not know.
    UnknownEndpointId,
}

/// The outcome of validating an input, with the first defect found when
/// the checks run in a fixed order.
pub open spec fn validate_spec(
    cache_info: CacheInfo,
    videos: Seq<Video>,
    endpoints: Seq<Endpoint>,
    requests: Seq<Request>,
) -> Result<(), ValidationError> {
    if !cache_info_ok(cache_info) {
        Err(ValidationError::BadCacheInfo)
    } else if !video_ids_ok(videos) {
        Err(ValidationError::BadVideoId)
    } else if !video_sizes_ok(videos) {
        Err(ValidationError::BadVideoSize)
    } else if !endpoint_ids_ok(endpoints) {
        Err(ValidationError::BadEndpointId)
    } else if !endpoint_origins_ok(endpoints) {
        Err(ValidationError::MissingOriginLatency)
    } else if !endpoint_keys_ok(endpoints, cache_info.count as int) {
        Err(ValidationError::UnknownCacheId)
    } else if !request_videos_ok(requests, videos.len() as int) {
        Err(ValidationError::UnknownVideoId)
    } else if !request_endpoints_ok(requests, endpoints.len() as int) {
        Err(ValidationError::UnknownEndpointId)
    } else {
        Ok(())
    }
}

/// Checks the input records against the data model: ids dense, sizes and
/// capacities non-negative, every cited id known, every endpoint with an
/// origin latency. Returns the first defect in check order, and `Ok` iff
/// the input is well formed.
pub fn validate(
    cache_info: &CacheInfo,
    videos: &Vec<Video>,
    endpoints: &Vec<Endpoint>,
    requests: &Vec<Request>,
) -> (r: Result<(), ValidationError>)
    ensures
        r == validate_spec(*cache_info, videos@, endpoints@, requests@),
        r is Ok <==> valid_input(*cache_info, videos@, endpoints@, requests@),
{
    if cache_info.count < 0 || cache_info.capacity < 0 {
        return Err(ValidationError::BadCacheInfo);
    }
    let nv = videos.len();
    let mut i: usize = 0;
    while i < nv
        invariant
            nv == videos@.len(),
            i <= nv,
            cache_info_ok(*cache_info),
            forall|j: int| 0 <= j < i ==> (#[trigger] videos@[j]).id == j,
        decreases nv - i,
    {
        if !(videos[i].id >= 0 && videos[i].id as usize == i) {
            proof {
                assert(videos@[i as int].id != i as int);
            }
            return Err(ValidationError::BadVideoId);
        }
        i = i + 1;
    }
    let mut i: usize = 0;
    while i < nv
        invariant
            nv == videos@.len(),
            i <= nv,
            cache_info_ok(*cache_info),
            video_ids_ok(videos@),
            forall|j: int| 0 <= j < i ==> (#[trigger] videos@[j]).size >= 0,
        decreases nv - i,
    {
        if videos[i].size < 0 {
            return Err(ValidationError::BadVideoSize);
        }
        i = i + 1;
    }
    let ne = endpoints.len();
    let mut e: usize = 0;
    while e < ne
        invariant
            ne == endpoints@.len(),
            e <= ne,
            cache_info_ok(*cache_info),
            video_ids_ok(videos@),
            video_sizes_ok(videos@),
            forall|j: int| 0 <= j < e ==> (#[trigger] endpoints@[j]).id == j,
        decreases ne - e,
    {
        if !(endpoints[e].id >= 0 && endpoints[e].id as usize == e) {
            proof {
                assert(endpoints@[e as int].id != e as int);
            }
            return Err(ValidationError::BadEndpointId);
        }
        e = e + 1;
    }
    let mut e: usize = 0;
    while e < ne
        invariant
            ne == endpoints@.len(),
            e <= ne,
            cache_info_ok(*cache_info),
            video_ids_ok(videos@),
            video_sizes_ok(videos@),
            endpoint_ids_ok(endpoints@),
            forall|j: int|
                0 <= j < e ==> (#[trigger] endpoints@[j]).cache_to_latency@.contains_key(-1),
        decreases ne - e,
    {
        if endpoints[e].cache_to_latency.get(-1).is_none() {
            return Err(ValidationError::MissingOriginLatency);
        }
        e = e + 1;
    }
    let mut e: usize = 0;
    while e < ne
        invariant
            ne == endpoints@.len(),
            e <= ne,
            cache_info_ok(*cache_info),
            video_ids_ok(videos@),
            video_sizes_ok(videos@),
            endpoint_ids_ok(endpoints@),
            endpoint_origins_ok(endpoints@),
            forall|j: int, k: int|
                0 <= j < e && #[trigger] endpoints@[j].cache_to_latency@.contains_key(k) ==> k
                    == -1 || 0 <= k < cache_info.count,
        decreases ne - e,
    {
        let ks = endpoints[e].cache_to_latency.keys();
        let nk = ks.len();
        let mut t: usize = 0;
        while t < nk
            invariant
                nk == ks@.len(),
                t <= nk,
                cache_info_ok(*cache_info),
                video_ids_ok(videos@),
                video_sizes_ok(videos@),
                endpoint_ids_ok(endpoints@),
                endpoint_origins_ok(endpoints@),
                0 <= e < endpoints@.len(),
                forall|j: int|
                    0 <= j < ks@.len() ==> endpoints@[e as int].cache_to_latency@.contains_key(
                        (#[trigger] ks@[j]) as int,
                    ),
                forall|k: int|
                    endpoints@[e as int].cache_to_latency@.contains_key(k) ==> exists|j: int|
                        0 <= j < ks@.len() && (#[trigger] ks@[j]) as int == k,
                forall|j: int|
                    0 <= j < t ==> (#[trigger] ks@[j]) == -1 || 0 <= ks@[j] < cache_info.count,
            decreases nk - t,
        {
            let k = ks[t];
            if !(k == -1 || (k >= 0 && k < cache_info.count)) {
                proof {
                    let kk = ks@[t as int] as int;
                    assert(endpoints@[e as int].cache_to_latency@.contains_key(kk));
                    assert(!(kk == -1 || 0 <= kk < cache_info.count));
                    assert(!endpoint_keys_ok(endpoints@, cache_info.count as int));
                }
                return Err(ValidationError::UnknownCacheId);
            }
            t = t + 1;
        }
        proof {
            assert forall|k: int|
                #[trigger] endpoints@[e as int].cache_to_latency@.contains_key(k) implies k == -1
                || 0 <= k < cache_info.count by {
                let j = choose|j: int| 0 <= j < ks@.len() && (#[trigger] ks@[j]) as int == k;
                assert(ks@[j] == -1 || 0 <= ks@[j] < cache_info.count);
            }
        }
        e = e + 1;
    }
    let nr = requests.len();
    let mut i: usize = 0;
    while i < nr
        invariant
            nr == requests@.len(),
            nv == videos@.len(),
            i <= nr,
            cache_info_ok(*cache_info),
            video_ids_ok(videos@),
            video_sizes_ok(videos@),
            endpoint_ids_ok(endpoints@),
            endpoint_origins_ok(endpoints@),
            endpoint_keys_ok(endpoints@, cache_info.count as int),
            forall|j: int| 0 <= j < i ==> 0 <= (#[trigger] requests@[j]).video_id < nv,
        decreases nr - i,
    {
        if !(requests[i].video_id >= 0 && (requests[i].video_id as usize) < nv) {
            proof {
                assert(!(0 <= requests@[i as int].video_id < videos@.len()));
            }
            return Err(ValidationError::UnknownVideoId);
        }
        i = i + 1;
    }
    let mut i: usize = 0;
    while i < nr
        invariant
            nr == requests@.len(),
            ne == endpoints@.len(),
            i <= nr,
            cache_info_ok(*cache_info),
            video_ids_ok(videos@),
            video_sizes_ok(videos@),
            endpoint_ids_ok(endpoints@),
            endpoint_origins_ok(endpoints@),
            endpoint_keys_ok(endpoints@, cache_info.count as int),
            request_videos_ok(requests@, videos@.len() as int),
            forall|j: int| 0 <= j < i ==> 0 <= (#[trigger] requests@[j]).endpoint_id < ne,
        decreases nr - i,
    {
        if !(requests[i].endpoint_id >= 0 && (requests[i].endpoint_id as usize) < ne) {
            proof {
                assert(!(0 <= requests@[i as int].endpoint_id < endpoints@.len()));
            }
            return Err(ValidationError::UnknownEndpointId);
        }
        i = i + 1;
    }
    Ok(())
}

/// The score of placing video `v` on cache `c` under a scoring policy:
/// the raw gain itself, the raw gain per unit of size (truncated), or the
/// raw gain per request served (truncated, 0 when no demand reaches the
/// pair).
pub open spec fn score_spec(
    gain_mode: GainMode,
    videos: Seq<Video>,
    endpoints: Seq<Endpoint>,
    requests: Seq<Request>,
    v: int,
    c: int,
) -> int {
    match gain_mode {
        GainMode::PureGain => raw_gain(endpoints, requests, v, c),
        GainMode::GainOverCost => tdiv(raw_gain(endpoints, requests, v, c), videos[v].size as int),
        GainMode::GainOverAudience => if pair_demand(endpoints, requests, v, c) == 0 {
            0
        } else {
            tdiv(raw_gain(endpoints, requests, v, c), pair_demand(endpoints, requests, v, c))
        },
    }
}

/// Division of machine integers truncating toward zero.
fn tdiv_i128(a: i128, b: i128) -> (q: i128)
    requires
        b != 0,
        -0x4000_0000_0000_0000_0000_0000_0000_0000 < a < 0x4000_0000_0000_0000_0000_0000_0000_0000,
        -0x4000_0000_0000_0000_0000_0000_0000_0000 < b < 0x4000_0000_0000_0000_0000_0000_0000_0000,
    ensures
        q as int == tdiv(a as int, b as int),
{
    let na: i128 = if a < 0 {
        -a
    } else {
        a
    };
    let nb: i128 = if b < 0 {
        -b
    } else {
        b
    };
    let q = na / nb;
    proof {
        assert(0 <= q <= na) by (nonlinear_arith)
            requires
                na >= 0,
                nb >= 1,
                q == na as int / nb as int,
        ;
    }
    if (a < 0) != (b < 0) {
        -q
    } else {
        q
    }
}

/// Builds the dense demand table for one run: entry `[v][e]` is the demand
/// of video `v` at endpoint `e`, with a later record overriding an earlier
/// one for the same pair.
pub(crate) fn build_demand_table(nv: usize, ne: usize, requests: &Vec<Request>) -> (dt: Vec<Vec<i32>>)
    requires
        request_videos_ok(requests@, nv as int),
        request_endpoints_ok(requests@, ne as int),
    ensures
        dt@.len() == nv,
        forall|v: int| 0 <= v < nv ==> (#[trigger] dt@[v])@.len() == ne,
        forall|v: int, e: int|
            0 <= v < nv && 0 <= e < ne ==> (#[trigger] dt@[v]@[e]) as int == crate::model::demand_at(
                requests@,
                v,
                e,
            ),
{
    let mut dt: Vec<Vec<i32>> = Vec::new();
    let mut v: usize = 0;
    while v < nv
        invariant
            v <= nv,
            dt@.len() == v,
            forall|j: int| 0 <= j < v ==> (#[trigger] dt@[j])@.len() == ne,
            forall|j: int, e: int|
                0 <= j < v && 0 <= e < ne ==> (#[trigger] dt@[j]@[e]) == 0,
        decreases nv - v,
    {
        let mut row: Vec<i32> = Vec::new();
        let mut e: usize = 0;
        while e < ne
            invariant
                e <= ne,
                row@.len() == e,
                forall|j: int| 0 <= j < e ==> (#[trigger] row@[j]) == 0,
            decreases ne - e,
        {
            row.push(0);
            e = e + 1;
        }
        dt.push(row);
        v = v + 1;
    }
    let nr = requests.len();
    let mut i: usize = 0;
    proof {
        assert forall|v: int, e: int| 0 <= v < nv && 0 <= e < ne implies (#[trigger] dt@[v]@[e])
            as int == crate::model::demand_at(requests@.subrange(0, 0), v, e) by {}
    }
    while i < nr
        invariant
            i <= nr,
            nr == requests@.len(),
            request_videos_ok(requests@, nv as int),
            request_endpoints_ok(requests@, ne as int),
            dt@.len() == nv,
            forall|v: int| 0 <= v < nv ==> (#[trigger] dt@[v])@.len() == ne,
            forall|v: int, e: int|
                0 <= v < nv && 0 <= e < ne ==> (#[trigger] dt@[v]@[e]) as int
                    == crate::model::demand_at(requests@.subrange(0, i as int), v, e),
        decreases nr - i,
    {
        let vi = requests[i].video_id as usize;
        let ei = requests[i].endpoint_id as usize;
        let count = requests[i].count;
        let ghost pre = dt@;
        dt[vi][ei] = count;
        proof {
            let prefix = requests@.subrange(0, i as int);
            let prefix1 = requests@.subrange(0, i as int + 1);
            assert(prefix1.drop_last() =~= prefix);
            assert(prefix1.last() == requests@[i as int]);
            assert forall|v: int, e: int| 0 <= v < nv && 0 <= e < ne implies (
            #[trigger] dt@[v]@[e]) as int == crate::model::demand_at(prefix1, v, e) by {
                if v == vi as int && e == ei as int {
                } else {
                    assert(dt@[v]@[e] == pre[v]@[e]);
                }
            }
        }
        i = i + 1;
    }
    proof {
        assert(requests@.subrange(0, nr as int) =~= requests@);
    }
    dt
}

/// Builds the origin-latency table: entry `[e]` is the latency from
/// endpoint `e` to the origin datacenter.
pub(crate) fn build_origins(endpoints: &Vec<Endpoint>) -> (ol: Vec<i32>)
    requires
        endpoint_origins_ok(endpoints@),
    ensures
        ol@.len() == endpoints@.len(),
        forall|e: int|
            0 <= e < endpoints@.len() ==> (#[trigger] ol@[e]) as int == crate::model::origin_lat(
                endpoints@,
                e,
            ),
{
    let ne = endpoints.len();
    let mut ol: Vec<i32> = Vec::new();
    let mut e: usize = 0;
    while e < ne
        invariant
            e <= ne,
            ne == endpoints@.len(),
            endpoint_origins_ok(endpoints@),
            ol@.len() == e,
            forall|j: int|
                0 <= j < e ==> (#[trigger] ol@[j]) as int == crate::model::origin_lat(
                    endpoints@,
                    j,
                ),
        decreases ne - e,
    {
        let l = match endpoints[e].cache_to_latency.get(-1) {
            Some(l) => l,
            None => {
                proof {
                    assert(endpoints@[e as int].cache_to_latency@.contains_key(-1));
                }
                0
            },
        };
        ol.push(l);
        e = e + 1;
    }
    ol
}

/// Computes the score of one (video, cache) pair from the prepared demand
/// and origin tables, walking every endpoint the cache serves.
fn pair_score(
    gain_mode: GainMode,
    videos: &Vec<Video>,
    endpoints: &Vec<Endpoint>,
    Ghost(requests): Ghost<Seq<Request>>,
    dt_row: &Vec<i32>,
    ol: &Vec<i32>,
    v: usize,
    c: i32,
) -> (score: i128)
    requires
        v < videos@.len(),
        c >= 0,
        endpoint_ids_ok(endpoints@),
        endpoint_origins_ok(endpoints@),
        dt_row@.len() == endpoints@.len(),
        forall|e: int|
            0 <= e < endpoints@.len() ==> (#[trigger] dt_row@[e]) as int == crate::model::demand_at(
                requests,
                v as int,
                e,
            ),
        ol@.len() == endpoints@.len(),
        forall|e: int|
            0 <= e < endpoints@.len() ==> (#[trigger] ol@[e]) as int == crate::model::origin_lat(
                endpoints@,
                e,
            ),
        gain_mode is GainOverCost ==> videos@[v as int].size > 0,
    ensures
        score as int == score_spec(gain_mode, videos@, endpoints@, requests, v as int, c as int),
{
    let ne = endpoints.len();
    proof {
        crate::model::lemma_endpoints_len_bound(endpoints@);
    }
    let mut acc: i128 = 0;
    let mut tot: i128 = 0;
    let mut e: usize = 0;
    while e < ne
        invariant
            e <= ne,
            ne == endpoints@.len(),
            ne <= 0x8000_0000,
            v < videos@.len(),
            c >= 0,
            endpoint_ids_ok(endpoints@),
            endpoint_origins_ok(endpoints@),
            dt_row@.len() == endpoints@.len(),
            forall|j: int|
                0 <= j < endpoints@.len() ==> (#[trigger] dt_row@[j]) as int
                    == crate::model::demand_at(requests, v as int, j),
            ol@.len() == endpoints@.len(),
            forall|j: int|
                0 <= j < endpoints@.len() ==> (#[trigger] ol@[j]) as int
                    == crate::model::origin_lat(endpoints@, j),
            acc as int == crate::model::raw_gain_upto(endpoints@, requests, v as int, c as int, e as int),
            tot as int == crate::model::pair_demand_upto(
                endpoints@,
                requests,
                v as int,
                c as int,
                e as int,
            ),
        decreases ne - e,
    {
        proof {
            crate::model::lemma_raw_gain_upto_bound(endpoints@, requests, v as int, c as int, e as int);
            crate::model::lemma_pair_demand_upto_bound(
                endpoints@,
                requests,
                v as int,
                c as int,
                e as int,
            );
            crate::model::lemma_saving_bound(endpoints@, requests, v as int, c as int, e as int);
            crate::model::lemma_demand_at_bounds(requests, v as int, e as int);
        }
        match endpoints[e].cache_to_latency.get(c) {
            Some(l) => {
                let o = ol[e];
                let d = dt_row[e];
                let diff: i128 = o as i128 - l as i128;
                let p: i128 = diff * (d as i128);
                proof {
                    assert(crate::model::reachable(endpoints@, c as int, e as int));
                    assert(-0x8000_0000_0000_0000 < diff * (d as i128) < 0x8000_0000_0000_0000)
                        by (nonlinear_arith)
                        requires
                            -0x1_0000_0000 < diff < 0x1_0000_0000,
                            -0x8000_0000 <= d < 0x8000_0000,
                    ;
                    assert(p as int == crate::model::saving(
                        endpoints@,
                        requests,
                        v as int,
                        c as int,
                        e as int,
                    ));
                }
                acc = acc + p;
                tot = tot + d as i128;
            },
            None => {
                proof {
                    assert(!crate::model::reachable(endpoints@, c as int, e as int));
                }
            },
        }
        e = e + 1;
    }
    proof {
        crate::model::lemma_raw_gain_upto_bound(endpoints@, requests, v as int, c as int, ne as int);
        crate::model::lemma_pair_demand_upto_bound(
            endpoints@,
            requests,
            v as int,
            c as int,
            ne as int,
        );
    }
    match gain_mode {
        GainMode::PureGain => acc,
        GainMode::GainOverCost => {
            let sz = videos[v].size;
            tdiv_i128(acc, sz as i128)
        },
        GainMode::GainOverAudience => {
            if tot == 0 {
                0
            } else {
                tdiv_i128(acc, tot)
            }
        },
    }
}

/// All (video, cache) pairs with their scores, in the insertion order of
/// the gain computation: by video, then by cache.
pub open spec fn base_triples(
    gain_mode: GainMode,
    videos: Seq<Video>,
    endpoints: Seq<Endpoint>,
    requests: Seq<Request>,
    cache_count: int,
) -> Seq<(i32, i32, i128)> {
    Seq::new(
        (videos.len() * cache_count) as nat,
        |i: int|
            (
                (i / cache_count) as i32,
                (i % cache_count) as i32,
                score_spec(
                    gain_mode,
                    videos,
                    endpoints,
                    requests,
                    i / cache_count,
                    i % cache_count,
                ) as i128,
            ),
    )
}

/// The scored pairs in the order Descent attempts them: strictly
/// descending score, ties by ascending video id and then cache id.
pub open spec fn sorted_gains(
    gain_mode: GainMode,
    videos: Seq<Video>,
    endpoints: Seq<Endpoint>,
    requests: Seq<Request>,
    cache_count: int,
) -> Seq<(i32, i32, i128)> {
    crate::order::sort_triples(base_triples(gain_mode, videos, endpoints, requests, cache_count))
}

/// Scores every (video, cache) pair under the chosen policy and returns
/// the pairs sorted into Descent's attempt order: descending score, ties
/// by ascending video id and then cache id.
pub fn descent_gain(
    gain_mode: GainMode,
    cache_info: &CacheInfo,
    videos: &Vec<Video>,
    endpoints: Vec<Endpoint>,
    requests: Vec<Request>,
) -> (r: Vec<(i32, i32, i128)>)
    requires
        valid_input(*cache_info, videos@, endpoints@, requests@),
        gain_mode is GainOverCost ==> crate::model::positive_sizes(videos@),
    ensures
        r@ == sorted_gains(gain_mode, videos@, endpoints@, requests@, cache_info.count as int),
{
    let nv = videos.len();
    let ne = endpoints.len();
    proof {
        crate::model::lemma_videos_len_bound(videos@);
    }
    let dt = build_demand_table(nv, ne, &requests);
    let ol = build_origins(&endpoints);
    let cc = cache_info.count as usize;
    let ghost bt = base_triples(
        gain_mode,
        videos@,
        endpoints@,
        requests@,
        cache_info.count as int,
    );
    let mut base: Vec<(i32, i32, i128)> = Vec::new();
    let mut v: usize = 0;
    while v < nv
        invariant
            v <= nv,
            nv == videos@.len(),
            ne == endpoints@.len(),
            nv <= 0x8000_0000,
            cc == cache_info.count,
            valid_input(*cache_info, videos@, endpoints@, requests@),
            gain_mode is GainOverCost ==> crate::model::positive_sizes(videos@),
            dt@.len() == nv,
            forall|j: int| 0 <= j < nv ==> (#[trigger] dt@[j])@.len() == ne,
            forall|j: int, e: int|
                0 <= j < nv && 0 <= e < ne ==> (#[trigger] dt@[j]@[e]) as int
                    == crate::model::demand_at(requests@, j, e),
            ol@.len() == ne,
            forall|e: int|
                0 <= e < ne ==> (#[trigger] ol@[e]) as int == crate::model::origin_lat(
                    endpoints@,
                    e,
                ),
            bt == base_triples(gain_mode, videos@, endpoints@, requests@, cache_info.count as int),
            base@.len() == v * cc,
            forall|idx: int| 0 <= idx < base@.len() ==> base@[idx] == bt[idx],
        decreases nv - v,
    {
        let mut c: usize = 0;
        while c < cc
            invariant
                v < nv,
                c <= cc,
                nv == videos@.len(),
                ne == endpoints@.len(),
                nv <= 0x8000_0000,
                cc == cache_info.count,
                valid_input(*cache_info, videos@, endpoints@, requests@),
                gain_mode is GainOverCost ==> crate::model::positive_sizes(videos@),
                dt@.len() == nv,
                forall|j: int| 0 <= j < nv ==> (#[trigger] dt@[j])@.len() == ne,
                forall|j: int, e: int|
                    0 <= j < nv && 0 <= e < ne ==> (#[trigger] dt@[j]@[e]) as int
                        == crate::model::demand_at(requests@, j, e),
                ol@.len() == ne,
                forall|e: int|
                    0 <= e < ne ==> (#[trigger] ol@[e]) as int == crate::model::origin_lat(
                        endpoints@,
                        e,
                    ),
                bt == base_triples(
                    gain_mode,
                    videos@,
                    endpoints@,
                    requests@,
                    cache_info.count as int,
                ),
                base@.len() == v * cc + c,
                forall|idx: int| 0 <= idx < base@.len() ==> base@[idx] == bt[idx],
            decreases cc - c,
        {
            let s = pair_score(
                gain_mode,
                videos,
                &endpoints,
                Ghost(requests@),
                &dt[v],
                &ol,
                v,
                c as i32,
            );
            let ghost idx = v * cc + c;
            proof {
                assert(idx / (cc as int) == v && idx % (cc as int) == c) by (nonlinear_arith)
                    requires
                        0 <= c < cc,
                        0 <= v,
                        idx == v * cc + c,
                ;
                assert(idx < bt.len()) by (nonlinear_arith)
                    requires
                        0 <= c < cc,
                        0 <= v < nv,
                        idx == v * cc + c,
                        bt.len() == nv * cc,
                ;
            }
            base.push((v as i32, c as i32, s));
            proof {
                assert(base@[idx] == bt[idx]);
            }
            c = c + 1;
        }
        proof {
            assert((v as int + 1) * (cc as int) == v as int * (cc as int) + cc as int)
                by (nonlinear_arith);
        }
        v = v + 1;
    }
    proof {
        assert(base@ =~= bt);
    }
    crate::order::sort_candidates(&base)
}

/// Every score is bounded well below `2^127`: the raw gain is a sum of at
/// most `2^31` terms below `2^63`, and dividing only shrinks it.
pub proof fn lemma_score_spec_bound(
    gain_mode: GainMode,
    videos: Seq<Video>,
    endpoints: Seq<Endpoint>,
    requests: Seq<Request>,
    v: int,
    c: int,
)
    requires
        endpoint_ids_ok(endpoints),
        endpoint_origins_ok(endpoints),
        gain_mode is GainOverCost ==> videos[v].size != 0,
    ensures
        crate::model::abs_int(score_spec(gain_mode, videos, endpoints, requests, v, c))
            <= 0x4000_0000_0000_0000_0000_0000,
{
    crate::model::lemma_endpoints_len_bound(endpoints);
    let ne = endpoints.len() as int;
    crate::model::lemma_raw_gain_upto_bound(endpoints, requests, v, c, ne);
    assert(ne * 0x8000_0000_0000_0000 <= 0x4000_0000_0000_0000_0000_0000);
    match gain_mode {
        GainMode::PureGain => {},
        GainMode::GainOverCost => {
            crate::model::lemma_tdiv_magnitude(
                crate::model::raw_gain(endpoints, requests, v, c),
                videos[v].size as int,
            );
        },
        GainMode::GainOverAudience => {
            if crate::model::pair_demand(endpoints, requests, v, c) != 0 {
                crate::model::lemma_tdiv_magnitude(
                    crate::model::raw_gain(endpoints, requests, v, c),
                    crate::model::pair_demand(endpoints, requests, v, c),
                );
            }
        },
    }
}

/// What the sorted gain table holds: one entry per (video, cache) pair —
/// no pair twice — whose score field is the pair's score.
pub proof fn lemma_sorted_gains_elements(
    gain_mode: GainMode,
    videos: Seq<Video>,
    endpoints: Seq<Endpoint>,
    requests: Seq<Request>,
    cache_count: int,
)
    requires
        0 <= cache_count < 0x8000_0000,
        video_ids_ok(videos),
        endpoint_ids_ok(endpoints),
        endpoint_origins_ok(endpoints),
        gain_mode is GainOverCost ==> crate::model::positive_sizes(videos),
    ensures
        sorted_gains(gain_mode, videos, endpoints, requests, cache_count).len() == videos.len()
            * cache_count,
        forall|i: int|
            0 <= i < sorted_gains(gain_mode, videos, endpoints, requests, cache_count).len()
                ==> (0 <= (#[trigger] sorted_gains(
                gain_mode,
                videos,
                endpoints,
                requests,
                cache_count,
            )[i]).0 < videos.len() && 0 <= sorted_gains(
                gain_mode,
                videos,
                endpoints,
                requests,
                cache_count,
            )[i].1 < cache_count && sorted_gains(
                gain_mode,
                videos,
                endpoints,
                requests,
                cache_count,
            )[i].2 as int == score_spec(
                gain_mode,
                videos,
                endpoints,
                requests,
                sorted_gains(gain_mode, videos, endpoints, requests, cache_count)[i].0 as int,
                sorted_gains(gain_mode, videos, endpoints, requests, cache_count)[i].1 as int,
            )),
        forall|i: int, j: int|
            0 <= i < j < sorted_gains(gain_mode, videos, endpoints, requests, cache_count).len()
                ==> !((#[trigger] sorted_gains(
                gain_mode,
                videos,
                endpoints,
                requests,
                cache_count,
            )[i]).0 == (#[trigger] sorted_gains(
                gain_mode,
                videos,
                endpoints,
                requests,
                cache_count,
            )[j]).0 && sorted_gains(gain_mode, videos, endpoints, requests, cache_count)[i].1
                == sorted_gains(gain_mode, videos, endpoints, requests, cache_count)[j].1),
{
    broadcast use vstd::seq_lib::group_to_multiset_ensures;

    let base = base_triples(gain_mode, videos, endpoints, requests, cache_count);
    let out = sorted_gains(gain_mode, videos, endpoints, requests, cache_count);
    crate::order::lemma_sort_triples_props(base);
    crate::model::lemma_videos_len_bound(videos);
    let nv = videos.len() as int;
    assert(nv * cache_count >= 0) by (nonlinear_arith)
        requires
            nv >= 0,
            cache_count >= 0,
    ;
    assert(base.len() == nv * cache_count);
    assert forall|i: int| 0 <= i < out.len() implies (0 <= (#[trigger] out[i]).0 < videos.len()
        && 0 <= out[i].1 < cache_count && out[i].2 as int == score_spec(
        gain_mode,
        videos,
        endpoints,
        requests,
        out[i].0 as int,
        out[i].1 as int,
    )) by {
        let t = out[i];
        assert(out.contains(t));
        assert(out.to_multiset().count(t) > 0);
        assert(base.to_multiset().count(t) > 0);
        assert(base.contains(t));
        let idx = choose|idx: int| 0 <= idx < base.len() && base[idx] == t;
        assert(cache_count > 0) by (nonlinear_arith)
            requires
                0 <= idx < nv * cache_count,
                nv >= 0,
                cache_count >= 0,
        ;
        assert(0 <= idx / cache_count < nv && 0 <= idx % cache_count < cache_count)
            by (nonlinear_arith)
            requires
                0 <= idx < nv * cache_count,
                cache_count > 0,
                nv >= 0,
        ;
        let sc = score_spec(gain_mode, videos, endpoints, requests, idx / cache_count, idx % cache_count);
        assert(t == ((idx / cache_count) as i32, (idx % cache_count) as i32, sc as i128));
        lemma_score_spec_bound(
            gain_mode,
            videos,
            endpoints,
            requests,
            idx / cache_count,
            idx % cache_count,
        );
        assert(t.0 as int == idx / cache_count);
        assert(t.1 as int == idx % cache_count);
        assert(t.2 as int == sc);
    }
    assert(base.no_duplicates()) by {
        assert forall|i: int, j: int| 0 <= i < base.len() && 0 <= j < base.len() && i != j implies
            base[i] != base[j] by {
            if base[i] == base[j] {
                assert(cache_count > 0) by (nonlinear_arith)
                    requires
                        0 <= i < nv * cache_count,
                        nv >= 0,
                        cache_count >= 0,
                ;
                vstd::arithmetic::div_mod::lemma_fundamental_div_mod(i, cache_count);
                vstd::arithmetic::div_mod::lemma_fundamental_div_mod(j, cache_count);
                assert(i / cache_count < nv && j / cache_count < nv) by (nonlinear_arith)
                    requires
                        0 <= i < nv * cache_count,
                        0 <= j < nv * cache_count,
                        cache_count > 0,
                        nv >= 0,
                ;
                assert(base[i].0 == (i / cache_count) as i32 && base[i].1 == (i
                    % cache_count) as i32);
                assert(base[j].0 == (j / cache_count) as i32 && base[j].1 == (j
                    % cache_count) as i32);
                assert((i / cache_count) as i32 as int == i / cache_count);
                assert((i % cache_count) as i32 as int == i % cache_count);
                assert((j / cache_count) as i32 as int == j / cache_count);
                assert((j % cache_count) as i32 as int == j % cache_count);
                assert(i == cache_count * (i / cache_count) + i % cache_count);
                assert(j == cache_count * (j / cache_count) + j % cache_count);
            }
        }
    }
    base.lemma_multiset_has_no_duplicates();
    assert forall|x: (i32, i32, i128)| out.to_multiset().contains(x) implies
        out.to_multiset().count(x) == 1 by {
        assert(base.to_multiset().count(x) == out.to_multiset().count(x));
    }
    out.lemma_multiset_has_no_duplicates_conv();
    assert forall|i: int, j: int| 0 <= i < j < out.len() implies !((#[trigger] out[i]).0 == (
    #[trigger] out[j]).0 && out[i].1 == out[j].1) by {
        if out[i].0 == out[j].0 && out[i].1 == out[j].1 {
            assert(out[i].2 == out[j].2);
            assert(out[i] == out[j]);
        }
    }
}

/// The starting state of a packing run: every cache empty with the full
/// capacity free.
pub open spec fn empty_states(count: int, capacity: int) -> Seq<(Seq<i32>, int)> {
    Seq::new(count as nat, |c: int| (Seq::<i32>::empty(), capacity))
}

/// One `add_video` attempt at the spec level: contents and remaining
/// capacity of one cache.
pub open spec fn spec_try_add(st: (Seq<i32>, int), vid: i32, size: int) -> (Seq<i32>, int) {
    if size <= st.1 {
        (crate::pack::spec_insert_sorted(st.0, vid), st.1 - size)
    } else {
        st
    }
}

/// One placement attempt of a scored pair on the cache fleet; a pair that
/// cites no known video or cache leaves the fleet unchanged.
pub open spec fn spec_attempt(
    states: Seq<(Seq<i32>, int)>,
    videos: Seq<Video>,
    t: (i32, i32, i128),
) -> Seq<(Seq<i32>, int)> {
    if 0 <= t.1 < states.len() && 0 <= t.0 < videos.len() {
        states.update(
            t.1 as int,
            spec_try_add(states[t.1 as int], t.0, videos[t.0 as int].size as int),
        )
    } else {
        states
    }
}

/// Attempts every scored pair once, in order.
pub open spec fn place_all(
    states: Seq<(Seq<i32>, int)>,
    videos: Seq<Video>,
    pairs: Seq<(i32, i32, i128)>,
) -> Seq<(Seq<i32>, int)>
    decreases pairs.len(),
{
    if pairs.len() == 0 {
        states
    } else {
        spec_attempt(place_all(states, videos, pairs.drop_last()), videos, pairs.last())
    }
}

/// Placement never changes how many caches there are.
pub proof fn lemma_place_all_len(
    states: Seq<(Seq<i32>, int)>,
    videos: Seq<Video>,
    pairs: Seq<(i32, i32, i128)>,
)
    ensures
        place_all(states, videos, pairs).len() == states.len(),
    decreases pairs.len(),
{
    if pairs.len() > 0 {
        lemma_place_all_len(states, videos, pairs.drop_last());
    }
}

/// What Descent computes: every (video, cache) pair is scored, the pairs
/// are attempted in descending score order (ties by video id, then cache
/// id), and each cache keeps what fitted. A function of the input alone.
pub open spec fn descent_spec(
    gain_mode: GainMode,
    cache_info: CacheInfo,
    videos: Seq<Video>,
    endpoints: Seq<Endpoint>,
    requests: Seq<Request>,
) -> Seq<Seq<i32>> {
    let pairs = sorted_gains(gain_mode, videos, endpoints, requests, cache_info.count as int);
    let fin = place_all(
        empty_states(cache_info.count as int, cache_info.capacity as int),
        videos,
        pairs,
    );
    Seq::new(cache_info.count as nat, |c: int| fin[c].0)
}

/// Copies a list of video ids.
pub(crate) fn copy_ids(v: &Vec<i32>) -> (r: Vec<i32>)
    ensures
        r@ == v@,
{
    let n = v.len();
    let mut r: Vec<i32> = Vec::new();
    let mut i: usize = 0;
    while i < n
        invariant
            n == v@.len(),
            i <= n,
            r@ == v@.subrange(0, i as int),
        decreases n - i,
    {
        r.push(v[i]);
        proof {
            assert(r@ =~= v@.subrange(0, i as int + 1));
        }
        i = i + 1;
    }
    proof {
        assert(v@.subrange(0, n as int) =~= v@);
    }
    r
}

/// The one-shot greedy strategy: scores all (video, cache) pairs under the
/// chosen policy, then attempts each pair once in descending score order —
/// scores are never revised. Returns, per cache, the stored video ids in
/// ascending order.
pub fn descent(
    gain_mode: GainMode,
    cache_info: CacheInfo,
    videos: Vec<Video>,
    endpoints: Vec<Endpoint>,
    requests: Vec<Request>,
) -> (r: Vec<Vec<i32>>)
    requires
        valid_input(cache_info, videos@, endpoints@, requests@),
        gain_mode is GainOverCost ==> crate::model::positive_sizes(videos@),
    ensures
        r.deep_view() == descent_spec(gain_mode, cache_info, videos@, endpoints@, requests@),
{
    let ghost gpairs = sorted_gains(
        gain_mode,
        videos@,
        endpoints@,
        requests@,
        cache_info.count as int,
    );
    let ghost states0 = empty_states(cache_info.count as int, cache_info.capacity as int);
    proof {
        lemma_sorted_gains_elements(
            gain_mode,
            videos@,
            endpoints@,
            requests@,
            cache_info.count as int,
        );
    }
    let cc = cache_info.count as usize;
    let pairs = descent_gain(gain_mode, &cache_info, &videos, endpoints, requests);
    let mut filled: Vec<crate::pack::FilledCache> = Vec::new();
    let mut c: usize = 0;
    while c < cc
        invariant
            c <= cc,
            filled@.len() == c,
            forall|j: int|
                0 <= j < c ==> (#[trigger] filled@[j]).videos@ == Seq::<i32>::empty() && filled@[
                    j
                ].remaining_capacity == cache_info.capacity,
        decreases cc - c,
    {
        filled.push(crate::pack::FilledCache::new(cache_info.capacity));
        c = c + 1;
    }
    let np = pairs.len();
    let mut i: usize = 0;
    proof {
        assert(gpairs.subrange(0, 0) =~= Seq::<(i32, i32, i128)>::empty());
        assert forall|j: int| 0 <= j < cc implies filled@[j].videos@ == (
        #[trigger] place_all(states0, videos@, gpairs.subrange(0, 0))[j]).0 && filled@[
            j
        ].remaining_capacity as int == place_all(states0, videos@, gpairs.subrange(0, 0))[j].1 by {}
    }
    while i < np
        invariant
            i <= np,
            np == pairs@.len(),
            pairs@ == gpairs,
            cc == cache_info.count,
            states0 == empty_states(cache_info.count as int, cache_info.capacity as int),
            filled@.len() == cc,
            video_ids_ok(videos@),
            video_sizes_ok(videos@),
            forall|j: int|
                0 <= j < gpairs.len() ==> (0 <= (#[trigger] gpairs[j]).0 < videos@.len() && 0
                    <= gpairs[j].1 < cc),
            forall|j: int| 0 <= j < cc ==> crate::pack::sorted_unique((#[trigger] filled@[j]).videos@),
            forall|j: int|
                0 <= j < cc ==> (#[trigger] filled@[j]).videos@ == place_all(
                    states0,
                    videos@,
                    gpairs.subrange(0, i as int),
                )[j].0 && filled@[j].remaining_capacity as int == place_all(
                    states0,
                    videos@,
                    gpairs.subrange(0, i as int),
                )[j].1,
        decreases np - i,
    {
        let t = pairs[i];
        let ghost ps = place_all(states0, videos@, gpairs.subrange(0, i as int));
        let ghost pre_filled = filled@;
        proof {
            lemma_place_all_len(states0, videos@, gpairs.subrange(0, i as int));
        }
        let added = filled[t.1 as usize].add_video(&videos[t.0 as usize]);
        proof {
            let ps1 = place_all(states0, videos@, gpairs.subrange(0, i as int + 1));
            assert(gpairs.subrange(0, i as int + 1).drop_last() =~= gpairs.subrange(0, i as int));
            assert(gpairs.subrange(0, i as int + 1).last() == gpairs[i as int]);
            assert(t == gpairs[i as int]);
            assert(0 <= gpairs[i as int].0 < videos@.len() && 0 <= gpairs[i as int].1 < cc);
            assert(ps.len() == cc);
            assert(ps1 == spec_attempt(ps, videos@, gpairs[i as int]));
            let cid = t.1 as int;
            assert(ps1 == ps.update(cid, spec_try_add(ps[cid], t.0, videos@[t.0 as int].size as int)));
            if added {
                crate::pack::lemma_insert_sorted_props(ps[cid].0, t.0);
            }
            assert(pre_filled[cid].videos@ == ps[cid].0 && pre_filled[cid].remaining_capacity
                as int == ps[cid].1);
            assert(filled@ == pre_filled.update(cid, filled@[cid]));
            assert forall|j: int| 0 <= j < cc implies (#[trigger] filled@[j]).videos@ == ps1[j].0
                && filled@[j].remaining_capacity as int == ps1[j].1 by {
                if j != cid {
                    assert(filled@[j] == pre_filled[j]);
                    assert(ps1[j] == ps[j]);
                } else {
                    assert(videos@[t.0 as int].id == t.0);
                    assert(ps1[cid] == spec_try_add(ps[cid], t.0, videos@[t.0 as int].size as int));
                }
            }
            assert forall|j: int| 0 <= j < cc implies crate::pack::sorted_unique(
                (#[trigger] filled@[j]).videos@,
            ) by {}
        }
        i = i + 1;
    }
    let mut out: Vec<Vec<i32>> = Vec::new();
    let ghost fin = place_all(states0, videos@, gpairs);
    proof {
        assert(gpairs.subrange(0, np as int) =~= gpairs);
    }
    let mut c: usize = 0;
    while c < cc
        invariant
            c <= cc,
            cc == cache_info.count,
            filled@.len() == cc,
            out@.len() == c,
            fin == place_all(states0, videos@, gpairs),
            states0 == empty_states(cache_info.count as int, cache_info.capacity as int),
            forall|j: int|
                0 <= j < cc ==> (#[trigger] filled@[j]).videos@ == fin[j].0,
            forall|j: int| 0 <= j < c ==> (#[trigger] out@[j])@ == fin[j].0,
        decreases cc - c,
    {
        let ids = copy_ids(&filled[c].videos);
        out.push(ids);
        c = c + 1;
    }
    proof {
        assert(out.deep_view() =~~= descent_spec(
            gain_mode,
            cache_info,
            videos@,
            endpoints@,
            requests@,
        ));
    }
    out
}

/// A sound state of one cache during packing: contents sorted and known,
/// remaining capacity exactly the capacity minus the stored sizes, never
/// negative.
pub open spec fn state_inv(st: (Seq<i32>, int), capacity: int, videos: Seq<Video>) -> bool {
    &&& crate::pack::sorted_unique(st.0)
    &&& forall|i: int| 0 <= i < st.0.len() ==> 0 <= #[trigger] st.0[i] < videos.len()
    &&& st.1 == capacity - crate::pack::sum_sizes(st.0, videos)
    &&& st.1 >= 0
}

/// Whether the pair (video `vid`, cache `cid`) occurs among the scored
/// pairs.
pub open spec fn pair_attempted(pairs: Seq<(i32, i32, i128)>, vid: i32, cid: int) -> bool {
    exists|k: int|
        0 <= k < pairs.len() && (#[trigger] pairs[k]).0 == vid && pairs[k].1 as int == cid
}

/// Attempting each pair at most once keeps every cache state sound: the
/// remaining capacity stays `capacity - sum of stored sizes`, never
/// negative, and a cache only holds videos whose pair was attempted on it.
pub proof fn lemma_place_all_inv(
    states: Seq<(Seq<i32>, int)>,
    videos: Seq<Video>,
    pairs: Seq<(i32, i32, i128)>,
    capacity: int,
)
    requires
        video_ids_ok(videos),
        video_sizes_ok(videos),
        forall|k: int|
            0 <= k < pairs.len() ==> 0 <= (#[trigger] pairs[k]).0 < videos.len() && 0
                <= pairs[k].1 < states.len(),
        forall|k1: int, k2: int|
            0 <= k1 < k2 < pairs.len() ==> !((#[trigger] pairs[k1]).0 == (#[trigger] pairs[k2]).0
                && pairs[k1].1 == pairs[k2].1),
        forall|c: int| 0 <= c < states.len() ==> state_inv(#[trigger] states[c], capacity, videos),
        forall|c: int| 0 <= c < states.len() ==> (#[trigger] states[c]).0.len() == 0,
    ensures
        forall|c: int|
            0 <= c < states.len() ==> state_inv(
                #[trigger] place_all(states, videos, pairs)[c],
                capacity,
                videos,
            ),
        forall|c: int, y: i32|
            0 <= c < states.len() && #[trigger] place_all(states, videos, pairs)[c].0.contains(y)
                ==> pair_attempted(pairs, y, c),
    decreases pairs.len(),
{
    lemma_place_all_len(states, videos, pairs);
    if pairs.len() > 0 {
        let prefix = pairs.drop_last();
        let t = pairs.last();
        lemma_place_all_len(states, videos, prefix);
        lemma_place_all_inv(states, videos, prefix, capacity);
        let mid = place_all(states, videos, prefix);
        let fin = place_all(states, videos, pairs);
        let cid = t.1 as int;
        assert(0 <= t.0 < videos.len() && 0 <= cid < states.len()) by {
            assert(pairs[pairs.len() - 1] == t);
        }
        assert(fin == mid.update(cid, spec_try_add(mid[cid], t.0, videos[t.0 as int].size as int)));
        let size = videos[t.0 as int].size as int;
        if size <= mid[cid].1 {
            assert(!mid[cid].0.contains(t.0)) by {
                if mid[cid].0.contains(t.0) {
                    assert(pair_attempted(prefix, t.0, cid));
                    let k = choose|k: int|
                        0 <= k < prefix.len() && (#[trigger] prefix[k]).0 == t.0 && prefix[k].1
                            as int == cid;
                    assert(pairs[k] == prefix[k]);
                    assert(pairs[k].0 == pairs[pairs.len() - 1].0 && pairs[k].1 == pairs[pairs.len()
                        - 1].1);
                }
            }
            crate::pack::lemma_insert_sorted_props(mid[cid].0, t.0);
            crate::pack::lemma_insert_sorted_sum(mid[cid].0, t.0, videos);
        }
        assert forall|c: int| 0 <= c < states.len() implies state_inv(
            #[trigger] fin[c],
            capacity,
            videos,
        ) by {
            if c != cid {
                assert(fin[c] == mid[c]);
            } else if size <= mid[cid].1 {
                assert forall|ii: int| 0 <= ii < fin[cid].0.len() implies 0 <= #[trigger] fin[
                    cid
                ].0[ii] < videos.len() by {
                    assert(fin[cid].0.contains(fin[cid].0[ii]));
                    if fin[cid].0[ii] != t.0 {
                        assert(mid[cid].0.contains(fin[cid].0[ii]));
                        let jj = choose|jj: int|
                            0 <= jj < mid[cid].0.len() && mid[cid].0[jj] == fin[cid].0[ii];
                        assert(0 <= mid[cid].0[jj] < videos.len());
                    }
                }
            }
        }
        assert forall|c: int, y: i32|
            0 <= c < states.len() && #[trigger] fin[c].0.contains(y) implies pair_attempted(
            pairs,
            y,
            c,
        ) by {
            if c == cid && size <= mid[cid].1 && (y == t.0 || !mid[c].0.contains(y)) {
                if y == t.0 {
                    assert(pairs[pairs.len() - 1].0 == y && pairs[pairs.len() - 1].1 as int == c);
                } else {
                    assert(fin[c].0.contains(y) && !mid[c].0.contains(y) && y != t.0);
                    assert(false);
                }
            } else {
                if c != cid {
                    assert(fin[c] == mid[c]);
                }
                assert(mid[c].0.contains(y));
                assert(pair_attempted(prefix, y, c));
                let k = choose|k: int|
                    0 <= k < prefix.len() && (#[trigger] prefix[k]).0 == y && prefix[k].1 as int
                        == c;
                assert(pairs[k] == prefix[k]);
                assert(pairs[k].0 == y && pairs[k].1 as int == c);
            }
        }
    }
}

/// Descent never overfills a cache: at every cache the stored sizes sum to
/// at most the capacity, because each placement is accepted only when its
/// size fits the remaining capacity at the time of the attempt.
pub proof fn lemma_descent_respects_capacity(
    gain_mode: GainMode,
    cache_info: CacheInfo,
    videos: Seq<Video>,
    endpoints: Seq<Endpoint>,
    requests: Seq<Request>,
)
    requires
        valid_input(cache_info, videos, endpoints, requests),
        gain_mode is GainOverCost ==> crate::model::positive_sizes(videos),
    ensures
        forall|c: int|
            0 <= c < cache_info.count ==> crate::pack::sum_sizes(
                #[trigger] descent_spec(gain_mode, cache_info, videos, endpoints, requests)[c],
                videos,
            ) <= cache_info.capacity,
        forall|c: int|
            0 <= c < cache_info.count ==> crate::pack::sorted_unique(
                #[trigger] descent_spec(gain_mode, cache_info, videos, endpoints, requests)[c],
            ),
{
    let pairs = sorted_gains(gain_mode, videos, endpoints, requests, cache_info.count as int);
    let states0 = empty_states(cache_info.count as int, cache_info.capacity as int);
    let fin = place_all(states0, videos, pairs);
    lemma_sorted_gains_elements(gain_mode, videos, endpoints, requests, cache_info.count as int);
    lemma_place_all_inv(states0, videos, pairs, cache_info.capacity as int);
    assert forall|c: int| 0 <= c < cache_info.count implies crate::pack::sum_sizes(
        #[trigger] descent_spec(gain_mode, cache_info, videos, endpoints, requests)[c],
        videos,
    ) <= cache_info.capacity && crate::pack::sorted_unique(
        descent_spec(gain_mode, cache_info, videos, endpoints, requests)[c],
    ) by {
        assert(state_inv(fin[c], cache_info.capacity as int, videos));
        assert(descent_spec(gain_mode, cache_info, videos, endpoints, requests)[c] == fin[c].0);
    }
}

/// Descent is deterministic: its output is a function of the input alone,
/// so two runs over the same input agree.
pub proof fn lemma_descent_deterministic(
    gain_mode: GainMode,
    cache_info: CacheInfo,
    videos: Seq<Video>,
    endpoints: Seq<Endpoint>,
    requests: Seq<Request>,
    first: Seq<Seq<i32>>,
    second: Seq<Seq<i32>>,
)
    requires
        first == descent_spec(gain_mode, cache_info, videos, endpoints, requests),
        second == descent_spec(gain_mode, cache_info, videos, endpoints, requests),
    ensures
        first == second,
{
}

/// Zero caches yield an empty mapping; zero videos yield a mapping of
/// empty content sets — in both cases without error.
pub proof fn lemma_descent_empty_inputs(
    gain_mode: GainMode,
    cache_info: CacheInfo,
    videos: Seq<Video>,
    endpoints: Seq<Endpoint>,
    requests: Seq<Request>,
)
    requires
        valid_input(cache_info, videos, endpoints, requests),
    ensures
        cache_info.count == 0 ==> descent_spec(
            gain_mode,
            cache_info,
            videos,
            endpoints,
            requests,
        ).len() == 0,
        videos.len() == 0 ==> forall|c: int|
            0 <= c < cache_info.count ==> (#[trigger] descent_spec(
                gain_mode,
                cache_info,
                videos,
                endpoints,
                requests,
            )[c]).len() == 0,
{
    if videos.len() == 0 {
        let base = base_triples(
            gain_mode,
            videos,
            endpoints,
            requests,
            cache_info.count as int,
        );
        let pairs = sorted_gains(gain_mode, videos, endpoints, requests, cache_info.count as int);
        crate::order::lemma_sort_triples_props(base);
        assert(base.len() == (videos.len() * (cache_info.count as int)) as nat);
        assert(videos.len() * (cache_info.count as int) == 0);
        assert(base.len() == 0);
        assert(pairs.len() == 0);
    }
}

/// Round-robin spreading after `n` videos: video `i` was attempted on
/// cache `i % count`, whatever the outcome.
pub open spec fn spread_states(
    videos: Seq<Video>,
    count: int,
    capacity: int,
    n: int,
) -> Seq<(Seq<i32>, int)>
    decreases n,
{
    if n <= 0 {
        empty_states(count, capacity)
    } else {
        let st = spread_states(videos, count, capacity, n - 1);
        let c = (n - 1) % count;
        st.update(c, spec_try_add(st[c], videos[n - 1].id, videos[n - 1].size as int))
    }
}

/// Round-robin spreading keeps one state per cache.
pub proof fn lemma_spread_states_len(videos: Seq<Video>, count: int, capacity: int, n: int)
    requires
        count > 0,
    ensures
        spread_states(videos, count, capacity, n).len() == count,
    decreases n,
{
    if n > 0 {
        lemma_spread_states_len(videos, count, capacity, n - 1);
        assert(0 <= (n - 1) % count < count);
    }
}

/// What CacheSpreading computes: videos assigned round-robin in order,
/// one attempt each, never retried.
pub open spec fn spreading_spec(cache_info: CacheInfo, videos: Seq<Video>) -> Seq<Seq<i32>> {
    if cache_info.count == 0 {
        Seq::empty()
    } else {
        let fin = spread_states(
            videos,
            cache_info.count as int,
            cache_info.capacity as int,
            videos.len() as int,
        );
        Seq::new(cache_info.count as nat, |c: int| fin[c].0)
    }
}

/// The naive round-robin strategy: each video in id order is attempted on
/// the next cache in rotation; a rejected video is simply never placed.
pub fn cache_spreading(cache_info: CacheInfo, videos: Vec<Video>) -> (r: Vec<Vec<i32>>)
    requires
        cache_info_ok(cache_info),
        video_sizes_ok(videos@),
    ensures
        r.deep_view() == spreading_spec(cache_info, videos@),
{
    if cache_info.count == 0 {
        let out: Vec<Vec<i32>> = Vec::new();
        proof {
            assert(out.deep_view() =~~= spreading_spec(cache_info, videos@));
        }
        return out;
    }
    let cc = cache_info.count as usize;
    let mut filled: Vec<crate::pack::FilledCache> = Vec::new();
    let mut c: usize = 0;
    while c < cc
        invariant
            c <= cc,
            filled@.len() == c,
            forall|j: int|
                0 <= j < c ==> (#[trigger] filled@[j]).videos@ == Seq::<i32>::empty() && filled@[
                    j
                ].remaining_capacity == cache_info.capacity,
        decreases cc - c,
    {
        filled.push(crate::pack::FilledCache::new(cache_info.capacity));
        c = c + 1;
    }
    let nv = videos.len();
    let mut cur: usize = 0;
    let mut i: usize = 0;
    while i < nv
        invariant
            i <= nv,
            nv == videos@.len(),
            cc == cache_info.count,
            cc > 0,
            video_sizes_ok(videos@),
            filled@.len() == cc,
            cur < cc,
            cur as int == (i as int) % (cc as int),
            forall|j: int| 0 <= j < cc ==> crate::pack::sorted_unique((#[trigger] filled@[j]).videos@),
            forall|j: int|
                0 <= j < cc ==> (#[trigger] filled@[j]).videos@ == spread_states(
                    videos@,
                    cc as int,
                    cache_info.capacity as int,
                    i as int,
                )[j].0 && filled@[j].remaining_capacity as int == spread_states(
                    videos@,
                    cc as int,
                    cache_info.capacity as int,
                    i as int,
                )[j].1,
        decreases nv - i,
    {
        let ghost ps = spread_states(videos@, cc as int, cache_info.capacity as int, i as int);
        let ghost pre_filled = filled@;
        proof {
            lemma_spread_states_len(videos@, cc as int, cache_info.capacity as int, i as int);
        }
        let _ = filled[cur].add_video(&videos[i]);
        proof {
            let ps1 = spread_states(videos@, cc as int, cache_info.capacity as int, i as int + 1);
            assert(ps1 == ps.update(
                cur as int,
                spec_try_add(ps[cur as int], videos@[i as int].id, videos@[i as int].size as int),
            ));
            assert(pre_filled[cur as int].videos@ == ps[cur as int].0 && pre_filled[cur as int].remaining_capacity
                as int == ps[cur as int].1);
            assert(filled@ == pre_filled.update(cur as int, filled@[cur as int]));
            crate::pack::lemma_insert_sorted_props(ps[cur as int].0, videos@[i as int].id);
            assert forall|j: int| 0 <= j < cc implies (#[trigger] filled@[j]).videos@ == ps1[j].0
                && filled@[j].remaining_capacity as int == ps1[j].1 by {
                if j != cur as int {
                    assert(filled@[j] == pre_filled[j]);
                    assert(ps1[j] == ps[j]);
                }
            }
            vstd::arithmetic::div_mod::lemma_fundamental_div_mod(i as int, cc as int);
            let q = (i as int) / (cc as int);
            assert(i as int == (cc as int) * q + cur as int);
            if cur + 1 == cc {
                assert((q + 1) * (cc as int) == (cc as int) * q + cc as int) by (nonlinear_arith);
                vstd::arithmetic::div_mod::lemma_fundamental_div_mod_converse(
                    i as int + 1,
                    cc as int,
                    q + 1,
                    0,
                );
            } else {
                assert(q * (cc as int) == (cc as int) * q) by (nonlinear_arith);
                vstd::arithmetic::div_mod::lemma_fundamental_div_mod_converse(
                    i as int + 1,
                    cc as int,
                    q,
                    cur as int + 1,
                );
            }
        }
        cur = cur + 1;
        if cur == cc {
            cur = 0;
        }
        i = i + 1;
    }
    let mut out: Vec<Vec<i32>> = Vec::new();
    let ghost fin = spread_states(videos@, cc as int, cache_info.capacity as int, nv as int);
    let mut c: usize = 0;
    while c < cc
        invariant
            c <= cc,
            cc == cache_info.count,
            filled@.len() == cc,
            out@.len() == c,
            fin == spread_states(videos@, cc as int, cache_info.capacity as int, videos@.len() as int),
            nv == videos@.len(),
            forall|j: int| 0 <= j < cc ==> (#[trigger] filled@[j]).videos@ == fin[j].0,
            forall|j: int| 0 <= j < c ==> (#[trigger] out@[j])@ == fin[j].0,
        decreases cc - c,
    {
        let ids = copy_ids(&filled[c].videos);
        out.push(ids);
        c = c + 1;
    }
    proof {
        assert(out.deep_view() =~~= spreading_spec(cache_info, videos@));
    }
    out
}

/// First-fit filling after `n` videos: each video went to the first cache
/// that accepted it, if any.
pub open spec fn fill_first_fit(states: Seq<(Seq<i32>, int)>, size: int, c: int) -> int
    decreases states.len() - c,
{
    if c < 0 || c >= states.len() {
        -1
    } else if size <= states[c].1 {
        c
    } else {
        fill_first_fit(states, size, c + 1)
    }
}

/// First-fit filling after `n` videos.
pub open spec fn fill_states(
    videos: Seq<Video>,
    count: int,
    capacity: int,
    n: int,
) -> Seq<(Seq<i32>, int)>
    decreases n,
{
    if n <= 0 {
        empty_states(count, capacity)
    } else {
        let st = fill_states(videos, count, capacity, n - 1);
        let c = fill_first_fit(st, videos[n - 1].size as int, 0);
        if c >= 0 {
            st.update(c, spec_try_add(st[c], videos[n - 1].id, videos[n - 1].size as int))
        } else {
            st
        }
    }
}

/// The first-fit scan returns `-1` or a cache at or after its start.
pub proof fn lemma_fill_first_fit_bounds(states: Seq<(Seq<i32>, int)>, size: int, c: int)
    requires
        0 <= c,
    ensures
        fill_first_fit(states, size, c) == -1 || c <= fill_first_fit(states, size, c)
            < states.len(),
    decreases states.len() - c,
{
    if c < states.len() && !(size <= states[c].1) {
        lemma_fill_first_fit_bounds(states, size, c + 1);
    }
}

/// First-fit filling keeps one state per cache.
pub proof fn lemma_fill_states_len(videos: Seq<Video>, count: int, capacity: int, n: int)
    requires
        count >= 0,
    ensures
        fill_states(videos, count, capacity, n).len() == count,
    decreases n,
{
    if n > 0 {
        lemma_fill_states_len(videos, count, capacity, n - 1);
        lemma_fill_first_fit_bounds(
            fill_states(videos, count, capacity, n - 1),
            videos[n - 1].size as int,
            0,
        );
    }
}

/// What CacheFilling computes: each video in id order goes to the first
/// cache in id order that accepts it; a video no cache accepts is left
/// unplaced.
pub open spec fn filling_spec(cache_info: CacheInfo, videos: Seq<Video>) -> Seq<Seq<i32>> {
    let fin = fill_states(
        videos,
        cache_info.count as int,
        cache_info.capacity as int,
        videos.len() as int,
    );
    Seq::new(cache_info.count as nat, |c: int| fin[c].0)
}

/// The naive first-fit strategy: scan the caches in id order and place the
/// video into the first one that accepts it.
pub fn cache_filling(cache_info: CacheInfo, videos: Vec<Video>) -> (r: Vec<Vec<i32>>)
    requires
        cache_info_ok(cache_info),
        video_sizes_ok(videos@),
    ensures
        r.deep_view() == filling_spec(cache_info, videos@),
{
    let cc = cache_info.count as usize;
    let mut filled: Vec<crate::pack::FilledCache> = Vec::new();
    let mut c: usize = 0;
    while c < cc
        invariant
            c <= cc,
            filled@.len() == c,
            forall|j: int|
                0 <= j < c ==> (#[trigger] filled@[j]).videos@ == Seq::<i32>::empty() && filled@[
                    j
                ].remaining_capacity == cache_info.capacity,
        decreases cc - c,
    {
        filled.push(crate::pack::FilledCache::new(cache_info.capacity));
        c = c + 1;
    }
    let nv = videos.len();
    let mut i: usize = 0;
    while i < nv
        invariant
            i <= nv,
            nv == videos@.len(),
            cc == cache_info.count,
            video_sizes_ok(videos@),
            filled@.len() == cc,
            forall|j: int| 0 <= j < cc ==> crate::pack::sorted_unique((#[trigger] filled@[j]).videos@),
            forall|j: int|
                0 <= j < cc ==> (#[trigger] filled@[j]).videos@ == fill_states(
                    videos@,
                    cc as int,
                    cache_info.capacity as int,
                    i as int,
                )[j].0 && filled@[j].remaining_capacity as int == fill_states(
                    videos@,
                    cc as int,
                    cache_info.capacity as int,
                    i as int,
                )[j].1,
        decreases nv - i,
    {
        let ghost ps = fill_states(videos@, cc as int, cache_info.capacity as int, i as int);
        let ghost ps1 = fill_states(videos@, cc as int, cache_info.capacity as int, i as int + 1);
        proof {
            lemma_fill_states_len(videos@, cc as int, cache_info.capacity as int, i as int);
        }
        let mut cur: usize = 0;
        let mut ok: bool = false;
        while cur < cc && !ok
            invariant
                cur <= cc,
                cc == cache_info.count,
                nv == videos@.len(),
                i < nv,
                video_sizes_ok(videos@),
                filled@.len() == cc,
                ps == fill_states(videos@, cc as int, cache_info.capacity as int, i as int),
                ps1 == fill_states(videos@, cc as int, cache_info.capacity as int, i as int + 1),
                ps.len() == cc,
                forall|j: int|
                    0 <= j < cc ==> crate::pack::sorted_unique((#[trigger] filled@[j]).videos@),
                !ok ==> fill_first_fit(ps, videos@[i as int].size as int, 0) == fill_first_fit(
                    ps,
                    videos@[i as int].size as int,
                    cur as int,
                ),
                !ok ==> forall|j: int|
                    0 <= j < cc ==> (#[trigger] filled@[j]).videos@ == ps[j].0 && filled@[
                        j
                    ].remaining_capacity as int == ps[j].1,
                ok ==> forall|j: int|
                    0 <= j < cc ==> (#[trigger] filled@[j]).videos@ == ps1[j].0 && filled@[
                        j
                    ].remaining_capacity as int == ps1[j].1,
            decreases cc - cur, (if ok { 0int } else { 1int }),
        {
            let ghost pre_filled = filled@;
            ok = filled[cur].add_video(&videos[i]);
            proof {
                assert(pre_filled[cur as int].videos@ == ps[cur as int].0 && pre_filled[cur as int].remaining_capacity
                    as int == ps[cur as int].1);
                assert(filled@ == pre_filled.update(cur as int, filled@[cur as int]));
                let size = videos@[i as int].size as int;
                if ok {
                    assert(fill_first_fit(ps, size, cur as int) == cur as int);
                    assert(ps1 == ps.update(
                        cur as int,
                        spec_try_add(ps[cur as int], videos@[i as int].id, size),
                    ));
                    crate::pack::lemma_insert_sorted_props(ps[cur as int].0, videos@[i as int].id);
                    assert forall|j: int| 0 <= j < cc implies (#[trigger] filled@[j]).videos@
                        == ps1[j].0 && filled@[j].remaining_capacity as int == ps1[j].1 by {
                        if j != cur as int {
                            assert(filled@[j] == pre_filled[j]);
                            assert(ps1[j] == ps[j]);
                        }
                    }
                } else {
                    assert(filled@ =~= pre_filled);
                    assert(fill_first_fit(ps, size, cur as int) == fill_first_fit(
                        ps,
                        size,
                        cur as int + 1,
                    ));
                }
            }
            if !ok {
                cur = cur + 1;
            }
        }
        proof {
            lemma_fill_states_len(videos@, cc as int, cache_info.capacity as int, i as int);
            if !ok {
                assert(fill_first_fit(ps, videos@[i as int].size as int, cc as int) == -1);
                assert(fill_first_fit(ps, videos@[i as int].size as int, 0) == -1);
                assert(ps1 =~= ps);
            }
        }
        i = i + 1;
    }
    let mut out: Vec<Vec<i32>> = Vec::new();
    let ghost fin = fill_states(videos@, cc as int, cache_info.capacity as int, nv as int);
    let mut c: usize = 0;
    while c < cc
        invariant
            c <= cc,
            cc == cache_info.count,
            filled@.len() == cc,
            out@.len() == c,
            fin == fill_states(videos@, cc as int, cache_info.capacity as int, videos@.len() as int),
            nv == videos@.len(),
            forall|j: int| 0 <= j < cc ==> (#[trigger] filled@[j]).videos@ == fin[j].0,
            forall|j: int| 0 <= j < c ==> (#[trigger] out@[j])@ == fin[j].0,
        decreases cc - c,
    {
        let ids = copy_ids(&filled[c].videos);
        out.push(ids);
        c = c + 1;
    }
    proof {
        assert(out.deep_view() =~~= filling_spec(cache_info, videos@));
    }
    out
}

/// The strategy that stores nothing at all.
pub fn dummy_algo() -> (r: Vec<Vec<i32>>)
    ensures
        r.deep_view() == Seq::<Seq<i32>>::empty(),
{
    let out: Vec<Vec<i32>> = Vec::new();
    proof {
        assert(out.deep_view() =~~= Seq::<Seq<i32>>::empty());
    }
    out
}

/// Partial sum of the demand for video `v` over the endpoints `0 .. n`.
pub open spec fn video_total_upto(requests: Seq<Request>, v: int, n: int) -> int
    decreases n,
{
    if n <= 0 {
        0
    } else {
        video_total_upto(requests, v, n - 1) + crate::model::demand_at(requests, v, n - 1)
    }
}

/// The demand partial sums stay within `2^31` per endpoint.
pub proof fn lemma_video_total_upto_bound(requests: Seq<Request>, v: int, n: int)
    requires
        n >= 0,
    ensures
        -(n * 0x8000_0000) <= video_total_upto(requests, v, n) <= n * 0x8000_0000,
    decreases n,
{
    if n > 0 {
        lemma_video_total_upto_bound(requests, v, n - 1);
        crate::model::lemma_demand_at_bounds(requests, v, n - 1);
    }
}

/// The videos ranked by total demand: one triple per video, the ranking
/// order being descending total and then ascending video id.
pub open spec fn rank_base(
    videos: Seq<Video>,
    endpoints: Seq<Endpoint>,
    requests: Seq<Request>,
) -> Seq<(i32, i32, i128)> {
    Seq::new(
        videos.len(),
        |v: int| ((v as i32, 0i32, video_total_upto(requests, v, endpoints.len() as int) as i128)),
    )
}

/// Every ranked entry names a known video.
pub proof fn lemma_rank_elements(videos: Seq<Video>, endpoints: Seq<Endpoint>, requests: Seq<Request>)
    requires
        video_ids_ok(videos),
    ensures
        crate::order::sort_triples(rank_base(videos, endpoints, requests)).len() == videos.len(),
        forall|i: int|
            0 <= i < videos.len() ==> 0 <= (#[trigger] crate::order::sort_triples(
                rank_base(videos, endpoints, requests),
            )[i]).0 < videos.len(),
{
    broadcast use vstd::seq_lib::group_to_multiset_ensures;

    let base = rank_base(videos, endpoints, requests);
    let order = crate::order::sort_triples(base);
    crate::order::lemma_sort_triples_props(base);
    crate::model::lemma_videos_len_bound(videos);
    assert forall|i: int| 0 <= i < videos.len() implies 0 <= (#[trigger] order[i]).0
        < videos.len() by {
        let t = order[i];
        assert(order.contains(t));
        assert(order.to_multiset().count(t) > 0);
        assert(base.to_multiset().count(t) > 0);
        assert(base.contains(t));
        let k = choose|k: int| 0 <= k < base.len() && base[k] == t;
        assert(t.0 == k as i32);
    }
}

/// Whether cache `c` serves at least one endpoint with nonzero demand for
/// video `v`.
pub open spec fn serves(
    endpoints: Seq<Endpoint>,
    requests: Seq<Request>,
    v: int,
    c: int,
) -> bool {
    exists|e: int|
        0 <= e < endpoints.len() && crate::model::reachable(endpoints, c, e)
            && #[trigger] crate::model::demand_at(requests, v, e) != 0
}

/// One video attempted on the caches `0 .. c` that serve demand for it.
pub open spec fn bv_try_upto(
    states: Seq<(Seq<i32>, int)>,
    videos: Seq<Video>,
    endpoints: Seq<Endpoint>,
    requests: Seq<Request>,
    v: int,
    c: int,
) -> Seq<(Seq<i32>, int)>
    decreases c,
{
    if c <= 0 {
        states
    } else {
        let prev = bv_try_upto(states, videos, endpoints, requests, v, c - 1);
        if serves(endpoints, requests, v, c - 1) {
            prev.update(
                c - 1,
                spec_try_add(prev[c - 1], videos[v].id, videos[v].size as int),
            )
        } else {
            prev
        }
    }
}

/// `bv_try_upto` keeps one state per cache.
pub proof fn lemma_bv_try_upto_len(
    states: Seq<(Seq<i32>, int)>,
    videos: Seq<Video>,
    endpoints: Seq<Endpoint>,
    requests: Seq<Request>,
    v: int,
    c: int,
)
    requires
        c <= states.len(),
    ensures
        bv_try_upto(states, videos, endpoints, requests, v, c).len() == states.len(),
    decreases c,
{
    if c > 0 {
        lemma_bv_try_upto_len(states, videos, endpoints, requests, v, c - 1);
    }
}

/// The first `n` ranked videos attempted on every cache that serves them.
pub open spec fn bv_videos(
    states: Seq<(Seq<i32>, int)>,
    videos: Seq<Video>,
    endpoints: Seq<Endpoint>,
    requests: Seq<Request>,
    order: Seq<(i32, i32, i128)>,
    count: int,
    n: int,
) -> Seq<(Seq<i32>, int)>
    decreases n,
{
    if n <= 0 {
        states
    } else {
        bv_try_upto(
            bv_videos(states, videos, endpoints, requests, order, count, n - 1),
            videos,
            endpoints,
            requests,
            order[n - 1].0 as int,
            count,
        )
    }
}

/// `bv_videos` keeps one state per cache.
pub proof fn lemma_bv_videos_len(
    states: Seq<(Seq<i32>, int)>,
    videos: Seq<Video>,
    endpoints: Seq<Endpoint>,
    requests: Seq<Request>,
    order: Seq<(i32, i32, i128)>,
    count: int,
    n: int,
)
    requires
        count == states.len(),
    ensures
        bv_videos(states, videos, endpoints, requests, order, count, n).len() == states.len(),
    decreases n,
{
    if n > 0 {
        lemma_bv_videos_len(states, videos, endpoints, requests, order, count, n - 1);
        lemma_bv_try_upto_len(
            bv_videos(states, videos, endpoints, requests, order, count, n - 1),
            videos,
            endpoints,
            requests,
            order[n - 1].0 as int,
            count,
        );
    }
}

/// What BestVideo computes: videos ranked by total demand alone
/// (descending, ties by ascending id), each attempted in rank order on
/// every cache, in cache-id order, that serves at least one endpoint with
/// nonzero demand for it.
pub open spec fn best_video_spec(
    cache_info: CacheInfo,
    videos: Seq<Video>,
    endpoints: Seq<Endpoint>,
    requests: Seq<Request>,
) -> Seq<Seq<i32>> {
    let order = crate::order::sort_triples(rank_base(videos, endpoints, requests));
    let fin = bv_videos(
        empty_states(cache_info.count as int, cache_info.capacity as int),
        videos,
        endpoints,
        requests,
        order,
        cache_info.count as int,
        order.len() as int,
    );
    Seq::new(cache_info.count as nat, |c: int| fin[c].0)
}

/// Decides whether cache `c` serves at least one endpoint with nonzero
/// demand for the video whose demand row is given.
fn serves_cache(
    endpoints: &Vec<Endpoint>,
    dt_row: &Vec<i32>,
    Ghost(requests): Ghost<Seq<Request>>,
    Ghost(v): Ghost<int>,
    c: i32,
) -> (r: bool)
    requires
        dt_row@.len() == endpoints@.len(),
        forall|e: int|
            0 <= e < endpoints@.len() ==> (#[trigger] dt_row@[e]) as int == crate::model::demand_at(
                requests,
                v,
                e,
            ),
    ensures
        r == serves(endpoints@, requests, v, c as int),
{
    let ne = endpoints.len();
    let mut e: usize = 0;
    while e < ne
        invariant
            e <= ne,
            ne == endpoints@.len(),
            dt_row@.len() == endpoints@.len(),
            forall|j: int|
                0 <= j < endpoints@.len() ==> (#[trigger] dt_row@[j]) as int
                    == crate::model::demand_at(requests, v, j),
            forall|j: int|
                0 <= j < e ==> !(crate::model::reachable(endpoints@, c as int, j)
                    && #[trigger] crate::model::demand_at(requests, v, j) != 0),
        decreases ne - e,
    {
        if endpoints[e].cache_to_latency.get(c).is_some() {
            if dt_row[e] != 0 {
                proof {
                    assert(crate::model::reachable(endpoints@, c as int, e as int)
                        && crate::model::demand_at(requests, v, e as int) != 0);
                }
                return true;
            }
        }
        e = e + 1;
    }
    false
}

/// The demand-priority heuristic: ranks videos by their total demand over
/// all endpoints, ignoring latencies, and places each video in rank order
/// on every cache that serves nonzero demand for it.
pub fn best_video(
    cache_info: CacheInfo,
    videos: Vec<Video>,
    endpoints: Vec<Endpoint>,
    requests: Vec<Request>,
) -> (r: Vec<Vec<i32>>)
    requires
        valid_input(cache_info, videos@, endpoints@, requests@),
    ensures
        r.deep_view() == best_video_spec(cache_info, videos@, endpoints@, requests@),
{
    let nv = videos.len();
    let ne = endpoints.len();
    proof {
        crate::model::lemma_videos_len_bound(videos@);
        crate::model::lemma_endpoints_len_bound(endpoints@);
        lemma_rank_elements(videos@, endpoints@, requests@);
    }
    let dt = build_demand_table(nv, ne, &requests);
    let ghost rbase = rank_base(videos@, endpoints@, requests@);
    let mut base: Vec<(i32, i32, i128)> = Vec::new();
    let mut v: usize = 0;
    while v < nv
        invariant
            v <= nv,
            nv == videos@.len(),
            ne == endpoints@.len(),
            nv <= 0x8000_0000,
            ne <= 0x8000_0000,
            dt@.len() == nv,
            forall|j: int| 0 <= j < nv ==> (#[trigger] dt@[j])@.len() == ne,
            forall|j: int, e: int|
                0 <= j < nv && 0 <= e < ne ==> (#[trigger] dt@[j]@[e]) as int
                    == crate::model::demand_at(requests@, j, e),
            rbase == rank_base(videos@, endpoints@, requests@),
            base@.len() == v,
            forall|j: int| 0 <= j < v ==> base@[j] == rbase[j],
        decreases nv - v,
    {
        let mut tot: i128 = 0;
        let mut e: usize = 0;
        while e < ne
            invariant
                e <= ne,
                ne <= 0x8000_0000,
                v < nv,
                nv == videos@.len(),
                ne == endpoints@.len(),
                dt@.len() == nv,
                forall|j: int| 0 <= j < nv ==> (#[trigger] dt@[j])@.len() == ne,
                forall|j: int, k: int|
                    0 <= j < nv && 0 <= k < ne ==> (#[trigger] dt@[j]@[k]) as int
                        == crate::model::demand_at(requests@, j, k),
                tot as int == video_total_upto(requests@, v as int, e as int),
            decreases ne - e,
        {
            proof {
                lemma_video_total_upto_bound(requests@, v as int, e as int);
                crate::model::lemma_demand_at_bounds(requests@, v as int, e as int);
            }
            tot = tot + dt[v][e] as i128;
            e = e + 1;
        }
        proof {
            lemma_video_total_upto_bound(requests@, v as int, ne as int);
        }
        base.push((v as i32, 0i32, tot));
        proof {
            assert(base@[v as int] == rbase[v as int]);
        }
        v = v + 1;
    }
    proof {
        assert(base@ =~= rbase);
    }
    let order = crate::order::sort_candidates(&base);
    let cc = cache_info.count as usize;
    let mut filled: Vec<crate::pack::FilledCache> = Vec::new();
    let mut c: usize = 0;
    while c < cc
        invariant
            c <= cc,
            filled@.len() == c,
            forall|j: int|
                0 <= j < c ==> (#[trigger] filled@[j]).videos@ == Seq::<i32>::empty() && filled@[
                    j
                ].remaining_capacity == cache_info.capacity,
        decreases cc - c,
    {
        filled.push(crate::pack::FilledCache::new(cache_info.capacity));
        c = c + 1;
    }
    let ghost states0 = empty_states(cache_info.count as int, cache_info.capacity as int);
    let ghost gorder = crate::order::sort_triples(rbase);
    let no = order.len();
    let mut i: usize = 0;
    proof {
        assert forall|j: int| 0 <= j < cc implies (#[trigger] filled@[j]).videos@ == bv_videos(
            states0,
            videos@,
            endpoints@,
            requests@,
            gorder,
            cc as int,
            0,
        )[j].0 && filled@[j].remaining_capacity as int == bv_videos(
            states0,
            videos@,
            endpoints@,
            requests@,
            gorder,
            cc as int,
            0,
        )[j].1 by {}
    }
    while i < no
        invariant
            i <= no,
            no == order@.len(),
            order@ == gorder,
            gorder == crate::order::sort_triples(rank_base(videos@, endpoints@, requests@)),
            no == nv,
            nv == videos@.len(),
            ne == endpoints@.len(),
            cc == cache_info.count,
            states0 == empty_states(cache_info.count as int, cache_info.capacity as int),
            video_ids_ok(videos@),
            video_sizes_ok(videos@),
            filled@.len() == cc,
            dt@.len() == nv,
            forall|j: int| 0 <= j < nv ==> (#[trigger] dt@[j])@.len() == ne,
            forall|j: int, e: int|
                0 <= j < nv && 0 <= e < ne ==> (#[trigger] dt@[j]@[e]) as int
                    == crate::model::demand_at(requests@, j, e),
            forall|j: int| 0 <= j < no ==> 0 <= (#[trigger] gorder[j]).0 < nv,
            forall|j: int| 0 <= j < cc ==> crate::pack::sorted_unique((#[trigger] filled@[j]).videos@),
            forall|j: int|
                0 <= j < cc ==> (#[trigger] filled@[j]).videos@ == bv_videos(
                    states0,
                    videos@,
                    endpoints@,
                    requests@,
                    gorder,
                    cc as int,
                    i as int,
                )[j].0 && filled@[j].remaining_capacity as int == bv_videos(
                    states0,
                    videos@,
                    endpoints@,
                    requests@,
                    gorder,
                    cc as int,
                    i as int,
                )[j].1,
        decreases no - i,
    {
        let vid = order[i].0;
        let ghost mid = bv_videos(states0, videos@, endpoints@, requests@, gorder, cc as int, i as int);
        proof {
            lemma_bv_videos_len(states0, videos@, endpoints@, requests@, gorder, cc as int, i as int);
        }
        let mut c: usize = 0;
        while c < cc
            invariant
                c <= cc,
                cc == cache_info.count,
                0 <= vid < nv,
                vid == gorder[i as int].0,
                i < no,
                nv == videos@.len(),
                ne == endpoints@.len(),
                video_ids_ok(videos@),
                video_sizes_ok(videos@),
                filled@.len() == cc,
                dt@.len() == nv,
                forall|j: int| 0 <= j < nv ==> (#[trigger] dt@[j])@.len() == ne,
                forall|j: int, e: int|
                    0 <= j < nv && 0 <= e < ne ==> (#[trigger] dt@[j]@[e]) as int
                        == crate::model::demand_at(requests@, j, e),
                mid == bv_videos(states0, videos@, endpoints@, requests@, gorder, cc as int, i as int),
                mid.len() == cc,
                forall|j: int|
                    0 <= j < cc ==> crate::pack::sorted_unique((#[trigger] filled@[j]).videos@),
                forall|j: int|
                    0 <= j < cc ==> (#[trigger] filled@[j]).videos@ == bv_try_upto(
                        mid,
                        videos@,
                        endpoints@,
                        requests@,
                        vid as int,
                        c as int,
                    )[j].0 && filled@[j].remaining_capacity as int == bv_try_upto(
                        mid,
                        videos@,
                        endpoints@,
                        requests@,
                        vid as int,
                        c as int,
                    )[j].1,
            decreases cc - c,
        {
            let ghost prev = bv_try_upto(mid, videos@, endpoints@, requests@, vid as int, c as int);
            proof {
                lemma_bv_try_upto_len(mid, videos@, endpoints@, requests@, vid as int, c as int);
            }
            let sv = serves_cache(
                &endpoints,
                &dt[vid as usize],
                Ghost(requests@),
                Ghost(vid as int),
                c as i32,
            );
            let ghost prev1 = bv_try_upto(
                mid,
                videos@,
                endpoints@,
                requests@,
                vid as int,
                c as int + 1,
            );
            if sv {
                let ghost pre_filled = filled@;
                let _ = filled[c].add_video(&videos[vid as usize]);
                proof {
                    assert(prev1 == prev.update(
                        c as int,
                        spec_try_add(prev[c as int], videos@[vid as int].id, videos@[vid as int].size as int),
                    ));
                    assert(pre_filled[c as int].videos@ == prev[c as int].0 && pre_filled[c as int].remaining_capacity
                        as int == prev[c as int].1);
                    assert(filled@ == pre_filled.update(c as int, filled@[c as int]));
                    crate::pack::lemma_insert_sorted_props(prev[c as int].0, videos@[vid as int].id);
                    assert forall|j: int| 0 <= j < cc implies (#[trigger] filled@[j]).videos@
                        == prev1[j].0 && filled@[j].remaining_capacity as int == prev1[j].1 by {
                        if j != c as int {
                            assert(filled@[j] == pre_filled[j]);
                            assert(prev1[j] == prev[j]);
                        }
                    }
                }
            } else {
                proof {
                    assert(prev1 == prev);
                }
            }
            c = c + 1;
        }
        proof {
            assert(bv_videos(
                states0,
                videos@,
                endpoints@,
                requests@,
                gorder,
                cc as int,
                i as int + 1,
            ) == bv_try_upto(mid, videos@, endpoints@, requests@, gorder[i as int].0 as int, cc as int));
        }
        i = i + 1;
    }
    let mut out: Vec<Vec<i32>> = Vec::new();
    let ghost fin = bv_videos(states0, videos@, endpoints@, requests@, gorder, cc as int, no as int);
    let mut c: usize = 0;
    while c < cc
        invariant
            c <= cc,
            cc == cache_info.count,
            filled@.len() == cc,
            out@.len() == c,
            fin == bv_videos(
                states0,
                videos@,
                endpoints@,
                requests@,
                gorder,
                cc as int,
                no as int,
            ),
            forall|j: int| 0 <= j < cc ==> (#[trigger] filled@[j]).videos@ == fin[j].0,
            forall|j: int| 0 <= j < c ==> (#[trigger] out@[j])@ == fin[j].0,
        decreases cc - c,
    {
        let ids = copy_ids(&filled[c].videos);
        out.push(ids);
        c = c + 1;
    }
    proof {
        assert(out.deep_view() =~~= best_video_spec(cache_info, videos@, endpoints@, requests@));
    }
    out
}

/// What `algo` returns: the validation verdict, and on success the
/// mapping computed by the selected strategy.
pub open spec fn algo_spec(
    mode: Mode,
    cache_info: CacheInfo,
    videos: Seq<Video>,
    endpoints: Seq<Endpoint>,
    requests: Seq<Request>,
) -> Result<Seq<Seq<i32>>, ValidationError> {
    match validate_spec(cache_info, videos, endpoints, requests) {
        Err(e) => Err(e),
        Ok(u) => Ok(
            match mode {
                Mode::Dummy => Seq::empty(),
                Mode::CacheSpreading => spreading_spec(cache_info, videos),
                Mode::CacheFilling => filling_spec(cache_info, videos),
                Mode::Descent => descent_spec(
                    GainMode::PureGain,
                    cache_info,
                    videos,
                    endpoints,
                    requests,
                ),
                Mode::DescentCost => descent_spec(
                    GainMode::GainOverCost,
                    cache_info,
                    videos,
                    endpoints,
                    requests,
                ),
                Mode::DescentAudience => descent_spec(
                    GainMode::GainOverAudience,
                    cache_info,
                    videos,
                    endpoints,
                    requests,
                ),
                Mode::BestVideo => best_video_spec(cache_info, videos, endpoints, requests),
                Mode::DescentAmend => crate::amend::descent_amend_spec(
                    cache_info,
                    videos,
                    endpoints,
                    requests,
                ),
            },
        ),
    }
}

/// Runs one placement strategy over a full input: validates the records,
/// then hands them to the selected strategy. Fails with the first
/// validation defect; never fails on capacity grounds.
pub fn algo(
    mode: Mode,
    cache_info: CacheInfo,
    videos: Vec<Video>,
    endpoints: Vec<Endpoint>,
    requests: Vec<Request>,
) -> (r: Result<Vec<Vec<i32>>, ValidationError>)
    requires
        mode is DescentCost ==> crate::model::positive_sizes(videos@),
    ensures
        (match r {
            Ok(out) => algo_spec(mode, cache_info, videos@, endpoints@, requests@) == Ok::<
                Seq<Seq<i32>>,
                ValidationError,
            >(out.deep_view()),
            Err(e) => algo_spec(mode, cache_info, videos@, endpoints@, requests@) == Err::<
                Seq<Seq<i32>>,
                ValidationError,
            >(e),
        }),
{
    match validate(&cache_info, &videos, &endpoints, &requests) {
        Err(e) => Err(e),
        Ok(()) => {
            let out = match mode {
                Mode::Dummy => dummy_algo(),
                Mode::CacheSpreading => cache_spreading(cache_info, videos),
                Mode::CacheFilling => cache_filling(cache_info, videos),
                Mode::Descent => descent(
                    GainMode::PureGain,
                    cache_info,
                    videos,
                    endpoints,
                    requests,
                ),
                Mode::DescentCost => descent(
                    GainMode::GainOverCost,
                    cache_info,
                    videos,
                    endpoints,
                    requests,
                ),
                Mode::DescentAudience => descent(
                    GainMode::GainOverAudience,
                    cache_info,
                    videos,
                    endpoints,
                    requests,
                ),
                Mode::BestVideo => best_video(cache_info, videos, endpoints, requests),
                Mode::DescentAmend => crate::amend::descent_amend(
                    cache_info,
                    videos,
                    endpoints,
                    requests,
                ),
            };
            Ok(out)
        },
    }
}

/// The GainOverAudience score of a pair with no demand at all is 0 by
/// convention: the division by the total demand is guarded, never a fault.
pub proof fn lemma_audience_score_zero_demand(
    videos: Seq<Video>,
    endpoints: Seq<Endpoint>,
    requests: Seq<Request>,
    v: int,
    c: int,
)
    requires
        pair_demand(endpoints, requests, v, c) == 0,
    ensures
        score_spec(GainMode::GainOverAudience, videos, endpoints, requests, v, c) == 0,
{
}

} // verus!
