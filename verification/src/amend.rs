//! The amended greedy strategy: a live score table per (video, cache)
//! pair, broken down by endpoint, that is re-evaluated after every
//! committed placement.
//!
//! After a pair is placed, the remaining candidates of the same video are
//! discounted on every endpoint they share with the placed pair —
//! `new gain = max(old gain - captured gain, 0)` — so an audience is not
//! credited twice. The loop then selects the best remaining pair afresh
//! and stops when no capacity or no worthwhile candidate is left.

use vstd::prelude::*;

use crate::model::{
    demand_at, endpoint_origins_ok, raw_gain, raw_gain_upto, reachable, saving, valid_input,
    video_sizes_ok,
};
use crate::types::{CacheInfo, Endpoint, Request, Video};

verus! {

/// One live (video, cache) candidate: its per-endpoint latency savings,
/// listed by ascending endpoint id.
pub struct Candidate {
    pub video_id: i32,
    pub cache_id: i32,
    pub savings: Vec<(i32, i128)>,
}

impl View for Candidate {
    type V = (i32, i32, Seq<(i32, i128)>);

    open spec fn view(&self) -> (i32, i32, Seq<(i32, i128)>) {
        (self.video_id, self.cache_id, self.savings@)
    }
}

impl DeepView for Candidate {
    type V = (i32, i32, Seq<(i32, i128)>);

    open spec fn deep_view(&self) -> (i32, i32, Seq<(i32, i128)>) {
        self.view()
    }
}

/// The per-endpoint gain breakdown of a pair, over the endpoints `0 .. n`:
/// one entry for each endpoint the cache serves with nonzero demand.
pub open spec fn breakdown_upto(
    endpoints: Seq<Endpoint>,
    requests: Seq<Request>,
    v: int,
    c: int,
    n: int,
) -> Seq<(i32, i128)>
    decreases n,
{
    if n <= 0 {
        Seq::empty()
    } else {
        let p = breakdown_upto(endpoints, requests, v, c, n - 1);
        if reachable(endpoints, c, n - 1) && demand_at(requests, v, n - 1) != 0 {
            p.push((((n - 1) as i32), saving(endpoints, requests, v, c, n - 1) as i128))
        } else {
            p
        }
    }
}

/// The full per-endpoint gain breakdown of a pair.
pub open spec fn breakdown_spec(
    endpoints: Seq<Endpoint>,
    requests: Seq<Request>,
    v: int,
    c: int,
) -> Seq<(i32, i128)> {
    breakdown_upto(endpoints, requests, v, c, endpoints.len() as int)
}

/// The sum of the gains of a breakdown.
pub open spec fn sum_savings(s: Seq<(i32, i128)>) -> int
    decreases s.len(),
{
    if s.len() == 0 {
        0
    } else {
        sum_savings(s.drop_last()) + s.last().1 as int
    }
}

/// A breakdown never lists more entries than there are endpoints.
pub proof fn lemma_breakdown_upto_len(
    endpoints: Seq<Endpoint>,
    requests: Seq<Request>,
    v: int,
    c: int,
    n: int,
)
    requires
        n >= 0,
    ensures
        breakdown_upto(endpoints, requests, v, c, n).len() <= n,
    decreases n,
{
    if n > 0 {
        lemma_breakdown_upto_len(endpoints, requests, v, c, n - 1);
    }
}

/// Every entry of a fresh breakdown is a real saving, bounded below `2^63`
/// in magnitude.
pub proof fn lemma_breakdown_upto_bounds(
    endpoints: Seq<Endpoint>,
    requests: Seq<Request>,
    v: int,
    c: int,
    n: int,
)
    requires
        0 <= n <= endpoints.len(),
        endpoint_origins_ok(endpoints),
    ensures
        forall|j: int|
            0 <= j < breakdown_upto(endpoints, requests, v, c, n).len()
                ==> -0x8000_0000_0000_0000 < (#[trigger] breakdown_upto(
                endpoints,
                requests,
                v,
                c,
                n,
            )[j]).1 < 0x8000_0000_0000_0000,
    decreases n,
{
    if n > 0 {
        lemma_breakdown_upto_bounds(endpoints, requests, v, c, n - 1);
        crate::model::lemma_saving_bound(endpoints, requests, v, c, n - 1);
        let p = breakdown_upto(endpoints, requests, v, c, n - 1);
        let q = breakdown_upto(endpoints, requests, v, c, n);
        assert forall|j: int| 0 <= j < q.len() implies -0x8000_0000_0000_0000 < (
        #[trigger] q[j]).1 < 0x8000_0000_0000_0000 by {
            if j < p.len() {
                assert(q[j] == p[j]);
            }
        }
    }
}

/// The per-endpoint breakdown of a pair sums to exactly the pair's raw
/// gain: endpoints the cache does not serve, or without demand, add
/// nothing.
pub proof fn lemma_breakdown_sums_to_gain(
    endpoints: Seq<Endpoint>,
    requests: Seq<Request>,
    v: int,
    c: int,
)
    requires
        endpoint_origins_ok(endpoints),
    ensures
        sum_savings(breakdown_spec(endpoints, requests, v, c)) == raw_gain(
            endpoints,
            requests,
            v,
            c,
        ),
{
    lemma_breakdown_sum_upto(endpoints, requests, v, c, endpoints.len() as int);
}

proof fn lemma_breakdown_sum_upto(
    endpoints: Seq<Endpoint>,
    requests: Seq<Request>,
    v: int,
    c: int,
    n: int,
)
    requires
        0 <= n <= endpoints.len(),
        endpoint_origins_ok(endpoints),
    ensures
        sum_savings(breakdown_upto(endpoints, requests, v, c, n)) == raw_gain_upto(
            endpoints,
            requests,
            v,
            c,
            n,
        ),
    decreases n,
{
    if n > 0 {
        lemma_breakdown_sum_upto(endpoints, requests, v, c, n - 1);
        crate::model::lemma_saving_bound(endpoints, requests, v, c, n - 1);
        let p = breakdown_upto(endpoints, requests, v, c, n - 1);
        if reachable(endpoints, c, n - 1) && demand_at(requests, v, n - 1) != 0 {
            let q = breakdown_upto(endpoints, requests, v, c, n);
            assert(q.drop_last() =~= p);
        } else if reachable(endpoints, c, n - 1) {
            assert(saving(endpoints, requests, v, c, n - 1) == 0);
        }
    }
}

/// The first index of an entry for endpoint `e`, or `-1`.
pub open spec fn find_entry(s: Seq<(i32, i128)>, e: i32) -> int
    decreases s.len(),
{
    if s.len() == 0 {
        -1
    } else if s[0].0 == e {
        0
    } else {
        let r = find_entry(s.drop_first(), e);
        if r < 0 {
            -1
        } else {
            r + 1
        }
    }
}

proof fn lemma_find_entry_props(s: Seq<(i32, i128)>, e: i32)
    ensures
        -1 <= find_entry(s, e) < s.len(),
        find_entry(s, e) >= 0 ==> s[find_entry(s, e)].0 == e,
        find_entry(s, e) == -1 ==> forall|j: int| 0 <= j < s.len() ==> (#[trigger] s[j]).0 != e,
        forall|j: int| 0 <= j < find_entry(s, e) ==> (#[trigger] s[j]).0 != e,
    decreases s.len(),
{
    if s.len() > 0 && s[0].0 != e {
        lemma_find_entry_props(s.drop_first(), e);
        let rest = s.drop_first();
        assert forall|j: int| 1 <= j < s.len() implies s[j] == rest[j - 1] by {}
    }
}

/// The gain left at one endpoint once a gain found_best been captured there:
/// never negative.
pub open spec fn discount_value(old_gain: int, captured: int) -> int {
    if old_gain - captured < 0 {
        0
    } else {
        old_gain - captured
    }
}

/// One breakdown discounted by what a committed placement captured on the
/// endpoints the two share.
pub open spec fn discount_savings(
    target: Seq<(i32, i128)>,
    committed: Seq<(i32, i128)>,
) -> Seq<(i32, i128)> {
    Seq::new(
        target.len(),
        |j: int|
            {
                let f = find_entry(committed, target[j].0);
                if f >= 0 {
                    (target[j].0, discount_value(target[j].1 as int, committed[f].1 as int) as i128)
                } else {
                    target[j]
                }
            },
    )
}

/// All remaining candidates of one video, discounted by a committed
/// breakdown of that video.
pub open spec fn discount_cands(
    cands: Seq<(i32, i32, Seq<(i32, i128)>)>,
    vid: i32,
    committed: Seq<(i32, i128)>,
) -> Seq<(i32, i32, Seq<(i32, i128)>)> {
    Seq::new(
        cands.len(),
        |k: int|
            if cands[k].0 == vid {
                (cands[k].0, cands[k].1, discount_savings(cands[k].2, committed))
            } else {
                cands[k]
            },
    )
}

/// The live score of a candidate: the sum of its per-endpoint gains when
/// its video still fits the cache, 0 otherwise.
pub open spec fn cand_score(
    st: Seq<(Seq<i32>, int)>,
    videos: Seq<Video>,
    cand: (i32, i32, Seq<(i32, i128)>),
) -> int {
    if 0 <= cand.0 < videos.len() && 0 <= cand.1 < st.len() && videos[cand.0 as int].size as int
        <= st[cand.1 as int].1 {
        sum_savings(cand.2)
    } else {
        0
    }
}

/// The best candidate among the first `k`: the earliest one whose live
/// score strictly exceeds every earlier score, and `(-1, 0)` when no
/// score is positive.
pub open spec fn best_upto(
    cands: Seq<(i32, i32, Seq<(i32, i128)>)>,
    st: Seq<(Seq<i32>, int)>,
    videos: Seq<Video>,
    k: int,
) -> (int, int)
    decreases k,
{
    if k <= 0 {
        (-1, 0)
    } else {
        let p = best_upto(cands, st, videos, k - 1);
        let s = cand_score(st, videos, cands[k - 1]);
        if s > p.1 {
            (k - 1, s)
        } else {
            p
        }
    }
}

proof fn lemma_best_upto_props(
    cands: Seq<(i32, i32, Seq<(i32, i128)>)>,
    st: Seq<(Seq<i32>, int)>,
    videos: Seq<Video>,
    k: int,
)
    ensures
        best_upto(cands, st, videos, k).1 >= 0,
        best_upto(cands, st, videos, k).0 >= 0 ==> best_upto(cands, st, videos, k).0 < k
            && cand_score(st, videos, cands[best_upto(cands, st, videos, k).0]) == best_upto(
            cands,
            st,
            videos,
            k,
        ).1 && best_upto(cands, st, videos, k).1 > 0,
    decreases k,
{
    if k > 0 {
        lemma_best_upto_props(cands, st, videos, k - 1);
    }
}

/// How many candidates carry video `v`.
pub open spec fn count_video(cands: Seq<(i32, i32, Seq<(i32, i128)>)>, v: i32) -> int
    decreases cands.len(),
{
    if cands.len() == 0 {
        0
    } else {
        count_video(cands.drop_last(), v) + if cands.last().0 == v {
            1int
        } else {
            0int
        }
    }
}

proof fn lemma_count_video_member(cands: Seq<(i32, i32, Seq<(i32, i128)>)>, v: i32, k: int)
    requires
        0 <= k < cands.len(),
        cands[k].0 == v,
    ensures
        count_video(cands, v) >= 1,
    decreases cands.len(),
{
    if k < cands.len() - 1 {
        assert(cands.drop_last()[k] == cands[k]);
        lemma_count_video_member(cands.drop_last(), v, k);
    } else {
        lemma_count_video_nonneg(cands.drop_last(), v);
    }
}

proof fn lemma_count_video_nonneg(cands: Seq<(i32, i32, Seq<(i32, i128)>)>, v: i32)
    ensures
        count_video(cands, v) >= 0,
    decreases cands.len(),
{
    if cands.len() > 0 {
        lemma_count_video_nonneg(cands.drop_last(), v);
    }
}

proof fn lemma_count_video_remove(cands: Seq<(i32, i32, Seq<(i32, i128)>)>, v: i32, m: int)
    requires
        0 <= m < cands.len(),
    ensures
        count_video(cands.remove(m), v) == count_video(cands, v) - (if cands[m].0 == v {
            1int
        } else {
            0int
        }),
    decreases cands.len(),
{
    if m == cands.len() - 1 {
        assert(cands.remove(m) =~= cands.drop_last());
    } else {
        lemma_count_video_remove(cands.drop_last(), v, m);
        assert(cands.remove(m).drop_last() =~= cands.drop_last().remove(m));
        assert(cands.remove(m).last() == cands.last());
        assert(cands.drop_last()[m] == cands[m]);
    }
}

proof fn lemma_count_video_same_videos(
    first: Seq<(i32, i32, Seq<(i32, i128)>)>,
    second: Seq<(i32, i32, Seq<(i32, i128)>)>,
    v: i32,
)
    requires
        first.len() == second.len(),
        forall|k: int| 0 <= k < first.len() ==> (#[trigger] first[k]).0 == second[k].0,
    ensures
        count_video(first, v) == count_video(second, v),
    decreases first.len(),
{
    if first.len() > 0 {
        assert forall|k: int| 0 <= k < first.drop_last().len() implies (
        #[trigger] first.drop_last()[k]).0 == second.drop_last()[k].0 by {
            assert(first.drop_last()[k] == first[k]);
            assert(second.drop_last()[k] == second[k]);
        }
        lemma_count_video_same_videos(first.drop_last(), second.drop_last(), v);
        assert(first[first.len() - 1].0 == second[first.len() - 1].0);
    }
}

/// The candidate table as `descent_amend` starts from it: one candidate
/// per (video, cache) pair, in video-then-cache order, with its fresh
/// breakdown.
pub open spec fn amend_base(
    videos: Seq<Video>,
    endpoints: Seq<Endpoint>,
    requests: Seq<Request>,
    cache_count: int,
) -> Seq<(i32, i32, Seq<(i32, i128)>)> {
    Seq::new(
        (videos.len() * cache_count) as nat,
        |idx: int|
            (
                (idx / cache_count) as i32,
                (idx % cache_count) as i32,
                breakdown_spec(endpoints, requests, idx / cache_count, idx % cache_count),
            ),
    )
}

proof fn lemma_amend_base_count_upto(
    videos: Seq<Video>,
    endpoints: Seq<Endpoint>,
    requests: Seq<Request>,
    cache_count: int,
    v: int,
    n: int,
)
    requires
        0 < cache_count < 0x8000_0000,
        0 <= v < 0x8000_0000,
        videos.len() <= 0x8000_0000,
        0 <= n <= videos.len() * cache_count,
    ensures
        count_video(
            amend_base(videos, endpoints, requests, cache_count).take(n),
            (v as i32),
        ) == if n - v * cache_count < 0 {
            0int
        } else if n - v * cache_count > cache_count {
            cache_count
        } else {
            n - v * cache_count
        },
    decreases n,
{
    let base = amend_base(videos, endpoints, requests, cache_count);
    let nv = videos.len() as int;
    assert(nv * cache_count >= 0) by (nonlinear_arith)
        requires
            nv >= 0,
            cache_count > 0,
    ;
    assert(base.len() == nv * cache_count);
    if n == 0 {
        assert(base.take(0) =~= Seq::<(i32, i32, Seq<(i32, i128)>)>::empty());
    } else {
        lemma_amend_base_count_upto(videos, endpoints, requests, cache_count, v, n - 1);
        assert(base.take(n).drop_last() =~= base.take(n - 1));
        assert(base.take(n).last() == base[n - 1]);
        let w = (n - 1) / cache_count;
        assert(0 <= w && w * cache_count <= n - 1 < (w + 1) * cache_count) by (nonlinear_arith)
            requires
                cache_count > 0,
                0 <= n - 1,
                w == (n - 1) / cache_count,
        ;
        assert(w < nv) by (nonlinear_arith)
            requires
                cache_count > 0,
                nv >= 0,
                n - 1 < nv * cache_count,
                w == (n - 1) / cache_count,
                0 <= n - 1,
        ;
        assert(base[n - 1].0 == (w as i32));
        assert((v + 1) * cache_count == v * cache_count + cache_count) by (nonlinear_arith);
        if w == v {
            assert(base[n - 1].0 == (v as i32));
        } else {
            assert((w as i32) as int == w && (v as i32) as int == v);
            assert(base[n - 1].0 != (v as i32));
            if w < v {
                assert((w + 1) * cache_count <= v * cache_count) by (nonlinear_arith)
                    requires
                        w < v,
                        cache_count > 0,
                ;
            } else {
                assert(w * cache_count >= (v + 1) * cache_count) by (nonlinear_arith)
                    requires
                        w > v,
                        cache_count > 0,
                ;
            }
        }
    }
}

/// In the initial candidate table every video appears on exactly
/// `cache_count` candidates.
proof fn lemma_amend_base_counts(
    videos: Seq<Video>,
    endpoints: Seq<Endpoint>,
    requests: Seq<Request>,
    cache_count: int,
)
    requires
        0 < cache_count < 0x8000_0000,
        videos.len() <= 0x8000_0000,
    ensures
        forall|k: int|
            0 <= k < amend_base(videos, endpoints, requests, cache_count).len() ==> count_video(
                amend_base(videos, endpoints, requests, cache_count),
                (#[trigger] amend_base(videos, endpoints, requests, cache_count)[k]).0,
            ) == cache_count,
{
    let base = amend_base(videos, endpoints, requests, cache_count);
    let nv = videos.len() as int;
    assert(nv * cache_count >= 0) by (nonlinear_arith)
        requires
            nv >= 0,
            cache_count > 0,
    ;
    assert(base.len() == nv * cache_count);
    assert forall|k: int| 0 <= k < base.len() implies count_video(
        base,
        (#[trigger] base[k]).0,
    ) == cache_count by {
        let v = k / cache_count;
        assert(0 <= v < nv && 0 <= k % cache_count < cache_count) by (nonlinear_arith)
            requires
                0 <= k < nv * cache_count,
                cache_count > 0,
                nv >= 0,
                v == k / cache_count,
        ;
        assert(base[k].0 == (v as i32));
        lemma_amend_base_count_upto(
            videos,
            endpoints,
            requests,
            cache_count,
            v,
            nv * cache_count,
        );
        assert(base.take(base.len() as int) =~= base);
        assert(nv * cache_count - v * cache_count >= cache_count) by (nonlinear_arith)
            requires
                v < nv,
                cache_count > 0,
        ;
    }
}

/// The capacity still free over a fleet of spec-level cache states.
pub open spec fn states_left(st: Seq<(Seq<i32>, int)>) -> int
    decreases st.len(),
{
    if st.len() == 0 {
        0
    } else {
        states_left(st.drop_last()) + st.last().1
    }
}

/// The spec-level states of an exec fleet.
pub open spec fn states_of(filled: Seq<crate::pack::FilledCache>) -> Seq<(Seq<i32>, int)> {
    Seq::new(filled.len(), |c: int| (filled[c].videos@, filled[c].remaining_capacity as int))
}

proof fn lemma_states_left_of(filled: Seq<crate::pack::FilledCache>)
    ensures
        states_left(states_of(filled)) == crate::pack::spec_left_space(filled),
    decreases filled.len(),
{
    if filled.len() > 0 {
        lemma_states_left_of(filled.drop_last());
        assert(states_of(filled).drop_last() =~= states_of(filled.drop_last()));
    }
}

/// One run of the amended greedy loop: pick the best live candidate,
/// commit it, discount its video's other candidates on shared endpoints,
/// and go on until no capacity or no worthwhile candidate remains.
pub open spec fn amend_loop(
    cands: Seq<(i32, i32, Seq<(i32, i128)>)>,
    st: Seq<(Seq<i32>, int)>,
    videos: Seq<Video>,
) -> Seq<(Seq<i32>, int)>
    decreases cands.len(),
{
    if states_left(st) <= 0 || cands.len() == 0 {
        st
    } else {
        let b = best_upto(cands, st, videos, cands.len() as int);
        if b.0 < 0 || b.0 >= cands.len() {
            st
        } else {
            let cand = cands[b.0];
            let st1 = if 0 <= cand.0 < videos.len() && 0 <= cand.1 < st.len() {
                st.update(
                    cand.1 as int,
                    crate::algo::spec_try_add(
                        st[cand.1 as int],
                        videos[cand.0 as int].id,
                        videos[cand.0 as int].size as int,
                    ),
                )
            } else {
                st
            };
            amend_loop(discount_cands(cands.remove(b.0), cand.0, cand.2), st1, videos)
        }
    }
}

/// What DescentAmend computes.
pub open spec fn descent_amend_spec(
    cache_info: CacheInfo,
    videos: Seq<Video>,
    endpoints: Seq<Endpoint>,
    requests: Seq<Request>,
) -> Seq<Seq<i32>> {
    let fin = amend_loop(
        amend_base(videos, endpoints, requests, cache_info.count as int),
        crate::algo::empty_states(cache_info.count as int, cache_info.capacity as int),
        videos,
    );
    Seq::new(cache_info.count as nat, |c: int| fin[c].0)
}

proof fn lemma_sum_savings_bound(s: Seq<(i32, i128)>, bound: int)
    requires
        bound >= 0,
        forall|j: int| 0 <= j < s.len() ==> -bound <= (#[trigger] s[j]).1 <= bound,
    ensures
        -(s.len() * bound) <= sum_savings(s) <= s.len() * bound,
    decreases s.len(),
{
    if s.len() > 0 {
        assert forall|j: int| 0 <= j < s.drop_last().len() implies -bound <= (
        #[trigger] s.drop_last()[j]).1 <= bound by {
            assert(s.drop_last()[j] == s[j]);
        }
        lemma_sum_savings_bound(s.drop_last(), bound);
        assert(-bound <= s[s.len() - 1].1 <= bound);
        assert((s.len() as int) * bound == (s.len() - 1) * bound + bound) by (nonlinear_arith);
    }
}

/// Builds, for every (video, cache) pair in video-then-cache order, the
/// map of endpoint to latency saved by that placement, listing exactly the
/// endpoints the cache serves with nonzero demand for the video.
pub fn segmented_gain(
    cache_info: &CacheInfo,
    videos: &Vec<Video>,
    endpoints: Vec<Endpoint>,
    requests: Vec<Request>,
) -> (r: Vec<Candidate>)
    requires
        valid_input(*cache_info, videos@, endpoints@, requests@),
    ensures
        r@.len() == videos@.len() * cache_info.count,
        forall|idx: int|
            0 <= idx < r@.len() ==> (#[trigger] r@[idx]).video_id as int == idx / (
            cache_info.count as int) && r@[idx].cache_id as int == idx % (cache_info.count as int)
                && r@[idx].savings@ == breakdown_spec(
                endpoints@,
                requests@,
                idx / (cache_info.count as int),
                idx % (cache_info.count as int),
            ),
{
    let nv = videos.len();
    let ne = endpoints.len();
    proof {
        crate::model::lemma_videos_len_bound(videos@);
        crate::model::lemma_endpoints_len_bound(endpoints@);
    }
    let dt = crate::algo::build_demand_table(nv, ne, &requests);
    let ol = crate::algo::build_origins(&endpoints);
    let cc = cache_info.count as usize;
    let mut out: Vec<Candidate> = Vec::new();
    let mut v: usize = 0;
    while v < nv
        invariant
            v <= nv,
            nv == videos@.len(),
            ne == endpoints@.len(),
            nv <= 0x8000_0000,
            ne <= 0x8000_0000,
            cc == cache_info.count,
            valid_input(*cache_info, videos@, endpoints@, requests@),
            dt@.len() == nv,
            forall|j: int| 0 <= j < nv ==> (#[trigger] dt@[j])@.len() == ne,
            forall|j: int, e: int|
                0 <= j < nv && 0 <= e < ne ==> (#[trigger] dt@[j]@[e]) as int == demand_at(
                    requests@,
                    j,
                    e,
                ),
            ol@.len() == ne,
            forall|e: int|
                0 <= e < ne ==> (#[trigger] ol@[e]) as int == crate::model::origin_lat(
                    endpoints@,
                    e,
                ),
            out@.len() == v * cc,
            forall|idx: int|
                0 <= idx < out@.len() ==> (#[trigger] out@[idx]).video_id as int == idx / (
                cc as int) && out@[idx].cache_id as int == idx % (cc as int)
                    && out@[idx].savings@ == breakdown_spec(
                    endpoints@,
                    requests@,
                    idx / (cc as int),
                    idx % (cc as int),
                ),
        decreases nv - v,
    {
        let mut c: usize = 0;
        while c < cc
            invariant
                v < nv,
                c <= cc,
                nv == videos@.len(),
                ne == endpoints@.len(),
                nv <= 0x8000_0000,
                ne <= 0x8000_0000,
                cc == cache_info.count,
                valid_input(*cache_info, videos@, endpoints@, requests@),
                dt@.len() == nv,
                forall|j: int| 0 <= j < nv ==> (#[trigger] dt@[j])@.len() == ne,
                forall|j: int, e: int|
                    0 <= j < nv && 0 <= e < ne ==> (#[trigger] dt@[j]@[e]) as int == demand_at(
                        requests@,
                        j,
                        e,
                    ),
                ol@.len() == ne,
                forall|e: int|
                    0 <= e < ne ==> (#[trigger] ol@[e]) as int == crate::model::origin_lat(
                        endpoints@,
                        e,
                    ),
                out@.len() == v * cc + c,
                forall|idx: int|
                    0 <= idx < out@.len() ==> (#[trigger] out@[idx]).video_id as int == idx / (
                    cc as int) && out@[idx].cache_id as int == idx % (cc as int)
                        && out@[idx].savings@ == breakdown_spec(
                        endpoints@,
                        requests@,
                        idx / (cc as int),
                        idx % (cc as int),
                    ),
            decreases cc - c,
        {
            let mut savings: Vec<(i32, i128)> = Vec::new();
            let mut e: usize = 0;
            while e < ne
                invariant
                    e <= ne,
                    v < nv,
                    c < cc,
                    cc == cache_info.count,
                    nv == videos@.len(),
                    ne == endpoints@.len(),
                    dt@.len() == nv,
                    forall|j: int| 0 <= j < nv ==> (#[trigger] dt@[j])@.len() == ne,
                    forall|j: int, k: int|
                        0 <= j < nv && 0 <= k < ne ==> (#[trigger] dt@[j]@[k]) as int == demand_at(
                            requests@,
                            j,
                            k,
                        ),
                    ol@.len() == ne,
                    forall|k: int|
                        0 <= k < ne ==> (#[trigger] ol@[k]) as int == crate::model::origin_lat(
                            endpoints@,
                            k,
                        ),
                    savings@ == breakdown_upto(endpoints@, requests@, v as int, c as int, e as int),
                decreases ne - e,
            {
                match endpoints[e].cache_to_latency.get(c as i32) {
                    Some(l) => {
                        let d = dt[v][e];
                        if d != 0 {
                            let o = ol[e];
                            let diff: i128 = o as i128 - l as i128;
                            proof {
                                assert(-0x8000_0000_0000_0000 < diff * (d as i128)
                                    < 0x8000_0000_0000_0000) by (nonlinear_arith)
                                    requires
                                        -0x1_0000_0000 < diff < 0x1_0000_0000,
                                        -0x8000_0000 <= d < 0x8000_0000,
                                ;
                            }
                            let p: i128 = diff * (d as i128);
                            proof {
                                assert(reachable(endpoints@, c as int, e as int));
                                assert(p as int == saving(
                                    endpoints@,
                                    requests@,
                                    v as int,
                                    c as int,
                                    e as int,
                                ));
                            }
                            savings.push((e as i32, p));
                        } else {
                            proof {
                                assert(demand_at(requests@, v as int, e as int) == 0);
                            }
                        }
                    },
                    None => {
                        proof {
                            assert(!reachable(endpoints@, c as int, e as int));
                        }
                    },
                }
                e = e + 1;
            }
            let ghost idx = v * cc + c;
            proof {
                assert(idx / (cc as int) == v && idx % (cc as int) == c) by (nonlinear_arith)
                    requires
                        0 <= c < cc,
                        0 <= v,
                        idx == v * cc + c,
                ;
            }
            out.push(Candidate { video_id: v as i32, cache_id: c as i32, savings });
            c = c + 1;
        }
        proof {
            assert((v as int + 1) * (cc as int) == v as int * (cc as int) + cc as int)
                by (nonlinear_arith);
        }
        v = v + 1;
    }
    out
}

/// The first candidate for the pair (video, cache), or `-1`.
pub open spec fn find_pair(cands: Seq<(i32, i32, Seq<(i32, i128)>)>, vid: i32, cid: i32) -> int
    decreases cands.len(),
{
    if cands.len() == 0 {
        -1
    } else if cands[0].0 == vid && cands[0].1 == cid {
        0
    } else {
        let r = find_pair(cands.drop_first(), vid, cid);
        if r < 0 {
            -1
        } else {
            r + 1
        }
    }
}

proof fn lemma_find_pair_props(cands: Seq<(i32, i32, Seq<(i32, i128)>)>, vid: i32, cid: i32)
    ensures
        -1 <= find_pair(cands, vid, cid) < cands.len(),
        find_pair(cands, vid, cid) >= 0 ==> cands[find_pair(cands, vid, cid)].0 == vid && cands[
            find_pair(cands, vid, cid)
        ].1 == cid,
        forall|j: int|
            0 <= j < find_pair(cands, vid, cid) ==> !((#[trigger] cands[j]).0 == vid && cands[j].1
                == cid),
    decreases cands.len(),
{
    if cands.len() > 0 && !(cands[0].0 == vid && cands[0].1 == cid) {
        lemma_find_pair_props(cands.drop_first(), vid, cid);
        let rest = cands.drop_first();
        assert forall|j: int| 1 <= j < cands.len() implies cands[j] == rest[j - 1] by {}
    }
}

/// Copies a breakdown.
fn copy_pairs(v: &Vec<(i32, i128)>) -> (r: Vec<(i32, i128)>)
    ensures
        r@ == v@,
{
    let n = v.len();
    let mut r: Vec<(i32, i128)> = Vec::new();
    let mut i: usize = 0;
    while i < n
        invariant
            n == v@.len(),
            i <= n,
            r@ == v@.subrange(0, i as int),
        decreases n - i,
    {
        r.push(v[i]);
        proof {
            assert(r@ =~= v@.subrange(0, i as int + 1));
        }
        i = i + 1;
    }
    proof {
        assert(v@.subrange(0, n as int) =~= v@);
    }
    r
}

/// Looks an endpoint up in a breakdown: its gain, if listed.
fn lookup_entry(s: &Vec<(i32, i128)>, e: i32) -> (r: Option<i128>)
    ensures
        r == (if find_entry(s@, e) >= 0 {
            Some(s@[find_entry(s@, e)].1)
        } else {
            Option::<i128>::None
        }),
{
    proof {
        lemma_find_entry_props(s@, e);
    }
    let n = s.len();
    let mut i: usize = 0;
    while i < n
        invariant
            n == s@.len(),
            i <= n,
            forall|j: int| 0 <= j < i ==> (#[trigger] s@[j]).0 != e,
        decreases n - i,
    {
        if s[i].0 == e {
            proof {
                lemma_find_entry_first(s@, e, i as int);
            }
            return Some(s[i].1);
        }
        i = i + 1;
    }
    proof {
        if find_entry(s@, e) >= 0 {
            lemma_find_entry_props(s@, e);
        }
    }
    None
}

proof fn lemma_find_entry_first(s: Seq<(i32, i128)>, e: i32, i: int)
    requires
        0 <= i < s.len(),
        s[i].0 == e,
        forall|j: int| 0 <= j < i ==> (#[trigger] s[j]).0 != e,
    ensures
        find_entry(s, e) == i,
        s[find_entry(s, e)].1 == s[i].1,
    decreases s.len(),
{
    if s[0].0 != e {
        let rest = s.drop_first();
        assert forall|j: int| 0 <= j < i - 1 implies (#[trigger] rest[j]).0 != e by {
            assert(rest[j] == s[j + 1]);
        }
        assert(rest[i - 1] == s[i]);
        lemma_find_entry_first(rest, e, i - 1);
    }
}

/// The live score of one candidate's breakdown: 0 when the video no
/// longer fits the cache, the sum of the per-endpoint gains otherwise.
pub fn gain_simple(
    video_id: i32,
    cache_id: i32,
    videos: &Vec<Video>,
    local_gains: &Vec<(i32, i128)>,
    filled: &Vec<crate::pack::FilledCache>,
) -> (g: i128)
    requires
        0 <= video_id < videos@.len(),
        0 <= cache_id < filled@.len(),
        local_gains@.len() <= 0x8000_0000,
        forall|j: int|
            0 <= j < local_gains@.len() ==> -0x4000_0000_0000_0000_0000_0000 < (
            #[trigger] local_gains@[j]).1 < 0x4000_0000_0000_0000_0000_0000,
    ensures
        g as int == cand_score(
            states_of(filled@),
            videos@,
            (video_id, cache_id, local_gains@),
        ),
{
    if videos[video_id as usize].size > filled[cache_id as usize].remaining_capacity {
        return 0;
    }
    let n = local_gains.len();
    let mut acc: i128 = 0;
    let mut j: usize = 0;
    while j < n
        invariant
            j <= n,
            n == local_gains@.len(),
            n <= 0x8000_0000,
            forall|jj: int|
                0 <= jj < n ==> -0x4000_0000_0000_0000_0000_0000 < (
                #[trigger] local_gains@[jj]).1 < 0x4000_0000_0000_0000_0000_0000,
            acc as int == sum_savings(local_gains@.subrange(0, j as int)),
        decreases n - j,
    {
        proof {
            let prefix = local_gains@.subrange(0, j as int);
            assert forall|jj: int| 0 <= jj < prefix.len() implies -0x4000_0000_0000_0000_0000_0000
                <= (#[trigger] prefix[jj]).1 <= 0x4000_0000_0000_0000_0000_0000 by {
                assert(prefix[jj] == local_gains@[jj]);
            }
            lemma_sum_savings_bound(prefix, 0x4000_0000_0000_0000_0000_0000);
            assert(local_gains@.subrange(0, j as int + 1).drop_last() =~= prefix);
        }
        acc = acc + local_gains[j].1;
        j = j + 1;
    }
    proof {
        assert(local_gains@.subrange(0, n as int) =~= local_gains@);
    }
    acc
}

/// The live score of a (video, cache) pair, looked up in the candidate
/// table: 0 when the video no longer fits, the sum of the pair's
/// per-endpoint gains otherwise.
pub fn gain(
    video_id: i32,
    cache_id: i32,
    videos: &Vec<Video>,
    gains: &Vec<Candidate>,
    filled: &Vec<crate::pack::FilledCache>,
) -> (g: i128)
    requires
        0 <= video_id < videos@.len(),
        0 <= cache_id < filled@.len(),
        find_pair(gains.deep_view(), video_id, cache_id) >= 0,
        forall|k: int| 0 <= k < gains@.len() ==> (#[trigger] gains@[k]).savings@.len() <= 0x8000_0000,
        forall|k: int, j: int|
            0 <= k < gains@.len() && 0 <= j < (#[trigger] gains@[k]).savings@.len()
                ==> -0x4000_0000_0000_0000_0000_0000 < (#[trigger] gains@[k].savings@[j]).1
                < 0x4000_0000_0000_0000_0000_0000,
    ensures
        g as int == cand_score(
            states_of(filled@),
            videos@,
            gains.deep_view()[find_pair(gains.deep_view(), video_id, cache_id)],
        ),
{
    proof {
        lemma_find_pair_props(gains.deep_view(), video_id, cache_id);
    }
    let n = gains.len();
    let mut k: usize = 0;
    while k < n
        invariant
            k <= n,
            n == gains@.len(),
            0 <= video_id < videos@.len(),
            0 <= cache_id < filled@.len(),
            forall|kk: int|
                0 <= kk < gains@.len() ==> (#[trigger] gains@[kk]).savings@.len() <= 0x8000_0000,
            forall|kk: int, j: int|
                0 <= kk < gains@.len() && 0 <= j < (#[trigger] gains@[kk]).savings@.len()
                    ==> -0x4000_0000_0000_0000_0000_0000 < (#[trigger] gains@[kk].savings@[j]).1
                    < 0x4000_0000_0000_0000_0000_0000,
            forall|kk: int|
                0 <= kk < k ==> !((#[trigger] gains.deep_view()[kk]).0 == video_id
                    && gains.deep_view()[kk].1 == cache_id),
            find_pair(gains.deep_view(), video_id, cache_id) >= k,
        decreases n - k,
    {
        if gains[k].video_id == video_id && gains[k].cache_id == cache_id {
            proof {
                lemma_find_pair_first(gains.deep_view(), video_id, cache_id, k as int);
            }
            return gain_simple(video_id, cache_id, videos, &gains[k].savings, filled);
        }
        proof {
            lemma_find_pair_props(gains.deep_view(), video_id, cache_id);
            if find_pair(gains.deep_view(), video_id, cache_id) == k as int {
                assert(false);
            }
        }
        k = k + 1;
    }
    proof {
        lemma_find_pair_props(gains.deep_view(), video_id, cache_id);
        assert(false);
    }
    0
}

proof fn lemma_find_pair_first(
    cands: Seq<(i32, i32, Seq<(i32, i128)>)>,
    vid: i32,
    cid: i32,
    i: int,
)
    requires
        0 <= i < cands.len(),
        cands[i].0 == vid && cands[i].1 == cid,
        forall|j: int| 0 <= j < i ==> !((#[trigger] cands[j]).0 == vid && cands[j].1 == cid),
    ensures
        find_pair(cands, vid, cid) == i,
    decreases cands.len(),
{
    if !(cands[0].0 == vid && cands[0].1 == cid) {
        let rest = cands.drop_first();
        assert forall|j: int| 0 <= j < i - 1 implies !((#[trigger] rest[j]).0 == vid && rest[j].1
            == cid) by {
            assert(rest[j] == cands[j + 1]);
        }
        assert(rest[i - 1] == cands[i]);
        lemma_find_pair_first(rest, vid, cid, i - 1);
    }
}

/// The amended greedy strategy: keeps a live per-endpoint score table,
/// commits the best remaining (video, cache) pair, discounts the same
/// video's other candidates on the endpoints they share with the committed
/// pair, and repeats until no capacity or no worthwhile candidate is
/// left. Returns, per cache, the stored video ids in ascending order.
pub fn descent_amend(
    cache_info: CacheInfo,
    videos: Vec<Video>,
    endpoints: Vec<Endpoint>,
    requests: Vec<Request>,
) -> (r: Vec<Vec<i32>>)
    requires
        valid_input(cache_info, videos@, endpoints@, requests@),
    ensures
        r.deep_view() == descent_amend_spec(cache_info, videos@, endpoints@, requests@),
{
    let nv = videos.len();
    let ne = endpoints.len();
    proof {
        crate::model::lemma_videos_len_bound(videos@);
        crate::model::lemma_endpoints_len_bound(endpoints@);
    }
    let ghost gbase = amend_base(videos@, endpoints@, requests@, cache_info.count as int);
    let ghost gst0 = crate::algo::empty_states(
        cache_info.count as int,
        cache_info.capacity as int,
    );
    let mut cands = segmented_gain(&cache_info, &videos, endpoints, requests);
    let cc = cache_info.count as usize;
    proof {
        assert(cands.deep_view().len() == cands@.len());
        assert(cands.deep_view() =~= gbase);
        if cc > 0 {
            lemma_amend_base_counts(videos@, endpoints@, requests@, cc as int);
        }
        assert forall|k: int, j: int|
            0 <= k < cands.deep_view().len() && 0 <= j < (
            #[trigger] cands.deep_view()[k]).2.len() implies -0x8000_0000_0000_0000 < (
        #[trigger] cands.deep_view()[k].2[j]).1 < (1 + cc - count_video(
            cands.deep_view(),
            cands.deep_view()[k].0,
        )) * 0x8000_0000_0000_0000 by {
            let idx = k;
            lemma_breakdown_upto_bounds(
                endpoints@,
                requests@,
                idx / (cc as int),
                idx % (cc as int),
                endpoints@.len() as int,
            );
            assert(count_video(cands.deep_view(), cands.deep_view()[k].0) == cc as int);
        }
        assert forall|k: int| 0 <= k < cands.deep_view().len() implies (
        #[trigger] cands.deep_view()[k]).2.len() <= ne by {
            lemma_breakdown_upto_len(
                endpoints@,
                requests@,
                k / (cc as int),
                k % (cc as int),
                endpoints@.len() as int,
            );
        }
        assert forall|k: int| 0 <= k < cands@.len() implies 0 <= (
        #[trigger] cands@[k]).video_id < nv && 0 <= cands@[k].cache_id < cc by {
            assert(0 <= k / (cc as int) < nv && 0 <= k % (cc as int) < cc) by (nonlinear_arith)
                requires
                    0 <= k < nv as int * (cc as int),
                    cc > 0,
                    nv >= 0,
            ;
        }
        assert forall|k: int| 0 <= k < cands@.len() implies (
        #[trigger] cands@[k]).savings@.len() <= ne by {
            assert(cands.deep_view()[k].2 == cands@[k].savings@);
        }
    }
    let mut filled: Vec<crate::pack::FilledCache> = Vec::new();
    let mut c: usize = 0;
    while c < cc
        invariant
            c <= cc,
            filled@.len() == c,
            forall|j: int|
                0 <= j < c ==> (#[trigger] filled@[j]).videos@ == Seq::<i32>::empty() && filled@[
                    j
                ].remaining_capacity == cache_info.capacity,
        decreases cc - c,
    {
        filled.push(crate::pack::FilledCache::new(cache_info.capacity));
        c = c + 1;
    }
    proof {
        assert(states_of(filled@) =~= gst0);
    }
    let mut left: i128 = crate::pack::left_space(&filled);
    let mut done: bool = false;
    while !done && left > 0 && cands.len() > 0
        invariant
            cc == cache_info.count,
            cc < 0x8000_0000,
            nv == videos@.len(),
            ne == endpoints@.len(),
            ne <= 0x8000_0000,
            video_sizes_ok(videos@),
            filled@.len() == cc,
            forall|j: int| 0 <= j < cc ==> crate::pack::sorted_unique((#[trigger] filled@[j]).videos@),
            forall|k: int|
                0 <= k < cands@.len() ==> 0 <= (#[trigger] cands@[k]).video_id < nv && 0 <= cands@[
                    k
                ].cache_id < cc,
            forall|k: int| 0 <= k < cands@.len() ==> (#[trigger] cands@[k]).savings@.len() <= ne,
            forall|k: int, j: int|
                0 <= k < cands.deep_view().len() && 0 <= j < (
                #[trigger] cands.deep_view()[k]).2.len() ==> -0x8000_0000_0000_0000 < (
                #[trigger] cands.deep_view()[k].2[j]).1 < (1 + cc - count_video(
                    cands.deep_view(),
                    cands.deep_view()[k].0,
                )) * 0x8000_0000_0000_0000,
            gbase == amend_base(videos@, endpoints@, requests@, cache_info.count as int),
            gst0 == crate::algo::empty_states(cache_info.count as int, cache_info.capacity as int),
            amend_loop(cands.deep_view(), states_of(filled@), videos@) == amend_loop(
                gbase,
                gst0,
                videos@,
            ),
            left == crate::pack::spec_left_space(filled@),
            done ==> amend_loop(cands.deep_view(), states_of(filled@), videos@) == states_of(
                filled@,
            ),
        decreases cands@.len() as int + (if done {
            0int
        } else {
            1int
        }),
    {
        let ghost gc = cands.deep_view();
        let ghost gst = states_of(filled@);
        let n = cands.len();
        let mut best_idx: usize = 0;
        let mut found_best: bool = false;
        let mut best_score: i128 = 0;
        let mut k: usize = 0;
        while k < n
            invariant
                k <= n,
                n == cands@.len(),
                gc == cands.deep_view(),
                gst == states_of(filled@),
                nv == videos@.len(),
                cc < 0x8000_0000,
                ne <= 0x8000_0000,
                filled@.len() == cc,
                forall|kk: int|
                    0 <= kk < cands@.len() ==> 0 <= (#[trigger] cands@[kk]).video_id < nv && 0
                        <= cands@[kk].cache_id < cc,
                forall|kk: int|
                    0 <= kk < cands@.len() ==> (#[trigger] cands@[kk]).savings@.len() <= ne,
                forall|kk: int, j: int|
                    0 <= kk < cands.deep_view().len() && 0 <= j < (
                    #[trigger] cands.deep_view()[kk]).2.len() ==> -0x8000_0000_0000_0000 < (
                    #[trigger] cands.deep_view()[kk].2[j]).1 < (1 + cc - count_video(
                        cands.deep_view(),
                        cands.deep_view()[kk].0,
                    )) * 0x8000_0000_0000_0000,
                found_best ==> best_idx < n,
                (
                if found_best {
                    best_idx as int
                } else {
                    -1int
                },
                best_score as int,
                ) == best_upto(gc, gst, videos@, k as int),
            decreases n - k,
        {
            proof {
                lemma_count_video_member(gc, gc[k as int].0, k as int);
                lemma_count_video_nonneg(gc, gc[k as int].0);
                assert forall|j: int| 0 <= j < cands@[k as int].savings@.len() implies
                    -0x4000_0000_0000_0000_0000_0000 < (
                #[trigger] cands@[k as int].savings@[j]).1 < 0x4000_0000_0000_0000_0000_0000 by {
                    assert(gc[k as int].2[j] == cands@[k as int].savings@[j]);
                    assert((1 + cc - count_video(gc, gc[k as int].0)) * 0x8000_0000_0000_0000
                        <= (cc as int) * 0x8000_0000_0000_0000);
                }
            }
            let cand_score_k = gain_simple(
                cands[k].video_id,
                cands[k].cache_id,
                &videos,
                &cands[k].savings,
                &filled,
            );
            proof {
                assert(gc[k as int] == (cands@[k as int].video_id, cands@[k as int].cache_id, cands@[k as int].savings@));
            }
            if cand_score_k > best_score {
                best_idx = k;
                found_best = true;
                best_score = cand_score_k;
            }
            k = k + 1;
        }
        if !found_best {
            done = true;
            proof {
                lemma_states_left_of(filled@);
                assert(best_upto(gc, gst, videos@, gc.len() as int).0 == -1);
                assert(amend_loop(gc, gst, videos@) == gst);
            }
        } else {
            let ghost bi = best_idx as int;
            proof {
                lemma_best_upto_props(gc, gst, videos@, gc.len() as int);
                lemma_states_left_of(filled@);
            }
            let vid = cands[best_idx].video_id;
            let cid = cands[best_idx].cache_id;
            let committed = copy_pairs(&cands[best_idx].savings);
            let ghost pre_filled = filled@;
            let _ = filled[cid as usize].add_video(&videos[vid as usize]);
            let ghost st1 = gst.update(
                cid as int,
                crate::algo::spec_try_add(
                    gst[cid as int],
                    videos@[vid as int].id,
                    videos@[vid as int].size as int,
                ),
            );
            proof {
                assert(pre_filled[cid as int].videos@ == gst[cid as int].0 && pre_filled[cid as int].remaining_capacity
                    as int == gst[cid as int].1);
                assert(filled@ == pre_filled.update(cid as int, filled@[cid as int]));
                crate::pack::lemma_insert_sorted_props(gst[cid as int].0, videos@[vid as int].id);
                assert(states_of(filled@) =~= st1);
                assert forall|j: int| 0 <= j < cc implies crate::pack::sorted_unique(
                    (#[trigger] filled@[j]).videos@,
                ) by {
                    if j != cid as int {
                        assert(filled@[j] == pre_filled[j]);
                    }
                }
            }
            cands.remove(best_idx);
            let ghost mid_cands = gc.remove(bi);
            proof {
                assert(cands.deep_view() =~= mid_cands);
                assert forall|kk: int, j: int|
                    0 <= kk < mid_cands.len() && 0 <= j < (#[trigger] mid_cands[kk]).2.len()
                    implies -0x8000_0000_0000_0000 < (#[trigger] mid_cands[kk].2[j]).1
                    < 0x8000_0000_0000_0000_0000_0000 by {
                    let kk0 = if kk < bi {
                        kk
                    } else {
                        kk + 1
                    };
                    assert(mid_cands[kk] == gc[kk0]);
                    lemma_count_video_nonneg(gc, gc[kk0].0);
                    assert(-0x8000_0000_0000_0000 < gc[kk0].2[j].1 < (1 + cc - count_video(
                        gc,
                        gc[kk0].0,
                    )) * 0x8000_0000_0000_0000);
                }
                lemma_count_video_member(gc, vid, bi);
                assert forall|j: int| 0 <= j < committed@.len() implies -0x8000_0000_0000_0000 < (
                #[trigger] committed@[j]).1 < 0x8000_0000_0000_0000_0000_0000 by {
                    assert(committed@ == gc[bi].2);
                    assert(-0x8000_0000_0000_0000 < gc[bi].2[j].1 < (1 + cc - count_video(
                        gc,
                        gc[bi].0,
                    )) * 0x8000_0000_0000_0000);
                }
            }
            let m = cands.len();
            let mut k: usize = 0;
            while k < m
                invariant
                    k <= m,
                    m == cands@.len(),
                    mid_cands.len() == m,
                    cands.deep_view().len() == m,
                    forall|kk: int|
                        0 <= kk < m ==> (#[trigger] cands@[kk]).video_id == mid_cands[kk].0
                            && cands@[kk].cache_id == mid_cands[kk].1,
                    forall|kk: int|
                        0 <= kk < k ==> (#[trigger] cands@[kk]).savings@ == discount_cands(
                            mid_cands,
                            vid,
                            committed@,
                        )[kk].2,
                    forall|kk: int|
                        k <= kk < m ==> (#[trigger] cands@[kk]).savings@ == mid_cands[kk].2,
                    forall|kk: int, j: int|
                        0 <= kk < mid_cands.len() && 0 <= j < (#[trigger] mid_cands[kk]).2.len()
                            ==> -0x8000_0000_0000_0000 < (#[trigger] mid_cands[kk].2[j]).1
                            < 0x8000_0000_0000_0000_0000_0000,
                    forall|j: int|
                        0 <= j < committed@.len() ==> -0x8000_0000_0000_0000 < (
                        #[trigger] committed@[j]).1 < 0x8000_0000_0000_0000_0000_0000,
                decreases m - k,
            {
                let same = cands[k].video_id == vid;
                if same {
                    let sl = cands[k].savings.len();
                    let ghost old_sv = mid_cands[k as int].2;
                    proof {
                        assert(cands.deep_view()[k as int] == mid_cands[k as int]);
                        assert forall|jj: int| 0 <= jj < old_sv.len() implies
                            -0x8000_0000_0000_0000 < (#[trigger] old_sv[jj]).1
                            < 0x8000_0000_0000_0000_0000_0000 by {
                            assert(old_sv[jj] == mid_cands[k as int].2[jj]);
                        }
                    }
                    let mut j: usize = 0;
                    while j < sl
                        invariant
                            j <= sl,
                            k < m,
                            m == cands@.len(),
                            sl == cands@[k as int].savings@.len(),
                            old_sv == mid_cands[k as int].2,
                            old_sv.len() == sl,
                            mid_cands.len() == m,
                            cands@[k as int].video_id == mid_cands[k as int].0,
                            cands@[k as int].cache_id == mid_cands[k as int].1,
                            forall|jj: int|
                                0 <= jj < j ==> (#[trigger] cands@[k as int].savings@[jj])
                                    == discount_savings(old_sv, committed@)[jj],
                            forall|jj: int|
                                j <= jj < sl ==> (#[trigger] cands@[k as int].savings@[jj])
                                    == old_sv[jj],
                            forall|kk: int|
                                0 <= kk < m && kk != k ==> (#[trigger] cands@[kk]).video_id
                                    == mid_cands[kk].0 && cands@[kk].cache_id == mid_cands[kk].1,
                            forall|kk: int|
                                0 <= kk < k ==> (#[trigger] cands@[kk]).savings@
                                    == discount_cands(mid_cands, vid, committed@)[kk].2,
                            forall|kk: int|
                                k < kk < m ==> (#[trigger] cands@[kk]).savings@
                                    == mid_cands[kk].2,
                            forall|jj: int|
                                0 <= jj < old_sv.len() ==> -0x8000_0000_0000_0000 < (
                                #[trigger] old_sv[jj]).1 < 0x8000_0000_0000_0000_0000_0000,
                            forall|jj: int|
                                0 <= jj < committed@.len() ==> -0x8000_0000_0000_0000 < (
                                #[trigger] committed@[jj]).1 < 0x8000_0000_0000_0000_0000_0000,
                        decreases sl - j,
                    {
                        let e = cands[k].savings[j].0;
                        let ghost pre_cands_view = cands@;
                        proof {
                            assert(cands@[k as int].savings@[j as int] == old_sv[j as int]);
                        }
                        match lookup_entry(&committed, e) {
                            Some(g) => {
                                proof {
                                    lemma_find_entry_props(committed@, e);
                                }
                                let old_val = cands[k].savings[j].1;
                                let d = old_val - g;
                                let new_val: i128 = if d < 0 {
                                    0
                                } else {
                                    d
                                };
                                cands[k].savings[j] = (e, new_val);
                                proof {
                                    assert(old_sv[j as int].0 == e);
                                    assert(cands@[k as int].savings@ == pre_cands_view[k as int].savings@.update(
                                        j as int,
                                        (e, new_val),
                                    ));
                                    assert(cands@[k as int].savings@[j as int]
                                        == discount_savings(old_sv, committed@)[j as int]);
                                    assert(cands@ == pre_cands_view.update(
                                        k as int,
                                        cands@[k as int],
                                    ));
                                    assert forall|kk: int|
                                        0 <= kk < m && kk != k as int implies cands@[kk]
                                        == pre_cands_view[kk] by {}
                                }
                            },
                            None => {
                                proof {
                                    lemma_find_entry_props(committed@, e);
                                    assert(find_entry(committed@, e) == -1);
                                    assert(cands@[k as int].savings@[j as int]
                                        == discount_savings(old_sv, committed@)[j as int]);
                                }
                            },
                        }
                        j = j + 1;
                    }
                    proof {
                        assert(cands@[k as int].savings@ =~= discount_savings(
                            old_sv,
                            committed@,
                        ));
                        assert(cands.deep_view()[k as int] == discount_cands(
                            mid_cands,
                            vid,
                            committed@,
                        )[k as int]);
                    }
                } else {
                    proof {
                        assert(cands.deep_view()[k as int] == mid_cands[k as int]);
                        assert(mid_cands[k as int].0 != vid);
                        assert(cands.deep_view()[k as int] == discount_cands(
                            mid_cands,
                            vid,
                            committed@,
                        )[k as int]);
                    }
                }
                k = k + 1;
            }
            proof {
                let disc = discount_cands(mid_cands, vid, committed@);
                assert(cands.deep_view() =~= disc);
                assert(gc[bi].0 == vid && gc[bi].1 == cid && gc[bi].2 == committed@);
                assert(amend_loop(gc, gst, videos@) == amend_loop(disc, st1, videos@));
                assert(amend_loop(cands.deep_view(), states_of(filled@), videos@) == amend_loop(
                    gbase,
                    gst0,
                    videos@,
                ));
                lemma_count_video_member(gc, vid, bi);
                assert forall|kk: int, j: int|
                    0 <= kk < cands.deep_view().len() && 0 <= j < (
                    #[trigger] cands.deep_view()[kk]).2.len() implies -0x8000_0000_0000_0000 < (
                #[trigger] cands.deep_view()[kk].2[j]).1 < (1 + cc - count_video(
                    cands.deep_view(),
                    cands.deep_view()[kk].0,
                )) * 0x8000_0000_0000_0000 by {
                    let w = disc[kk].0;
                    let kk0 = if kk < bi {
                        kk
                    } else {
                        kk + 1
                    };
                    assert(mid_cands[kk] == gc[kk0]);
                    lemma_count_video_same_videos(disc, mid_cands, w);
                    lemma_count_video_remove(gc, w, bi);
                    lemma_count_video_member(gc, gc[kk0].0, kk0);
                    lemma_count_video_nonneg(gc, w);
                    if w == vid {
                        assert(count_video(disc, w) == count_video(gc, w) - 1);
                        if find_entry(committed@, mid_cands[kk].2[j].0) >= 0 {
                            let f = find_entry(committed@, mid_cands[kk].2[j].0);
                            lemma_find_entry_props(committed@, mid_cands[kk].2[j].0);
                            assert(-0x8000_0000_0000_0000 < gc[bi].2[f].1 < (1 + cc
                                - count_video(gc, vid)) * 0x8000_0000_0000_0000);
                            assert(disc[kk].2[j].1 as int == discount_value(
                                mid_cands[kk].2[j].1 as int,
                                committed@[f].1 as int,
                            ));
                            assert(-0x8000_0000_0000_0000 < gc[kk0].2[j].1 < (1 + cc
                                - count_video(gc, w)) * 0x8000_0000_0000_0000);
                        } else {
                            assert(disc[kk].2[j] == mid_cands[kk].2[j]);
                            assert(-0x8000_0000_0000_0000 < gc[kk0].2[j].1 < (1 + cc
                                - count_video(gc, w)) * 0x8000_0000_0000_0000);
                        }
                    } else {
                        assert(disc[kk] == mid_cands[kk]);
                        assert(count_video(disc, w) == count_video(gc, w));
                        assert(-0x8000_0000_0000_0000 < gc[kk0].2[j].1 < (1 + cc - count_video(
                            gc,
                            w,
                        )) * 0x8000_0000_0000_0000);
                    }
                }
                assert forall|kk: int| 0 <= kk < cands@.len() implies 0 <= (
                #[trigger] cands@[kk]).video_id < nv && 0 <= cands@[kk].cache_id < cc by {
                    let kk0 = if kk < bi {
                        kk
                    } else {
                        kk + 1
                    };
                    assert(cands.deep_view()[kk] == discount_cands(mid_cands, vid, committed@)[kk]);
                    assert(mid_cands[kk] == gc[kk0]);
                }
                assert forall|kk: int| 0 <= kk < cands@.len() implies (
                #[trigger] cands@[kk]).savings@.len() <= ne by {
                    let kk0 = if kk < bi {
                        kk
                    } else {
                        kk + 1
                    };
                    assert(cands.deep_view()[kk] == discount_cands(mid_cands, vid, committed@)[kk]);
                    assert(mid_cands[kk] == gc[kk0]);
                }
            }
            left = crate::pack::left_space(&filled);
        }
    }
    let ghost fin = amend_loop(gbase, gst0, videos@);
    proof {
        lemma_states_left_of(filled@);
        assert(amend_loop(cands.deep_view(), states_of(filled@), videos@) == states_of(filled@));
        assert(fin == states_of(filled@));
    }
    let mut out: Vec<Vec<i32>> = Vec::new();
    let mut c: usize = 0;
    while c < cc
        invariant
            c <= cc,
            cc == cache_info.count,
            filled@.len() == cc,
            out@.len() == c,
            fin == states_of(filled@),
            forall|j: int| 0 <= j < c ==> (#[trigger] out@[j])@ == fin[j].0,
        decreases cc - c,
    {
        let ids = crate::algo::copy_ids(&filled[c].videos);
        out.push(ids);
        proof {
            assert(out@[c as int]@ == states_of(filled@)[c as int].0);
        }
        c = c + 1;
    }
    proof {
        assert(out.deep_view() =~~= descent_amend_spec(cache_info, videos@, endpoints@, requests@));
    }
    out
}

} // verus!
