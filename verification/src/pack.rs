//! The capacity-constrained accumulator that a placement strategy fills,
//! one per cache.
//!
//! `FilledCache::add_video` is the sole mutation path: it accepts a video
//! exactly when the video's size fits the remaining capacity (a size equal
//! to the remaining capacity is accepted). The invariant [`FilledCache::inv`]
//! ties the remaining capacity to the sizes of the contained videos:
//! `remaining_capacity == capacity - sum of sizes`, never negative.

use vstd::prelude::*;

use crate::types::Video;

verus! {

/// `true` when `s` is strictly ascending, hence duplicate-free.
pub open spec fn sorted_unique(s: Seq<i32>) -> bool {
    forall|i: int, j: int| 0 <= i < j < s.len() ==> s[i] < s[j]
}

/// `s` with `x` inserted at its sorted position; `s` unchanged when it
/// already holds `x`.
pub open spec fn spec_insert_sorted(s: Seq<i32>, x: i32) -> Seq<i32>
    decreases s.len(),
{
    if s.len() == 0 {
        seq![x]
    } else if x == s[0] {
        s
    } else if x < s[0] {
        seq![x] + s
    } else {
        seq![s[0]] + spec_insert_sorted(s.drop_first(), x)
    }
}

/// The total size of the videos listed in `ids`.
pub open spec fn sum_sizes(ids: Seq<i32>, videos: Seq<Video>) -> int
    decreases ids.len(),
{
    if ids.len() == 0 {
        0
    } else {
        videos[ids.first() as int].size + sum_sizes(ids.drop_first(), videos)
    }
}

/// The number of elements of a sorted sequence that are below `x`: the
/// position where `x` belongs.
pub open spec fn insert_pos(s: Seq<i32>, x: i32) -> int
    decreases s.len(),
{
    if s.len() == 0 {
        0
    } else if s[0] < x {
        1 + insert_pos(s.drop_first(), x)
    } else {
        0
    }
}

proof fn lemma_insert_pos_props(s: Seq<i32>, x: i32)
    requires
        sorted_unique(s),
    ensures
        0 <= insert_pos(s, x) <= s.len(),
        forall|j: int| 0 <= j < insert_pos(s, x) ==> #[trigger] s[j] < x,
        insert_pos(s, x) < s.len() ==> s[insert_pos(s, x)] >= x,
    decreases s.len(),
{
    if s.len() > 0 && s[0] < x {
        let rest = s.drop_first();
        assert(sorted_unique(rest)) by {
            assert forall|i: int, j: int| 0 <= i < j < rest.len() implies rest[i] < rest[j] by {
                assert(rest[i] == s[i + 1]);
                assert(rest[j] == s[j + 1]);
            }
        }
        lemma_insert_pos_props(rest, x);
        let k = insert_pos(s, x);
        assert forall|j: int| 0 <= j < k implies #[trigger] s[j] < x by {
            if j > 0 {
                assert(rest[j - 1] < x);
            }
        }
        if k < s.len() {
            assert(rest[k - 1] >= x);
        }
    }
}

/// `spec_insert_sorted` either leaves the sequence alone (when it already
/// holds `x`) or is a `Seq::insert` at the sorted position.
pub proof fn lemma_insert_sorted_shape(s: Seq<i32>, x: i32)
    requires
        sorted_unique(s),
    ensures
        s.contains(x) ==> spec_insert_sorted(s, x) == s,
        !s.contains(x) ==> spec_insert_sorted(s, x) == s.insert(insert_pos(s, x), x),
{
    let k = insert_pos(s, x);
    lemma_insert_pos_props(s, x);
    if s.contains(x) {
        let i = choose|i: int| 0 <= i < s.len() && s[i] == x;
        assert(i >= k);
        if i > k {
            assert(s[k] < s[i]);
            assert(false);
        }
        assert(s[k] == x);
        lemma_insert_at_scan(s, x, k);
    } else {
        if k < s.len() && s[k] == x {
            assert(s.contains(x));
        }
        lemma_insert_at_scan(s, x, k);
    }
}

/// Inserting preserves sortedness, only adds `x`, and keeps every element.
pub proof fn lemma_insert_sorted_props(s: Seq<i32>, x: i32)
    requires
        sorted_unique(s),
    ensures
        sorted_unique(spec_insert_sorted(s, x)),
        forall|y: i32| spec_insert_sorted(s, x).contains(y) <==> (s.contains(y) || y == x),
        s.contains(x) ==> spec_insert_sorted(s, x) == s,
        !s.contains(x) ==> spec_insert_sorted(s, x).len() == s.len() + 1,
{
    lemma_insert_sorted_shape(s, x);
    let out = spec_insert_sorted(s, x);
    if s.contains(x) {
        assert forall|y: i32| out.contains(y) <==> (s.contains(y) || y == x) by {}
    } else {
        let k = insert_pos(s, x);
        lemma_insert_pos_props(s, x);
        s.insert_ensures(k, x);
        assert(sorted_unique(out)) by {
            assert forall|i: int, j: int| 0 <= i < j < out.len() implies out[i] < out[j] by {
                if j < k {
                    assert(out[i] == s[i] && out[j] == s[j]);
                } else if j == k {
                    assert(out[i] == s[i] && out[j] == x);
                } else if i < k {
                    assert(out[i] == s[i] && out[j] == s[j - 1]);
                    assert(j - 1 >= k);
                    if i < j - 1 {
                    } else {
                        assert(i == k - 1 && j - 1 == k - 1);
                        assert(false);
                    }
                    if s[j - 1] < x {
                        assert(false);
                    }
                    assert(s[j - 1] >= x);
                    assert(s[j - 1] != x);
                } else if i == k {
                    assert(out[i] == x && out[j] == s[j - 1]);
                    assert(s[j - 1] >= x && s[j - 1] != x);
                } else {
                    assert(out[i] == s[i - 1] && out[j] == s[j - 1]);
                }
            }
        }
        assert forall|y: i32| out.contains(y) <==> (s.contains(y) || y == x) by {
            if out.contains(y) {
                let i = choose|i: int| 0 <= i < out.len() && out[i] == y;
                if i < k {
                    assert(s[i] == y);
                } else if i == k {
                } else {
                    assert(out[(i - 1) + 1] == s[i - 1]);
                    assert(s[i - 1] == y);
                }
            }
            if s.contains(y) {
                let i = choose|i: int| 0 <= i < s.len() && s[i] == y;
                if i < k {
                    assert(out[i] == y);
                } else {
                    assert(out[i + 1] == y);
                }
            }
            if y == x {
                assert(out[k] == y);
            }
        }
    }
}

/// Summing after a `Seq::insert` adds exactly the inserted video's size.
proof fn lemma_sum_insert_at(s: Seq<i32>, k: int, x: i32, videos: Seq<Video>)
    requires
        0 <= k <= s.len(),
    ensures
        sum_sizes(s.insert(k, x), videos) == sum_sizes(s, videos) + videos[x as int].size,
    decreases k,
{
    s.insert_ensures(k, x);
    let out = s.insert(k, x);
    if k == 0 {
        assert(out.drop_first() =~= s);
    } else {
        let rest = s.drop_first();
        lemma_sum_insert_at(rest, k - 1, x, videos);
        rest.insert_ensures(k - 1, x);
        assert(out.drop_first() =~= rest.insert(k - 1, x));
        assert(out.first() == s.first());
    }
}

/// Inserting a fresh element grows the size sum by that video's size.
pub proof fn lemma_insert_sorted_sum(s: Seq<i32>, x: i32, videos: Seq<Video>)
    requires
        sorted_unique(s),
        !s.contains(x),
    ensures
        sum_sizes(spec_insert_sorted(s, x), videos) == sum_sizes(s, videos) + videos[x as int].size,
{
    lemma_insert_sorted_shape(s, x);
    lemma_insert_pos_props(s, x);
    lemma_sum_insert_at(s, insert_pos(s, x), x, videos);
}

/// A cache being filled: the ids of the videos it stores, in ascending
/// order, and the capacity still free.
pub struct FilledCache {
    pub videos: Vec<i32>,
    pub remaining_capacity: i32,
}

impl FilledCache {
    /// The packing invariant: the content list is strictly sorted, every id
    /// is a known video, and the remaining capacity is exactly the shared
    /// capacity minus the sizes of the contained videos — and never
    /// negative.
    pub open spec fn inv(self, capacity: int, videos: Seq<Video>) -> bool {
        &&& sorted_unique(self.videos@)
        &&& forall|i: int| 0 <= i < self.videos@.len() ==> 0 <= #[trigger] self.videos@[i]
            < videos.len()
        &&& self.remaining_capacity as int == capacity - sum_sizes(self.videos@, videos)
        &&& self.remaining_capacity >= 0
    }

    /// An empty accumulator with the whole capacity free.
    pub fn new(capacity: i32) -> (fc: FilledCache)
        ensures
            fc.videos@ == Seq::<i32>::empty(),
            fc.remaining_capacity == capacity,
    {
        FilledCache { videos: Vec::new(), remaining_capacity: capacity }
    }

    /// Stores the video iff its size fits the remaining capacity — a size
    /// exactly equal to the remaining capacity is accepted. On success the
    /// remaining capacity shrinks by the video's size; on failure nothing
    /// changes.
    pub fn add_video(&mut self, video: &Video) -> (added: bool)
        requires
            video.size >= 0,
            sorted_unique(old(self).videos@),
        ensures
            added == (video.size <= old(self).remaining_capacity),
            added ==> final (self).videos@ == spec_insert_sorted(old(self).videos@, video.id)
                && final (self).remaining_capacity == old(self).remaining_capacity - video.size,
            !added ==> *final (self) == *old(self),
    {
        if video.size <= self.remaining_capacity {
            self.remaining_capacity = self.remaining_capacity - video.size;
            let ghost pre = self.videos@;
            let n = self.videos.len();
            let mut k: usize = 0;
            while k < n && self.videos[k] < video.id
                invariant
                    n == self.videos@.len(),
                    k <= n,
                    forall|j: int| 0 <= j < k ==> #[trigger] self.videos@[j] < video.id,
                decreases n - k,
            {
                k = k + 1;
            }
            if k < n && self.videos[k] == video.id {
                proof {
                    lemma_insert_at_scan(pre, video.id, k as int);
                }
            } else {
                self.videos.insert(k, video.id);
                proof {
                    lemma_insert_at_scan(pre, video.id, k as int);
                }
            }
            true
        } else {
            false
        }
    }
}

/// Relates the scan for the first index whose element is not below `x` to
/// the recursive definition of `spec_insert_sorted`.
proof fn lemma_insert_at_scan(s: Seq<i32>, x: i32, k: int)
    requires
        sorted_unique(s),
        0 <= k <= s.len(),
        forall|j: int| 0 <= j < k ==> #[trigger] s[j] < x,
        k < s.len() ==> s[k] >= x,
    ensures
        k < s.len() && s[k] == x ==> spec_insert_sorted(s, x) == s,
        !(k < s.len() && s[k] == x) ==> spec_insert_sorted(s, x) == s.insert(k, x),
    decreases s.len(),
{
    if s.len() == 0 {
        assert(spec_insert_sorted(s, x) =~= s.insert(0, x));
    } else if k == 0 {
        if s[0] == x {
        } else {
            assert(x < s[0]);
            assert(spec_insert_sorted(s, x) =~= s.insert(0, x));
        }
    } else {
        assert(s[0] < x);
        let rest = s.drop_first();
        assert(sorted_unique(rest)) by {
            assert forall|i: int, j: int| 0 <= i < j < rest.len() implies rest[i] < rest[j] by {
                assert(rest[i] == s[i + 1]);
                assert(rest[j] == s[j + 1]);
            }
        }
        assert forall|j: int| 0 <= j < k - 1 implies #[trigger] rest[j] < x by {
            assert(rest[j] == s[j + 1]);
        }
        assert(k - 1 < rest.len() ==> rest[k - 1] >= x);
        lemma_insert_at_scan(rest, x, k - 1);
        if k < s.len() && s[k] == x {
            assert(rest[k - 1] == x);
            assert(spec_insert_sorted(s, x) == seq![s[0]] + spec_insert_sorted(rest, x));
            assert(seq![s[0]] + rest =~= s);
        } else {
            assert(spec_insert_sorted(s, x) =~= seq![s[0]] + rest.insert(k - 1, x));
            assert(seq![s[0]] + rest.insert(k - 1, x) =~= s.insert(k, x));
        }
    }
}

/// Establishes the packing invariant for a fresh accumulator.
pub proof fn lemma_new_inv(fc: FilledCache, capacity: int, videos: Seq<Video>)
    requires
        fc.videos@ == Seq::<i32>::empty(),
        fc.remaining_capacity as int == capacity,
        capacity >= 0,
    ensures
        fc.inv(capacity, videos),
{
}

/// The packing invariant survives `add_video`, whatever the outcome, as
/// long as the attempted video is a known one not already contained.
pub proof fn lemma_add_video_preserves_inv(
    pre: FilledCache,
    post: FilledCache,
    video: Video,
    capacity: int,
    videos: Seq<Video>,
)
    requires
        pre.inv(capacity, videos),
        0 <= video.id < videos.len(),
        videos[video.id as int] == video,
        !pre.videos@.contains(video.id),
        video.size <= pre.remaining_capacity ==> post.videos@ == spec_insert_sorted(
            pre.videos@,
            video.id,
        ) && post.remaining_capacity == pre.remaining_capacity - video.size,
        video.size > pre.remaining_capacity ==> post == pre,
    ensures
        post.inv(capacity, videos),
{
    if video.size <= pre.remaining_capacity {
        lemma_insert_sorted_props(pre.videos@, video.id);
        lemma_insert_sorted_sum(pre.videos@, video.id, videos);
        assert forall|i: int| 0 <= i < post.videos@.len() implies 0 <= #[trigger] post.videos@[i]
            < videos.len() by {
            assert(post.videos@.contains(post.videos@[i]));
            if pre.videos@.contains(post.videos@[i]) {
                let j = choose|j: int| 0 <= j < pre.videos@.len() && pre.videos@[j]
                    == post.videos@[i];
            }
        }
    }
}

/// The capacity still free over a whole cache fleet.
pub open spec fn spec_left_space(filled: Seq<FilledCache>) -> int
    decreases filled.len(),
{
    if filled.len() == 0 {
        0
    } else {
        spec_left_space(filled.drop_last()) + filled.last().remaining_capacity as int
    }
}

/// Sums the remaining capacity over the fleet.
pub fn left_space(filled: &Vec<FilledCache>) -> (space: i128)
    ensures
        space == spec_left_space(filled@),
{
    let n = filled.len();
    let mut space: i128 = 0;
    let mut i: usize = 0;
    while i < n
        invariant
            n == filled@.len(),
            i <= n,
            space == spec_left_space(filled@.subrange(0, i as int)),
            -0x8000_0000 * (i as int) <= space <= 0x8000_0000 * (i as int),
        decreases n - i,
    {
        proof {
            lemma_left_space_bound(filled@.subrange(0, i as int));
            assert(filled@.subrange(0, i as int + 1).drop_last() =~= filled@.subrange(
                0,
                i as int,
            ));
        }
        space = space + filled[i].remaining_capacity as i128;
        i = i + 1;
    }
    proof {
        assert(filled@.subrange(0, n as int) =~= filled@);
    }
    space
}

proof fn lemma_left_space_bound(filled: Seq<FilledCache>)
    ensures
        -0x8000_0000 * (filled.len() as int) <= spec_left_space(filled) <= 0x8000_0000 * (
        filled.len() as int),
    decreases filled.len(),
{
    if filled.len() > 0 {
        lemma_left_space_bound(filled.drop_last());
    }
}

} // verus!
