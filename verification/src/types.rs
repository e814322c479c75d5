//! The input records of a placement run: items ("videos"), endpoints with
//! their latency tables, demand records, and the cache configuration.
//!
//! An endpoint's raw latency table maps a cache id to the link latency from
//! the endpoint to that cache; the sentinel key `-1` carries the latency of
//! the fallback path to the origin datacenter. The table is kept as an
//! association list with unique keys and is viewed as a `Map<int, int>`.

use vstd::prelude::*;

verus! {

/// `true` when no two entries of `pairs` share a key.
pub open spec fn unique_keys(pairs: Seq<(i32, i32)>) -> bool {
    forall|i: int, j: int|
        0 <= i < j < pairs.len() ==> (#[trigger] pairs[i]).0 != (#[trigger] pairs[j]).0
}

/// The mapping described by an association list; a later entry overrides an
/// earlier one with the same key.
pub open spec fn pairs_to_map(pairs: Seq<(i32, i32)>) -> Map<int, int>
    decreases pairs.len(),
{
    if pairs.len() == 0 {
        Map::empty()
    } else {
        pairs_to_map(pairs.drop_last()).insert(pairs.last().0 as int, pairs.last().1 as int)
    }
}

proof fn lemma_unique_keys_drop_last(pairs: Seq<(i32, i32)>)
    requires
        unique_keys(pairs),
        pairs.len() > 0,
    ensures
        unique_keys(pairs.drop_last()),
{
    assert forall|i: int, j: int| 0 <= i < j < pairs.drop_last().len() implies (
    #[trigger] pairs.drop_last()[i]).0 != (#[trigger] pairs.drop_last()[j]).0 by {
        assert(pairs.drop_last()[i] == pairs[i]);
        assert(pairs.drop_last()[j] == pairs[j]);
    }
}

proof fn lemma_ptm_contains(pairs: Seq<(i32, i32)>, k: int)
    ensures
        pairs_to_map(pairs).contains_key(k) <==> exists|i: int|
            0 <= i < pairs.len() && (#[trigger] pairs[i]).0 == k,
    decreases pairs.len(),
{
    if pairs.len() > 0 {
        lemma_ptm_contains(pairs.drop_last(), k);
        if pairs.last().0 == k {
            assert(pairs[pairs.len() - 1].0 == k);
        }
        if exists|i: int| 0 <= i < pairs.len() && (#[trigger] pairs[i]).0 == k {
            let i = choose|i: int| 0 <= i < pairs.len() && (#[trigger] pairs[i]).0 == k;
            if i < pairs.len() - 1 {
                assert(pairs.drop_last()[i].0 == k);
            }
        }
    }
}

proof fn lemma_ptm_value(pairs: Seq<(i32, i32)>, i: int)
    requires
        unique_keys(pairs),
        0 <= i < pairs.len(),
    ensures
        pairs_to_map(pairs).contains_key(pairs[i].0 as int),
        pairs_to_map(pairs)[pairs[i].0 as int] == pairs[i].1 as int,
    decreases pairs.len(),
{
    if i == pairs.len() - 1 {
    } else {
        lemma_unique_keys_drop_last(pairs);
        assert(pairs.drop_last()[i] == pairs[i]);
        lemma_ptm_value(pairs.drop_last(), i);
        assert(pairs[i].0 != pairs.last().0);
    }
}

proof fn lemma_ptm_len(pairs: Seq<(i32, i32)>)
    requires
        unique_keys(pairs),
    ensures
        pairs_to_map(pairs).dom().finite(),
        pairs_to_map(pairs).dom().len() == pairs.len(),
    decreases pairs.len(),
{
    if pairs.len() > 0 {
        lemma_unique_keys_drop_last(pairs);
        lemma_ptm_len(pairs.drop_last());
        lemma_ptm_contains(pairs.drop_last(), pairs.last().0 as int);
        assert forall|i: int| 0 <= i < pairs.drop_last().len() implies (
        #[trigger] pairs.drop_last()[i]).0 != pairs.last().0 by {
            assert(pairs.drop_last()[i] == pairs[i]);
        }
        assert(!pairs_to_map(pairs.drop_last()).dom().contains(pairs.last().0 as int));
    }
}

/// An endpoint's latency table: an association list from cache id (or the
/// origin sentinel `-1`) to latency, with unique keys.
pub struct LatencyTable {
    pairs: Vec<(i32, i32)>,
}

impl View for LatencyTable {
    type V = Map<int, int>;

    closed spec fn view(&self) -> Map<int, int> {
        pairs_to_map(self.pairs@)
    }
}

impl LatencyTable {
    #[verifier::type_invariant]
    spec fn wf(self) -> bool {
        unique_keys(self.pairs@)
    }

    pub fn new() -> (t: LatencyTable)
        ensures
            t@ == Map::<int, int>::empty(),
    {
        LatencyTable { pairs: Vec::new() }
    }

    fn index_of(&self, key: i32) -> (r: Option<usize>)
        ensures
            match r {
                Some(i) => i < self.pairs@.len() && self.pairs@[i as int].0 == key,
                None => forall|i: int|
                    0 <= i < self.pairs@.len() ==> (#[trigger] self.pairs@[i]).0 != key,
            },
    {
        let n = self.pairs.len();
        let mut i: usize = 0;
        while i < n
            invariant
                n == self.pairs@.len(),
                i <= n,
                forall|j: int| 0 <= j < i ==> (#[trigger] self.pairs@[j]).0 != key,
            decreases n - i,
        {
            if self.pairs[i].0 == key {
                return Some(i);
            }
            i = i + 1;
        }
        None
    }

    /// Binds `key` to `value`, replacing any earlier binding of `key`.
    pub fn insert(&mut self, key: i32, value: i32)
        ensures
            final (self)@ == old(self)@.insert(key as int, value as int),
    {
        proof {
            use_type_invariant(&*self);
        }
        let ghost pre = self.pairs@;
        match self.index_of(key) {
            Some(i) => {
                let n = self.pairs.len();
                let mut out: Vec<(i32, i32)> = Vec::new();
                let mut j: usize = 0;
                while j < n
                    invariant
                        n == self.pairs@.len(),
                        i < n,
                        j <= n,
                        j <= i ==> out@ == self.pairs@.subrange(0, j as int),
                        j > i ==> out@ == self.pairs@.subrange(0, i as int) + self.pairs@.subrange(
                            i as int + 1,
                            j as int,
                        ),
                    decreases n - j,
                {
                    if j != i {
                        let p = self.pairs[j];
                        out.push(p);
                        proof {
                            if j <= i {
                                assert(out@ =~= self.pairs@.subrange(0, j as int + 1));
                            } else {
                                assert(out@ =~= self.pairs@.subrange(0, i as int)
                                    + self.pairs@.subrange(i as int + 1, j as int + 1));
                            }
                        }
                    } else {
                        proof {
                            assert(out@ =~= self.pairs@.subrange(0, i as int)
                                + self.pairs@.subrange(i as int + 1, j as int + 1));
                        }
                    }
                    j = j + 1;
                }
                out.push((key, value));
                self.pairs = out;
                proof {
                    let mid = pre.remove(i as int);
                    assert(self.pairs@.drop_last() =~= mid);
                    lemma_ptm_remove(pre, i as int);
                    assert(unique_keys(mid)) by {
                        assert forall|a: int, b: int| 0 <= a < b < mid.len() implies (
                        #[trigger] mid[a]).0 != (#[trigger] mid[b]).0 by {
                            let a0 = if a < i { a } else { a + 1 };
                            let b0 = if b < i { b } else { b + 1 };
                            assert(mid[a] == pre[a0]);
                            assert(mid[b] == pre[b0]);
                        }
                    }
                    assert(self.pairs@.drop_last() =~= mid);
                    lemma_ptm_contains(mid, key as int);
                    assert forall|j: int| 0 <= j < mid.len() implies (#[trigger] mid[j]).0
                        != key by {
                        let j0 = if j < i { j } else { j + 1 };
                        assert(mid[j] == pre[j0]);
                    }
                    assert(unique_keys(self.pairs@)) by {
                        assert forall|a: int, b: int| 0 <= a < b < self.pairs@.len() implies (
                        #[trigger] self.pairs@[a]).0 != (#[trigger] self.pairs@[b]).0 by {
                            if b < self.pairs@.len() - 1 {
                                assert(self.pairs@[a] == mid[a]);
                                assert(self.pairs@[b] == mid[b]);
                            } else {
                                assert(self.pairs@[a] == mid[a]);
                            }
                        }
                    }
                    assert(pairs_to_map(self.pairs@) =~= pairs_to_map(pre).insert(
                        key as int,
                        value as int,
                    ));
                }
            },
            None => {
                let n = self.pairs.len();
                let mut out: Vec<(i32, i32)> = Vec::new();
                let mut j: usize = 0;
                while j < n
                    invariant
                        n == self.pairs@.len(),
                        j <= n,
                        out@ == self.pairs@.subrange(0, j as int),
                    decreases n - j,
                {
                    let p = self.pairs[j];
                    out.push(p);
                    proof {
                        assert(out@ =~= self.pairs@.subrange(0, j as int + 1));
                    }
                    j = j + 1;
                }
                out.push((key, value));
                proof {
                    assert(pre.subrange(0, pre.len() as int) =~= pre);
                }
                self.pairs = out;
                proof {
                    assert(self.pairs@.drop_last() =~= pre);
                    assert(unique_keys(self.pairs@)) by {
                        assert forall|a: int, b: int| 0 <= a < b < self.pairs@.len() implies (
                        #[trigger] self.pairs@[a]).0 != (#[trigger] self.pairs@[b]).0 by {
                            if b < self.pairs@.len() - 1 {
                                assert(self.pairs@[a] == pre[a]);
                                assert(self.pairs@[b] == pre[b]);
                            } else {
                                assert(self.pairs@[a] == pre[a]);
                            }
                        }
                    }
                }
            },
        }
    }

    /// The latency bound to `key`, if the table has one.
    pub fn get(&self, key: i32) -> (r: Option<i32>)
        ensures
            match r {
                Some(v) => self@.contains_key(key as int) && self@[key as int] == v as int,
                None => !self@.contains_key(key as int),
            },
    {
        proof {
            use_type_invariant(&*self);
        }
        match self.index_of(key) {
            Some(i) => {
                proof {
                    lemma_ptm_value(self.pairs@, i as int);
                }
                Some(self.pairs[i].1)
            },
            None => {
                proof {
                    lemma_ptm_contains(self.pairs@, key as int);
                }
                None
            },
        }
    }

    /// How many keys the table binds.
    pub fn len(&self) -> (n: usize)
        ensures
            n == self@.dom().len(),
    {
        proof {
            use_type_invariant(&*self);
            lemma_ptm_len(self.pairs@);
        }
        self.pairs.len()
    }

    /// Every latency stored in a table came from an `i32` and stays in its
    /// range.
    pub proof fn lemma_values_bounded(t: &LatencyTable)
        ensures
            forall|k: int|
                t@.contains_key(k) ==> -0x8000_0000 <= #[trigger] t@[k] < 0x8000_0000,
    {
        lemma_ptm_values_bounded(t.pairs@);
    }

    /// The keys of the table, one occurrence each, in insertion order.
    pub fn keys(&self) -> (ks: Vec<i32>)
        ensures
            ks@.len() == self@.dom().len(),
            forall|i: int| 0 <= i < ks@.len() ==> self@.contains_key((#[trigger] ks@[i]) as int),
            forall|k: int|
                self@.contains_key(k) ==> exists|i: int|
                    0 <= i < ks@.len() && (#[trigger] ks@[i]) as int == k,
    {
        proof {
            use_type_invariant(&*self);
            lemma_ptm_len(self.pairs@);
        }
        let n = self.pairs.len();
        let mut ks: Vec<i32> = Vec::new();
        let mut i: usize = 0;
        while i < n
            invariant
                n == self.pairs@.len(),
                i <= n,
                ks@.len() == i,
                forall|j: int| 0 <= j < i ==> ks@[j] == (#[trigger] self.pairs@[j]).0,
            decreases n - i,
        {
            ks.push(self.pairs[i].0);
            i = i + 1;
        }
        proof {
            assert forall|j: int| 0 <= j < ks@.len() implies self@.contains_key(
                (#[trigger] ks@[j]) as int,
            ) by {
                lemma_ptm_value(self.pairs@, j);
            }
            assert forall|k: int| self@.contains_key(k) implies exists|j: int|
                0 <= j < ks@.len() && (#[trigger] ks@[j]) as int == k by {
                lemma_ptm_contains(self.pairs@, k);
                let j = choose|j: int| 0 <= j < self.pairs@.len() && (#[trigger] self.pairs@[j]).0
                    == k;
                assert(ks@[j] as int == k);
            }
        }
        ks
    }
}

proof fn lemma_ptm_values_bounded(pairs: Seq<(i32, i32)>)
    ensures
        forall|k: int|
            pairs_to_map(pairs).contains_key(k) ==> -0x8000_0000 <= #[trigger] pairs_to_map(
                pairs,
            )[k] < 0x8000_0000,
    decreases pairs.len(),
{
    if pairs.len() > 0 {
        lemma_ptm_values_bounded(pairs.drop_last());
        assert forall|k: int| pairs_to_map(pairs).contains_key(k) implies -0x8000_0000
            <= #[trigger] pairs_to_map(pairs)[k] < 0x8000_0000 by {
            if k != pairs.last().0 as int {
                assert(pairs_to_map(pairs)[k] == pairs_to_map(pairs.drop_last())[k]);
            }
        }
    }
}

proof fn lemma_ptm_remove(pairs: Seq<(i32, i32)>, i: int)
    requires
        unique_keys(pairs),
        0 <= i < pairs.len(),
    ensures
        pairs_to_map(pairs.remove(i)) == pairs_to_map(pairs).remove(pairs[i].0 as int),
    decreases pairs.len(),
{
    let k = pairs[i].0 as int;
    if i == pairs.len() - 1 {
        assert(pairs.remove(i) =~= pairs.drop_last());
        lemma_unique_keys_drop_last(pairs);
        lemma_ptm_contains(pairs.drop_last(), k);
        assert forall|j: int| 0 <= j < pairs.drop_last().len() implies (
        #[trigger] pairs.drop_last()[j]).0 != pairs[i].0 by {
            assert(pairs.drop_last()[j] == pairs[j]);
        }
        assert(!pairs_to_map(pairs.drop_last()).contains_key(k));
        assert(pairs_to_map(pairs.drop_last()) =~= pairs_to_map(pairs.drop_last()).insert(
            k,
            pairs[i].1 as int,
        ).remove(k));
    } else {
        lemma_unique_keys_drop_last(pairs);
        assert(pairs.drop_last()[i] == pairs[i]);
        lemma_ptm_remove(pairs.drop_last(), i);
        assert(pairs.remove(i).drop_last() =~= pairs.drop_last().remove(i));
        assert(pairs.remove(i).last() == pairs.last());
        assert(pairs.last().0 != pairs[i].0);
        assert(pairs_to_map(pairs.remove(i)) == pairs_to_map(pairs.drop_last().remove(i)).insert(
            pairs.last().0 as int,
            pairs.last().1 as int,
        ));
        assert(pairs_to_map(pairs).remove(k) =~= pairs_to_map(pairs.drop_last()).remove(k).insert(
            pairs.last().0 as int,
            pairs.last().1 as int,
        ));
    }
}

/// A content item: identity and size, both immutable once parsed.
#[derive(Clone, Copy)]
pub struct Video {
    pub id: i32,
    pub size: i32,
}

impl Video {
    pub fn new(id: i32, size: i32) -> (v: Video)
        ensures
            v.id == id,
            v.size == size,
    {
        Video { id, size }
    }
}

/// A client aggregation point together with its raw latency table, origin
/// sentinel included.
pub struct Endpoint {
    pub id: i32,
    pub cache_to_latency: LatencyTable,
}

impl Endpoint {
    pub fn new(id: i32, cache_to_latency: LatencyTable) -> (e: Endpoint)
        ensures
            e.id == id,
            e.cache_to_latency@ == cache_to_latency@,
    {
        Endpoint { id, cache_to_latency }
    }
}

/// A placement target with its own identity and capacity.
#[derive(Clone, Copy)]
pub struct Cache {
    pub id: i32,
    pub capacity: i32,
}

/// One observed request volume: `count` requests for a video from an
/// endpoint.
#[derive(Clone, Copy)]
pub struct Request {
    pub video_id: i32,
    pub endpoint_id: i32,
    pub count: i32,
}

impl Request {
    pub fn new(video_id: i32, endpoint_id: i32, count: i32) -> (r: Request)
        ensures
            r.video_id == video_id,
            r.endpoint_id == endpoint_id,
            r.count == count,
    {
        Request { video_id, endpoint_id, count }
    }
}

/// The cache fleet: how many caches exist and the capacity they all share.
#[derive(Clone, Copy)]
pub struct CacheInfo {
    pub count: i32,
    pub capacity: i32,
}

impl CacheInfo {
    pub fn new(count: i32, capacity: i32) -> (c: CacheInfo)
        ensures
            c.count == count,
            c.capacity == capacity,
    {
        CacheInfo { count, capacity }
    }
}

} // verus!
