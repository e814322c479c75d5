//! Ordering of scored placement candidates.
//!
//! A candidate is a triple `(video id, cache id, score)`. Candidates are
//! processed by strictly descending score; candidates with equal score keep
//! their insertion order, which is ascending video id and then ascending
//! cache id — the deterministic tie-break of this library.

use vstd::prelude::*;

verus! {

/// `true` when candidate `a` is attempted no later than candidate `b`:
/// higher score first, then lower video id, then lower cache id.
pub open spec fn before(a: (i32, i32, i128), b: (i32, i32, i128)) -> bool {
    ||| a.2 > b.2
    ||| (a.2 == b.2 && a.0 < b.0)
    ||| (a.2 == b.2 && a.0 == b.0 && a.1 <= b.1)
}

/// `true` when the candidates are listed in attempt order.
pub open spec fn sorted_desc(s: Seq<(i32, i32, i128)>) -> bool {
    forall|i: int, j: int| 0 <= i < j < s.len() ==> before(s[i], s[j])
}

/// `s` with `t` inserted at the last position that keeps the attempt
/// order: every earlier candidate comes before `t`.
pub open spec fn insert_triple(s: Seq<(i32, i32, i128)>, t: (i32, i32, i128)) -> Seq<
    (i32, i32, i128),
>
    decreases s.len(),
{
    if s.len() == 0 {
        seq![t]
    } else if before(t, s[0]) {
        seq![t] + s
    } else {
        seq![s[0]] + insert_triple(s.drop_first(), t)
    }
}

/// Insertion sort of the candidates into attempt order.
pub open spec fn sort_triples(s: Seq<(i32, i32, i128)>) -> Seq<(i32, i32, i128)>
    decreases s.len(),
{
    if s.len() == 0 {
        Seq::empty()
    } else {
        insert_triple(sort_triples(s.drop_last()), s.last())
    }
}

/// Inserting keeps the attempt order and adds exactly the new candidate.
pub proof fn lemma_insert_triple_props(s: Seq<(i32, i32, i128)>, t: (i32, i32, i128))
    requires
        sorted_desc(s),
    ensures
        sorted_desc(insert_triple(s, t)),
        insert_triple(s, t).to_multiset() == s.to_multiset().insert(t),
        insert_triple(s, t).len() == s.len() + 1,
    decreases s.len(),
{
    broadcast use vstd::seq_lib::group_to_multiset_ensures;

    let out = insert_triple(s, t);
    if s.len() == 0 {
        assert(out =~= Seq::empty().push(t));
        assert(out.to_multiset() =~= s.to_multiset().insert(t));
    } else if before(t, s[0]) {
        assert(out.remove(0) =~= s);
        assert(out[0] == t);
        assert(out.contains(t));
        assert(out.to_multiset().count(t) > 0);
        assert(out.to_multiset() =~= out.to_multiset().remove(t).insert(t));
        assert(out.to_multiset() =~= s.to_multiset().insert(t));
        assert forall|i: int, j: int| 0 <= i < j < out.len() implies before(out[i], out[j]) by {
            if i == 0 {
                assert(out[j] == s[j - 1]);
                if j - 1 > 0 {
                    assert(before(s[0], s[j - 1]));
                }
            } else {
                assert(out[i] == s[i - 1]);
                assert(out[j] == s[j - 1]);
            }
        }
    } else {
        let rest = s.drop_first();
        assert(sorted_desc(rest)) by {
            assert forall|i: int, j: int| 0 <= i < j < rest.len() implies before(
                rest[i],
                rest[j],
            ) by {
                assert(rest[i] == s[i + 1]);
                assert(rest[j] == s[j + 1]);
            }
        }
        lemma_insert_triple_props(rest, t);
        let sub = insert_triple(rest, t);
        assert(out == seq![s[0]] + sub);
        assert(out.remove(0) =~= sub);
        assert(out[0] == s[0]);
        assert(out.contains(s[0]));
        assert(out.to_multiset().count(s[0]) > 0);
        assert(out.to_multiset() =~= out.to_multiset().remove(s[0]).insert(s[0]));
        assert(out.to_multiset() =~= sub.to_multiset().insert(s[0]));
        assert(s.remove(0) =~= rest);
        assert(s.contains(s[0]));
        assert(s.to_multiset().count(s[0]) > 0);
        assert(s.to_multiset() =~= s.to_multiset().remove(s[0]).insert(s[0]));
        assert(s.to_multiset() =~= rest.to_multiset().insert(s[0]));
        assert(out.to_multiset() =~= s.to_multiset().insert(t));
        assert forall|i: int, j: int| 0 <= i < j < out.len() implies before(out[i], out[j]) by {
            if i > 0 {
                assert(out[i] == sub[i - 1]);
                assert(out[j] == sub[j - 1]);
            } else {
                assert(out[j] == sub[j - 1]);
                assert(sub.contains(sub[j - 1]));
                assert(sub.to_multiset().count(sub[j - 1]) > 0);
                if sub[j - 1] == t {
                    assert(!before(t, s[0]));
                    assert(before(s[0], t));
                } else {
                    assert(rest.to_multiset().count(sub[j - 1]) > 0);
                    assert(rest.contains(sub[j - 1]));
                    let m = choose|m: int| 0 <= m < rest.len() && rest[m] == sub[j - 1];
                    assert(rest[m] == s[m + 1]);
                    assert(before(s[0], s[m + 1]));
                }
            }
        }
    }
}

/// Sorting keeps exactly the given candidates, in attempt order.
pub proof fn lemma_sort_triples_props(s: Seq<(i32, i32, i128)>)
    ensures
        sorted_desc(sort_triples(s)),
        sort_triples(s).to_multiset() == s.to_multiset(),
        sort_triples(s).len() == s.len(),
    decreases s.len(),
{
    broadcast use vstd::seq_lib::group_to_multiset_ensures;

    if s.len() > 0 {
        lemma_sort_triples_props(s.drop_last());
        lemma_insert_triple_props(sort_triples(s.drop_last()), s.last());
        assert(s =~= s.drop_last().push(s.last()));
        assert(s.drop_last().push(s.last()).to_multiset() =~= s.drop_last().to_multiset().insert(
            s.last(),
        ));
    }
}

/// Relates the scan for the first candidate that `t` comes before to the
/// recursive definition of `insert_triple`.
pub proof fn lemma_insert_triple_at_scan(s: Seq<(i32, i32, i128)>, t: (i32, i32, i128), k: int)
    requires
        0 <= k <= s.len(),
        forall|j: int| 0 <= j < k ==> !before(t, #[trigger] s[j]),
        k < s.len() ==> before(t, s[k]),
    ensures
        insert_triple(s, t) == s.insert(k, t),
    decreases s.len(),
{
    if s.len() == 0 {
        assert(insert_triple(s, t) =~= s.insert(0, t));
    } else if k == 0 {
        assert(before(t, s[0]));
        assert(insert_triple(s, t) =~= s.insert(0, t));
    } else {
        assert(!before(t, s[0]));
        let rest = s.drop_first();
        assert forall|j: int| 0 <= j < k - 1 implies !before(t, #[trigger] rest[j]) by {
            assert(rest[j] == s[j + 1]);
        }
        assert(k - 1 < rest.len() ==> before(t, rest[k - 1]));
        lemma_insert_triple_at_scan(rest, t, k - 1);
        assert(insert_triple(s, t) =~= seq![s[0]] + rest.insert(k - 1, t));
        assert(seq![s[0]] + rest.insert(k - 1, t) =~= s.insert(k, t));
    }
}

/// Sorts the candidates into attempt order by insertion.
pub fn sort_candidates(base: &Vec<(i32, i32, i128)>) -> (out: Vec<(i32, i32, i128)>)
    ensures
        out@ == sort_triples(base@),
{
    let n = base.len();
    let mut out: Vec<(i32, i32, i128)> = Vec::new();
    let mut i: usize = 0;
    proof {
        assert(base@.subrange(0, 0) =~= Seq::<(i32, i32, i128)>::empty());
    }
    while i < n
        invariant
            n == base@.len(),
            i <= n,
            out@ == sort_triples(base@.subrange(0, i as int)),
            sorted_desc(out@),
        decreases n - i,
    {
        let t = base[i];
        let m = out.len();
        let mut k: usize = 0;
        while k < m && !(t.2 > out[k].2 || (t.2 == out[k].2 && (t.0 < out[k].0 || (t.0 == out[k].0
            && t.1 <= out[k].1))))
            invariant
                m == out@.len(),
                k <= m,
                forall|j: int| 0 <= j < k ==> !before(t, #[trigger] out@[j]),
            decreases m - k,
        {
            k = k + 1;
        }
        proof {
            assert(k < m ==> before(t, out@[k as int]));
        }
        out.insert(k, t);
        proof {
            let prefix = base@.subrange(0, i as int);
            lemma_insert_triple_at_scan(sort_triples(prefix), t, k as int);
            lemma_sort_triples_props(prefix);
            lemma_insert_triple_props(sort_triples(prefix), t);
            assert(base@.subrange(0, i as int + 1).drop_last() =~= prefix);
            assert(base@.subrange(0, i as int + 1).last() == t);
            assert(out@ == sort_triples(base@.subrange(0, i as int + 1)));
        }
        i = i + 1;
    }
    proof {
        assert(base@.subrange(0, n as int) =~= base@);
    }
    out
}

} // verus!
