//! The text report of a placement run: one line with the number of caches
//! that store anything, then one line per such cache with its id and the
//! stored video ids.

use vstd::prelude::*;

verus! {

/// The decimal digits of a non-negative number, most significant first.
pub open spec fn dec_digits(n: int) -> Seq<char>
    recommends
        n >= 0,
    decreases n,
{
    if n <= 9 {
        seq![digit_char(n)]
    } else {
        dec_digits(n / 10).push(digit_char(n % 10))
    }
}

/// The character of one decimal digit.
pub open spec fn digit_char(d: int) -> char {
    if d == 0 {
        '0'
    } else if d == 1 {
        '1'
    } else if d == 2 {
        '2'
    } else if d == 3 {
        '3'
    } else if d == 4 {
        '4'
    } else if d == 5 {
        '5'
    } else if d == 6 {
        '6'
    } else if d == 7 {
        '7'
    } else if d == 8 {
        '8'
    } else {
        '9'
    }
}

/// The decimal text of an integer, with a leading minus sign when it is
/// negative.
pub open spec fn int_str(i: int) -> Seq<char> {
    if i < 0 {
        seq!['-'] + dec_digits(-i)
    } else {
        dec_digits(i)
    }
}

/// The first `j` video ids of a cache line, separated by single spaces.
pub open spec fn ids_str_upto(ids: Seq<i32>, j: int) -> Seq<char>
    decreases j,
{
    if j <= 0 {
        Seq::empty()
    } else if j == 1 {
        int_str(ids[0] as int)
    } else {
        ids_str_upto(ids, j - 1) + seq![' '] + int_str(ids[j - 1] as int)
    }
}

/// How many of the first `c` caches store at least one video.
pub open spec fn count_nonempty_upto(result: Seq<Seq<i32>>, c: int) -> int
    decreases c,
{
    if c <= 0 {
        0
    } else {
        count_nonempty_upto(result, c - 1) + if result[c - 1].len() > 0 {
            1int
        } else {
            0int
        }
    }
}

/// The report lines of the first `c` caches: one line per non-empty cache
/// with its id and its video ids.
pub open spec fn lines_upto(result: Seq<Seq<i32>>, c: int) -> Seq<char>
    decreases c,
{
    if c <= 0 {
        Seq::empty()
    } else {
        lines_upto(result, c - 1) + if result[c - 1].len() > 0 {
            int_str(c - 1) + seq![' '] + ids_str_upto(result[c - 1], result[c - 1].len() as int)
                + seq!['\n']
        } else {
            Seq::empty()
        }
    }
}

/// The whole report: the count of non-empty caches, then their lines.
pub open spec fn output_spec(result: Seq<Seq<i32>>) -> Seq<char> {
    int_str(count_nonempty_upto(result, result.len() as int)) + seq!['\n'] + lines_upto(
        result,
        result.len() as int,
    )
}

/// Appends one character of the report alphabet.
fn append_char(s: &mut String, c: char)
    requires
        c == '0' || c == '1' || c == '2' || c == '3' || c == '4' || c == '5' || c == '6' || c == '7'
            || c == '8' || c == '9' || c == '-' || c == ' ' || c == '\n',
    ensures
        final (s)@ == old(s)@.push(c),
{
    proof {
        reveal_strlit("0");
        reveal_strlit("1");
        reveal_strlit("2");
        reveal_strlit("3");
        reveal_strlit("4");
        reveal_strlit("5");
        reveal_strlit("6");
        reveal_strlit("7");
        reveal_strlit("8");
        reveal_strlit("9");
        reveal_strlit("-");
        reveal_strlit(" ");
        reveal_strlit("\n");
    }
    if c == '0' {
        s.append("0");
    } else if c == '1' {
        s.append("1");
    } else if c == '2' {
        s.append("2");
    } else if c == '3' {
        s.append("3");
    } else if c == '4' {
        s.append("4");
    } else if c == '5' {
        s.append("5");
    } else if c == '6' {
        s.append("6");
    } else if c == '7' {
        s.append("7");
    } else if c == '8' {
        s.append("8");
    } else if c == '9' {
        s.append("9");
    } else if c == '-' {
        s.append("-");
    } else if c == ' ' {
        s.append(" ");
    } else {
        s.append("\n");
    }
    proof {
        assert(s@ =~= old(s)@.push(c));
    }
}

/// Appends the decimal digits of a non-negative number.
fn append_u64(s: &mut String, n: u64)
    ensures
        final (s)@ == old(s)@ + dec_digits(n as int),
    decreases n,
{
    if n <= 9 {
        let c = match n {
            0 => '0',
            1 => '1',
            2 => '2',
            3 => '3',
            4 => '4',
            5 => '5',
            6 => '6',
            7 => '7',
            8 => '8',
            _ => '9',
        };
        append_char(s, c);
        proof {
            assert(s@ =~= old(s)@ + dec_digits(n as int));
        }
    } else {
        append_u64(s, n / 10);
        let d = n % 10;
        let c = match d {
            0 => '0',
            1 => '1',
            2 => '2',
            3 => '3',
            4 => '4',
            5 => '5',
            6 => '6',
            7 => '7',
            8 => '8',
            _ => '9',
        };
        append_char(s, c);
        proof {
            assert(c == digit_char(n as int % 10));
            assert(s@ =~= old(s)@ + dec_digits(n as int));
        }
    }
}

/// Appends the decimal text of a video id.
fn append_i32(s: &mut String, x: i32)
    ensures
        final (s)@ == old(s)@ + int_str(x as int),
{
    if x < 0 {
        append_char(s, '-');
        let m = -(x as i64);
        append_u64(s, m as u64);
        proof {
            assert(s@ =~= old(s)@ + int_str(x as int));
        }
    } else {
        append_u64(s, x as u64);
    }
}

/// Serializes a cache→videos mapping: first the number of caches that
/// store at least one video, then, for each such cache in id order, a
/// line with the cache id and the stored video ids in the given order.
/// Caches with nothing stored are omitted.
pub fn produce_output(result: Vec<Vec<i32>>) -> (out: String)
    ensures
        out@ == output_spec(result.deep_view()),
{
    let n = result.len();
    let mut nonempty: u64 = 0;
    let mut c: usize = 0;
    while c < n
        invariant
            c <= n,
            n == result@.len(),
            n <= u64::MAX,
            nonempty as int == count_nonempty_upto(result.deep_view(), c as int),
            nonempty <= c,
        decreases n - c,
    {
        if result[c].len() > 0 {
            nonempty = nonempty + 1;
        }
        proof {
            assert(result.deep_view()[c as int].len() == result@[c as int]@.len());
        }
        c = c + 1;
    }
    let mut out = String::new();
    append_u64(&mut out, nonempty);
    append_char(&mut out, '\n');
    let ghost header = int_str(
        count_nonempty_upto(result.deep_view(), result.deep_view().len() as int),
    ) + seq!['\n'];
    proof {
        assert(out@ =~= header);
    }
    let mut c: usize = 0;
    while c < n
        invariant
            c <= n,
            n == result@.len(),
            header == int_str(
                count_nonempty_upto(result.deep_view(), result.deep_view().len() as int),
            ) + seq!['\n'],
            out@ == header + lines_upto(result.deep_view(), c as int),
        decreases n - c,
    {
        let ghost pre = out@;
        let m = result[c].len();
        if m > 0 {
            proof {
                assert(c as int <= u64::MAX) by {
                    assert(result@.len() <= usize::MAX);
                }
            }
            append_u64(&mut out, c as u64);
            append_char(&mut out, ' ');
            let mut j: usize = 0;
            while j < m
                invariant
                    j <= m,
                    c < n,
                    n == result@.len(),
                    m == result@[c as int]@.len(),
                    m > 0,
                    j > 0 ==> out@ == pre + int_str(c as int) + seq![' '] + ids_str_upto(
                        result.deep_view()[c as int],
                        j as int,
                    ),
                    j == 0 ==> out@ == pre + int_str(c as int) + seq![' '],
                decreases m - j,
            {
                if j > 0 {
                    append_char(&mut out, ' ');
                }
                append_i32(&mut out, result[c][j]);
                proof {
                    assert(result.deep_view()[c as int][j as int] == result@[c as int]@[j as int]);
                    assert(out@ =~= pre + int_str(c as int) + seq![' '] + ids_str_upto(
                        result.deep_view()[c as int],
                        j as int + 1,
                    ));
                }
                j = j + 1;
            }
            append_char(&mut out, '\n');
            proof {
                assert(result.deep_view()[c as int].len() > 0);
                assert(out@ =~= header + lines_upto(result.deep_view(), c as int + 1));
            }
        } else {
            proof {
                assert(result.deep_view()[c as int].len() == 0);
                assert(out@ =~= header + lines_upto(result.deep_view(), c as int + 1));
            }
        }
        c = c + 1;
    }
    proof {
        assert(result.deep_view().len() == n);
        assert(out@ =~= output_spec(result.deep_view()));
    }
    out
}

/// One printed line of the report: a cache and the videos it stores.
pub struct CacheAndVideos {
    pub cache_id: i32,
    pub video_ids: Vec<i32>,
}

impl CacheAndVideos {
    pub fn new(cache_id: i32, video_ids: Vec<i32>) -> (r: CacheAndVideos)
        ensures
            r.cache_id == cache_id,
            r.video_ids@ == video_ids@,
    {
        CacheAndVideos { cache_id, video_ids }
    }
}

} // verus!
