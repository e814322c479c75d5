//! The line-oriented text parser of a placement problem: a header line,
//! one line of video sizes, the endpoint blocks with their latency
//! tables, and the demand records. Any malformed line fails the whole
//! parse.

use vstd::prelude::*;

use crate::types::{CacheInfo, Endpoint, LatencyTable, Request, Video};
use vstd::string::StrSliceExecFns;

verus! {

/// The first position of `ch` in `s`, or `-1`.
pub open spec fn find_char(s: Seq<char>, ch: char) -> int
    decreases s.len(),
{
    if s.len() == 0 {
        -1
    } else if s[0] == ch {
        0
    } else {
        let r = find_char(s.drop_first(), ch);
        if r < 0 {
            -1
        } else {
            r + 1
        }
    }
}

proof fn lemma_find_char_props(s: Seq<char>, ch: char)
    ensures
        -1 <= find_char(s, ch) < s.len(),
        find_char(s, ch) >= 0 ==> s[find_char(s, ch)] == ch,
        find_char(s, ch) == -1 ==> forall|j: int| 0 <= j < s.len() ==> s[j] != ch,
        forall|j: int| 0 <= j < find_char(s, ch) ==> s[j] != ch,
    decreases s.len(),
{
    if s.len() > 0 && s[0] != ch {
        lemma_find_char_props(s.drop_first(), ch);
        assert forall|j: int| 1 <= j < s.len() implies s[j] == s.drop_first()[j - 1] by {}
    }
}

proof fn lemma_find_char_first(s: Seq<char>, ch: char, i: int)
    requires
        0 <= i < s.len(),
        s[i] == ch,
        forall|j: int| 0 <= j < i ==> s[j] != ch,
    ensures
        find_char(s, ch) == i,
    decreases s.len(),
{
    if s[0] != ch {
        let rest = s.drop_first();
        assert forall|j: int| 0 <= j < i - 1 implies rest[j] != ch by {
            assert(rest[j] == s[j + 1]);
        }
        assert(rest[i - 1] == s[i]);
        lemma_find_char_first(rest, ch, i - 1);
    }
}

proof fn lemma_find_char_none(s: Seq<char>, ch: char)
    requires
        forall|j: int| 0 <= j < s.len() ==> s[j] != ch,
    ensures
        find_char(s, ch) == -1,
    decreases s.len(),
{
    if s.len() > 0 {
        assert forall|j: int| 0 <= j < s.drop_first().len() implies s.drop_first()[j] != ch by {
            assert(s.drop_first()[j] == s[j + 1]);
        }
        lemma_find_char_none(s.drop_first(), ch);
    }
}

/// The pieces of `s` between occurrences of `sep`: always at least one
/// piece, a trailing separator yielding a trailing empty piece.
pub open spec fn split_spec(s: Seq<char>, sep: char) -> Seq<Seq<char>>
    decreases s.len(),
{
    let i = find_char(s, sep);
    if i < 0 || i >= s.len() {
        seq![s]
    } else {
        seq![s.take(i)] + split_spec(s.skip(i + 1), sep)
    }
}

/// Splits a string at every occurrence of `sep`.
fn split_str<'a>(s: &'a str, sep: char) -> (pieces: Vec<&'a str>)
    ensures
        pieces.deep_view() == split_spec(s@, sep),
{
    proof {
        lemma_find_char_props(s@, sep);
    }
    let n = s.unicode_len();
    let mut pieces: Vec<&'a str> = Vec::new();
    let mut start: usize = 0;
    let mut i: usize = 0;
    proof {
        assert(pieces.deep_view() =~= Seq::<Seq<char>>::empty());
        assert(s@.skip(0) =~= s@);
        assert(pieces.deep_view() + split_spec(s@, sep) =~= split_spec(s@, sep));
    }
    while i < n
        invariant
            start <= i <= n,
            n == s@.len(),
            forall|j: int| start <= j < i ==> s@[j] != sep,
            split_spec(s@, sep) == pieces.deep_view() + split_spec(s@.skip(start as int), sep),
        decreases n - i,
    {
        if s.get_char(i) == sep {
            let piece = s.substring_char(start, i);
            pieces.push(piece);
            proof {
                let tail = s@.skip(start as int);
                assert forall|j: int| 0 <= j < i - start implies tail[j] != sep by {
                    assert(tail[j] == s@[start + j]);
                }
                assert(tail[i - start] == s@[i as int]);
                lemma_find_char_first(tail, sep, i as int - start as int);
                assert(piece@ =~= tail.take(i as int - start as int));
                assert(tail.skip(i as int - start as int + 1) =~= s@.skip(i as int + 1));
                assert(split_spec(tail, sep) == seq![piece@] + split_spec(s@.skip(i as int + 1), sep));
                assert(pieces.deep_view() =~= pieces.deep_view().drop_last().push(piece@));
                assert(pieces.deep_view().drop_last() + (seq![piece@] + split_spec(
                    s@.skip(i as int + 1),
                    sep,
                )) =~= pieces.deep_view() + split_spec(s@.skip(i as int + 1), sep));
            }
            start = i + 1;
        }
        i = i + 1;
    }
    let last = s.substring_char(start, n);
    pieces.push(last);
    proof {
        let tail = s@.skip(start as int);
        assert forall|j: int| 0 <= j < tail.len() implies tail[j] != sep by {
            assert(tail[j] == s@[start + j]);
        }
        lemma_find_char_none(tail, sep);
        assert(last@ =~= tail);
        assert(split_spec(tail, sep) == seq![tail]);
        assert(pieces.deep_view() =~= pieces.deep_view().drop_last().push(last@));
        assert(pieces.deep_view() =~= split_spec(s@, sep));
    }
    pieces
}

/// Whether a character is a decimal digit.
pub open spec fn is_digit(c: char) -> bool {
    '0' <= c && c <= '9'
}

/// The value of a decimal digit.
pub open spec fn digit_val(c: char) -> int {
    c as u32 - 48
}

/// Whether a token consists of decimal digits only.
pub open spec fn all_digits(t: Seq<char>) -> bool {
    forall|i: int| 0 <= i < t.len() ==> is_digit(#[trigger] t[i])
}

/// The number written by a sequence of decimal digits.
pub open spec fn digits_val(t: Seq<char>) -> int
    decreases t.len(),
{
    if t.len() == 0 {
        0
    } else {
        digits_val(t.drop_last()) * 10 + digit_val(t.last())
    }
}

/// What `str::parse::<i32>` accepts: an optional sign, then at least one
/// digit and nothing else, with the value in the range of an `i32`.
pub open spec fn parse_i32_spec(t: Seq<char>) -> Option<i32> {
    let signed = t.len() > 0 && (t[0] == '+' || t[0] == '-');
    let ds = if signed {
        t.drop_first()
    } else {
        t
    };
    let neg = t.len() > 0 && t[0] == '-';
    if ds.len() == 0 || !all_digits(ds) {
        None
    } else {
        let v = if neg {
            -digits_val(ds)
        } else {
            digits_val(ds)
        };
        if -0x8000_0000 <= v <= 0x7fff_ffff {
            Some(v as i32)
        } else {
            None
        }
    }
}

proof fn lemma_digits_val_nonneg(t: Seq<char>)
    requires
        all_digits(t),
    ensures
        digits_val(t) >= 0,
    decreases t.len(),
{
    if t.len() > 0 {
        assert forall|i: int| 0 <= i < t.drop_last().len() implies is_digit(
            #[trigger] t.drop_last()[i],
        ) by {
            assert(t.drop_last()[i] == t[i]);
        }
        lemma_digits_val_nonneg(t.drop_last());
        assert(is_digit(t.last()));
    }
}

proof fn lemma_digits_val_prefix(t: Seq<char>, j: int)
    requires
        all_digits(t),
        0 <= j <= t.len(),
    ensures
        digits_val(t.take(j)) <= digits_val(t),
    decreases t.len() - j,
{
    if j < t.len() {
        lemma_digits_val_prefix(t, j + 1);
        let p = t.take(j + 1);
        assert forall|i: int| 0 <= i < p.len() implies is_digit(#[trigger] p[i]) by {
            assert(p[i] == t[i]);
        }
        assert(p.drop_last() =~= t.take(j));
        lemma_digits_val_nonneg(p.drop_last());
        assert(is_digit(p.last()));
        assert(digits_val(p) == digits_val(t.take(j)) * 10 + digit_val(p.last()));
        assert(digits_val(t.take(j)) <= digits_val(p)) by (nonlinear_arith)
            requires
                digits_val(p) == digits_val(t.take(j)) * 10 + digit_val(p.last()),
                digits_val(t.take(j)) >= 0,
                digit_val(p.last()) >= 0,
        ;
    } else {
        assert(t.take(j) =~= t);
    }
}

/// Parses a token as an `i32`, exactly as `str::parse::<i32>` would.
pub fn string_to_i32(string: &str) -> (r: Option<i32>)
    ensures
        r == parse_i32_spec(string@),
{
    let n = string.unicode_len();
    if n == 0 {
        return None;
    }
    let first = string.get_char(0);
    let signed = first == '+' || first == '-';
    let neg = first == '-';
    let start: usize = if signed {
        1
    } else {
        0
    };
    let ghost ds = if signed {
        string@.drop_first()
    } else {
        string@
    };
    if n == start {
        proof {
            assert(ds.len() == 0);
        }
        return None;
    }
    let mut acc: u64 = 0;
    let mut i: usize = start;
    while i < n
        invariant
            start <= i <= n,
            n == string@.len(),
            n >= 1,
            signed == (string@[0] == '+' || string@[0] == '-'),
            neg == (string@[0] == '-'),
            start == (if signed {
                1int
            } else {
                0int
            }),
            ds == (if signed {
                string@.drop_first()
            } else {
                string@
            }),
            ds.len() == n - start,
            forall|j: int| 0 <= j < i - start ==> is_digit(#[trigger] ds[j]),
            acc as int == digits_val(ds.take(i - start)),
            acc <= 0x8000_0000,
        decreases n - i,
    {
        let c = string.get_char(i);
        proof {
            assert(ds[i - start] == string@[i as int]);
        }
        if !(c >= '0' && c <= '9') {
            proof {
                assert(!is_digit(ds[i - start]));
                assert(!all_digits(ds));
            }
            return None;
        }
        proof {
            assert('0' <= c && c <= '9');
            assert(c as u32 >= 48 && c as u32 <= 57);
            assert(ds.take(i - start + 1).drop_last() =~= ds.take(i - start));
            assert(ds.take(i - start + 1).last() == ds[i - start]);
        }
        let d: u64 = (c as u32 - 48) as u64;
        acc = acc * 10 + d;
        if acc > 0x8000_0000 {
            proof {
                assert(is_digit(ds[i - start]));
                if all_digits(ds) {
                    lemma_digits_val_prefix(ds, i - start + 1);
                    assert(digits_val(ds) >= acc as int);
                }
            }
            return None;
        }
        i = i + 1;
    }
    proof {
        assert(ds.take(n - start) =~= ds);
        assert(all_digits(ds));
    }
    if neg {
        let v = -(acc as i64);
        proof {
            assert(-0x8000_0000 <= v);
        }
        Some(v as i32)
    } else {
        if acc > 0x7fff_ffff {
            return None;
        }
        Some(acc as i32)
    }
}

/// Parses every token of a list as an `i32`; one bad token fails the
/// whole list.
pub open spec fn parse_i32_list(tokens: Seq<Seq<char>>) -> Option<Seq<i32>>
    decreases tokens.len(),
{
    if tokens.len() == 0 {
        Some(Seq::empty())
    } else {
        match parse_i32_spec(tokens[0]) {
            None => None,
            Some(v) => match parse_i32_list(tokens.drop_first()) {
                None => None,
                Some(rest) => Some(seq![v] + rest),
            },
        }
    }
}

/// Parses every token of a line, in order.
fn parse_i32_vec(tokens: &Vec<&str>) -> (r: Option<Vec<i32>>)
    ensures
        (match r {
            Some(values) => parse_i32_list(tokens.deep_view()) == Some(values@),
            None => parse_i32_list(tokens.deep_view()) is None,
        }),
{
    let n = tokens.len();
    let mut values: Vec<i32> = Vec::new();
    let mut i: usize = 0;
    proof {
        assert(tokens.deep_view().skip(0) =~= tokens.deep_view());
        match parse_i32_list(tokens.deep_view()) {
            Some(all) => {
                assert(values@ =~= all.take(0));
                assert(values@ + all =~= all);
            },
            None => {},
        }
    }
    while i < n
        invariant
            i <= n,
            n == tokens@.len(),
            values@.len() == i,
            (match parse_i32_list(tokens.deep_view()) {
                Some(all) => all.len() >= i && values@ =~= all.take(i as int),
                None => true,
            }),
            (match parse_i32_list(tokens.deep_view().skip(i as int)) {
                Some(rest) => parse_i32_list(tokens.deep_view()) == Some(
                    values@ + rest,
                ),
                None => parse_i32_list(tokens.deep_view()) is None,
            }),
        decreases n - i,
    {
        match string_to_i32(tokens[i]) {
            None => {
                proof {
                    let tail = tokens.deep_view().skip(i as int);
                    assert(tail[0] == tokens.deep_view()[i as int]);
                    assert(parse_i32_list(tail) is None);
                }
                return None;
            },
            Some(v) => {
                values.push(v);
                proof {
                    let tail = tokens.deep_view().skip(i as int);
                    assert(tail[0] == tokens.deep_view()[i as int]);
                    assert(tail.drop_first() =~= tokens.deep_view().skip(i as int + 1));
                    match parse_i32_list(tokens.deep_view().skip(i as int + 1)) {
                        Some(rest) => {
                            assert(parse_i32_list(tail) == Some(seq![v] + rest));
                            assert(values@ + rest =~= values@.drop_last() + (seq![v] + rest));
                        },
                        None => {
                            assert(parse_i32_list(tail) is None);
                        },
                    }
                }
            },
        }
        i = i + 1;
    }
    proof {
        let tail = tokens.deep_view().skip(n as int);
        assert(tail =~= Seq::<Seq<char>>::empty());
        assert(parse_i32_list(tail) == Some(Seq::<i32>::empty()));
        assert(values@ + Seq::<i32>::empty() =~= values@);
    }
    Some(values)
}

/// The five counters of the first input line.
pub struct Header {
    pub video_count: i32,
    pub endpoint_count: i32,
    pub request_count: i32,
    pub cache_count: i32,
    pub cache_size: i32,
}

impl Header {
    pub fn new() -> (h: Header)
        ensures
            h.video_count == 0,
            h.endpoint_count == 0,
            h.request_count == 0,
            h.cache_count == 0,
            h.cache_size == 0,
    {
        Header {
            video_count: 0,
            endpoint_count: 0,
            request_count: 0,
            cache_count: 0,
            cache_size: 0,
        }
    }
}

/// A header line parses iff it is exactly five integers.
pub open spec fn parse_header_spec(line: Seq<char>) -> Option<Header> {
    match parse_i32_list(split_spec(line, ' ')) {
        None => None,
        Some(values) => if values.len() == 5 {
            Some(
                Header {
                    video_count: values[0],
                    endpoint_count: values[1],
                    request_count: values[2],
                    cache_count: values[3],
                    cache_size: values[4],
                },
            )
        } else {
            None
        },
    }
}

/// Parses the header line: the video, endpoint, request and cache counts
/// and the shared cache capacity.
pub fn parse_header(header: &str) -> (r: Option<Header>)
    ensures
        r == parse_header_spec(header@),
{
    let tokens = split_str(header, ' ');
    match parse_i32_vec(&tokens) {
        None => None,
        Some(values) => {
            if values.len() == 5 {
                Some(
                    Header {
                        video_count: values[0],
                        endpoint_count: values[1],
                        request_count: values[2],
                        cache_count: values[3],
                        cache_size: values[4],
                    },
                )
            } else {
                None
            }
        },
    }
}

/// A video line parses iff it is exactly `video_count` integers; video
/// ids are assigned densely in line order.
pub open spec fn parse_videos_spec(line: Seq<char>, video_count: i32) -> Option<Seq<Video>> {
    match parse_i32_list(split_spec(line, ' ')) {
        None => None,
        Some(sizes) => if sizes.len() == video_count as int {
            Some(Seq::new(sizes.len(), |i: int| (Video { id: i as i32, size: sizes[i] })))
        } else {
            None
        },
    }
}

/// Parses the line of video sizes into the video list.
pub fn parse_videos(header: &str, video_count: i32) -> (r: Option<Vec<Video>>)
    ensures
        (match r {
            Some(videos) => parse_videos_spec(header@, video_count) == Some(videos@),
            None => parse_videos_spec(header@, video_count) is None,
        }),
{
    let tokens = split_str(header, ' ');
    match parse_i32_vec(&tokens) {
        None => None,
        Some(sizes) => {
            if video_count >= 0 && sizes.len() == video_count as usize {
                let n = sizes.len();
                let mut videos: Vec<Video> = Vec::new();
                let mut i: usize = 0;
                while i < n
                    invariant
                        i <= n,
                        n == sizes@.len(),
                        n < 0x8000_0000,
                        videos@.len() == i,
                        forall|j: int|
                            0 <= j < i ==> (#[trigger] videos@[j]).id == j && videos@[j].size
                                == sizes@[j],
                    decreases n - i,
                {
                    videos.push(Video::new(i as i32, sizes[i]));
                    i = i + 1;
                }
                proof {
                    match parse_videos_spec(header@, video_count) {
                        Some(vs) => {
                            assert(videos@ =~= vs);
                        },
                        None => {},
                    }
                }
                Some(videos)
            } else {
                None
            }
        },
    }
}

/// A request line parses iff it is exactly three integers: video id,
/// endpoint id, request count.
pub open spec fn parse_request_spec(line: Seq<char>) -> Option<Request> {
    match parse_i32_list(split_spec(line, ' ')) {
        None => None,
        Some(values) => if values.len() == 3 {
            Some(Request { video_id: values[0], endpoint_id: values[1], count: values[2] })
        } else {
            None
        },
    }
}

/// Parses one demand record.
pub fn parse_request(request: &str) -> (r: Option<Request>)
    ensures
        (match r {
            Some(rec) => parse_request_spec(request@) == Some(rec),
            None => parse_request_spec(request@) is None,
        }),
{
    let tokens = split_str(request, ' ');
    match parse_i32_vec(&tokens) {
        None => None,
        Some(values) => {
            if values.len() == 3 {
                Some(Request::new(values[0], values[1], values[2]))
            } else {
                None
            }
        },
    }
}

/// Every remaining line parsed as a demand record; one bad line fails
/// them all.
pub open spec fn collect_requests(lines: Seq<Seq<char>>, idx: int) -> Option<Seq<Request>>
    decreases lines.len() - idx,
{
    if idx < 0 || idx >= lines.len() {
        Some(Seq::empty())
    } else {
        match parse_request_spec(lines[idx]) {
            None => None,
            Some(rec) => match collect_requests(lines, idx + 1) {
                None => None,
                Some(rest) => Some(seq![rec] + rest),
            },
        }
    }
}

/// Parses all remaining lines as demand records and checks their number
/// against the header's request count.
pub fn parse_requests(lines: &Vec<&str>, start: usize, requests_count: i32) -> (r: Option<
    Vec<Request>,
>)
    ensures
        (match r {
            Some(requests) => collect_requests(lines.deep_view(), start as int) == Some(requests@)
                && requests@.len() == requests_count as int,
            None => collect_requests(lines.deep_view(), start as int) is None || (
            match collect_requests(lines.deep_view(), start as int) {
                Some(rs) => rs.len() != requests_count as int,
                None => true,
            }),
        }),
{
    let n = lines.len();
    let mut out: Vec<Request> = Vec::new();
    let mut i: usize = start;
    if start > n {
        proof {
            assert(collect_requests(lines.deep_view(), start as int) == Some(Seq::<Request>::empty()));
        }
        if requests_count == 0 {
            proof {
                assert(out@ =~= Seq::<Request>::empty());
            }
            return Some(out);
        }
        return None;
    }
    while i < n
        invariant
            start <= i <= n,
            n == lines@.len(),
            (match collect_requests(lines.deep_view(), i as int) {
                Some(rest) => collect_requests(lines.deep_view(), start as int) == Some(
                    out@ + rest,
                ),
                None => collect_requests(lines.deep_view(), start as int) is None,
            }),
        decreases n - i,
    {
        match parse_request(lines[i]) {
            None => {
                proof {
                    assert(lines.deep_view()[i as int] == lines@[i as int]@);
                    assert(collect_requests(lines.deep_view(), i as int) is None);
                }
                return None;
            },
            Some(rec) => {
                out.push(rec);
                proof {
                    assert(lines.deep_view()[i as int] == lines@[i as int]@);
                    match collect_requests(lines.deep_view(), i as int + 1) {
                        Some(rest) => {
                            assert(collect_requests(lines.deep_view(), i as int) == Some(
                                seq![rec] + rest,
                            ));
                            assert(out@ + rest =~= out@.drop_last() + (seq![rec] + rest));
                        },
                        None => {},
                    }
                }
            },
        }
        i = i + 1;
    }
    proof {
        assert(collect_requests(lines.deep_view(), n as int) == Some(Seq::<Request>::empty()));
        assert(out@ + Seq::<Request>::empty() =~= out@);
    }
    if requests_count >= 0 && out.len() == requests_count as usize {
        Some(out)
    } else {
        None
    }
}

/// The state of the endpoint-block scanner: the latency table being
/// filled, how many latency lines it still expects, the finished tables,
/// and the error flag. Viewed as
/// `(current table, expected lines, seen lines, at a header?, finished tables, error)`.
pub struct CurrentEndpointState {
    current_latency_to_cache: LatencyTable,
    current_total_latency_count: i32,
    current_latency_count: i128,
    should_parse_header: bool,
    latency_to_cache: Vec<LatencyTable>,
    error: bool,
}

impl View for CurrentEndpointState {
    type V = (Map<int, int>, int, int, bool, Seq<Map<int, int>>, bool);

    closed spec fn view(&self) -> (Map<int, int>, int, int, bool, Seq<Map<int, int>>, bool) {
        (
            self.current_latency_to_cache@,
            self.current_total_latency_count as int,
            self.current_latency_count as int,
            self.should_parse_header,
            Seq::new(self.latency_to_cache@.len(), |i: int| self.latency_to_cache@[i]@),
            self.error,
        )
    }
}

/// The state with its error flag raised.
pub open spec fn eps_err(
    st: (Map<int, int>, int, int, bool, Seq<Map<int, int>>, bool),
) -> (Map<int, int>, int, int, bool, Seq<Map<int, int>>, bool) {
    (st.0, st.1, st.2, st.3, st.4, true)
}

/// Starting a new endpoint block: a fresh table holding only the origin
/// latency under the sentinel key.
pub open spec fn eps_set_header(
    st: (Map<int, int>, int, int, bool, Seq<Map<int, int>>, bool),
    datacenter_latency: int,
    total_latency_count: int,
) -> (Map<int, int>, int, int, bool, Seq<Map<int, int>>, bool) {
    (Map::empty().insert(-1, datacenter_latency), total_latency_count, 0, false, st.4, st.5)
}

/// Recording one cache latency of the current block.
pub open spec fn eps_set_latency(
    st: (Map<int, int>, int, int, bool, Seq<Map<int, int>>, bool),
    cache_id: int,
    latency: int,
) -> (Map<int, int>, int, int, bool, Seq<Map<int, int>>, bool) {
    (st.0.insert(cache_id, latency), st.1, st.2, st.3, st.4, st.5)
}

/// Reading a block header line: origin latency, then the number of cache
/// latency lines that follow.
pub open spec fn eps_parse_header(
    st: (Map<int, int>, int, int, bool, Seq<Map<int, int>>, bool),
    line: Seq<char>,
) -> (Map<int, int>, int, int, bool, Seq<Map<int, int>>, bool) {
    match parse_i32_list(split_spec(line, ' ')) {
        Some(values) => if values.len() == 2 {
            eps_set_header(st, values[0] as int, values[1] as int)
        } else {
            eps_err(st)
        },
        None => eps_err(st),
    }
}

/// Reading one latency line; the line counter advances whether or not
/// the line parses.
pub open spec fn eps_parse_latency(
    st: (Map<int, int>, int, int, bool, Seq<Map<int, int>>, bool),
    line: Seq<char>,
) -> (Map<int, int>, int, int, bool, Seq<Map<int, int>>, bool) {
    let st1 = (st.0, st.1, st.2 + 1, st.3, st.4, st.5);
    match parse_i32_list(split_spec(line, ' ')) {
        Some(values) => if values.len() == 2 {
            eps_set_latency(st1, values[0] as int, values[1] as int)
        } else {
            eps_err(st1)
        },
        None => eps_err(st1),
    }
}

/// Processing one input line: a header or a latency line, and, when the
/// block is complete, pushing the finished table.
pub open spec fn eps_process(
    st: (Map<int, int>, int, int, bool, Seq<Map<int, int>>, bool),
    line: Seq<char>,
) -> (Map<int, int>, int, int, bool, Seq<Map<int, int>>, bool) {
    let st1 = if st.3 {
        eps_parse_header(st, line)
    } else {
        eps_parse_latency(st, line)
    };
    if st1.2 == st1.1 {
        (st1.0, st1.1, st1.2, true, st1.4.push(st1.0), st1.5)
    } else {
        st1
    }
}

/// The scanner's starting state.
pub open spec fn eps_init() -> (Map<int, int>, int, int, bool, Seq<Map<int, int>>, bool) {
    (Map::empty(), 0, 0, true, Seq::empty(), false)
}

/// Running the scanner from line `idx` until it has `target` finished
/// tables or fails; running out of lines is a failure, and a negative
/// target can never be reached.
pub open spec fn eps_run(
    lines: Seq<Seq<char>>,
    idx: int,
    st: (Map<int, int>, int, int, bool, Seq<Map<int, int>>, bool),
    target: int,
) -> ((Map<int, int>, int, int, bool, Seq<Map<int, int>>, bool), int)
    decreases lines.len() - idx,
{
    if st.5 || (target >= 0 && st.4.len() >= target) {
        (st, idx)
    } else if idx < 0 || idx >= lines.len() {
        (eps_err(st), idx)
    } else {
        eps_run(lines, idx + 1, eps_process(st, lines[idx]), target)
    }
}

impl CurrentEndpointState {
    pub fn new() -> (st: CurrentEndpointState)
        ensures
            st@ == eps_init(),
    {
        let st = CurrentEndpointState {
            current_latency_to_cache: LatencyTable::new(),
            current_total_latency_count: 0,
            current_latency_count: 0,
            should_parse_header: true,
            latency_to_cache: Vec::new(),
            error: false,
        };
        proof {
            assert(st@.4 =~= Seq::<Map<int, int>>::empty());
            assert(st@ =~= eps_init());
        }
        st
    }

    /// Starts a new endpoint block.
    pub fn set_header(&mut self, total_latency_count: i32, datacenter_latency: i32)
        ensures
            final (self)@ == eps_set_header(
                old(self)@,
                datacenter_latency as int,
                total_latency_count as int,
            ),
    {
        let mut table = LatencyTable::new();
        table.insert(-1, datacenter_latency);
        self.current_latency_to_cache = table;
        self.current_total_latency_count = total_latency_count;
        self.current_latency_count = 0;
        self.should_parse_header = false;
        proof {
            assert(self@ =~= eps_set_header(
                old(self)@,
                datacenter_latency as int,
                total_latency_count as int,
            ));
        }
    }

    /// Records one cache latency.
    pub fn set_latency(&mut self, cache_id: i32, latency: i32)
        ensures
            final (self)@ == eps_set_latency(old(self)@, cache_id as int, latency as int),
    {
        self.current_latency_to_cache.insert(cache_id, latency);
        proof {
            assert(self@ =~= eps_set_latency(old(self)@, cache_id as int, latency as int));
        }
    }

    /// Reads a block header line.
    pub fn parse_header(&mut self, header: &str)
        ensures
            final (self)@ == eps_parse_header(old(self)@, header@),
    {
        let tokens = split_str(header, ' ');
        match parse_i32_vec(&tokens) {
            Some(values) => {
                if values.len() == 2 {
                    self.set_header(values[1], values[0]);
                } else {
                    self.error = true;
                    proof {
                        assert(self@ =~= eps_err(old(self)@));
                    }
                }
            },
            None => {
                self.error = true;
                proof {
                    assert(self@ =~= eps_err(old(self)@));
                }
            },
        }
    }

    /// Reads one latency line.
    pub fn parse_latency(&mut self, latency: &str)
        requires
            old(self)@.2 < 0x7fff_ffff_ffff_ffff_ffff_ffff_ffff_ffff,
        ensures
            final (self)@ == eps_parse_latency(old(self)@, latency@),
    {
        self.current_latency_count = self.current_latency_count + 1;
        let ghost mid = (
            old(self)@.0,
            old(self)@.1,
            old(self)@.2 + 1,
            old(self)@.3,
            old(self)@.4,
            old(self)@.5,
        );
        proof {
            assert(self@ =~= mid);
        }
        let tokens = split_str(latency, ' ');
        match parse_i32_vec(&tokens) {
            Some(values) => {
                if values.len() == 2 {
                    self.set_latency(values[0], values[1]);
                    proof {
                        assert(self@ =~= eps_parse_latency(old(self)@, latency@));
                    }
                } else {
                    self.error = true;
                    proof {
                        assert(self@ =~= eps_parse_latency(old(self)@, latency@));
                    }
                }
            },
            None => {
                self.error = true;
                proof {
                    assert(self@ =~= eps_parse_latency(old(self)@, latency@));
                }
            },
        }
    }

    /// Processes one input line and closes the block when it is complete.
    pub fn process(&mut self, input: &str)
        requires
            old(self)@.2 < 0x7fff_ffff_ffff_ffff_ffff_ffff_ffff_ffff,
        ensures
            final (self)@ == eps_process(old(self)@, input@),
    {
        if self.should_parse_header {
            self.parse_header(input);
        } else {
            self.parse_latency(input);
        }
        let ghost mid = self@;
        if self.current_latency_count == self.current_total_latency_count as i128 {
            self.should_parse_header = true;
            let table = copy_table(&self.current_latency_to_cache);
            self.latency_to_cache.push(table);
            proof {
                assert(self@.4 =~= mid.4.push(mid.0));
                assert(self@ =~= eps_process(old(self)@, input@));
            }
        } else {
            proof {
                assert(self@ =~= eps_process(old(self)@, input@));
            }
        }
    }
}

/// Copies a latency table.
fn copy_table(t: &LatencyTable) -> (r: LatencyTable)
    ensures
        r@ == t@,
{
    let ks = t.keys();
    let mut r = LatencyTable::new();
    let n = ks.len();
    let mut i: usize = 0;
    while i < n
        invariant
            i <= n,
            n == ks@.len(),
            forall|j: int| 0 <= j < n ==> t@.contains_key((#[trigger] ks@[j]) as int),
            forall|k: int|
                t@.contains_key(k) ==> exists|j: int|
                    0 <= j < ks@.len() && (#[trigger] ks@[j]) as int == k,
            r@.dom() =~= Set::new(
                |k: int| exists|j: int| 0 <= j < i && (#[trigger] ks@[j]) as int == k,
            ),
            forall|k: int| r@.contains_key(k) ==> t@.contains_key(k) && r@[k] == t@[k],
        decreases n - i,
    {
        let k = ks[i];
        match t.get(k) {
            Some(v) => {
                r.insert(k, v);
                proof {
                    assert(r@.dom() =~= Set::new(
                        |kk: int| exists|j: int| 0 <= j < i + 1 && (#[trigger] ks@[j]) as int
                            == kk,
                    ));
                }
            },
            None => {
                proof {
                    assert(false);
                }
            },
        }
        i = i + 1;
    }
    proof {
        assert(r@ =~= t@);
    }
    r
}

/// Scans endpoint blocks from `*pos` until `endpoint_count` endpoints are
/// complete, advancing `*pos` past the consumed lines; endpoint ids are
/// assigned densely in block order.
pub fn parse_endpoints(lines: &Vec<&str>, pos: &mut usize, endpoint_count: i32) -> (r: Option<
    Vec<Endpoint>,
>)
    requires
        *old(pos) <= lines@.len(),
    ensures
        ({
            let run = eps_run(lines.deep_view(), *old(pos) as int, eps_init(), endpoint_count as int);
            &&& *final (pos) == run.1
            &&& (match r {
                Some(endpoints) => !run.0.5 && endpoints@.len() == run.0.4.len() && forall|i: int|
                    0 <= i < endpoints@.len() ==> (#[trigger] endpoints@[i]).id == i && endpoints@[
                        i
                    ].cache_to_latency@ == run.0.4[i],
                None => run.0.5,
            })
        }),
{
    let n = lines.len();
    let mut state = CurrentEndpointState::new();
    let ghost start = *pos as int;
    while !state.error && (endpoint_count < 0 || state.latency_to_cache.len() < endpoint_count
        as usize)
        invariant
            *pos <= n,
            n == lines@.len(),
            0 <= state@.2 <= *pos,
            endpoint_count >= 0 ==> state@.4.len() <= endpoint_count,
            state@.4.len() == state.latency_to_cache@.len(),
            state@.5 == state.error,
            eps_run(lines.deep_view(), start, eps_init(), endpoint_count as int) == eps_run(
                lines.deep_view(),
                *pos as int,
                state@,
                endpoint_count as int,
            ),
        decreases 2 * (n - *pos) + (if state.error {
            0int
        } else {
            1int
        }),
    {
        if *pos >= n {
            state.error = true;
            proof {
                assert(state@ =~= eps_err((
                    state@.0,
                    state@.1,
                    state@.2,
                    state@.3,
                    state@.4,
                    false,
                )));
            }
        } else {
            let ghost pre = state@;
            state.process(lines[*pos]);
            proof {
                assert(lines.deep_view()[*pos as int] == lines@[*pos as int]@);
                assert(state@ == eps_process(pre, lines.deep_view()[*pos as int]));
                assert(state@.2 <= pre.2 + 1);
                if endpoint_count >= 0 {
                    assert(pre.4.len() < endpoint_count);
                    assert(state@.4.len() <= pre.4.len() + 1);
                }
            }
            *pos = *pos + 1;
        }
    }
    if state.error {
        return None;
    }
    proof {
        assert(endpoint_count >= 0);
        assert(state@.4.len() <= endpoint_count < 0x8000_0000);
    }
    let mut tables = state.latency_to_cache;
    let ghost done = state@.4;
    let mut endpoints: Vec<Endpoint> = Vec::new();
    let mut i: usize = 0;
    let total = tables.len();
    while i < total
        invariant
            i <= total,
            total == done.len(),
            total < 0x8000_0000,
            tables@.len() == total - i,
            forall|j: int| 0 <= j < tables@.len() ==> (#[trigger] tables@[j])@ == done[i + j],
            endpoints@.len() == i,
            forall|j: int|
                0 <= j < i ==> (#[trigger] endpoints@[j]).id == j && endpoints@[j].cache_to_latency@
                    == done[j],
        decreases total - i,
    {
        let t = tables.remove(0);
        endpoints.push(Endpoint::new(i as i32, t));
        proof {
            assert forall|j: int| 0 <= j < tables@.len() implies (#[trigger] tables@[j])@ == done[
                i + 1 + j
            ] by {}
        }
        i = i + 1;
    }
    Some(endpoints)
}

/// The fully parsed input: configuration, videos, endpoints (id and
/// latency table), and demand records.
pub open spec fn parse_spec(input: Seq<char>) -> Option<
    (CacheInfo, Seq<Video>, Seq<(i32, Map<int, int>)>, Seq<Request>),
> {
    let lines = split_spec(input, '\n');
    if lines.len() < 1 {
        None
    } else {
        match parse_header_spec(lines[0]) {
            None => None,
            Some(h) => if lines.len() < 2 {
                None
            } else {
                match parse_videos_spec(lines[1], h.video_count) {
                    None => None,
                    Some(videos) => {
                        let run = eps_run(lines, 2, eps_init(), h.endpoint_count as int);
                        if run.0.5 {
                            None
                        } else {
                            let endpoints = Seq::new(
                                run.0.4.len(),
                                |i: int| ((i as i32), run.0.4[i]),
                            );
                            match collect_requests(lines, run.1) {
                                None => None,
                                Some(requests) => if requests.len() == h.request_count as int {
                                    Some(
                                        (
                                            CacheInfo { count: h.cache_count, capacity: h.cache_size },
                                            videos,
                                            endpoints,
                                            requests,
                                        ),
                                    )
                                } else {
                                    None
                                },
                            }
                        }
                    },
                }
            },
        }
    }
}

/// Parses a whole input text into the records a placement run needs:
/// header, videos, endpoint blocks, demand records. Any malformed or
/// missing line yields `None`.
pub fn parse(input: &str) -> (r: Option<(CacheInfo, Vec<Video>, Vec<Endpoint>, Vec<Request>)>)
    ensures
        (match r {
            None => parse_spec(input@) is None,
            Some(parsed) => (match parse_spec(input@) {
                Some(p) => parsed.0 == p.0 && parsed.1@ == p.1 && parsed.3@ == p.3
                    && parsed.2@.len() == p.2.len() && forall|i: int|
                    0 <= i < p.2.len() ==> (#[trigger] parsed.2@[i]).id == p.2[i].0 && parsed.2@[
                        i
                    ].cache_to_latency@ == p.2[i].1,
                None => false,
            }),
        }),
{
    let lines = split_str(input, '\n');
    if lines.len() == 0 {
        return None;
    }
    let header = match parse_header(lines[0]) {
        None => {
            proof {
                assert(lines.deep_view()[0] == lines@[0]@);
            }
            return None;
        },
        Some(h) => h,
    };
    proof {
        assert(lines.deep_view()[0] == lines@[0]@);
    }
    if lines.len() < 2 {
        return None;
    }
    let videos = match parse_videos(lines[1], header.video_count) {
        None => {
            proof {
                assert(lines.deep_view()[1] == lines@[1]@);
            }
            return None;
        },
        Some(vs) => vs,
    };
    proof {
        assert(lines.deep_view()[1] == lines@[1]@);
    }
    let mut pos: usize = 2;
    let endpoints = match parse_endpoints(&lines, &mut pos, header.endpoint_count) {
        None => {
            return None;
        },
        Some(es) => es,
    };
    let requests = match parse_requests(&lines, pos, header.request_count) {
        None => {
            return None;
        },
        Some(rs) => rs,
    };
    Some((CacheInfo::new(header.cache_count, header.cache_size), videos, endpoints, requests))
}

} // verus!
