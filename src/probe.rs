use vstd::prelude::*;
use vstd::string::*;
use crate::text::text_eq;

verus! {

/// A bitrate in kilobits per second, held exactly as a decimal:
/// `mantissa / 10^scale`. "1234.5" is mantissa 12345, scale 1. A limit of
/// this form: a number whose digits, without the point, exceed `u64::MAX`
/// cannot be held, and such a bitrate reads as absent.
#[derive(Clone, Copy, Debug, PartialEq, Eq, Structural)]
pub struct Kbps {
    pub mantissa: u64,
    pub scale: u64,
}

/// One stream descriptor of the probing tool's output, reduced to the keys
/// that are read. A key that is absent, or holds a value of another JSON type,
/// is `None`.
#[derive(Clone, Debug)]
pub struct ProbeStream {
    pub codec_type: Option<String>,
    pub codec_name: Option<String>,
    pub width: Option<i64>,
    pub height: Option<i64>,
    pub bit_rate: Option<String>,
}

/// The media attributes of a file; every one of them may be unknown.
#[derive(Clone, Debug)]
pub struct ProbedInfo {
    pub codec: Option<String>,
    pub height: Option<i32>,
    pub width: Option<i32>,
    pub bit_rate: Option<Kbps>,
}

/// A white-space character as regular expressions read `\s`.
pub open spec fn is_ws(c: char) -> bool {
    c == ' ' || ('\t' <= c <= '\r') || c == '\u{85}' || c == '\u{a0}' || c == '\u{1680}' || (
    '\u{2000}' <= c <= '\u{200a}') || c == '\u{2028}' || c == '\u{2029}' || c == '\u{202f}'
        || c == '\u{205f}' || c == '\u{3000}'
}

pub open spec fn is_digit(c: char) -> bool {
    '0' <= c <= '9'
}

pub open spec fn all_digits(u: Seq<char>) -> bool {
    forall|i: int| 0 <= i < u.len() ==> is_digit(#[trigger] u[i])
}

/// The number that a string of decimal digits spells.
pub open spec fn digits_value(u: Seq<char>) -> int
    decreases u.len(),
{
    if u.len() == 0 {
        0
    } else {
        digits_value(u.drop_last()) * 10 + (u.last() as int - '0' as int)
    }
}

pub open spec fn trim_start(s: Seq<char>) -> Seq<char>
    decreases s.len(),
{
    if s.len() > 0 && is_ws(s[0]) {
        trim_start(s.drop_first())
    } else {
        s
    }
}

pub open spec fn trim_end(s: Seq<char>) -> Seq<char>
    decreases s.len(),
{
    if s.len() > 0 && is_ws(s.last()) {
        trim_end(s.drop_last())
    } else {
        s
    }
}

pub open spec fn unit_suffix() -> Seq<char> {
    seq!['K', 'b', 'i', 't', '/', 's']
}

/// The number in `<ws> number <ws> "Kbit/s" <ws>`, if `s` has that shape
/// around some text.
pub open spec fn number_part(s: Seq<char>) -> Option<Seq<char>> {
    let t = trim_end(trim_start(s));
    if t.len() >= 6 && t.skip(t.len() - 6) == unit_suffix() {
        Some(trim_end(t.take(t.len() - 6)))
    } else {
        None
    }
}

/// `u` is digits, a '.', and at least one digit, with the '.' at `p`.
pub open spec fn dot_split(u: Seq<char>, p: int) -> bool {
    0 <= p < u.len() - 1 && u[p] == '.' && all_digits(u.take(p)) && all_digits(u.skip(p + 1))
}

/// The value of a decimal number `\d*\.?\d+`, as (digits without the point,
/// count of digits after it).
pub open spec fn decimal_of(u: Seq<char>) -> Option<(int, int)> {
    if u.len() > 0 && all_digits(u) {
        Some((digits_value(u), 0))
    } else if exists|p: int| dot_split(u, p) {
        let p = choose|p: int| dot_split(u, p);
        Some((digits_value(u.take(p) + u.skip(p + 1)), u.len() - p - 1))
    } else {
        None
    }
}

/// What `parse_bit_rate` gives: the number of a `<number> Kbit/s` text,
/// white space allowed around both parts; nothing when the text has another
/// shape or its digits exceed what a `u64` holds.
pub open spec fn bit_rate_of(s: Seq<char>) -> Option<Kbps> {
    match number_part(s) {
        None => None,
        Some(u) => match decimal_of(u) {
            None => None,
            Some((m, k)) => if m <= u64::MAX {
                Some(Kbps { mantissa: m as u64, scale: k as u64 })
            } else {
                None
            },
        },
    }
}

pub fn is_ws_char(c: char) -> (r: bool)
    ensures
        r == is_ws(c),
{
    c == ' ' || ('\t' <= c && c <= '\r') || c == '\u{85}' || c == '\u{a0}' || c == '\u{1680}' || (
    '\u{2000}' <= c && c <= '\u{200a}') || c == '\u{2028}' || c == '\u{2029}' || c == '\u{202f}'
        || c == '\u{205f}' || c == '\u{3000}'
}

pub fn is_digit_char(c: char) -> (r: bool)
    ensures
        r == is_digit(c),
{
    '0' <= c && c <= '9'
}

proof fn lemma_all_digits_concat(x: Seq<char>, y: Seq<char>)
    requires
        all_digits(x),
        all_digits(y),
    ensures
        all_digits(x + y),
{
    assert forall|i: int| 0 <= i < (x + y).len() implies is_digit(#[trigger] (x + y)[i]) by {
        if i >= x.len() {
            assert((x + y)[i] == y[i - x.len()]);
        }
    }
}

proof fn lemma_digits_value_nonneg(x: Seq<char>)
    requires
        all_digits(x),
    ensures
        digits_value(x) >= 0,
    decreases x.len(),
{
    if x.len() > 0 {
        assert(is_digit(x[x.len() - 1]));
        assert(all_digits(x.drop_last())) by {
            assert forall|i: int| 0 <= i < x.drop_last().len() implies is_digit(
                #[trigger] x.drop_last()[i],
            ) by {
                assert(x.drop_last()[i] == x[i]);
            }
        }
        lemma_digits_value_nonneg(x.drop_last());
    }
}

proof fn lemma_digits_value_extend(x: Seq<char>, y: Seq<char>)
    requires
        all_digits(x),
        all_digits(y),
    ensures
        digits_value(x + y) >= digits_value(x),
    decreases y.len(),
{
    if y.len() > 0 {
        let y1 = y.drop_last();
        assert(all_digits(y1)) by {
            assert forall|i: int| 0 <= i < y1.len() implies is_digit(#[trigger] y1[i]) by {
                assert(y1[i] == y[i]);
            }
        }
        assert((x + y).drop_last() =~= x + y1);
        assert(is_digit(y[y.len() - 1]));
        lemma_digits_value_extend(x, y1);
        lemma_all_digits_concat(x, y1);
        lemma_digits_value_nonneg(x + y1);
    } else {
        assert(x + y =~= x);
    }
}

/// Adds the digits `s@[from..to]` to a running value `m` of the digits `prev`.
fn accumulate(s: &str, from: usize, to: usize, m: u64, Ghost(prev): Ghost<Seq<char>>) -> (r: Option<
    u64,
>)
    requires
        from <= to <= s@.len(),
        all_digits(s@.subrange(from as int, to as int)),
        all_digits(prev),
        m as int == digits_value(prev),
    ensures
        match r {
            Some(v) => v as int == digits_value(prev + s@.subrange(from as int, to as int)),
            None => digits_value(prev + s@.subrange(from as int, to as int)) > u64::MAX,
        },
{
    let ghost sub = s@.subrange(from as int, to as int);
    let mut acc: u64 = m;
    let mut k: usize = from;
    while k < to
        invariant
            from <= k <= to <= s@.len(),
            sub == s@.subrange(from as int, to as int),
            all_digits(sub),
            all_digits(prev),
            acc as int == digits_value(prev + sub.take(k - from)),
        decreases to - k,
    {
        let c = s.get_char(k);
        assert(is_digit(sub[k - from]));
        let d = (c as u32 - '0' as u32) as u64;
        assert((prev + sub.take(k + 1 - from)).drop_last() =~= prev + sub.take(k - from));
        assert((prev + sub.take(k + 1 - from)).last() == c);
        if acc > (u64::MAX - d) / 10 {
            assert(acc * 10 + d > u64::MAX) by (nonlinear_arith)
                requires
                    acc > (u64::MAX - d) / 10,
                    0 <= d <= 9,
            ;
            proof {
                assert(prev + sub =~= (prev + sub.take(k + 1 - from)) + sub.skip(k + 1 - from));
                assert(all_digits(sub.take(k + 1 - from))) by {
                    assert forall|i: int| 0 <= i < sub.take(k + 1 - from).len() implies is_digit(
                        #[trigger] sub.take(k + 1 - from)[i],
                    ) by {
                        assert(sub.take(k + 1 - from)[i] == sub[i]);
                    }
                }
                lemma_all_digits_concat(prev, sub.take(k + 1 - from));
                assert(all_digits(sub.skip(k + 1 - from))) by {
                    assert forall|i: int| 0 <= i < sub.skip(k + 1 - from).len() implies is_digit(
                        #[trigger] sub.skip(k + 1 - from)[i],
                    ) by {
                        assert(sub.skip(k + 1 - from)[i] == sub[i + k + 1 - from]);
                    }
                }
                lemma_digits_value_extend(prev + sub.take(k + 1 - from), sub.skip(k + 1 - from));
            }
            return None;
        }
        assert(acc * 10 + d <= u64::MAX) by (nonlinear_arith)
            requires
                acc <= (u64::MAX - d) / 10,
                0 <= d <= 9,
        ;
        acc = acc * 10 + d;
        k = k + 1;
    }
    assert(sub.take(to - from) =~= sub);
    Some(acc)
}

/// Parses the decimal number `s@[a..c]`.
fn parse_decimal(s: &str, a: usize, c: usize) -> (r: Option<Kbps>)
    requires
        a <= c <= s@.len(),
    ensures
        r == (match decimal_of(s@.subrange(a as int, c as int)) {
            None => None,
            Some((m, k)) => if m <= u64::MAX {
                Some(Kbps { mantissa: m as u64, scale: k as u64 })
            } else {
                None
            },
        }),
{
    let ghost u = s@.subrange(a as int, c as int);
    let mut p: usize = a;
    while p < c && is_digit_char(s.get_char(p))
        invariant
            a <= p <= c <= s@.len(),
            u == s@.subrange(a as int, c as int),
            all_digits(u.take(p - a)),
        decreases c - p,
    {
        assert(u.take(p + 1 - a) =~= u.take(p - a).push(u[p - a]));
        p = p + 1;
    }
    if p == c {
        assert(u.take(p - a) =~= u);
        if a == c {
            assert(!(exists|q: int| dot_split(u, q)));
            return None;
        }
        assert(s@.subrange(a as int, c as int) =~= u);
        assert(Seq::<char>::empty() + u =~= u);
        return match accumulate(s, a, c, 0, Ghost(Seq::empty())) {
            Some(m) => Some(Kbps { mantissa: m, scale: 0 }),
            None => None,
        };
    }
    // `p` is the first character that is not a digit.

    assert(!is_digit(u[p - a]));
    assert(!all_digits(u));
    assert forall|q: int| dot_split(u, q) implies q == p - a by {
        if q < p - a {
            assert(u.take(p - a)[q] == u[q]);
        } else if q > p - a {
            assert(u.take(q)[p - a] == u[p - a]);
        }
    }
    let dot = s.get_char(p);
    if dot != '.' || p + 1 == c {
        assert(!(exists|q: int| dot_split(u, q)));
        return None;
    }
    let mut e: usize = p + 1;
    while e < c && is_digit_char(s.get_char(e))
        invariant
            a <= p < e <= c <= s@.len(),
            u == s@.subrange(a as int, c as int),
            all_digits(u.subrange(p + 1 - a, e - a)),
        decreases c - e,
    {
        assert(u.subrange(p + 1 - a, e + 1 - a) =~= u.subrange(p + 1 - a, e - a).push(
            u[e - a],
        ));
        e = e + 1;
    }
    if e < c {
        assert(!is_digit(u[e - a]));
        assert(!dot_split(u, p - a)) by {
            assert(u.skip(p + 1 - a)[e - p - 1] == u[e - a]);
        }
        return None;
    }
    assert(u.subrange(p + 1 - a, c - a) =~= u.skip(p + 1 - a));
    assert(dot_split(u, p - a));
    assert(s@.subrange(a as int, p as int) =~= u.take(p - a));
    assert(s@.subrange(p + 1, c as int) =~= u.skip(p + 1 - a));
    match accumulate(s, a, p, 0, Ghost(Seq::empty())) {
        None => {
            proof {
                assert(Seq::<char>::empty() + u.take(p - a) =~= u.take(p - a));
                lemma_digits_value_extend(u.take(p - a), u.skip(p + 1 - a));
            }
            None
        },
        Some(m1) => {
            assert(Seq::<char>::empty() + u.take(p - a) =~= u.take(p - a));
            match accumulate(s, p + 1, c, m1, Ghost(u.take(p - a))) {
                None => None,
                Some(m) => Some(Kbps { mantissa: m, scale: (c - p - 1) as u64 }),
            }
        },
    }
}

/// Start of `s@` once its leading white space is dropped.
fn skip_leading_ws(s: &str) -> (a: usize)
    ensures
        a <= s@.len(),
        trim_start(s@) == s@.subrange(a as int, s@.len() as int),
{
    let len = s.unicode_len();
    let mut a: usize = 0;
    assert(s@.subrange(0, len as int) =~= s@);
    while a < len && is_ws_char(s.get_char(a))
        invariant
            len == s@.len(),
            a <= len,
            trim_start(s@.subrange(a as int, len as int)) == trim_start(s@),
        decreases len - a,
    {
        assert(s@.subrange(a as int, len as int).drop_first() =~= s@.subrange(a + 1, len as int));
        a = a + 1;
    }
    a
}

/// End of `s@[a..b]` once its trailing white space is dropped.
fn skip_trailing_ws(s: &str, a: usize, b: usize) -> (c: usize)
    requires
        a <= b <= s@.len(),
    ensures
        a <= c <= b,
        trim_end(s@.subrange(a as int, b as int)) == s@.subrange(a as int, c as int),
{
    let mut c: usize = b;
    while c > a && is_ws_char(s.get_char(c - 1))
        invariant
            a <= c <= b <= s@.len(),
            trim_end(s@.subrange(a as int, c as int)) == trim_end(s@.subrange(a as int, b as int)),
        decreases c - a,
    {
        assert(s@.subrange(a as int, c as int).drop_last() =~= s@.subrange(a as int, c - 1));
        c = c - 1;
    }
    c
}

/// Reads a bitrate written as `<number> Kbit/s`, with white space allowed
/// before, between and after. Anything else (an empty text, "n/a", a number
/// without its unit) reads as absent, never as an error.
pub fn parse_bit_rate(s: &str) -> (r: Option<Kbps>)
    ensures
        r == bit_rate_of(s@),
{
    let len = s.unicode_len();
    let a = skip_leading_ws(s);
    let b = skip_trailing_ws(s, a, len);
    let ghost t = s@.subrange(a as int, b as int);
    assert(trim_end(trim_start(s@)) == t);
    if b - a < 6 {
        return None;
    }
    let k = b - 6;
    let is_unit = s.get_char(k) == 'K' && s.get_char(k + 1) == 'b' && s.get_char(k + 2) == 'i'
        && s.get_char(k + 3) == 't' && s.get_char(k + 4) == '/' && s.get_char(k + 5) == 's';
    assert(t.skip(t.len() - 6) == unit_suffix() <==> is_unit) by {
        let w = t.skip(t.len() - 6);
        assert(forall|i: int| 0 <= i < 6 ==> w[i] == s@[k + i]);
        if is_unit {
            assert(w =~= unit_suffix());
        }
    }
    if !is_unit {
        return None;
    }
    let c = skip_trailing_ws(s, a, k);
    assert(t.take(t.len() - 6) =~= s@.subrange(a as int, k as int));
    assert(number_part(s@) == Some(s@.subrange(a as int, c as int)));
    parse_decimal(s, a, c)
}

/// Narrows a probed dimension to `i32`, keeping its low 32 bits as `as` does.
pub fn option_downcast(value: Option<i64>) -> (r: Option<i32>)
    ensures
        r == (match value {
            Some(n) => Some(n as i32),
            None => None,
        }),
{
    match value {
        Some(n) => Some(n as i32),
        None => None,
    }
}

/// A stream whose type is "video".
pub open spec fn is_video(st: ProbeStream) -> bool {
    match st.codec_type {
        Some(t) => t@ == "video"@,
        None => false,
    }
}

/// Index of the first video stream, if there is one.
pub fn select_video_stream(streams: &Vec<ProbeStream>) -> (r: Option<usize>)
    ensures
        match r {
            Some(i) => i < streams@.len() && is_video(streams@[i as int]) && forall|j: int|
                0 <= j < i ==> !is_video(#[trigger] streams@[j]),
            None => forall|j: int| 0 <= j < streams@.len() ==> !is_video(#[trigger] streams@[j]),
        },
{
    let mut i: usize = 0;
    while i < streams.len()
        invariant
            i <= streams@.len(),
            forall|j: int| 0 <= j < i ==> !is_video(#[trigger] streams@[j]),
        decreases streams.len() - i,
    {
        let video = match &streams[i].codec_type {
            Some(t) => text_eq(t.as_str(), "video"),
            None => false,
        };
        if video {
            return Some(i);
        }
        i = i + 1;
    }
    None
}

/// What the attributes of a selected stream read as.
pub open spec fn info_matches(info: ProbedInfo, st: ProbeStream) -> bool {
    &&& info.codec == st.codec_name
    &&& info.width == (match st.width {
        Some(n) => Some(n as i32),
        None => None,
    })
    &&& info.height == (match st.height {
        Some(n) => Some(n as i32),
        None => None,
    })
    &&& info.bit_rate == (match st.bit_rate {
        Some(b) => bit_rate_of(b@),
        None => None,
    })
}

pub open spec fn info_empty(info: ProbedInfo) -> bool {
    info.codec is None && info.width is None && info.height is None && info.bit_rate is None
}

/// The media attributes of a selected stream, or all of them absent when no
/// stream was selected.
pub fn unpack_probe_result(stream: Option<&ProbeStream>) -> (r: ProbedInfo)
    ensures
        match stream {
            Some(st) => info_matches(r, *st),
            None => info_empty(r),
        },
{
    match stream {
        None => ProbedInfo { codec: None, height: None, width: None, bit_rate: None },
        Some(st) => {
            let bit_rate = match &st.bit_rate {
                Some(b) => parse_bit_rate(b.as_str()),
                None => None,
            };
            ProbedInfo {
                codec: st.codec_name.clone(),
                height: option_downcast(st.height),
                width: option_downcast(st.width),
                bit_rate,
            }
        },
    }
}

/// The media attributes of a file from the probing tool's streams: those of
/// its first video stream, or all absent when it has none or the tool failed
/// (`None`).
pub fn probe_info(streams: Option<&Vec<ProbeStream>>) -> (r: ProbedInfo)
    ensures
        match streams {
            None => info_empty(r),
            Some(v) => if exists|i: int| 0 <= i < v@.len() && is_video(#[trigger] v@[i]) {
                exists|i: int|
                    0 <= i < v@.len() && is_video(#[trigger] v@[i]) && (forall|j: int|
                        0 <= j < i ==> !is_video(#[trigger] v@[j])) && info_matches(r, v@[i])
            } else {
                info_empty(r)
            },
        },
{
    match streams {
        None => unpack_probe_result(None),
        Some(v) => match select_video_stream(v) {
            None => unpack_probe_result(None),
            Some(i) => {
                let r = unpack_probe_result(Some(&v[i]));
                assert(is_video(v@[i as int]));
                r
            },
        },
    }
}

} // verus!
