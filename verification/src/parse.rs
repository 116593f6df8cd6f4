//! Parsing a loosely written date expression into its numeric parts.
//!
//! The input is cleaned (surrounding whitespace removed, `/` replaced by
//! `-`), split on `-`, and each part is read as a non-negative integer.
//! The number of parts decides the interpretation: one part is a day, two
//! are month and day, three are year, month and day; anything else is
//! malformed.

use vstd::prelude::*;
use crate::text::{chars_of, string_of};

verus! {

/// A partially specified date, before disambiguation against "today".
#[derive(Debug, PartialEq)]
pub enum PartialDate {
    Day { day: u32 },
    MonthDay { month: u32, day: u32 },
    YearMonthDay { year: u32, month: u32, day: u32 },
}

/// Why a date expression could not be read: a field that is not a number
/// (carrying the offending text), or a wrong number of `-`-separated parts
/// (carrying the cleaned input).
#[derive(Debug, PartialEq)]
pub enum PartialDateError {
    YearError(String),
    MonthError(String),
    DayError(String),
    PartError(String),
}

/// The mathematical counterpart of [`PartialDateError`].
pub enum ParseFail {
    Year(Seq<char>),
    Month(Seq<char>),
    Day(Seq<char>),
    Parts(Seq<char>),
}

impl View for PartialDateError {
    type V = ParseFail;

    open spec fn view(&self) -> ParseFail {
        match self {
            PartialDateError::YearError(s) => ParseFail::Year(s@),
            PartialDateError::MonthError(s) => ParseFail::Month(s@),
            PartialDateError::DayError(s) => ParseFail::Day(s@),
            PartialDateError::PartError(s) => ParseFail::Parts(s@),
        }
    }
}

/// The whitespace characters that are stripped from the ends of the input.
pub open spec fn is_ws_char(c: char) -> bool {
    c == ' ' || c == '\t' || c == '\n' || c == '\r' || c == '\u{b}' || c == '\u{c}'
}

pub open spec fn trim_front(s: Seq<char>) -> Seq<char>
    decreases s.len(),
{
    if s.len() > 0 && is_ws_char(s.first()) {
        trim_front(s.drop_first())
    } else {
        s
    }
}

pub open spec fn trim_back(s: Seq<char>) -> Seq<char>
    decreases s.len(),
{
    if s.len() > 0 && is_ws_char(s.last()) {
        trim_back(s.drop_last())
    } else {
        s
    }
}

/// `s` with leading and trailing whitespace removed.
pub open spec fn trim_spec(s: Seq<char>) -> Seq<char> {
    trim_back(trim_front(s))
}

pub open spec fn dash_of(c: char) -> char {
    if c == '/' {
        '-'
    } else {
        c
    }
}

/// `s` with every `/` replaced by `-`.
pub open spec fn dashify(s: Seq<char>) -> Seq<char> {
    s.map_values(|c: char| dash_of(c))
}

/// The cleaned form of a raw date expression: trimmed, with `/` turned
/// into `-`.
pub open spec fn clean_spec(s: Seq<char>) -> Seq<char> {
    dashify(trim_spec(s))
}

/// Index of the first `-` in `s`, or `s.len()` if there is none.
pub open spec fn first_dash(s: Seq<char>) -> nat
    decreases s.len(),
{
    if s.len() == 0 {
        0
    } else if s.first() == '-' {
        0
    } else {
        1 + first_dash(s.drop_first())
    }
}

/// `s` split on `-`; empty parts are kept, and an empty input gives one
/// empty part.
pub open spec fn split_dash(s: Seq<char>) -> Seq<Seq<char>>
    decreases s.len(),
{
    let i = first_dash(s) as int;
    if i >= s.len() {
        seq![s]
    } else {
        seq![s.subrange(0, i)] + split_dash(s.subrange(i + 1, s.len() as int))
    }
}

pub open spec fn is_digit(c: char) -> bool {
    '0' <= c && c <= '9'
}

pub open spec fn digit_val(c: char) -> nat {
    (c as int - '0' as int) as nat
}

/// The value of a digit string, most significant digit first.
pub open spec fn digits_value(s: Seq<char>) -> nat
    decreases s.len(),
{
    if s.len() == 0 {
        0
    } else {
        digits_value(s.drop_last()) * 10 + digit_val(s.last())
    }
}

pub open spec fn all_digits(s: Seq<char>) -> bool {
    forall|i: int| 0 <= i < s.len() ==> is_digit(#[trigger] s[i])
}

/// The digits of a numeric string: an optional leading `+` is dropped.
pub open spec fn numeric_body(s: Seq<char>) -> Seq<char> {
    if s.len() > 0 && s.first() == '+' {
        s.drop_first()
    } else {
        s
    }
}

/// What reading the cleaned expression yields: the parts decide the shape,
/// and the first part that is not a number decides the error, fields tried
/// in year, month, day order.
pub open spec fn partial_of(cleaned: Seq<char>) -> Result<PartialDate, ParseFail> {
    let parts = split_dash(cleaned);
    if parts.len() == 3 {
        match parse_u32_spec(parts[0]) {
            None => Err(ParseFail::Year(parts[0])),
            Some(y) => match parse_u32_spec(parts[1]) {
                None => Err(ParseFail::Month(parts[1])),
                Some(m) => match parse_u32_spec(parts[2]) {
                    None => Err(ParseFail::Day(parts[2])),
                    Some(d) => Ok(PartialDate::YearMonthDay { year: y, month: m, day: d }),
                },
            },
        }
    } else if parts.len() == 2 {
        match parse_u32_spec(parts[0]) {
            None => Err(ParseFail::Month(parts[0])),
            Some(m) => match parse_u32_spec(parts[1]) {
                None => Err(ParseFail::Day(parts[1])),
                Some(d) => Ok(PartialDate::MonthDay { month: m, day: d }),
            },
        }
    } else if parts.len() == 1 {
        match parse_u32_spec(parts[0]) {
            None => Err(ParseFail::Day(parts[0])),
            Some(d) => Ok(PartialDate::Day { day: d }),
        }
    } else {
        Err(ParseFail::Parts(cleaned))
    }
}

/// What `str::parse::<u32>` yields on `s`: the value of the digits (after
/// an optional `+` sign), unless a character is not a digit, the string is
/// empty, or the value does not fit in a `u32`.
pub open spec fn parse_u32_spec(s: Seq<char>) -> Option<u32> {
    let b = numeric_body(s);
    if b.len() > 0 && all_digits(b) && digits_value(b) <= u32::MAX {
        Some(digits_value(b) as u32)
    } else {
        None
    }
}

pub proof fn lemma_trim_front_is_subrange(s: Seq<char>, i: int)
    requires
        0 <= i <= s.len(),
        forall|k: int| 0 <= k < i ==> is_ws_char(#[trigger] s[k]),
        i == s.len() || !is_ws_char(s[i]),
    ensures
        trim_front(s) == s.subrange(i, s.len() as int),
    decreases i,
{
    if i == 0 {
        assert(s.subrange(0, s.len() as int) =~= s);
    } else {
        let t = s.drop_first();
        assert(forall|k: int| 0 <= k < i - 1 ==> is_ws_char(#[trigger] t[k]));
        lemma_trim_front_is_subrange(t, i - 1);
        assert(t.subrange(i - 1, t.len() as int) =~= s.subrange(i, s.len() as int));
    }
}

pub proof fn lemma_trim_back_is_subrange(s: Seq<char>, j: int)
    requires
        0 <= j <= s.len(),
        forall|k: int| j <= k < s.len() ==> is_ws_char(#[trigger] s[k]),
        j == 0 || !is_ws_char(s[j - 1]),
    ensures
        trim_back(s) == s.subrange(0, j),
    decreases s.len() - j,
{
    if j == s.len() as int {
        if s.len() == 0 {
            assert(s.subrange(0, 0) =~= s);
        } else {
            assert(s.subrange(0, j) =~= s);
        }
    } else {
        let t = s.drop_last();
        assert(is_ws_char(s.last()));
        assert(forall|k: int| j <= k < t.len() ==> is_ws_char(#[trigger] t[k]));
        lemma_trim_back_is_subrange(t, j);
        assert(t.subrange(0, j) =~= s.subrange(0, j));
    }
}

/// Whether `c` is one of the whitespace characters that cleaning strips.
pub fn is_ws(c: char) -> (r: bool)
    ensures
        r == is_ws_char(c),
{
    c == ' ' || c == '\t' || c == '\n' || c == '\r' || c == '\u{b}' || c == '\u{c}'
}

/// The cleaned form of `cs`: whitespace trimmed from both ends, `/`
/// replaced by `-`.
pub fn clean(cs: &Vec<char>) -> (r: Vec<char>)
    ensures
        r@ == clean_spec(cs@),
{
    let n = cs.len();
    let mut start: usize = 0;
    while start < n && is_ws(cs[start])
        invariant
            n == cs@.len(),
            0 <= start <= n,
            forall|k: int| 0 <= k < start ==> is_ws_char(#[trigger] cs@[k]),
        decreases n - start,
    {
        start += 1;
    }
    let mut end: usize = n;
    if start == n {
        end = start;
    } else {
        while end > start && is_ws(cs[end - 1])
            invariant
                n == cs@.len(),
                start <= end <= n,
                forall|k: int| end <= k < n ==> is_ws_char(#[trigger] cs@[k]),
            decreases end,
        {
            end -= 1;
        }
    }
    proof {
        lemma_trim_front_is_subrange(cs@, start as int);
        let t = cs@.subrange(start as int, n as int);
        if start == end {
            lemma_trim_back_is_subrange(t, 0);
        } else {
            lemma_trim_back_is_subrange(t, end - start);
        }
        assert(trim_spec(cs@) =~= cs@.subrange(start as int, end as int));
    }
    let mut r: Vec<char> = Vec::new();
    let mut i: usize = start;
    while i < end
        invariant
            start <= i <= end <= cs@.len(),
            r@ == dashify(cs@.subrange(start as int, end as int)).subrange(0, i - start),
        decreases end - i,
    {
        let c = cs[i];
        if c == '/' {
            r.push('-');
        } else {
            r.push(c);
        }
        proof {
            assert(r@ =~= dashify(cs@.subrange(start as int, end as int)).subrange(
                0,
                i + 1 - start,
            ));
        }
        i += 1;
    }
    proof {
        assert(r@ =~= dashify(trim_spec(cs@)));
    }
    r
}

/// Extending a digit string can only increase its value.
proof fn lemma_digits_value_mono(s: Seq<char>, k: int)
    requires
        0 <= k <= s.len(),
    ensures
        digits_value(s.subrange(0, k)) <= digits_value(s),
    decreases s.len() - k,
{
    if k == s.len() as int {
        assert(s.subrange(0, k) =~= s);
    } else {
        assert(s.subrange(0, k + 1).drop_last() =~= s.subrange(0, k));
        assert(s.subrange(0, k + 1).last() == s[k]);
        lemma_digits_value_mono(s, k + 1);
    }
}

/// What `str::parse::<u32>` returns on the characters of `part`.
pub fn parse_u32(part: &Vec<char>) -> (r: Option<u32>)
    ensures
        r == parse_u32_spec(part@),
{
    let n = part.len();
    let start: usize = if n > 0 && part[0] == '+' {
        1
    } else {
        0
    };
    proof {
        assert(numeric_body(part@) =~= part@.subrange(start as int, n as int));
    }
    let ghost body = part@.subrange(start as int, n as int);
    if start == n {
        return None;
    }
    let mut acc: u64 = 0;
    let mut i: usize = start;
    while i < n
        invariant
            start <= i <= n,
            n == part@.len(),
            body == part@.subrange(start as int, n as int),
            body == numeric_body(part@),
            body.len() > 0,
            acc == digits_value(body.subrange(0, i - start)),
            acc <= u32::MAX,
            forall|k: int| 0 <= k < i - start ==> is_digit(#[trigger] body[k]),
        decreases n - i,
    {
        let c = part[i];
        if !('0' <= c && c <= '9') {
            assert(!is_digit(body[i - start]));
            return None;
        }
        let d: u64 = (c as u32 as u64) - 48;
        proof {
            assert(body.subrange(0, i + 1 - start).drop_last() =~= body.subrange(0, i - start));
            assert(body.subrange(0, i + 1 - start).last() == body[i - start]);
            assert(d == digit_val(body[i - start]));
        }
        acc = acc * 10 + d;
        i += 1;
        if acc > u32::MAX as u64 {
            proof {
                lemma_digits_value_mono(body, i - start);
            }
            return None;
        }
    }
    proof {
        assert(body.subrange(0, n - start) =~= body);
    }
    Some(acc as u32)
}

proof fn lemma_first_dash_at(s: Seq<char>, k: int)
    requires
        0 <= k <= s.len(),
        forall|t: int| 0 <= t < k ==> s[t] != '-',
        k == s.len() || s[k] == '-',
    ensures
        first_dash(s) == k,
    decreases k,
{
    if k == 0 {
    } else {
        let t = s.drop_first();
        assert(forall|u: int| 0 <= u < k - 1 ==> t[u] != '-');
        lemma_first_dash_at(t, k - 1);
    }
}

/// The parts of `cs`, split on `-`.
pub fn split_parts(cs: &Vec<char>) -> (r: Vec<Vec<char>>)
    ensures
        r.deep_view() == split_dash(cs@),
{
    let n = cs.len();
    let mut r: Vec<Vec<char>> = Vec::new();
    let mut cur: Vec<char> = Vec::new();
    proof {
        assert(cs@.subrange(0, n as int) =~= cs@);
        assert(r.deep_view() + split_dash(cs@) =~= split_dash(cs@));
        assert(cur@ =~= cs@.subrange(0, 0));
    }
    let mut j: usize = 0;
    let mut i: usize = 0;
    while i < n
        invariant
            j <= i <= n,
            n == cs@.len(),
            cur@ == cs@.subrange(j as int, i as int),
            forall|t: int| j <= t < i ==> cs@[t] != '-',
            split_dash(cs@) == r.deep_view() + split_dash(cs@.subrange(j as int, n as int)),
        decreases n - i,
    {
        let c = cs[i];
        if c == '-' {
            proof {
                let rest = cs@.subrange(j as int, n as int);
                assert(forall|t: int| 0 <= t < i - j ==> rest[t] != '-');
                lemma_first_dash_at(rest, i - j);
                assert(rest.subrange(0, i - j) =~= cur@);
                assert(rest.subrange(i - j + 1, rest.len() as int) =~= cs@.subrange(
                    i + 1,
                    n as int,
                ));
            }
            let ghost pre = r.deep_view();
            let ghost cur_view = cur@;
            r.push(cur);
            cur = Vec::new();
            proof {
                assert(r.deep_view() =~~= pre.push(cur_view));
                assert(split_dash(cs@) =~~= r.deep_view() + split_dash(
                    cs@.subrange(i + 1, n as int),
                ));
                assert(cur@ =~= cs@.subrange(i + 1, i + 1));
            }
            j = i + 1;
        } else {
            cur.push(c);
            proof {
                assert(cur@ =~= cs@.subrange(j as int, i + 1));
            }
        }
        i += 1;
    }
    proof {
        let rest = cs@.subrange(j as int, n as int);
        assert(forall|t: int| 0 <= t < n - j ==> rest[t] != '-');
        lemma_first_dash_at(rest, n - j);
    }
    let ghost pre = r.deep_view();
    let ghost cur_view = cur@;
    r.push(cur);
    proof {
        assert(r.deep_view() =~~= pre.push(cur_view));
        assert(r.deep_view() =~~= split_dash(cs@));
    }
    r
}

impl PartialDate {
    /// Reads a raw date expression into its explicit numeric parts, after
    /// trimming whitespace and treating `/` like `-`.
    pub fn build(date_str: &str) -> (r: Result<PartialDate, PartialDateError>)
        ensures
            (r matches Ok(pd) ==> partial_of(clean_spec(date_str@)) == Ok::<
                PartialDate,
                ParseFail,
            >(pd)),
            (r matches Err(e) ==> partial_of(clean_spec(date_str@)) == Err::<
                PartialDate,
                ParseFail,
            >(e@)),
    {
        let cs = chars_of(date_str);
        let cleaned = clean(&cs);
        let parts = split_parts(&cleaned);
        let ghost sp = split_dash(clean_spec(date_str@));
        proof {
            assert(forall|k: int|
                0 <= k < parts@.len() ==> parts.deep_view()[k] == #[trigger] parts@[k]@);
        }
        if parts.len() == 3 {
            let year = match parse_u32(&parts[0]) {
                Some(v) => v,
                None => {
                    return Err(PartialDateError::YearError(string_of(&parts[0])));
                },
            };
            let month = match parse_u32(&parts[1]) {
                Some(v) => v,
                None => {
                    return Err(PartialDateError::MonthError(string_of(&parts[1])));
                },
            };
            let day = match parse_u32(&parts[2]) {
                Some(v) => v,
                None => {
                    return Err(PartialDateError::DayError(string_of(&parts[2])));
                },
            };
            Ok(PartialDate::YearMonthDay { year, month, day })
        } else if parts.len() == 2 {
            let month = match parse_u32(&parts[0]) {
                Some(v) => v,
                None => {
                    return Err(PartialDateError::MonthError(string_of(&parts[0])));
                },
            };
            let day = match parse_u32(&parts[1]) {
                Some(v) => v,
                None => {
                    return Err(PartialDateError::DayError(string_of(&parts[1])));
                },
            };
            Ok(PartialDate::MonthDay { month, day })
        } else if parts.len() == 1 {
            let day = match parse_u32(&parts[0]) {
                Some(v) => v,
                None => {
                    return Err(PartialDateError::DayError(string_of(&parts[0])));
                },
            };
            Ok(PartialDate::Day { day })
        } else {
            Err(PartialDateError::PartError(string_of(&cleaned)))
        }
    }
}

} // verus!
