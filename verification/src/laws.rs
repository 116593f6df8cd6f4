//! Proved laws of the due-date normalizer and of the canonical date form.
//!
//! Most public proof functions here state one property of
//! [`normalize_spec`](crate::date::normalize_spec), the specification that
//! [`format_date`](crate::date::format_date) is proved to implement; the
//! last one ties the listing's text order on canonical dates to the
//! calendar.

use vstd::prelude::*;
use crate::parse::{
    ParseFail, PartialDate, all_digits, clean_spec, dash_of, dashify, digit_val, digits_value,
    first_dash, is_digit, is_ws_char, numeric_body, parse_u32_spec, partial_of, split_dash,
    trim_back, trim_front, trim_spec,
};
use crate::date::{
    Date, NormFail, date_chars, date_valid, digit_char, fmt_num, normalize_spec, resolve_spec,
    valid_ymd,
};
use crate::task::lex_le_chars;

verus! {

pub open spec fn pow10(w: nat) -> int
    decreases w,
{
    if w == 0 {
        1
    } else {
        10 * pow10((w - 1) as nat)
    }
}

proof fn lemma_pow10_small()
    ensures
        pow10(2) == 100,
        pow10(4) == 10000,
{
    reveal_with_fuel(pow10, 5);
}

proof fn lemma_digit_char_facts(k: int)
    requires
        0 <= k < 10,
    ensures
        is_digit(digit_char(k)),
        digit_val(digit_char(k)) == k,
{
}

/// A zero-padded `w`-digit rendering has length `w`, consists of digits,
/// and reads back as the number it was made from.
proof fn lemma_fmt_num(n: int, w: nat)
    requires
        0 <= n < pow10(w),
    ensures
        fmt_num(n, w).len() == w,
        all_digits(fmt_num(n, w)),
        digits_value(fmt_num(n, w)) == n,
    decreases w,
{
    if w == 0 {
        assert(fmt_num(n, w) =~= Seq::<char>::empty());
    } else {
        let q = n / 10;
        let r = n % 10;
        assert(0 <= r < 10);
        assert(n == q * 10 + r);
        assert(q < pow10((w - 1) as nat)) by {
            if q >= pow10((w - 1) as nat) {
                assert(n >= q * 10);
                assert(q * 10 >= pow10((w - 1) as nat) * 10) by (nonlinear_arith)
                    requires
                        q >= pow10((w - 1) as nat),
                ;
            }
        }
        lemma_fmt_num(q, (w - 1) as nat);
        lemma_digit_char_facts(r);
        let prefix = fmt_num(q, (w - 1) as nat);
        let s = fmt_num(n, w);
        assert(s == prefix.push(digit_char(r)));
        assert(s.drop_last() =~= prefix);
        assert(s.last() == digit_char(r));
        assert(digits_value(s) == digits_value(prefix) * 10 + digit_val(digit_char(r)));
        assert(forall|i: int| 0 <= i < s.len() ==> is_digit(#[trigger] s[i])) by {
            assert(forall|i: int| 0 <= i < prefix.len() ==> s[i] == #[trigger] prefix[i]);
        }
    }
}

/// A digit character is not one of the separators, signs or whitespace
/// that the cleaning and splitting steps look for.
proof fn lemma_digit_is_plain(c: char)
    requires
        is_digit(c),
    ensures
        c != '-',
        c != '/',
        c != '+',
        !is_ws_char(c),
        dash_of(c) == c,
{
}

/// A digit string parses back to its value.
proof fn lemma_parse_digits(s: Seq<char>, n: int)
    requires
        s.len() > 0,
        all_digits(s),
        digits_value(s) == n,
        0 <= n <= u32::MAX,
    ensures
        parse_u32_spec(s) == Some(n as u32),
{
    assert(is_digit(s.first()));
    lemma_digit_is_plain(s.first());
    assert(numeric_body(s) == s);
}

proof fn lemma_first_dash_at(s: Seq<char>, k: int)
    requires
        0 <= k <= s.len(),
        forall|t: int| 0 <= t < k ==> s[t] != '-',
        k == s.len() || s[k] == '-',
    ensures
        first_dash(s) == k,
    decreases k,
{
    if k > 0 {
        let t = s.drop_first();
        assert(forall|u: int| 0 <= u < k - 1 ==> t[u] != '-');
        lemma_first_dash_at(t, k - 1);
    }
}

/// A canonical date string splits into exactly its three digit groups.
proof fn lemma_split_canonical(y: int, m: int, d: int)
    requires
        valid_ymd(y, m, d),
    ensures
        split_dash(date_chars(y, m, d)) == seq![fmt_num(y, 4), fmt_num(m, 2), fmt_num(d, 2)],
{
    lemma_pow10_small();
    lemma_fmt_num(y, 4);
    lemma_fmt_num(m, 2);
    lemma_fmt_num(d, 2);
    let fy = fmt_num(y, 4);
    let fm = fmt_num(m, 2);
    let fd = fmt_num(d, 2);
    let t = date_chars(y, m, d);
    assert(t.len() == 10);
    assert(forall|i: int| 0 <= i < 4 ==> t[i] == #[trigger] fy[i]);
    assert(t[4] == '-');
    assert(forall|i: int| 5 <= i < 7 ==> t[i] == #[trigger] fm[i - 5]);
    assert(t[7] == '-');
    assert(forall|i: int| 8 <= i < 10 ==> t[i] == #[trigger] fd[i - 8]);
    assert(forall|i: int| 0 <= i < 4 ==> #[trigger] t[i] != '-') by {
        assert(forall|i: int| 0 <= i < 4 ==> is_digit(#[trigger] t[i]));
    }
    lemma_first_dash_at(t, 4);
    assert(t.subrange(0, 4) =~= fy);
    let r1 = t.subrange(5, 10);
    assert(r1 =~= fm + seq!['-'] + fd);
    assert(forall|i: int| 0 <= i < 2 ==> #[trigger] r1[i] != '-') by {
        assert(forall|i: int| 0 <= i < 2 ==> is_digit(#[trigger] r1[i]));
    }
    assert(r1[2] == '-');
    lemma_first_dash_at(r1, 2);
    assert(r1.subrange(0, 2) =~= fm);
    let r2 = r1.subrange(3, 5);
    assert(r2 =~= fd);
    assert(forall|i: int| 0 <= i < 2 ==> #[trigger] r2[i] != '-') by {
        assert(forall|i: int| 0 <= i < 2 ==> is_digit(#[trigger] r2[i]));
    }
    lemma_first_dash_at(r2, 2);
    assert(split_dash(r2) == seq![r2]);
    assert(split_dash(r1) =~= seq![fm] + seq![fd]);
    assert(split_dash(t) =~= seq![fy] + (seq![fm] + seq![fd]));
    assert(seq![fy] + (seq![fm] + seq![fd]) =~= seq![fy, fm, fd]);
}

/// A canonical date string is already clean: no surrounding whitespace and
/// no slashes.
proof fn lemma_clean_canonical(y: int, m: int, d: int)
    requires
        valid_ymd(y, m, d),
    ensures
        clean_spec(date_chars(y, m, d)) == date_chars(y, m, d),
{
    lemma_pow10_small();
    lemma_fmt_num(y, 4);
    lemma_fmt_num(m, 2);
    lemma_fmt_num(d, 2);
    let t = date_chars(y, m, d);
    assert(t.len() == 10);
    assert(is_digit(t[0]) && is_digit(t[9]));
    assert(!is_ws_char(t.first()) && !is_ws_char(t.last())) by {
        lemma_digit_is_plain(t[0]);
        lemma_digit_is_plain(t[9]);
    }
    assert(trim_front(t) == t);
    assert(trim_back(t) == t);
    assert(dashify(t) =~= t) by {
        assert(forall|i: int| 0 <= i < t.len() ==> dash_of(#[trigger] t[i]) == t[i]) by {
            assert(forall|i: int| 0 <= i < t.len() ==> #[trigger] t[i] == '-' || is_digit(t[i]));
        }
    }
}

/// Normalizing a canonical date string with a year of at least 100 gives
/// back the same string.
proof fn lemma_canonical_fixpoint(y: int, m: int, d: int, today: Date)
    requires
        valid_ymd(y, m, d),
        y >= 100,
    ensures
        normalize_spec(date_chars(y, m, d), today) == Ok::<Seq<char>, NormFail>(
            date_chars(y, m, d),
        ),
{
    lemma_pow10_small();
    lemma_fmt_num(y, 4);
    lemma_fmt_num(m, 2);
    lemma_fmt_num(d, 2);
    lemma_clean_canonical(y, m, d);
    lemma_split_canonical(y, m, d);
    let t = date_chars(y, m, d);
    lemma_parse_digits(fmt_num(y, 4), y);
    lemma_parse_digits(fmt_num(m, 2), m);
    lemma_parse_digits(fmt_num(d, 2), d);
    let parts = split_dash(t);
    assert(parts.len() == 3);
    assert(parse_u32_spec(parts[0]) == Some(y as u32));
    assert(parse_u32_spec(parts[1]) == Some(m as u32));
    assert(parse_u32_spec(parts[2]) == Some(d as u32));
    assert(partial_of(t) == Ok::<PartialDate, ParseFail>(
        PartialDate::YearMonthDay { year: y as u32, month: m as u32, day: d as u32 },
    ));
    assert(resolve_spec(
        PartialDate::YearMonthDay { year: y as u32, month: m as u32, day: d as u32 },
        today,
    ) == (y, m, d));
}

/// Normalization is idempotent: normalizing a successful result again
/// yields the same canonical string. This holds for every explicit
/// year-month-day input, and for inferred dates whenever today's year has
/// at least three digits.
pub proof fn lemma_normalize_idempotent(s: Seq<char>, today: Date, t: Seq<char>)
    requires
        date_valid(today),
        normalize_spec(s, today) == Ok::<Seq<char>, NormFail>(t),
        (partial_of(clean_spec(s)) matches Ok(pd) && pd is YearMonthDay) || today.year >= 100,
    ensures
        normalize_spec(t, today) == Ok::<Seq<char>, NormFail>(t),
{
    let pd = partial_of(clean_spec(s))->Ok_0;
    let r = resolve_spec(pd, today);
    assert(valid_ymd(r.0, r.1, r.2));
    assert(t == date_chars(r.0, r.1, r.2));
    assert(r.0 >= 100) by {
        match pd {
            PartialDate::YearMonthDay { year, month, day } => {},
            PartialDate::MonthDay { month, day } => {},
            PartialDate::Day { day } => {},
        }
    }
    lemma_canonical_fixpoint(r.0, r.1, r.2, today);
}

/// Two-digit year rule: an explicit year below 100 resolves to
/// `2000 + year`, and a successful normalization renders exactly that
/// year.
pub proof fn lemma_two_digit_year(s: Seq<char>, today: Date, y: u32, m: u32, d: u32)
    requires
        partial_of(clean_spec(s)) == Ok::<PartialDate, ParseFail>(
            PartialDate::YearMonthDay { year: y, month: m, day: d },
        ),
        y < 100,
    ensures
        resolve_spec(PartialDate::YearMonthDay { year: y, month: m, day: d }, today).0 == y + 2000,
        normalize_spec(s, today) matches Ok(t) ==> t == date_chars(
            y + 2000,
            m as int,
            d as int,
        ),
{
}

proof fn lemma_trim_front_dashify(s: Seq<char>)
    ensures
        trim_front(dashify(s)) == dashify(trim_front(s)),
    decreases s.len(),
{
    if s.len() == 0 {
        assert(dashify(s) =~= s);
    } else {
        assert(dashify(s).first() == dash_of(s.first()));
        assert(is_ws_char(dash_of(s.first())) == is_ws_char(s.first()));
        if is_ws_char(s.first()) {
            assert(dashify(s).drop_first() =~= dashify(s.drop_first()));
            lemma_trim_front_dashify(s.drop_first());
        }
    }
}

proof fn lemma_trim_back_dashify(s: Seq<char>)
    ensures
        trim_back(dashify(s)) == dashify(trim_back(s)),
    decreases s.len(),
{
    if s.len() == 0 {
        assert(dashify(s) =~= s);
    } else {
        assert(dashify(s).last() == dash_of(s.last()));
        assert(is_ws_char(dash_of(s.last())) == is_ws_char(s.last()));
        if is_ws_char(s.last()) {
            assert(dashify(s).drop_last() =~= dashify(s.drop_last()));
            lemma_trim_back_dashify(s.drop_last());
        }
    }
}

/// Separator equivalence: writing `/` instead of `-` anywhere in the input
/// does not change what it normalizes to.
pub proof fn lemma_separator_equivalence(s: Seq<char>, today: Date)
    ensures
        normalize_spec(dashify(s), today) == normalize_spec(s, today),
{
    lemma_trim_front_dashify(s);
    lemma_trim_back_dashify(trim_front(s));
    assert(dashify(dashify(trim_spec(s))) =~= dashify(trim_spec(s)));
    assert(clean_spec(dashify(s)) == clean_spec(s));
}

proof fn lemma_trim_front_shape(s: Seq<char>)
    ensures
        trim_front(s).len() <= s.len(),
        trim_front(s) == s.subrange(s.len() - trim_front(s).len(), s.len() as int),
        forall|k: int| 0 <= k < s.len() - trim_front(s).len() ==> is_ws_char(#[trigger] s[k]),
        trim_front(s).len() > 0 ==> !is_ws_char(s[s.len() - trim_front(s).len()]),
    decreases s.len(),
{
    if s.len() > 0 && is_ws_char(s.first()) {
        let t = s.drop_first();
        lemma_trim_front_shape(t);
        let l = trim_front(s).len() as int;
        assert(trim_front(s) == trim_front(t));
        assert(t.subrange(t.len() - l, t.len() as int) =~= s.subrange(s.len() - l, s.len() as int));
        assert forall|k: int| 0 <= k < s.len() - l implies is_ws_char(#[trigger] s[k]) by {
            if k >= 1 {
                assert(s[k] == t[k - 1]);
            }
        }
        if l > 0 {
            assert(s[s.len() - l] == t[t.len() - l]);
        }
    } else {
        assert(s.subrange(0, s.len() as int) =~= s);
    }
}

proof fn lemma_trim_back_shape(s: Seq<char>)
    ensures
        trim_back(s).len() <= s.len(),
        trim_back(s) == s.subrange(0, trim_back(s).len() as int),
        forall|k: int| trim_back(s).len() <= k < s.len() ==> is_ws_char(#[trigger] s[k]),
        trim_back(s).len() > 0 ==> !is_ws_char(s[trim_back(s).len() - 1]),
    decreases s.len(),
{
    if s.len() > 0 && is_ws_char(s.last()) {
        let t = s.drop_last();
        lemma_trim_back_shape(t);
        let l = trim_back(s).len() as int;
        assert(trim_back(s) == trim_back(t));
        assert(t.subrange(0, l) =~= s.subrange(0, l));
        assert forall|k: int| l <= k < s.len() implies is_ws_char(#[trigger] s[k]) by {
            if k < s.len() - 1 {
                assert(s[k] == t[k]);
            } else {
                assert(s[k] == s.last());
            }
        }
        if l > 0 {
            assert(s[l - 1] == t[l - 1]);
        }
    } else {
        if s.len() > 0 {
            assert(s.subrange(0, s.len() as int) =~= s);
        } else {
            assert(s.subrange(0, 0) =~= s);
        }
    }
}

/// The trimmed form of `s` is exactly the slice between the outermost
/// non-whitespace characters.
proof fn lemma_trim_spec_is(s: Seq<char>, i: int, j: int)
    requires
        0 <= i <= j <= s.len(),
        forall|k: int| 0 <= k < i ==> is_ws_char(#[trigger] s[k]),
        forall|k: int| j <= k < s.len() ==> is_ws_char(#[trigger] s[k]),
        i == j || (!is_ws_char(s[i]) && !is_ws_char(s[j - 1])),
    ensures
        trim_spec(s) == s.subrange(i, j),
{
    if i == j {
        crate::parse::lemma_trim_front_is_subrange(s, s.len() as int);
        let e = s.subrange(s.len() as int, s.len() as int);
        assert(e.len() == 0);
        assert(trim_back(e) == e);
        assert(e =~= s.subrange(i, j));
    } else {
        crate::parse::lemma_trim_front_is_subrange(s, i);
        let tf = s.subrange(i, s.len() as int);
        assert(forall|k: int| j - i <= k < tf.len() ==> is_ws_char(#[trigger] tf[k]));
        assert(!is_ws_char(tf[j - i - 1]));
        crate::parse::lemma_trim_back_is_subrange(tf, j - i);
        assert(tf.subrange(0, j - i) =~= s.subrange(i, j));
    }
}

/// Whitespace insensitivity: surrounding whitespace does not change what
/// an expression normalizes to.
pub proof fn lemma_whitespace_insensitive(
    pre: Seq<char>,
    s: Seq<char>,
    suf: Seq<char>,
    today: Date,
)
    requires
        forall|k: int| 0 <= k < pre.len() ==> is_ws_char(#[trigger] pre[k]),
        forall|k: int| 0 <= k < suf.len() ==> is_ws_char(#[trigger] suf[k]),
    ensures
        normalize_spec(pre + s + suf, today) == normalize_spec(s, today),
{
    lemma_trim_front_shape(s);
    let i = s.len() - trim_front(s).len();
    let tf = trim_front(s);
    lemma_trim_back_shape(tf);
    let j = i + trim_back(tf).len();
    assert(forall|k: int| j <= k < s.len() ==> is_ws_char(#[trigger] s[k])) by {
        assert(forall|k: int|
            j <= k < s.len() ==> #[trigger] s[k] == tf[k - i] && is_ws_char(tf[k - i]));
    }
    if i < j {
        assert(!is_ws_char(s[i])) by {
            assert(tf.len() > 0);
            assert(tf[0] == s[i as int]);
        }
        assert(!is_ws_char(s[j - 1])) by {
            assert(tf[j - i - 1] == s[j - 1]);
        }
    }
    lemma_trim_spec_is(s, i as int, j as int);
    let x = pre + s + suf;
    let pi = pre.len() + i;
    let pj = pre.len() + j;
    assert(forall|k: int| 0 <= k < pi ==> is_ws_char(#[trigger] x[k]));
    assert(forall|k: int| pj <= k < x.len() ==> is_ws_char(#[trigger] x[k]));
    if i < j {
        assert(x[pi as int] == s[i as int]);
        assert(x[pj - 1] == s[j - 1]);
    }
    lemma_trim_spec_is(x, pi as int, pj as int);
    assert(x.subrange(pi as int, pj as int) =~= s.subrange(i as int, j as int));
    assert(clean_spec(x) == clean_spec(s));
}

/// The value of an all-digit string stays below one followed by as many
/// zeros as it has digits.
proof fn lemma_digits_value_bound(s: Seq<char>)
    requires
        all_digits(s),
    ensures
        digits_value(s) < pow10(s.len()),
    decreases s.len(),
{
    if s.len() == 0 {
    } else {
        let t = s.drop_last();
        assert(all_digits(t)) by {
            assert(forall|i: int| 0 <= i < t.len() ==> t[i] == #[trigger] s[i]);
        }
        lemma_digits_value_bound(t);
        assert(digit_val(s.last()) <= 9);
        assert(digits_value(t) * 10 <= (pow10(t.len()) - 1) * 10) by (nonlinear_arith)
            requires
                digits_value(t) <= pow10(t.len()) - 1,
        ;
    }
}

/// The value of an all-digit string, read off its first digit.
proof fn lemma_digits_value_first(s: Seq<char>)
    requires
        all_digits(s),
        s.len() > 0,
    ensures
        digits_value(s) == digit_val(s.first()) * pow10((s.len() - 1) as nat) + digits_value(
            s.drop_first(),
        ),
    decreases s.len(),
{
    if s.len() == 1 {
        assert(s.drop_last() =~= Seq::<char>::empty());
        assert(s.drop_first() =~= Seq::<char>::empty());
        assert(s.last() == s.first());
    } else {
        let t = s.drop_last();
        assert(all_digits(t)) by {
            assert(forall|i: int| 0 <= i < t.len() ==> t[i] == #[trigger] s[i]);
        }
        lemma_digits_value_first(t);
        let n = s.len() as int;
        let d0 = digit_val(s.first());
        let p = pow10((n - 2) as nat);
        assert(t.first() == s.first());
        assert(t.drop_first() =~= s.drop_first().drop_last());
        assert(s.drop_first().last() == s.last());
        assert(digits_value(s.drop_first()) == digits_value(s.drop_first().drop_last()) * 10
            + digit_val(s.last()));
        assert(digits_value(s) == digits_value(t) * 10 + digit_val(s.last()));
        assert((d0 * p + digits_value(t.drop_first())) * 10 == d0 * (10 * p) + digits_value(
            t.drop_first(),
        ) * 10) by (nonlinear_arith);
        assert(pow10((n - 1) as nat) == 10 * p);
    }
}

/// On all-digit strings of one width, text order is numeric order.
proof fn lemma_lex_digits(a: Seq<char>, b: Seq<char>)
    requires
        a.len() == b.len(),
        all_digits(a),
        all_digits(b),
    ensures
        lex_le_chars(a, b) <==> digits_value(a) <= digits_value(b),
    decreases a.len(),
{
    if a.len() == 0 {
    } else {
        let da = digit_val(a.first());
        let db = digit_val(b.first());
        let p = pow10((a.len() - 1) as nat);
        lemma_digits_value_first(a);
        lemma_digits_value_first(b);
        let ta = a.drop_first();
        let tb = b.drop_first();
        assert(all_digits(ta) && all_digits(tb)) by {
            assert(forall|i: int| 0 <= i < ta.len() ==> ta[i] == #[trigger] a[i + 1]);
            assert(forall|i: int| 0 <= i < tb.len() ==> tb[i] == #[trigger] b[i + 1]);
        }
        lemma_digits_value_bound(ta);
        lemma_digits_value_bound(tb);
        assert(is_digit(a.first()) && is_digit(b.first()));
        if a.first() == b.first() {
            lemma_lex_digits(ta, tb);
        } else {
            assert(da != db);
            if da < db {
                assert(da * p + p <= db * p) by (nonlinear_arith)
                    requires
                        da + 1 <= db,
                        p >= 0,
                ;
                assert(a.first() < b.first());
            } else {
                assert(db * p + p <= da * p) by (nonlinear_arith)
                    requires
                        db + 1 <= da,
                        p >= 0,
                ;
                assert(b.first() < a.first());
            }
        }
    }
}

/// Comparing two texts that start with equal-width digit groups: the
/// groups decide unless their values tie, and then the rests do.
proof fn lemma_lex_digit_prefix(a: Seq<char>, b: Seq<char>, s1: Seq<char>, s2: Seq<char>)
    requires
        a.len() == b.len(),
        all_digits(a),
        all_digits(b),
    ensures
        lex_le_chars(a + s1, b + s2) <==> (if digits_value(a) < digits_value(b) {
            true
        } else if digits_value(b) < digits_value(a) {
            false
        } else {
            lex_le_chars(s1, s2)
        }),
    decreases a.len(),
{
    if a.len() == 0 {
        assert(a + s1 =~= s1);
        assert(b + s2 =~= s2);
    } else {
        let da = digit_val(a.first());
        let db = digit_val(b.first());
        let p = pow10((a.len() - 1) as nat);
        lemma_digits_value_first(a);
        lemma_digits_value_first(b);
        let ta = a.drop_first();
        let tb = b.drop_first();
        assert(all_digits(ta) && all_digits(tb)) by {
            assert(forall|i: int| 0 <= i < ta.len() ==> ta[i] == #[trigger] a[i + 1]);
            assert(forall|i: int| 0 <= i < tb.len() ==> tb[i] == #[trigger] b[i + 1]);
        }
        lemma_digits_value_bound(ta);
        lemma_digits_value_bound(tb);
        assert((a + s1).first() == a.first());
        assert((b + s2).first() == b.first());
        assert(is_digit(a.first()) && is_digit(b.first()));
        if a.first() == b.first() {
            assert((a + s1).drop_first() =~= ta + s1);
            assert((b + s2).drop_first() =~= tb + s2);
            lemma_lex_digit_prefix(ta, tb, s1, s2);
        } else {
            if da < db {
                assert(da * p + p <= db * p) by (nonlinear_arith)
                    requires
                        da + 1 <= db,
                        p >= 0,
                ;
                assert(a.first() < b.first());
            } else {
                assert(db * p + p <= da * p) by (nonlinear_arith)
                    requires
                        db + 1 <= da,
                        p >= 0,
                ;
                assert(b.first() < a.first());
            }
        }
    }
}

/// On canonical date strings the listing's text order is the calendar
/// order: an earlier day never sorts after a later one.
pub proof fn lemma_canonical_text_order(y1: int, m1: int, d1: int, y2: int, m2: int, d2: int)
    ensures
        valid_ymd(y1, m1, d1) && valid_ymd(y2, m2, d2) ==> (lex_le_chars(
            date_chars(y1, m1, d1),
            date_chars(y2, m2, d2),
        ) <==> (y1 < y2 || (y1 == y2 && (m1 < m2 || (m1 == m2 && d1 <= d2))))),
{
    if valid_ymd(y1, m1, d1) && valid_ymd(y2, m2, d2) {
        lemma_pow10_small();
        lemma_fmt_num(y1, 4);
        lemma_fmt_num(m1, 2);
        lemma_fmt_num(d1, 2);
        lemma_fmt_num(y2, 4);
        lemma_fmt_num(m2, 2);
        lemma_fmt_num(d2, 2);
        let r1 = seq!['-'] + fmt_num(m1, 2) + seq!['-'] + fmt_num(d1, 2);
        let r2 = seq!['-'] + fmt_num(m2, 2) + seq!['-'] + fmt_num(d2, 2);
        assert(date_chars(y1, m1, d1) =~= fmt_num(y1, 4) + r1);
        assert(date_chars(y2, m2, d2) =~= fmt_num(y2, 4) + r2);
        lemma_lex_digit_prefix(fmt_num(y1, 4), fmt_num(y2, 4), r1, r2);
        let q1 = seq!['-'] + fmt_num(d1, 2);
        let q2 = seq!['-'] + fmt_num(d2, 2);
        assert(r1.first() == '-' && r2.first() == '-');
        assert(r1.drop_first() =~= fmt_num(m1, 2) + q1);
        assert(r2.drop_first() =~= fmt_num(m2, 2) + q2);
        assert(lex_le_chars(r1, r2) == lex_le_chars(fmt_num(m1, 2) + q1, fmt_num(m2, 2) + q2));
        lemma_lex_digit_prefix(fmt_num(m1, 2), fmt_num(m2, 2), q1, q2);
        assert(q1.first() == '-' && q2.first() == '-');
        assert(q1.drop_first() =~= fmt_num(d1, 2) + Seq::<char>::empty());
        assert(q2.drop_first() =~= fmt_num(d2, 2) + Seq::<char>::empty());
        assert(lex_le_chars(q1, q2) == lex_le_chars(
            fmt_num(d1, 2) + Seq::<char>::empty(),
            fmt_num(d2, 2) + Seq::<char>::empty(),
        ));
        lemma_lex_digit_prefix(
            fmt_num(d1, 2),
            fmt_num(d2, 2),
            Seq::<char>::empty(),
            Seq::<char>::empty(),
        );
    }
}

} // verus!
