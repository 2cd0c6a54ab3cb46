//! UTC ISO-8601 timestamps for session activity: parsing into epoch
//! milliseconds and formatting back with millisecond precision.

use vstd::prelude::*;

use crate::calendar::{civil_from_days, civil_of_day, days_from_civil, epoch_day, is_valid_date};
use crate::text::{
    chars_of, decimal, digit_char, digit_value, is_digit, lemma_digit_char_lt, lemma_lex_at, lex_lt,
    push_char, push_padded_decimal, zero_pad,
};

verus! {

/// Value of the two ASCII digits at `s[i]`, `s[i + 1]`.
pub open spec fn two_digits(s: Seq<char>, i: int) -> int {
    10 * digit_value(s[i]) + digit_value(s[i + 1])
}

/// Whether `s` starts with `YYYY-MM-DD?hh:mm:ss`, where `?` is `T`, `t` or a
/// space and every other placeholder is an ASCII digit.
pub open spec fn has_date_time_shape(s: Seq<char>) -> bool {
    &&& s.len() >= 19
    &&& is_digit(s[0]) && is_digit(s[1]) && is_digit(s[2]) && is_digit(s[3])
    &&& s[4] == '-'
    &&& is_digit(s[5]) && is_digit(s[6])
    &&& s[7] == '-'
    &&& is_digit(s[8]) && is_digit(s[9])
    &&& (s[10] == 'T' || s[10] == 't' || s[10] == ' ')
    &&& is_digit(s[11]) && is_digit(s[12])
    &&& s[13] == ':'
    &&& is_digit(s[14]) && is_digit(s[15])
    &&& s[16] == ':'
    &&& is_digit(s[17]) && is_digit(s[18])
}

/// Length of the run of ASCII digits that `s` starts with.
pub open spec fn leading_digits(s: Seq<char>) -> nat
    decreases s.len(),
{
    if s.len() > 0 && is_digit(s[0]) {
        1 + leading_digits(s.drop_first())
    } else {
        0
    }
}

/// Milliseconds of a fractional-seconds digit run of length `n >= 1`: its
/// first three digits, right-padded with zeros.
pub open spec fn fraction_millis(f: Seq<char>, n: nat) -> int {
    100 * digit_value(f[0]) + (if n > 1 {
        10 * digit_value(f[1])
    } else {
        0
    }) + (if n > 2 {
        digit_value(f[2])
    } else {
        0
    })
}

/// The integer that a two-character text reads as: two digits, or a `+` or
/// `-` sign followed by one digit.
pub open spec fn two_char_integer(a: char, b: char) -> Option<int> {
    if is_digit(a) && is_digit(b) {
        Some(10 * digit_value(a) + digit_value(b))
    } else if a == '+' && is_digit(b) {
        Some(digit_value(b))
    } else if a == '-' && is_digit(b) {
        Some(-digit_value(b))
    } else {
        None
    }
}

/// Offset in milliseconds of a timezone suffix: empty, `Z` or `z` are UTC;
/// otherwise a sign, two characters of hours, `:` and two characters of
/// minutes, with hours at most 23 and minutes at most 59.
pub open spec fn zone_offset_ms(z: Seq<char>) -> Option<int> {
    if z.len() == 0 || (z.len() == 1 && (z[0] == 'Z' || z[0] == 'z')) {
        Some(0)
    } else if (z[0] == '+' || z[0] == '-') && z.len() == 6 && z[3] == ':' {
        match (two_char_integer(z[1], z[2]), two_char_integer(z[4], z[5])) {
            (Some(h), Some(m)) => {
                if h > 23 || m > 59 {
                    None
                } else {
                    let sign: int = if z[0] == '+' {
                        1
                    } else {
                        -1
                    };
                    Some(sign * (h * 60 + m) * 60_000)
                }
            },
            _ => None,
        }
    } else {
        None
    }
}

/// The epoch milliseconds denoted by `YYYY-MM-DD?hh:mm:ss[.fff][Z|±hh:mm]`,
/// or `None` when the text is malformed, a field is out of range or the
/// instant lies before 1970.
pub open spec fn spec_parse_iso8601_ms(s: Seq<char>) -> Option<u64> {
    if !has_date_time_shape(s) {
        None
    } else {
        let year = 100 * two_digits(s, 0) + two_digits(s, 2);
        let month = two_digits(s, 5);
        let day = two_digits(s, 8);
        let hour = two_digits(s, 11);
        let minute = two_digits(s, 14);
        let second = two_digits(s, 17);
        let rest = s.skip(19);
        let dotted = rest.len() > 0 && rest[0] == '.';
        let n = leading_digits(rest.skip(1));
        let millis = if dotted {
            fraction_millis(rest.skip(1), n)
        } else {
            0
        };
        let zone = if dotted {
            rest.skip(1 + n as int)
        } else {
            rest
        };
        if dotted && n == 0 {
            None
        } else {
            match zone_offset_ms(zone) {
                None => None,
                Some(offset) => {
                    if !(1 <= month <= 12 && 1 <= day <= 31 && hour <= 23 && minute <= 59 && second
                        <= 60) {
                        None
                    } else {
                        let total = (epoch_day(year, month, day) * 86400 + hour * 3600 + minute
                            * 60 + second) * 1000 + millis - offset;
                        if total < 0 {
                            None
                        } else {
                            Some(total as u64)
                        }
                    }
                },
            }
        }
    }
}

fn digit_at(cs: &Vec<char>, i: usize) -> (r: Option<i64>)
    requires
        i < cs@.len(),
    ensures
        r == (if is_digit(cs@[i as int]) {
            Some(digit_value(cs@[i as int]) as i64)
        } else {
            None::<i64>
        }),
{
    let c = cs[i];
    if '0' <= c && c <= '9' {
        Some((c as u32 - 48) as i64)
    } else {
        None
    }
}

fn two_digits_at(cs: &Vec<char>, i: usize) -> (r: Option<i64>)
    requires
        i + 1 < cs@.len(),
    ensures
        r == (if is_digit(cs@[i as int]) && is_digit(cs@[i + 1]) {
            Some(two_digits(cs@, i as int) as i64)
        } else {
            None::<i64>
        }),
{
    let n = cs.len();
    match (digit_at(cs, i), digit_at(cs, i + 1)) {
        (Some(a), Some(b)) => Some(10 * a + b),
        _ => None,
    }
}

fn two_char_integer_at(cs: &Vec<char>, i: usize) -> (r: Option<i64>)
    requires
        i + 1 < cs@.len(),
    ensures
        r == (match two_char_integer(cs@[i as int], cs@[i + 1]) {
            Some(v) => Some(v as i64),
            None => None::<i64>,
        }),
        r matches Some(v) ==> -9 <= v <= 99,
{
    let n = cs.len();
    let b = match digit_at(cs, i + 1) {
        Some(b) => b,
        None => return None,
    };
    match digit_at(cs, i) {
        Some(a) => Some(10 * a + b),
        None => {
            if cs[i] == '+' {
                Some(b)
            } else if cs[i] == '-' {
                Some(-b)
            } else {
                None
            }
        },
    }
}

proof fn lemma_leading_digits(s: Seq<char>, k: int)
    requires
        0 <= k <= s.len(),
        forall|i: int| 0 <= i < k ==> is_digit(#[trigger] s[i]),
        k == s.len() || !is_digit(s[k]),
    ensures
        leading_digits(s) == k,
    decreases k,
{
    if k > 0 {
        lemma_leading_digits(s.drop_first(), k - 1);
    }
}

fn zone_offset(cs: &Vec<char>, pos: usize) -> (r: Option<i64>)
    requires
        pos <= cs@.len(),
    ensures
        r is Some == zone_offset_ms(cs@.skip(pos as int)) is Some,
        r matches Some(v) ==> zone_offset_ms(cs@.skip(pos as int)) == Some(v as int),
        r matches Some(v) ==> -86_400_000 < v < 86_400_000,
{
    let ghost z = cs@.skip(pos as int);
    let len = cs.len() - pos;
    if len == 0 || (len == 1 && (cs[pos] == 'Z' || cs[pos] == 'z')) {
        return Some(0);
    }
    if !((cs[pos] == '+' || cs[pos] == '-') && len == 6 && cs[pos + 3] == ':') {
        return None;
    }
    assert(z[1] == cs@[pos + 1] && z[2] == cs@[pos + 2] && z[4] == cs@[pos + 4] && z[5]
        == cs@[pos + 5]);
    let h = match two_char_integer_at(cs, pos + 1) {
        Some(h) => h,
        None => return None,
    };
    let m = match two_char_integer_at(cs, pos + 4) {
        Some(m) => m,
        None => return None,
    };
    if h > 23 || m > 59 {
        return None;
    }
    let sign: i64 = if cs[pos] == '+' {
        1
    } else {
        -1
    };
    Some(sign * (h * 60 + m) * 60_000)
}

/// Fractional seconds after the date-time prefix: `None` for a `.` without
/// digits, otherwise the milliseconds and where the timezone suffix starts.
fn fraction_at(cs: &Vec<char>) -> (r: Option<(i64, usize)>)
    requires
        cs@.len() >= 19,
    ensures
        ({
            let rest = cs@.skip(19);
            let dotted = rest.len() > 0 && rest[0] == '.';
            let n = leading_digits(rest.skip(1));
            &&& (r is None <==> dotted && n == 0)
            &&& r matches Some((m, p)) ==> {
                &&& m == (if dotted {
                    fraction_millis(rest.skip(1), n)
                } else {
                    0
                })
                &&& p == (if dotted {
                    20 + n
                } else {
                    19
                })
            }
        }),
        r matches Some((m, p)) ==> 0 <= m <= 999 && 19 <= p <= cs@.len(),
{
    let ghost t = cs@;
    let ghost rest = t.skip(19);
    let len = cs.len();
    if !(19 < len && cs[19] == '.') {
        return Some((0, 19));
    }
    let mut end: usize = 20;
    while end < len && '0' <= cs[end] && cs[end] <= '9'
        invariant
            20 <= end <= len,
            len == cs@.len(),
            cs@ == t,
            forall|i: int| 20 <= i < end ==> is_digit(#[trigger] t[i]),
        decreases len - end,
    {
        end = end + 1;
    }
    let ghost f = rest.skip(1);
    proof {
        assert forall|i: int| 0 <= i < end - 20 implies is_digit(#[trigger] f[i]) by {
            assert(f[i] == t[i + 20]);
        }
        if end < t.len() {
            assert(f[end - 20] == t[end as int]);
        }
        lemma_leading_digits(f, end - 20);
    }
    if end == 20 {
        return None;
    }
    let d0 = digit_value_at(cs, 20);
    let d1 = if end > 21 {
        digit_value_at(cs, 21)
    } else {
        0
    };
    let d2 = if end > 22 {
        digit_value_at(cs, 22)
    } else {
        0
    };
    proof {
        assert(f[0] == t[20]);
        assert(end > 21 ==> f[1] == t[21]);
        assert(end > 22 ==> f[2] == t[22]);
    }
    Some((100 * d0 + 10 * d1 + d2, end))
}

/// The instant of validated fields, or `None` when a field is out of range
/// or the instant lies before 1970.
fn instant_ms(
    year: i64,
    month: i64,
    day: i64,
    hour: i64,
    minute: i64,
    second: i64,
    millis: i64,
    offset: i64,
) -> (r: Option<u64>)
    requires
        0 <= year <= 9999,
        0 <= month <= 99,
        0 <= day <= 99,
        0 <= hour <= 99,
        0 <= minute <= 99,
        0 <= second <= 99,
        0 <= millis <= 999,
        -86_400_000 < offset < 86_400_000,
    ensures
        r == (if !(1 <= month <= 12 && 1 <= day <= 31 && hour <= 23 && minute <= 59 && second
            <= 60) {
            None::<u64>
        } else {
            let total = (epoch_day(year as int, month as int, day as int) * 86400 + hour * 3600
                + minute * 60 + second) * 1000 + millis - offset;
            if total < 0 {
                None::<u64>
            } else {
                Some(total as u64)
            }
        }),
{
    if !(1 <= month && month <= 12) || !(1 <= day && day <= 31) {
        return None;
    }
    if hour > 23 || minute > 59 || second > 60 {
        return None;
    }
    let days = match days_from_civil(year, month, day) {
        Some(v) => v,
        None => return None,
    };
    proof {
        crate::calendar::lemma_epoch_day_bounds(year as int, month as int, day as int);
    }
    let secs = days * 86400 + hour * 3600 + minute * 60 + second;
    let total = secs * 1000 + millis - offset;
    if total < 0 {
        return None;
    }
    Some(total as u64)
}

/// Parse an ISO-8601 timestamp into epoch milliseconds.
///
/// Accepted: `YYYY-MM-DDTHH:MM:SS[.fff][Z|±HH:MM]` (`T` may also be `t` or a
/// space; a missing timezone means UTC). Malformed or out-of-range input,
/// and instants before 1970, give `None`.
pub fn parse_iso8601_ms(s: &str) -> (r: Option<u64>)
    ensures
        r == spec_parse_iso8601_ms(s@),
{
    let cs = chars_of(s);
    let ghost t = cs@;
    if cs.len() < 19 {
        return None;
    }
    let yh = two_digits_at(&cs, 0);
    let yl = two_digits_at(&cs, 2);
    let month = two_digits_at(&cs, 5);
    let day = two_digits_at(&cs, 8);
    let hour = two_digits_at(&cs, 11);
    let minute = two_digits_at(&cs, 14);
    let second = two_digits_at(&cs, 17);
    let sep = cs[10];
    let (yh, yl, month, day, hour, minute, second) = match (
        yh,
        yl,
        month,
        day,
        hour,
        minute,
        second,
    ) {
        (Some(a), Some(b), Some(c), Some(d), Some(e), Some(f), Some(g)) => (a, b, c, d, e, f, g),
        _ => return None,
    };
    if cs[4] != '-' || cs[7] != '-' || !(sep == 'T' || sep == 't' || sep == ' ') || cs[13] != ':'
        || cs[16] != ':' {
        return None;
    }
    assert(has_date_time_shape(t));
    let year = 100 * yh + yl;
    let (millis, pos) = match fraction_at(&cs) {
        Some(fp) => fp,
        None => return None,
    };
    proof {
        let rest = t.skip(19);
        if rest.len() > 0 && rest[0] == '.' {
            let n = leading_digits(rest.skip(1));
            assert(pos == 20 + n);
            assert(rest.skip(1 + n as int) =~= t.skip(pos as int));
        } else {
            assert(rest =~= t.skip(pos as int));
        }
    }
    let offset = match zone_offset(&cs, pos) {
        Some(o) => o,
        None => return None,
    };
    proof {
        let rest = t.skip(19);
        let dotted = rest.len() > 0 && rest[0] == '.';
        let n = leading_digits(rest.skip(1));
        let zone = if dotted {
            rest.skip(1 + n as int)
        } else {
            rest
        };
        assert(zone == t.skip(pos as int));
        assert(zone_offset_ms(zone) == Some(offset as int));
        assert(millis == (if dotted { fraction_millis(rest.skip(1), n) } else { 0 }));
        assert(!(dotted && n == 0));
        assert(year == 100 * two_digits(t, 0) + two_digits(t, 2));
    }
    instant_ms(year, month, day, hour, minute, second, millis, offset)
}

fn digit_value_at(cs: &Vec<char>, i: usize) -> (r: i64)
    requires
        i < cs@.len(),
        is_digit(cs@[i as int]),
    ensures
        r == digit_value(cs@[i as int]),
        0 <= r <= 9,
{
    (cs[i] as u32 - 48) as i64
}

/// `YYYY-MM-DDTHH:MM:SS.mmmZ` for the given fields, each zero-padded.
#[verifier::opaque]
pub open spec fn render_timestamp(
    y: int,
    mo: int,
    d: int,
    hh: int,
    mi: int,
    ss: int,
    ml: int,
) -> Seq<char> {
    zero_pad(decimal(y as nat), 4) + seq!['-'] + zero_pad(decimal(mo as nat), 2) + seq!['-']
        + zero_pad(decimal(d as nat), 2) + seq!['T'] + zero_pad(decimal(hh as nat), 2) + seq![':']
        + zero_pad(decimal(mi as nat), 2) + seq![':'] + zero_pad(decimal(ss as nat), 2) + seq!['.']
        + zero_pad(decimal(ml as nat), 3) + seq!['Z']
}

/// The UTC ISO-8601 rendering of `ms` milliseconds after the epoch (years
/// past 9999 take more digits).
pub open spec fn spec_format_iso8601_ms(ms: nat) -> Seq<char> {
    let date = civil_of_day((ms / 86_400_000) as int);
    let rem = ((ms / 1000) % 86400) as int;
    render_timestamp(date.0, date.1, date.2, rem / 3600, (rem % 3600) / 60, rem % 60, (ms % 1000) as int)
}

/// Format epoch milliseconds as UTC ISO-8601 with millisecond precision.
pub fn format_iso8601_ms(ms: u64) -> (out: String)
    ensures
        out@ == spec_format_iso8601_ms(ms as nat),
{
    let secs = ms / 1000;
    let millis = ms % 1000;
    let days = secs / 86400;
    let rem = secs % 86400;
    proof {
        vstd::arithmetic::div_mod::lemma_div_denominator(ms as int, 1000, 86400);
    }
    let (year, month, day) = civil_from_days(days as i64);
    let mut out = String::new();
    push_padded_decimal(&mut out, year as u64, 4);
    push_char(&mut out, '-');
    push_padded_decimal(&mut out, month as u64, 2);
    push_char(&mut out, '-');
    push_padded_decimal(&mut out, day as u64, 2);
    push_char(&mut out, 'T');
    push_padded_decimal(&mut out, rem / 3600, 2);
    push_char(&mut out, ':');
    push_padded_decimal(&mut out, (rem % 3600) / 60, 2);
    push_char(&mut out, ':');
    push_padded_decimal(&mut out, rem % 60, 2);
    push_char(&mut out, '.');
    push_padded_decimal(&mut out, millis, 3);
    push_char(&mut out, 'Z');
    proof {
        reveal(render_timestamp);
        assert(out@ =~= spec_format_iso8601_ms(ms as nat));
    }
    out
}

} // verus!
verus! {

#[verifier::rlimit(60)]
proof fn lemma_rendered_chars(y: int, mo: int, d: int, hh: int, mi: int, ss: int, ml: int)
    requires
        0 <= y <= 9999,
        0 <= mo < 100,
        0 <= d < 100,
        0 <= hh < 100,
        0 <= mi < 100,
        0 <= ss < 100,
        0 <= ml < 1000,
    ensures
        ({
            let s = render_timestamp(y, mo, d, hh, mi, ss, ml);
            &&& s.len() == 24
            &&& s[0] == digit_char(y / 1000) && s[1] == digit_char((y / 100) % 10)
            &&& s[2] == digit_char((y / 10) % 10) && s[3] == digit_char(y % 10)
            &&& s[4] == '-' && s[5] == digit_char(mo / 10) && s[6] == digit_char(mo % 10)
            &&& s[7] == '-' && s[8] == digit_char(d / 10) && s[9] == digit_char(d % 10)
            &&& s[10] == 'T' && s[11] == digit_char(hh / 10) && s[12] == digit_char(hh % 10)
            &&& s[13] == ':' && s[14] == digit_char(mi / 10) && s[15] == digit_char(mi % 10)
            &&& s[16] == ':' && s[17] == digit_char(ss / 10) && s[18] == digit_char(ss % 10)
            &&& s[19] == '.' && s[20] == digit_char(ml / 100)
            &&& s[21] == digit_char((ml / 10) % 10) && s[22] == digit_char(ml % 10)
            &&& s[23] == 'Z'
        }),
{
    crate::text::lemma_pad4(y as nat);
    crate::text::lemma_pad2(mo as nat);
    crate::text::lemma_pad2(d as nat);
    crate::text::lemma_pad2(hh as nat);
    crate::text::lemma_pad2(mi as nat);
    crate::text::lemma_pad2(ss as nat);
    crate::text::lemma_pad3(ml as nat);
    reveal(render_timestamp);
    let lit = seq![
        digit_char(y / 1000), digit_char((y / 100) % 10), digit_char((y / 10) % 10),
        digit_char(y % 10), '-', digit_char(mo / 10), digit_char(mo % 10), '-',
        digit_char(d / 10), digit_char(d % 10), 'T', digit_char(hh / 10), digit_char(hh % 10),
        ':', digit_char(mi / 10), digit_char(mi % 10), ':', digit_char(ss / 10),
        digit_char(ss % 10), '.', digit_char(ml / 100), digit_char((ml / 10) % 10),
        digit_char(ml % 10), 'Z',
    ];
    assert(render_timestamp(y, mo, d, hh, mi, ss, ml) =~= lit);
}

proof fn lemma_digit_pair(s: Seq<char>, i: int, n: int)
    requires
        0 <= n < 100,
        0 <= i,
        i + 1 < s.len(),
        s[i] == crate::text::digit_char(n / 10),
        s[i + 1] == crate::text::digit_char(n % 10),
    ensures
        is_digit(s[i]) && is_digit(s[i + 1]),
        two_digits(s, i) == n,
{
    crate::text::lemma_digit_char(n / 10);
    crate::text::lemma_digit_char(n % 10);
}

proof fn lemma_rendered_shape(y: int, mo: int, d: int, hh: int, mi: int, ss: int, ml: int)
    requires
        0 <= y <= 9999,
        0 <= mo < 100,
        0 <= d < 100,
        0 <= hh < 100,
        0 <= mi < 100,
        0 <= ss < 100,
        0 <= ml < 1000,
    ensures
        ({
            let s = render_timestamp(y, mo, d, hh, mi, ss, ml);
            &&& has_date_time_shape(s)
            &&& 100 * two_digits(s, 0) + two_digits(s, 2) == y
            &&& two_digits(s, 5) == mo
            &&& two_digits(s, 8) == d
            &&& two_digits(s, 11) == hh
            &&& two_digits(s, 14) == mi
            &&& two_digits(s, 17) == ss
        }),
{
    lemma_rendered_chars(y, mo, d, hh, mi, ss, ml);
    let s = render_timestamp(y, mo, d, hh, mi, ss, ml);
    assert((y / 100) / 10 == y / 1000 && (y / 100) % 10 == (y / 100) % 10) by (nonlinear_arith)
        requires
            0 <= y <= 9999,
    ;
    assert((y % 100) / 10 == (y / 10) % 10 && (y % 100) % 10 == y % 10) by (nonlinear_arith)
        requires
            0 <= y <= 9999,
    ;
    assert(100 * (y / 100) + y % 100 == y) by (nonlinear_arith)
        requires
            0 <= y <= 9999,
    ;
    lemma_digit_pair(s, 0, y / 100);
    lemma_digit_pair(s, 2, y % 100);
    lemma_digit_pair(s, 5, mo);
    lemma_digit_pair(s, 8, d);
    lemma_digit_pair(s, 11, hh);
    lemma_digit_pair(s, 14, mi);
    lemma_digit_pair(s, 17, ss);
}

proof fn lemma_rendered_tail(y: int, mo: int, d: int, hh: int, mi: int, ss: int, ml: int)
    requires
        0 <= y <= 9999,
        0 <= mo < 100,
        0 <= d < 100,
        0 <= hh < 100,
        0 <= mi < 100,
        0 <= ss < 100,
        0 <= ml < 1000,
    ensures
        ({
            let rest = render_timestamp(y, mo, d, hh, mi, ss, ml).skip(19);
            &&& rest.len() > 0 && rest[0] == '.'
            &&& leading_digits(rest.skip(1)) == 3
            &&& fraction_millis(rest.skip(1), 3) == ml
            &&& rest.skip(4) =~= seq!['Z']
        }),
{
    lemma_rendered_chars(y, mo, d, hh, mi, ss, ml);
    let s = render_timestamp(y, mo, d, hh, mi, ss, ml);
    let rest = s.skip(19);
    let f = rest.skip(1);
    crate::text::lemma_digit_char(ml / 100);
    crate::text::lemma_digit_char((ml / 10) % 10);
    crate::text::lemma_digit_char(ml % 10);
    assert(f =~= seq![digit_char(ml / 100), digit_char((ml / 10) % 10), digit_char(ml % 10), 'Z']);
    lemma_leading_digits(f, 3);
}

proof fn lemma_rendered_fields(y: int, mo: int, d: int, hh: int, mi: int, ss: int, ml: int)
    requires
        0 <= y <= 9999,
        0 <= mo < 100,
        0 <= d < 100,
        0 <= hh < 100,
        0 <= mi < 100,
        0 <= ss < 100,
        0 <= ml < 1000,
    ensures
        ({
            let s = render_timestamp(y, mo, d, hh, mi, ss, ml);
            let rest = s.skip(19);
            &&& has_date_time_shape(s)
            &&& 100 * two_digits(s, 0) + two_digits(s, 2) == y
            &&& two_digits(s, 5) == mo
            &&& two_digits(s, 8) == d
            &&& two_digits(s, 11) == hh
            &&& two_digits(s, 14) == mi
            &&& two_digits(s, 17) == ss
            &&& rest.len() > 0 && rest[0] == '.'
            &&& leading_digits(rest.skip(1)) == 3
            &&& fraction_millis(rest.skip(1), 3) == ml
            &&& rest.skip(4) =~= seq!['Z']
        }),
{
    lemma_rendered_shape(y, mo, d, hh, mi, ss, ml);
    lemma_rendered_tail(y, mo, d, hh, mi, ss, ml);
}

/// Rendered fields parse back to the instant they denote.
pub proof fn lemma_parse_rendered(y: int, mo: int, d: int, hh: int, mi: int, ss: int, ml: int)
    requires
        0 <= y <= 9999,
        1 <= mo <= 12,
        1 <= d <= 31,
        0 <= hh <= 23,
        0 <= mi <= 59,
        0 <= ss <= 59,
        0 <= ml < 1000,
        (epoch_day(y, mo, d) * 86400 + hh * 3600 + mi * 60 + ss) * 1000 + ml >= 0,
    ensures
        spec_parse_iso8601_ms(render_timestamp(y, mo, d, hh, mi, ss, ml)) == Some(
            ((epoch_day(y, mo, d) * 86400 + hh * 3600 + mi * 60 + ss) * 1000 + ml) as u64,
        ),
{
    lemma_rendered_fields(y, mo, d, hh, mi, ss, ml);
    let s = render_timestamp(y, mo, d, hh, mi, ss, ml);
    let rest = s.skip(19);
    assert(rest.skip(1 + 3int) == rest.skip(4));
    assert(zone_offset_ms(rest.skip(4)) == Some(0int));
}

/// Reading back a formatted timestamp gives the same instant, for every
/// instant before the year 10000 (whose years still have four digits).
pub proof fn lemma_parse_format_round_trip(ms: nat)
    requires
        ms < 253_402_300_800_000,
    ensures
        spec_parse_iso8601_ms(spec_format_iso8601_ms(ms)) == Some(ms as u64),
{
    let z = (ms / 86_400_000) as int;
    let date = civil_of_day(z);
    crate::calendar::lemma_civil_of_day_exists(z);
    crate::calendar::lemma_year_bounds(date.0, date.1, date.2);
    let rem = ((ms / 1000) % 86400) as int;
    vstd::arithmetic::div_mod::lemma_div_denominator(ms as int, 1000, 86400);
    lemma_parse_rendered(date.0, date.1, date.2, rem / 3600, (rem % 3600) / 60, rem % 60, (ms % 1000) as int);
}

} // verus!

verus! {

/// The fraction part of a timestamp without its zone: nothing, or `.`
/// followed by at least one ASCII digit and nothing else.
pub open spec fn is_fraction_part(f: Seq<char>) -> bool {
    f.len() == 0 || (f.len() >= 2 && f[0] == '.' && forall|i: int| 1 <= i < f.len() ==> is_digit(
        #[trigger] f[i],
    ))
}

/// The milliseconds that `YYYY-MM-DD?hh:mm:ss[.fff]` denotes on a UTC wall
/// clock, before any zone offset, or `None` for a field out of range.
pub open spec fn local_ms(b: Seq<char>) -> Option<int> {
    let year = 100 * two_digits(b, 0) + two_digits(b, 2);
    let month = two_digits(b, 5);
    let day = two_digits(b, 8);
    let hour = two_digits(b, 11);
    let minute = two_digits(b, 14);
    let second = two_digits(b, 17);
    let rest = b.skip(19);
    let millis = if rest.len() > 0 {
        fraction_millis(rest.skip(1), (rest.len() - 1) as nat)
    } else {
        0
    };
    if 1 <= month <= 12 && 1 <= day <= 31 && hour <= 23 && minute <= 59 && second <= 60 {
        Some((epoch_day(year, month, day) * 86400 + hour * 3600 + minute * 60 + second) * 1000
            + millis)
    } else {
        None
    }
}

proof fn lemma_leading_digits_concat(d: Seq<char>, z: Seq<char>)
    requires
        forall|i: int| 0 <= i < d.len() ==> is_digit(#[trigger] d[i]),
        z.len() == 0 || !is_digit(z[0]),
    ensures
        leading_digits(d + z) == d.len(),
    decreases d.len(),
{
    if d.len() > 0 {
        let t = d.drop_first();
        assert((d + z).drop_first() =~= t + z);
        assert((d + z)[0] == d[0]);
        lemma_leading_digits_concat(t, z);
    } else {
        assert(d + z =~= z);
    }
}

proof fn lemma_parse_with_zone(b: Seq<char>, z: Seq<char>)
    requires
        has_date_time_shape(b),
        is_fraction_part(b.skip(19)),
        zone_offset_ms(z) is Some,
    ensures
        spec_parse_iso8601_ms(b + z) == (match local_ms(b) {
            Some(l) => if l - zone_offset_ms(z).unwrap() >= 0 {
                Some((l - zone_offset_ms(z).unwrap()) as u64)
            } else {
                None
            },
            None => None,
        }),
{
    let s = b + z;
    assert forall|i: int| 0 <= i < 19 implies s[i] == b[i] by {}
    assert(has_date_time_shape(s));
    assert forall|k: int| 0 <= k < 18 implies two_digits(s, k) == two_digits(b, k) by {
        assert(s[k] == b[k] && s[k + 1] == b[k + 1]);
    }
    let f = b.skip(19);
    let rest = s.skip(19);
    assert(rest =~= f + z);
    assert(z.len() == 0 || z[0] == 'Z' || z[0] == 'z' || z[0] == '+' || z[0] == '-');
    if f.len() == 0 {
        assert(rest =~= z);
    } else {
        let d = f.skip(1);
        assert(rest[0] == '.');
        assert(rest.skip(1) =~= d + z);
        assert forall|i: int| 0 <= i < d.len() implies is_digit(#[trigger] d[i]) by {
            assert(d[i] == f[i + 1]);
        }
        lemma_leading_digits_concat(d, z);
        let n = d.len();
        assert(rest.skip(1 + n as int) =~= z);
        assert((d + z)[0] == d[0]);
        if n > 1 {
            assert((d + z)[1] == d[1]);
        }
        if n > 2 {
            assert((d + z)[2] == d[2]);
        }
        assert(fraction_millis(rest.skip(1), n) == fraction_millis(d, n));
    }
}

/// A zone offset shifts the instant: a timestamp read with the zone `z`
/// (empty, `Z`, `+hh:mm` or `-hh:mm`) denotes the instant it denotes as
/// UTC minus the offset, and is rejected exactly when that lies before
/// 1970.
pub proof fn lemma_zone_offset_shift(b: Seq<char>, z: Seq<char>)
    requires
        has_date_time_shape(b),
        is_fraction_part(b.skip(19)),
        zone_offset_ms(z) is Some,
        spec_parse_iso8601_ms(b + "Z"@) is Some,
    ensures
        ({
            let t = spec_parse_iso8601_ms(b + "Z"@).unwrap() as int;
            let off = zone_offset_ms(z).unwrap();
            spec_parse_iso8601_ms(b + z) == if t - off >= 0 {
                Some((t - off) as u64)
            } else {
                None
            }
        }),
{
    reveal_strlit("Z");
    assert(zone_offset_ms("Z"@) == Some(0int));
    lemma_parse_with_zone(b, "Z"@);
    lemma_parse_with_zone(b, z);
    let l = local_ms(b).unwrap();
    let year = 100 * two_digits(b, 0) + two_digits(b, 2);
    crate::calendar::lemma_epoch_day_bounds(year, two_digits(b, 5), two_digits(b, 8));
    let rest = b.skip(19);
    if rest.len() > 0 {
        assert(rest.skip(1)[0] == rest[1]);
        assert(is_digit(rest[1]));
    }
    assert(l < 0x1_0000_0000_0000_0000);
}

} // verus!

verus! {

proof fn lemma_split_order(a: int, b: int, m: int)
    by (nonlinear_arith)
    requires
        0 <= a < b,
        0 < m,
    ensures
        a / m < b / m || (a / m == b / m && a % m < b % m),
{
}

proof fn lemma_nested_digit(a: int, p: int, q: int)
    by (nonlinear_arith)
    requires
        0 <= a,
        0 < p,
        0 < q,
    ensures
        (a / p) % q == (a % (p * q)) / p,
{
}

proof fn lemma_mod_mod_small(a: int, p: int, q: int)
    requires
        0 <= a,
        0 < p,
        0 < q,
    ensures
        (a % (p * q)) % p == a % p,
{
    vstd::arithmetic::div_mod::lemma_mod_mod(a, p, q);
}

proof fn lemma_order3(a: int, b: int)
    requires
        0 <= a < b < 1000,
    ensures
        0 <= a / 100 < 10 && 0 <= b / 100 < 10,
        0 <= (a / 10) % 10 < 10 && 0 <= (b / 10) % 10 < 10,
        0 <= a % 10 < 10 && 0 <= b % 10 < 10,
        a / 100 < b / 100 || (a / 100 == b / 100 && ((a / 10) % 10 < (b / 10) % 10 || ((a / 10)
            % 10 == (b / 10) % 10 && a % 10 < b % 10))),
{
    lemma_split_order(a, b, 100);
    if a / 100 == b / 100 {
        lemma_split_order(a % 100, b % 100, 10);
    }
    lemma_nested_digit(a, 10, 10);
    lemma_nested_digit(b, 10, 10);
    lemma_mod_mod_small(a, 10, 10);
    lemma_mod_mod_small(b, 10, 10);
}

proof fn lemma_order4(a: int, b: int)
    requires
        0 <= a < b < 10000,
    ensures
        0 <= a / 1000 < 10 && 0 <= b / 1000 < 10,
        0 <= (a / 100) % 10 < 10 && 0 <= (b / 100) % 10 < 10,
        0 <= (a / 10) % 10 < 10 && 0 <= (b / 10) % 10 < 10,
        0 <= a % 10 < 10 && 0 <= b % 10 < 10,
        a / 1000 < b / 1000 || (a / 1000 == b / 1000 && ((a / 100) % 10 < (b / 100) % 10 || ((a
            / 100) % 10 == (b / 100) % 10 && ((a / 10) % 10 < (b / 10) % 10 || ((a / 10) % 10 == (b
            / 10) % 10 && a % 10 < b % 10))))),
{
    lemma_split_order(a, b, 1000);
    let ra = a % 1000;
    let rb = b % 1000;
    if a / 1000 == b / 1000 {
        lemma_order3(ra, rb);
        lemma_nested_digit(a, 100, 10);
        lemma_nested_digit(b, 100, 10);
        lemma_nested_digit(a, 10, 10);
        lemma_nested_digit(b, 10, 10);
        lemma_nested_digit(ra, 10, 10);
        lemma_nested_digit(rb, 10, 10);
        lemma_mod_mod_small(a, 100, 10);
        lemma_mod_mod_small(b, 100, 10);
        lemma_mod_mod_small(a, 10, 100);
        lemma_mod_mod_small(b, 10, 100);
    }
}

/// The fields of a rendered timestamp within their widths.
pub open spec fn fields_in_range(a: (int, int, int, int, int, int, int)) -> bool {
    &&& 0 <= a.0 <= 9999
    &&& 0 <= a.1 < 100
    &&& 0 <= a.2 < 100
    &&& 0 <= a.3 < 100
    &&& 0 <= a.4 < 100
    &&& 0 <= a.5 < 100
    &&& 0 <= a.6 < 1000
}

/// Lexicographic order of timestamp fields, most significant first.
pub open spec fn fields_lt(a: (int, int, int, int, int, int, int), b: (int, int, int, int, int, int, int)) -> bool {
    ||| a.0 < b.0
    ||| a.0 == b.0 && a.1 < b.1
    ||| a.0 == b.0 && a.1 == b.1 && a.2 < b.2
    ||| a.0 == b.0 && a.1 == b.1 && a.2 == b.2 && a.3 < b.3
    ||| a.0 == b.0 && a.1 == b.1 && a.2 == b.2 && a.3 == b.3 && a.4 < b.4
    ||| a.0 == b.0 && a.1 == b.1 && a.2 == b.2 && a.3 == b.3 && a.4 == b.4 && a.5 < b.5
    ||| a.0 == b.0 && a.1 == b.1 && a.2 == b.2 && a.3 == b.3 && a.4 == b.4 && a.5 == b.5 && a.6 < b.6
}

/// Rendered timestamps compare like their fields, most significant first.
proof fn lemma_render_order(a: (int, int, int, int, int, int, int), b: (int, int, int, int, int, int, int))
    requires
        fields_in_range(a),
        fields_in_range(b),
        fields_lt(a, b),
    ensures
        lex_lt(
            render_timestamp(a.0, a.1, a.2, a.3, a.4, a.5, a.6),
            render_timestamp(b.0, b.1, b.2, b.3, b.4, b.5, b.6),
        ),
{
    let (y1, mo1, d1, hh1, mi1, ss1, ml1) = a;
    let (y2, mo2, d2, hh2, mi2, ss2, ml2) = b;
    lemma_rendered_chars(y1, mo1, d1, hh1, mi1, ss1, ml1);
    lemma_rendered_chars(y2, mo2, d2, hh2, mi2, ss2, ml2);
    let s1 = render_timestamp(y1, mo1, d1, hh1, mi1, ss1, ml1);
    let s2 = render_timestamp(y2, mo2, d2, hh2, mi2, ss2, ml2);
    if y1 != y2 {
        lemma_order4(y1, y2);
        if y1/1000 != y2/1000 {
            lemma_digit_char_lt(y1/1000, y2/1000);
            lemma_lex_at(s1, s2, 0);
        } else if (y1/100)%10 != (y2/100)%10 {
            lemma_digit_char_lt((y1/100)%10, (y2/100)%10);
            assert forall|i: int| 0 <= i < 1 implies s1[i] == s2[i] by {
                if i == 0 {}
            }
            lemma_lex_at(s1, s2, 1);
        } else if (y1/10)%10 != (y2/10)%10 {
            lemma_digit_char_lt((y1/10)%10, (y2/10)%10);
            assert forall|i: int| 0 <= i < 2 implies s1[i] == s2[i] by {
                if i == 0 {} else if i == 1 {}
            }
            lemma_lex_at(s1, s2, 2);
        } else {
            lemma_digit_char_lt(y1%10, y2%10);
            assert forall|i: int| 0 <= i < 3 implies s1[i] == s2[i] by {
                if i == 0 {} else if i == 1 {} else if i == 2 {}
            }
            lemma_lex_at(s1, s2, 3);
        }
    } else if mo1 != mo2 {
        lemma_split_order(mo1, mo2, 10);
        if mo1/10 != mo2/10 {
            lemma_digit_char_lt(mo1/10, mo2/10);
            assert forall|i: int| 0 <= i < 5 implies s1[i] == s2[i] by {
                if i == 0 {} else if i == 1 {} else if i == 2 {} else if i == 3 {} else if i == 4 {}
            }
            lemma_lex_at(s1, s2, 5);
        } else {
            lemma_digit_char_lt(mo1%10, mo2%10);
            assert forall|i: int| 0 <= i < 6 implies s1[i] == s2[i] by {
                if i == 0 {} else if i == 1 {} else if i == 2 {} else if i == 3 {} else if i == 4 {} else if i == 5 {}
            }
            lemma_lex_at(s1, s2, 6);
        }
    } else if d1 != d2 {
        lemma_split_order(d1, d2, 10);
        if d1/10 != d2/10 {
            lemma_digit_char_lt(d1/10, d2/10);
            assert forall|i: int| 0 <= i < 8 implies s1[i] == s2[i] by {
                if i == 0 {} else if i == 1 {} else if i == 2 {} else if i == 3 {} else if i == 4 {} else if i == 5 {} else if i == 6 {} else if i == 7 {}
            }
            lemma_lex_at(s1, s2, 8);
        } else {
            lemma_digit_char_lt(d1%10, d2%10);
            assert forall|i: int| 0 <= i < 9 implies s1[i] == s2[i] by {
                if i == 0 {} else if i == 1 {} else if i == 2 {} else if i == 3 {} else if i == 4 {} else if i == 5 {} else if i == 6 {} else if i == 7 {} else if i == 8 {}
            }
            lemma_lex_at(s1, s2, 9);
        }
    } else if hh1 != hh2 {
        lemma_split_order(hh1, hh2, 10);
        if hh1/10 != hh2/10 {
            lemma_digit_char_lt(hh1/10, hh2/10);
            assert forall|i: int| 0 <= i < 11 implies s1[i] == s2[i] by {
                if i == 0 {} else if i == 1 {} else if i == 2 {} else if i == 3 {} else if i == 4 {} else if i == 5 {} else if i == 6 {} else if i == 7 {} else if i == 8 {} else if i == 9 {} else if i == 10 {}
            }
            lemma_lex_at(s1, s2, 11);
        } else {
            lemma_digit_char_lt(hh1%10, hh2%10);
            assert forall|i: int| 0 <= i < 12 implies s1[i] == s2[i] by {
                if i == 0 {} else if i == 1 {} else if i == 2 {} else if i == 3 {} else if i == 4 {} else if i == 5 {} else if i == 6 {} else if i == 7 {} else if i == 8 {} else if i == 9 {} else if i == 10 {} else if i == 11 {}
            }
            lemma_lex_at(s1, s2, 12);
        }
    } else if mi1 != mi2 {
        lemma_split_order(mi1, mi2, 10);
        if mi1/10 != mi2/10 {
            lemma_digit_char_lt(mi1/10, mi2/10);
            assert forall|i: int| 0 <= i < 14 implies s1[i] == s2[i] by {
                if i == 0 {} else if i == 1 {} else if i == 2 {} else if i == 3 {} else if i == 4 {} else if i == 5 {} else if i == 6 {} else if i == 7 {} else if i == 8 {} else if i == 9 {} else if i == 10 {} else if i == 11 {} else if i == 12 {} else if i == 13 {}
            }
            lemma_lex_at(s1, s2, 14);
        } else {
            lemma_digit_char_lt(mi1%10, mi2%10);
            assert forall|i: int| 0 <= i < 15 implies s1[i] == s2[i] by {
                if i == 0 {} else if i == 1 {} else if i == 2 {} else if i == 3 {} else if i == 4 {} else if i == 5 {} else if i == 6 {} else if i == 7 {} else if i == 8 {} else if i == 9 {} else if i == 10 {} else if i == 11 {} else if i == 12 {} else if i == 13 {} else if i == 14 {}
            }
            lemma_lex_at(s1, s2, 15);
        }
    } else if ss1 != ss2 {
        lemma_split_order(ss1, ss2, 10);
        if ss1/10 != ss2/10 {
            lemma_digit_char_lt(ss1/10, ss2/10);
            assert forall|i: int| 0 <= i < 17 implies s1[i] == s2[i] by {
                if i == 0 {} else if i == 1 {} else if i == 2 {} else if i == 3 {} else if i == 4 {} else if i == 5 {} else if i == 6 {} else if i == 7 {} else if i == 8 {} else if i == 9 {} else if i == 10 {} else if i == 11 {} else if i == 12 {} else if i == 13 {} else if i == 14 {} else if i == 15 {} else if i == 16 {}
            }
            lemma_lex_at(s1, s2, 17);
        } else {
            lemma_digit_char_lt(ss1%10, ss2%10);
            assert forall|i: int| 0 <= i < 18 implies s1[i] == s2[i] by {
                if i == 0 {} else if i == 1 {} else if i == 2 {} else if i == 3 {} else if i == 4 {} else if i == 5 {} else if i == 6 {} else if i == 7 {} else if i == 8 {} else if i == 9 {} else if i == 10 {} else if i == 11 {} else if i == 12 {} else if i == 13 {} else if i == 14 {} else if i == 15 {} else if i == 16 {} else if i == 17 {}
            }
            lemma_lex_at(s1, s2, 18);
        }
    } else if ml1 != ml2 {
        lemma_order3(ml1, ml2);
        if ml1/100 != ml2/100 {
            lemma_digit_char_lt(ml1/100, ml2/100);
            assert forall|i: int| 0 <= i < 20 implies s1[i] == s2[i] by {
                if i == 0 {} else if i == 1 {} else if i == 2 {} else if i == 3 {} else if i == 4 {} else if i == 5 {} else if i == 6 {} else if i == 7 {} else if i == 8 {} else if i == 9 {} else if i == 10 {} else if i == 11 {} else if i == 12 {} else if i == 13 {} else if i == 14 {} else if i == 15 {} else if i == 16 {} else if i == 17 {} else if i == 18 {} else if i == 19 {}
            }
            lemma_lex_at(s1, s2, 20);
        } else if (ml1/10)%10 != (ml2/10)%10 {
            lemma_digit_char_lt((ml1/10)%10, (ml2/10)%10);
            assert forall|i: int| 0 <= i < 21 implies s1[i] == s2[i] by {
                if i == 0 {} else if i == 1 {} else if i == 2 {} else if i == 3 {} else if i == 4 {} else if i == 5 {} else if i == 6 {} else if i == 7 {} else if i == 8 {} else if i == 9 {} else if i == 10 {} else if i == 11 {} else if i == 12 {} else if i == 13 {} else if i == 14 {} else if i == 15 {} else if i == 16 {} else if i == 17 {} else if i == 18 {} else if i == 19 {} else if i == 20 {}
            }
            lemma_lex_at(s1, s2, 21);
        } else {
            lemma_digit_char_lt(ml1%10, ml2%10);
            assert forall|i: int| 0 <= i < 22 implies s1[i] == s2[i] by {
                if i == 0 {} else if i == 1 {} else if i == 2 {} else if i == 3 {} else if i == 4 {} else if i == 5 {} else if i == 6 {} else if i == 7 {} else if i == 8 {} else if i == 9 {} else if i == 10 {} else if i == 11 {} else if i == 12 {} else if i == 13 {} else if i == 14 {} else if i == 15 {} else if i == 16 {} else if i == 17 {} else if i == 18 {} else if i == 19 {} else if i == 20 {} else if i == 21 {}
            }
            lemma_lex_at(s1, s2, 22);
        }
    }
}

proof fn lemma_div_below(a: int, m: int, k: int)
    by (nonlinear_arith)
    requires
        0 <= a < m * k,
        0 < m,
    ensures
        a / m < k,
        0 <= a / m,
{
}

proof fn lemma_mod_range(a: int, m: int)
    by (nonlinear_arith)
    requires
        0 <= a,
        0 < m,
    ensures
        0 <= a % m < m,
        0 <= a / m,
{
}

/// The fields that [`spec_format_iso8601_ms`] renders for `ms`.
pub open spec fn format_fields(ms: nat) -> (int, int, int, int, int, int, int) {
    let date = civil_of_day((ms / 86_400_000) as int);
    let rem = ((ms / 1000) % 86400) as int;
    (date.0, date.1, date.2, rem / 3600, (rem % 3600) / 60, rem % 60, (ms % 1000) as int)
}

proof fn lemma_format_fields(ms: nat)
    requires
        ms < 253_402_300_800_000,
    ensures
        fields_in_range(format_fields(ms)),
        spec_format_iso8601_ms(ms) == ({
            let f = format_fields(ms);
            render_timestamp(f.0, f.1, f.2, f.3, f.4, f.5, f.6)
        }),
        is_valid_date(format_fields(ms).0, format_fields(ms).1, format_fields(ms).2),
        epoch_day(format_fields(ms).0, format_fields(ms).1, format_fields(ms).2) == ms / 86_400_000,
{
    let z = (ms / 86_400_000) as int;
    lemma_div_below(ms as int, 86_400_000, 2_932_897);
    crate::calendar::lemma_civil_of_day_exists(z);
    let date = civil_of_day(z);
    crate::calendar::lemma_year_bounds(date.0, date.1, date.2);
    let q = (ms / 1000) as int;
    lemma_mod_range(ms as int, 1000);
    lemma_mod_range(q, 86400);
    let rem = q % 86400;
    lemma_div_below(rem, 3600, 24);
    lemma_mod_range(rem, 3600);
    lemma_div_below(rem % 3600, 60, 60);
    lemma_mod_range(rem, 60);
}

/// Later instants have later fields.
proof fn lemma_format_fields_order(ms1: nat, ms2: nat)
    requires
        ms1 < ms2 < 253_402_300_800_000,
    ensures
        fields_lt(format_fields(ms1), format_fields(ms2)),
{
    lemma_format_fields(ms1);
    lemma_format_fields(ms2);
    let f1 = format_fields(ms1);
    let f2 = format_fields(ms2);
    let z1 = ms1 as int / 86_400_000;
    let z2 = ms2 as int / 86_400_000;
    lemma_split_order(ms1 as int, ms2 as int, 86_400_000);
    if z1 < z2 {
        if f2.0 < f1.0 || (f2.0 == f1.0 && f2.1 < f1.1) || (f2.0 == f1.0 && f2.1 == f1.1 && f2.2
            < f1.2) {
            crate::calendar::lemma_epoch_day_increasing(f2.0, f2.1, f2.2, f1.0, f1.1, f1.2);
        } else if f1.0 == f2.0 && f1.1 == f2.1 && f1.2 == f2.2 {
        }
    } else {
        let q1 = ms1 as int / 1000;
        let q2 = ms2 as int / 1000;
        vstd::arithmetic::div_mod::lemma_div_denominator(ms1 as int, 1000, 86400);
        vstd::arithmetic::div_mod::lemma_div_denominator(ms2 as int, 1000, 86400);
        lemma_split_order(ms1 as int, ms2 as int, 1000);
        if q1 < q2 {
            lemma_split_order(q1, q2, 86400);
            let r1 = q1 % 86400;
            let r2 = q2 % 86400;
            lemma_mod_range(q1, 86400);
            lemma_mod_range(q2, 86400);
            lemma_split_order(r1, r2, 3600);
            if r1 / 3600 == r2 / 3600 {
                lemma_mod_range(r1, 3600);
                lemma_mod_range(r2, 3600);
                lemma_split_order(r1 % 3600, r2 % 3600, 60);
                vstd::arithmetic::div_mod::lemma_mod_mod(r1, 60, 60);
                vstd::arithmetic::div_mod::lemma_mod_mod(r2, 60, 60);
            }
        }
    }
}

/// Formatting keeps the order of instants: an earlier instant (before the
/// year 10000) gives a string that sorts earlier, character by character,
/// so sorting formatted timestamps as strings sorts them by time.
pub proof fn lemma_format_order(ms1: nat, ms2: nat)
    requires
        ms1 < ms2 < 253_402_300_800_000,
    ensures
        lex_lt(spec_format_iso8601_ms(ms1), spec_format_iso8601_ms(ms2)),
{
    lemma_format_fields(ms1);
    lemma_format_fields(ms2);
    lemma_format_fields_order(ms1, ms2);
    lemma_render_order(format_fields(ms1), format_fields(ms2));
}

} // verus!
