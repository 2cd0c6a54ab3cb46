//! Proleptic Gregorian calendar arithmetic on epoch days.

use vstd::prelude::*;

verus! {

/// Gregorian leap-year rule.
pub open spec fn is_leap_year(y: int) -> bool {
    y % 4 == 0 && (y % 100 != 0 || y % 400 == 0)
}

/// Number of leap years among the years `1..=y` (counted with floor
/// division, so it extends to years before 1).
pub open spec fn leap_years_through(y: int) -> int {
    y / 4 - y / 100 + y / 400
}

/// Length of month `m` (1-based) of year `y`.
pub open spec fn days_in_month(y: int, m: int) -> int {
    if m == 2 {
        if is_leap_year(y) {
            29
        } else {
            28
        }
    } else if m == 4 || m == 6 || m == 9 || m == 11 {
        30
    } else {
        31
    }
}

/// Days of year `y` that come before the first day of month `m`.
pub open spec fn days_before_month(y: int, m: int) -> int {
    let base: int = if m <= 1 {
        0
    } else if m == 2 {
        31
    } else if m == 3 {
        59
    } else if m == 4 {
        90
    } else if m == 5 {
        120
    } else if m == 6 {
        151
    } else if m == 7 {
        181
    } else if m == 8 {
        212
    } else if m == 9 {
        243
    } else if m == 10 {
        273
    } else if m == 11 {
        304
    } else {
        334
    };
    if m > 2 && is_leap_year(y) {
        base + 1
    } else {
        base
    }
}

/// Days from 1970-01-01 to the first day of year `y`.
pub open spec fn days_before_year(y: int) -> int {
    365 * (y - 1970) + leap_years_through(y - 1) - leap_years_through(1969)
}

/// Signed number of days from 1970-01-01 to `y-m-d`. Day numbers past the
/// end of the month simply run on into the next month.
pub open spec fn epoch_day(y: int, m: int, d: int) -> int {
    days_before_year(y) + days_before_month(y, m) + d - 1
}

/// A real calendar date.
pub open spec fn is_valid_date(y: int, m: int, d: int) -> bool {
    1 <= m <= 12 && 1 <= d <= days_in_month(y, m)
}

/// The calendar date of epoch day `z`.
pub open spec fn civil_of_day(z: int) -> (int, int, int) {
    choose|ymd: (int, int, int)| is_valid_date(ymd.0, ymd.1, ymd.2) && epoch_day(ymd.0, ymd.1, ymd.2) == z
}

/// Years whose epoch day numbers fit comfortably in `i64`.
pub open spec fn year_in_range(y: int) -> bool {
    -1_000_000_000_000 <= y <= 1_000_000_000_000
}

proof fn lemma_leap_step(y: int)
    ensures
        leap_years_through(y) == leap_years_through(y - 1) + if is_leap_year(y) { 1int } else { 0 },
{
}

/// Days from 0000-03-01 in the March-based year `yy` counting, split by 400-year era.
proof fn lemma_era_split(era: int, yoe: int)
    requires
        0 <= yoe < 400,
    ensures
        ({
            let yy = 400 * era + yoe;
            365 * yy + yy / 4 - yy / 100 + yy / 400 == era * 146097 + yoe * 365 + yoe / 4 - yoe / 100
        }),
{
    let yy = 400 * era + yoe;
    assert(yy / 4 == 100 * era + yoe / 4);
    assert(yy / 100 == 4 * era + yoe / 100);
    assert(yy / 400 == era);
}

/// The epoch day of `y-m-d` computed through March-based years grouped in
/// 400-year eras.
proof fn lemma_epoch_day_by_eras(y: int, m: int, d: int)
    requires
        1 <= m <= 12,
    ensures
        ({
            let y2 = if m <= 2 { y - 1 } else { y };
            let era = y2 / 400;
            let yoe = y2 % 400;
            let mp = (m + 9) % 12;
            epoch_day(y, m, d) == era * 146097 + yoe * 365 + yoe / 4 - yoe / 100 + (153 * mp + 2)
                / 5 + d - 1 - 719468
        }),
{
    let y2 = if m <= 2 { y - 1 } else { y };
    let era = y2 / 400;
    let yoe = y2 % 400;
    lemma_era_split(era, yoe);
    lemma_leap_step(y);
    assert(y2 == 400 * era + yoe);
}

/// Days since 1970-01-01 of `y-m-d`, or `None` for a month outside `1..=12`
/// or a day outside `1..=31`.
pub fn days_from_civil(y: i64, m: i64, d: i64) -> (r: Option<i64>)
    requires
        year_in_range(y as int),
    ensures
        r == (if 1 <= m <= 12 && 1 <= d <= 31 {
            Some(epoch_day(y as int, m as int, d as int) as i64)
        } else {
            None::<i64>
        }),
        r matches Some(v) ==> v == epoch_day(y as int, m as int, d as int),
{
    if !(1 <= m && m <= 12) || !(1 <= d && d <= 31) {
        return None;
    }
    let y2: i64 = if m <= 2 {
        y - 1
    } else {
        y
    };
    let era: i64 = match y2.checked_div_euclid(400) {
        Some(v) => v,
        None => 0,
    };
    let yoe: i64 = match y2.checked_rem_euclid(400) {
        Some(v) => v,
        None => 0,
    };
    assert(era == y2 / 400 && yoe == y2 % 400);
    let mp: i64 = (m + 9) % 12;
    let doy: i64 = (153 * mp + 2) / 5 + d - 1;
    let doe: i64 = yoe * 365 + yoe / 4 - yoe / 100 + doy;
    let r: i64 = era * 146097 + doe - 719468;
    proof {
        lemma_epoch_day_by_eras(y as int, m as int, d as int);
    }
    Some(r)
}

} // verus!
verus! {

proof fn lemma_year_of_era(doe: u32)
    requires
        doe <= 146096,
    ensures
        ({
            let yoe = (doe - doe / 1460 + doe / 36524 - doe / 146096) / 365;
            &&& yoe <= 399
            &&& 365 * yoe + yoe / 4 - yoe / 100 <= doe
            &&& doe - (365 * yoe + yoe / 4 - yoe / 100) <= 365
            &&& doe - (365 * yoe + yoe / 4 - yoe / 100) == 365 ==> ((yoe + 1) % 4 == 0 && ((yoe
                + 1) % 100 != 0 || yoe == 399))
        }),
{
    assert(doe <= 146096 ==> {
        let yoe = (doe - doe / 1460 + doe / 36524 - doe / 146096) / 365;
        &&& yoe <= 399
        &&& 365 * yoe + yoe / 4 - yoe / 100 <= doe
        &&& doe - (365 * yoe + yoe / 4 - yoe / 100) <= 365
        &&& doe - (365 * yoe + yoe / 4 - yoe / 100) == 365 ==> ((yoe + 1) % 4 == 0 && ((yoe + 1)
            % 100 != 0 || yoe == 399))
    }) by (bit_vector);
}

} // verus!
verus! {

proof fn lemma_month_of_year(doy: u32)
    requires
        doy <= 365,
    ensures
        ({
            let mp = (5 * doy + 2) / 153;
            &&& mp <= 11
            &&& (153 * mp + 2) / 5 <= doy
            &&& doy < (153 * (mp + 1) + 2) / 5
        }),
{
    assert(doy <= 365 ==> {
        let mp = (5 * doy + 2) / 153;
        &&& mp <= 11
        &&& (153 * mp + 2) / 5 <= doy
        &&& doy < (153 * (mp + 1) + 2) / 5
    }) by (bit_vector);
}

} // verus!
verus! {

/// Year of the 400-year era for day-of-era `doe`.
spec fn year_of_era(doe: int) -> int {
    (doe - doe / 1460 + doe / 36524 - doe / 146096) / 365
}

/// March-based day of year for day-of-era `doe`.
spec fn day_of_shifted_year(doe: int) -> int {
    let yoe = year_of_era(doe);
    doe - (365 * yoe + yoe / 4 - yoe / 100)
}

/// March-based month index (0 = March) for March-based day of year `doy`.
spec fn shifted_month(doy: int) -> int {
    (5 * doy + 2) / 153
}

/// The date reached from a 400-year era and a day of that era.
spec fn civil_parts(era: int, doe: int) -> (int, int, int) {
    let yoe = year_of_era(doe);
    let doy = day_of_shifted_year(doe);
    let mp = shifted_month(doy);
    let d = doy - (153 * mp + 2) / 5 + 1;
    let m = if mp < 10 { mp + 3 } else { mp - 9 };
    let y = yoe + era * 400;
    (if m <= 2 { y + 1 } else { y }, m, d)
}

proof fn lemma_civil_parts_shape(doe: int)
    requires
        0 <= doe <= 146096,
    ensures
        0 <= year_of_era(doe) <= 399,
        0 <= day_of_shifted_year(doe) <= 365,
        day_of_shifted_year(doe) == 365 ==> ((year_of_era(doe) + 1) % 4 == 0 && ((year_of_era(doe)
            + 1) % 100 != 0 || year_of_era(doe) == 399)),
        0 <= shifted_month(day_of_shifted_year(doe)) <= 11,
        (153 * shifted_month(day_of_shifted_year(doe)) + 2) / 5 <= day_of_shifted_year(doe),
        day_of_shifted_year(doe) < (153 * (shifted_month(day_of_shifted_year(doe)) + 1) + 2) / 5,
{
    lemma_year_of_era(doe as u32);
    lemma_month_of_year(day_of_shifted_year(doe) as u32);
}

/// Lengths of the March-based months (0 = March, 11 = February, counted as
/// 30 days here; the leap rule is applied separately).
proof fn lemma_shifted_month_length(mp: int)
    requires
        0 <= mp <= 11,
    ensures
        ({
            let len = (153 * (mp + 1) + 2) / 5 - (153 * mp + 2) / 5;
            let m = if mp < 10 { mp + 3 } else { mp - 9 };
            &&& 1 <= m <= 12
            &&& m != 2 ==> len == days_in_month(0, m)
            &&& m == 2 <==> mp == 11
            &&& mp == 11 ==> len == 30
        }),
{
    if mp == 0 {
    } else if mp == 1 {
    } else if mp == 2 {
    } else if mp == 3 {
    } else if mp == 4 {
    } else if mp == 5 {
    } else if mp == 6 {
    } else if mp == 7 {
    } else if mp == 8 {
    } else if mp == 9 {
    } else if mp == 10 {
    } else {
    }
}

proof fn lemma_leap_shift(yoe: int, era: int)
    ensures
        is_leap_year(yoe + era * 400 + 1) == ((yoe + 1) % 4 == 0 && ((yoe + 1) % 100 != 0 || (yoe
            + 1) % 400 == 0)),
{
    let yr = yoe + era * 400 + 1;
    assert(yr % 4 == (yoe + 1) % 4);
    assert(yr % 100 == (yoe + 1) % 100);
    assert(yr % 400 == (yoe + 1) % 400);
}

proof fn lemma_civil_parts_valid(era: int, doe: int)
    requires
        0 <= doe <= 146096,
    ensures
        ({
            let r = civil_parts(era, doe);
            is_valid_date(r.0, r.1, r.2)
        }),
{
    lemma_civil_parts_shape(doe);
    let yoe = year_of_era(doe);
    let doy = day_of_shifted_year(doe);
    let mp = shifted_month(doy);
    lemma_shifted_month_length(mp);
    lemma_leap_shift(yoe, era);
    let d = doy - (153 * mp + 2) / 5 + 1;
    assert(1 <= d <= (153 * (mp + 1) + 2) / 5 - (153 * mp + 2) / 5);
    if mp == 11 {
        assert(d == 30 ==> false);
        assert(d == 29 ==> doy == 365);
    }
}

proof fn lemma_civil_parts_day(era: int, doe: int)
    requires
        0 <= doe <= 146096,
    ensures
        ({
            let r = civil_parts(era, doe);
            &&& epoch_day(r.0, r.1, r.2) == era * 146097 + doe - 719468
            &&& era * 400 <= r.0 <= era * 400 + 400
        }),
{
    lemma_civil_parts_shape(doe);
    let yoe = year_of_era(doe);
    let doy = day_of_shifted_year(doe);
    let mp = shifted_month(doy);
    let d = doy - (153 * mp + 2) / 5 + 1;
    let m = if mp < 10 { mp + 3 } else { mp - 9 };
    let yr = if m <= 2 { yoe + era * 400 + 1 } else { yoe + era * 400 };
    lemma_epoch_day_by_eras(yr, m, d);
    let y2 = if m <= 2 { yr - 1 } else { yr };
    assert(y2 == 400 * era + yoe);
    assert(y2 / 400 == era && y2 % 400 == yoe);
    assert((m + 9) % 12 == mp);
}

proof fn lemma_civil_parts(era: int, doe: int)
    requires
        0 <= doe <= 146096,
    ensures
        ({
            let r = civil_parts(era, doe);
            &&& is_valid_date(r.0, r.1, r.2)
            &&& epoch_day(r.0, r.1, r.2) == era * 146097 + doe - 719468
            &&& era * 400 <= r.0 <= era * 400 + 400
        }),
{
    lemma_civil_parts_valid(era, doe);
    lemma_civil_parts_day(era, doe);
}

/// The calendar date of day `z` counted from 1970-01-01: the inverse of
/// [`days_from_civil`] on real dates.
pub fn civil_from_days(z: i64) -> (r: (i64, i64, i64))
    requires
        -100_000_000_000_000 <= z <= 100_000_000_000_000,
    ensures
        is_valid_date(r.0 as int, r.1 as int, r.2 as int),
        epoch_day(r.0 as int, r.1 as int, r.2 as int) == z,
        year_in_range(r.0 as int),
        (r.0 as int, r.1 as int, r.2 as int) == civil_of_day(z as int),
        z >= 0 ==> r.0 >= 1970,
{
    let z2: i64 = z + 719468;
    let era: i64 = match z2.checked_div_euclid(146097) {
        Some(v) => v,
        None => 0,
    };
    let doe: i64 = match z2.checked_rem_euclid(146097) {
        Some(v) => v,
        None => 0,
    };
    proof {
        assert(era == z2 / 146097 && doe == z2 % 146097);
        lemma_year_of_era(doe as u32);
        lemma_civil_parts(era as int, doe as int);
    }
    let yoe: i64 = (doe - doe / 1460 + doe / 36524 - doe / 146096) / 365;
    let y: i64 = yoe + era * 400;
    let doy: i64 = doe - (365 * yoe + yoe / 4 - yoe / 100);
    proof {
        assert(yoe == year_of_era(doe as int));
        assert(doy == day_of_shifted_year(doe as int));
        lemma_month_of_year(doy as u32);
    }
    let mp: i64 = (5 * doy + 2) / 153;
    let d: i64 = doy - (153 * mp + 2) / 5 + 1;
    let m: i64 = if mp < 10 {
        mp + 3
    } else {
        mp - 9
    };
    let yr: i64 = if m <= 2 {
        y + 1
    } else {
        y
    };
    assert((yr as int, m as int, d as int) == civil_parts(era as int, doe as int));
    proof {
        lemma_civil_of_day(z as int, yr as int, m as int, d as int);
        if z >= 0 && yr < 1970 {
            lemma_day_within_year(yr as int, m as int, d as int);
            lemma_years_increase(yr as int, 1970);
        }
    }
    (yr, m, d)
}

} // verus!
verus! {

/// Epoch days of four-digit years stay within a few million.
pub proof fn lemma_epoch_day_bounds(y: int, m: int, d: int)
    requires
        0 <= y <= 9999,
        1 <= m <= 12,
        1 <= d <= 31,
    ensures
        -1_000_000 <= epoch_day(y, m, d) <= 3_000_000,
{
}

} // verus!
verus! {

proof fn lemma_year_length(y: int)
    ensures
        days_before_year(y + 1) == days_before_year(y) + 365 + if is_leap_year(y) { 1int } else { 0 },
{
    lemma_leap_step(y);
}

proof fn lemma_day_within_year(y: int, m: int, d: int)
    requires
        is_valid_date(y, m, d),
    ensures
        days_before_year(y) <= epoch_day(y, m, d) < days_before_year(y + 1),
{
    lemma_year_length(y);
}

proof fn lemma_years_increase(a: int, b: int)
    requires
        a < b,
    ensures
        days_before_year(a + 1) <= days_before_year(b),
    decreases b - a,
{
    if a + 1 < b {
        lemma_years_increase(a, b - 1);
        lemma_year_length(b - 1);
    }
}

proof fn lemma_months_increase(y: int, m1: int, m2: int)
    requires
        1 <= m1 < m2 <= 12,
    ensures
        days_before_month(y, m1) + days_in_month(y, m1) <= days_before_month(y, m2),
{
}

/// Distinct real dates have distinct epoch days.
pub proof fn lemma_epoch_day_injective(y1: int, m1: int, d1: int, y2: int, m2: int, d2: int)
    requires
        is_valid_date(y1, m1, d1),
        is_valid_date(y2, m2, d2),
        epoch_day(y1, m1, d1) == epoch_day(y2, m2, d2),
    ensures
        y1 == y2 && m1 == m2 && d1 == d2,
{
    lemma_day_within_year(y1, m1, d1);
    lemma_day_within_year(y2, m2, d2);
    if y1 < y2 {
        lemma_years_increase(y1, y2);
    } else if y2 < y1 {
        lemma_years_increase(y2, y1);
    } else if m1 < m2 {
        lemma_months_increase(y1, m1, m2);
    } else if m2 < m1 {
        lemma_months_increase(y1, m2, m1);
    }
}

/// Every epoch day is the epoch day of exactly one real date, the one that
/// [`civil_of_day`] names.
pub proof fn lemma_civil_of_day(z: int, y: int, m: int, d: int)
    requires
        is_valid_date(y, m, d),
        epoch_day(y, m, d) == z,
    ensures
        civil_of_day(z) == (y, m, d),
{
    let ymd = (y, m, d);
    assert(is_valid_date(ymd.0, ymd.1, ymd.2) && epoch_day(ymd.0, ymd.1, ymd.2) == z);
    let w = civil_of_day(z);
    assert(is_valid_date(w.0, w.1, w.2) && epoch_day(w.0, w.1, w.2) == z);
    lemma_epoch_day_injective(w.0, w.1, w.2, y, m, d);
}

} // verus!
verus! {

/// [`civil_of_day`] always names a real date with the requested epoch day.
pub proof fn lemma_civil_of_day_exists(z: int)
    ensures
        is_valid_date(civil_of_day(z).0, civil_of_day(z).1, civil_of_day(z).2),
        epoch_day(civil_of_day(z).0, civil_of_day(z).1, civil_of_day(z).2) == z,
{
    let era = (z + 719468) / 146097;
    let doe = (z + 719468) % 146097;
    lemma_civil_parts(era, doe);
    let r = civil_parts(era, doe);
    lemma_civil_of_day(z, r.0, r.1, r.2);
}

/// Years of real dates between 1970-01-01 and 9999-12-31.
pub proof fn lemma_year_bounds(y: int, m: int, d: int)
    requires
        is_valid_date(y, m, d),
        0 <= epoch_day(y, m, d) < 2_932_897,
    ensures
        1970 <= y <= 9999,
{
    lemma_day_within_year(y, m, d);
    if y < 1970 {
        lemma_years_increase(y, 1970);
    }
    if y > 9999 {
        lemma_years_increase(9999, y);
        assert(days_before_year(10000) == 2_932_897);
    }
}

/// Later real dates have larger epoch days.
pub proof fn lemma_epoch_day_increasing(y1: int, m1: int, d1: int, y2: int, m2: int, d2: int)
    requires
        is_valid_date(y1, m1, d1),
        is_valid_date(y2, m2, d2),
        y1 < y2 || (y1 == y2 && m1 < m2) || (y1 == y2 && m1 == m2 && d1 < d2),
    ensures
        epoch_day(y1, m1, d1) < epoch_day(y2, m2, d2),
{
    lemma_day_within_year(y1, m1, d1);
    lemma_day_within_year(y2, m2, d2);
    if y1 < y2 {
        lemma_years_increase(y1, y2);
    } else if m1 < m2 {
        lemma_months_increase(y1, m1, m2);
    }
}

} // verus!
