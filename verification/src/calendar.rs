use vstd::prelude::*;
use vstd::arithmetic::div_mod::{lemma_fundamental_div_mod, lemma_fundamental_div_mod_converse};

verus! {

/// Leap years of the proleptic Gregorian calendar.
pub open spec fn is_leap(y: int) -> bool {
    (y % 4 == 0 && y % 100 != 0) || y % 400 == 0
}

pub open spec fn leap_day(y: int) -> int {
    if is_leap(y) {
        1
    } else {
        0
    }
}

/// Length of month `m` (1 = January) of year `y`.
pub open spec fn days_in_month(y: int, m: int) -> int {
    if m == 2 {
        28 + leap_day(y)
    } else if m == 4 || m == 6 || m == 9 || m == 11 {
        30
    } else {
        31
    }
}

/// Days of year `y` before the first of month `m`.
pub open spec fn days_before_month(y: int, m: int) -> int
    decreases m,
{
    if m <= 1 {
        0
    } else {
        days_before_month(y, m - 1) + days_in_month(y, m - 1)
    }
}

/// Number of leap years among the years 1 to `y`.
pub open spec fn leaps_through(y: int) -> int {
    y / 4 - y / 100 + y / 400
}

/// Days from 1970-01-01 to year `y`, month `m`, day `d`.
pub open spec fn days_from_civil(y: int, m: int, d: int) -> int {
    365 * (y - 1970) + leaps_through(y - 1) - leaps_through(1969) + days_before_month(y, m) + d - 1
}

pub open spec fn is_valid_date(y: int, m: int, d: int) -> bool {
    1 <= m <= 12 && 1 <= d <= days_in_month(y, m)
}

/// A year adds one leap day to the count exactly when it is a leap year.
pub proof fn lemma_leaps_step(y: int)
    ensures
        leaps_through(y) - leaps_through(y - 1) == leap_day(y),
{
    lemma_fundamental_div_mod(y, 4);
    lemma_fundamental_div_mod(y - 1, 4);
    lemma_fundamental_div_mod(y, 100);
    lemma_fundamental_div_mod(y - 1, 100);
    lemma_fundamental_div_mod(y, 400);
    lemma_fundamental_div_mod(y - 1, 400);
}

/// The first of January of one year and of the next are a year's length apart.
pub proof fn lemma_year_length(y: int)
    ensures
        days_from_civil(y + 1, 1, 1) - days_from_civil(y, 1, 1) == 365 + leap_day(y),
{
    lemma_leaps_step(y);
}

/// The months of a year add up to the year's length.
pub proof fn lemma_months_fill_year(y: int)
    ensures
        days_before_month(y, 13) == 365 + leap_day(y),
{
    reveal_with_fuel(days_before_month, 13);
}

/// Later months start later in the year.
proof fn lemma_month_starts_ordered(y: int, m1: int, m2: int)
    requires
        1 <= m1 <= m2,
    ensures
        days_before_month(y, m1) <= days_before_month(y, m2),
    decreases m2 - m1,
{
    if m1 < m2 {
        lemma_month_starts_ordered(y, m1, m2 - 1);
    }
}

/// Later years start later.
proof fn lemma_year_starts_ordered(y1: int, y2: int)
    requires
        y1 < y2,
    ensures
        days_from_civil(y1 + 1, 1, 1) <= days_from_civil(y2, 1, 1),
    decreases y2 - y1,
{
    if y1 + 1 < y2 {
        lemma_year_starts_ordered(y1, y2 - 1);
        lemma_year_length(y2 - 1);
    }
}

/// A valid date lies within its year.
proof fn lemma_date_within_year(y: int, m: int, d: int)
    requires
        is_valid_date(y, m, d),
    ensures
        days_from_civil(y, 1, 1) <= days_from_civil(y, m, d) < days_from_civil(y + 1, 1, 1),
{
    lemma_month_starts_ordered(y, 1, m);
    lemma_month_starts_ordered(y, m + 1, 13);
    lemma_months_fill_year(y);
    lemma_year_length(y);
}

/// Of two valid dates, the later one is more days after 1970-01-01.
pub proof fn lemma_later_dates_count_more_days(y1: int, m1: int, d1: int, y2: int, m2: int, d2: int)
    requires
        is_valid_date(y1, m1, d1),
        is_valid_date(y2, m2, d2),
        y1 < y2 || (y1 == y2 && m1 < m2) || (y1 == y2 && m1 == m2 && d1 < d2),
    ensures
        days_from_civil(y1, m1, d1) < days_from_civil(y2, m2, d2),
{
    lemma_date_within_year(y1, m1, d1);
    lemma_date_within_year(y2, m2, d2);
    if y1 < y2 {
        lemma_year_starts_ordered(y1, y2);
    } else if m1 < m2 {
        lemma_month_starts_ordered(y1, m1 + 1, m2);
    }
}

/// Distinct valid dates have distinct day counts, so a day count names at
/// most one date.
pub proof fn lemma_day_count_names_one_date(y1: int, m1: int, d1: int, y2: int, m2: int, d2: int)
    requires
        is_valid_date(y1, m1, d1),
        is_valid_date(y2, m2, d2),
        days_from_civil(y1, m1, d1) == days_from_civil(y2, m2, d2),
    ensures
        y1 == y2 && m1 == m2 && d1 == d2,
{
    if y1 < y2 || (y1 == y2 && m1 < m2) || (y1 == y2 && m1 == m2 && d1 < d2) {
        lemma_later_dates_count_more_days(y1, m1, d1, y2, m2, d2);
    } else if y2 < y1 || (y1 == y2 && m2 < m1) || (y1 == y2 && m1 == m2 && d2 < d1) {
        lemma_later_dates_count_more_days(y2, m2, d2, y1, m1, d1);
    }
}

/// Days from 0000-03-01 to the first of March of year `y`.
spec fn march_first(y: int) -> int {
    365 * y + leaps_through(y)
}

/// Offset of month `mp` in a year that starts with March (`mp` = 0).
spec fn march_offset(mp: int) -> int {
    (153 * mp + 2) / 5
}

/// A day `doy` of the year that starts on the first of March of year `y`,
/// written as a calendar date, is `doy` days after that first of March.
proof fn lemma_march_year_date(y: int, doy: int)
    requires
        0 <= doy < 365 + leap_day(y + 1),
    ensures
        ({
            let mp = (5 * doy + 2) / 153;
            let d = doy - march_offset(mp) + 1;
            let m = if mp < 10 { mp + 3 } else { mp - 9 };
            let cy = if m <= 2 { y + 1 } else { y };
            &&& 0 <= mp <= 11
            &&& is_valid_date(cy, m, d)
            &&& days_from_civil(cy, m, d) == march_first(y) + doy - 719468
        }),
{
    reveal_with_fuel(days_before_month, 13);
    let mp = (5 * doy + 2) / 153;
    lemma_fundamental_div_mod(5 * doy + 2, 153);
    assert(0 <= mp <= 11);
    lemma_leaps_step(y);
    lemma_leaps_step(y + 1);
    assert(leaps_through(1969) == 477);
    if mp == 0 {
        assert(march_offset(0) == 0);
    } else if mp == 1 {
        assert(march_offset(1) == 31);
    } else if mp == 2 {
        assert(march_offset(2) == 61);
    } else if mp == 3 {
        assert(march_offset(3) == 92);
    } else if mp == 4 {
        assert(march_offset(4) == 122);
    } else if mp == 5 {
        assert(march_offset(5) == 153);
    } else if mp == 6 {
        assert(march_offset(6) == 184);
    } else if mp == 7 {
        assert(march_offset(7) == 214);
    } else if mp == 8 {
        assert(march_offset(8) == 245);
    } else if mp == 9 {
        assert(march_offset(9) == 275);
    } else if mp == 10 {
        assert(march_offset(10) == 306);
    } else {
        assert(march_offset(11) == 337);
    }
}

/// Within an era of 400 years (146097 days), the year and the day of the
/// year that start with March, as the day count `doe` gives them.
proof fn lemma_year_of_era(doe: int)
    requires
        0 <= doe < 146097,
    ensures
        ({
            let yoe = (doe - doe / 1460 + doe / 36524 - doe / 146096) / 365;
            let doy = doe - (365 * yoe + yoe / 4 - yoe / 100);
            &&& 0 <= yoe < 400
            &&& 0 <= doy < 365 + leap_day(yoe + 1)
            &&& doe / 1460 <= doe
        }),
{
    let yoe = (doe - doe / 1460 + doe / 36524 - doe / 146096) / 365;
    if doe == 146096 {
        assert(doe / 1460 == 100);
        assert(doe / 36524 == 4);
        assert(doe / 146096 == 1);
        assert(yoe == 399);
    } else {
        lemma_fundamental_div_mod_converse(doe, 146096, 0, doe);
        let c = doe / 36524;
        let r1 = doe % 36524;
        lemma_fundamental_div_mod(doe, 36524);
        assert(0 <= r1 < 36524);
        let q = r1 / 1461;
        let r2 = r1 % 1461;
        lemma_fundamental_div_mod(r1, 1461);
        let k = r2 / 365;
        let r3 = r2 % 365;
        lemma_fundamental_div_mod(r2, 365);
        assert(0 <= c <= 3);
        assert(0 <= q <= 24);
        assert(0 <= k <= 4);
        assert(k == 4 ==> r3 == 0 && q < 24);
        let delta: int = if 24 * c + q + r2 >= 1460 { 1 } else { 0 };
        lemma_fundamental_div_mod_converse(doe, 1460, 25 * c + q + delta, 24 * c + q + r2 - 1460 * delta);
        let j: int = if k == 4 { 3 } else { k };
        assert(delta == 1 && k < 4 ==> r3 >= 1);
        lemma_fundamental_div_mod_converse(
            doe - doe / 1460 + doe / 36524 - doe / 146096,
            365,
            100 * c + 4 * q + j,
            r2 - delta - 365 * j,
        );
        assert(yoe == 100 * c + 4 * q + j);
        lemma_fundamental_div_mod_converse(yoe, 4, 25 * c + q, j);
        lemma_fundamental_div_mod_converse(yoe, 100, c, 4 * q + j);
        if k == 4 {
            lemma_fundamental_div_mod_converse(yoe + 1, 4, 25 * c + q + 1, 0);
            lemma_fundamental_div_mod_converse(yoe + 1, 100, c, 4 * q + 4);
            assert(is_leap(yoe + 1));
        }
    }
}

/// The first of March of year `400 * era + yoe` lies `146097 * era` days
/// plus the days of the years of the era before `yoe` after 0000-03-01.
proof fn lemma_era_start(era: int, yoe: int)
    requires
        0 <= yoe < 400,
    ensures
        march_first(400 * era + yoe) == 146097 * era + (365 * yoe + yoe / 4 - yoe / 100),
        leap_day(400 * era + yoe + 1) == leap_day(yoe + 1),
{
    let y = 400 * era + yoe;
    lemma_fundamental_div_mod(yoe, 4);
    lemma_fundamental_div_mod(yoe, 100);
    lemma_fundamental_div_mod_converse(y, 4, 100 * era + yoe / 4, yoe % 4);
    lemma_fundamental_div_mod_converse(y, 100, 4 * era + yoe / 100, yoe % 100);
    lemma_fundamental_div_mod_converse(y, 400, era, yoe);
    lemma_fundamental_div_mod(yoe + 1, 4);
    lemma_fundamental_div_mod(yoe + 1, 100);
    lemma_fundamental_div_mod(yoe + 1, 400);
    lemma_fundamental_div_mod_converse(y + 1, 4, 100 * era + (yoe + 1) / 4, (yoe + 1) % 4);
    lemma_fundamental_div_mod_converse(y + 1, 100, 4 * era + (yoe + 1) / 100, (yoe + 1) % 100);
    lemma_fundamental_div_mod_converse(y + 1, 400, era + (yoe + 1) / 400, (yoe + 1) % 400);
}

/// The calendar date (year, month, day) of the day `days_since_epoch` days
/// after 1970-01-01, in the proleptic Gregorian calendar.
pub fn days_to_date(days_since_epoch: u64) -> (r: (u64, u64, u64))
    requires
        days_since_epoch <= u64::MAX - 719468,
    ensures
        is_valid_date(r.0 as int, r.1 as int, r.2 as int),
        days_from_civil(r.0 as int, r.1 as int, r.2 as int) == days_since_epoch,
{
    let z = days_since_epoch + 719468;
    let era = z / 146097;
    let doe = z % 146097;
    proof {
        lemma_fundamental_div_mod(z as int, 146097);
        lemma_year_of_era(doe as int);
    }
    let yoe = (doe - doe / 1460 + doe / 36524 - doe / 146096) / 365;
    let y = yoe + era * 400;
    let doy = doe - (365 * yoe + yoe / 4 - yoe / 100);
    proof {
        lemma_era_start(era as int, yoe as int);
        lemma_march_year_date(y as int, doy as int);
    }
    let mp = (5 * doy + 2) / 153;
    let d = doy - (153 * mp + 2) / 5 + 1;
    let m = if mp < 10 {
        mp + 3
    } else {
        mp - 9
    };
    let y = if m <= 2 {
        y + 1
    } else {
        y
    };
    (y, m, d)
}

/// A moment in UTC, to the second.
#[derive(Debug, Clone, Copy, PartialEq, Eq)]
pub struct UtcTime {
    pub year: u64,
    pub month: u64,
    pub day: u64,
    pub hour: u64,
    pub minute: u64,
    pub second: u64,
}

/// The UTC date and time `unix_seconds` seconds after 1970-01-01 00:00:00 UTC.
pub fn utc_from_unix_seconds(unix_seconds: u64) -> (t: UtcTime)
    ensures
        is_valid_date(t.year as int, t.month as int, t.day as int),
        t.hour < 24,
        t.minute < 60,
        t.second < 60,
        days_from_civil(t.year as int, t.month as int, t.day as int) * 86400 + t.hour * 3600 + t.minute * 60
            + t.second == unix_seconds,
{
    let days = unix_seconds / 86400;
    let seconds_into_day = unix_seconds % 86400;
    let hour = seconds_into_day / 3600;
    let minute = (seconds_into_day % 3600) / 60;
    let second = seconds_into_day % 60;
    proof {
        lemma_fundamental_div_mod(unix_seconds as int, 86400);
        lemma_fundamental_div_mod(seconds_into_day as int, 3600);
        lemma_fundamental_div_mod((seconds_into_day % 3600) as int, 60);
        lemma_fundamental_div_mod_converse(
            seconds_into_day as int,
            60,
            (hour * 60 + minute) as int,
            ((seconds_into_day % 3600) % 60) as int,
        );
    }
    let (year, month, day) = days_to_date(days);
    UtcTime { year, month, day, hour, minute, second }
}

} // verus!
