//! Unix time as the MS-DOS date and time that ZIP headers hold.

use vstd::prelude::*;

verus! {

pub const SECONDS_PER_DAY: i64 = 86_400;

/// Last day count for which the calendar arithmetic stays within `i64`.
pub const LAST_DAY: i64 = 9_223_372_036_854_056_339;

/// Leap years of the Gregorian calendar.
pub open spec fn is_leap(y: int) -> bool {
    y % 4 == 0 && (y % 100 != 0 || y % 400 == 0)
}

/// Number of leap years from year 1 to year `y`, counted down below year 1.
pub open spec fn leaps_through(y: int) -> int {
    y / 4 - y / 100 + y / 400
}

/// Days from 1970-01-01 to the first day of year `y`.
pub open spec fn days_to_year(y: int) -> int {
    365 * (y - 1970) + leaps_through(y - 1) - leaps_through(1969)
}

pub open spec fn month_len(y: int, m: int) -> int {
    if m == 2 {
        if is_leap(y) {
            29
        } else {
            28
        }
    } else if m == 4 || m == 6 || m == 9 || m == 11 {
        30
    } else {
        31
    }
}

/// Days of year `y` before month `m`.
pub open spec fn days_to_month(y: int, m: int) -> int
    decreases m,
{
    if m <= 1 {
        0
    } else {
        days_to_month(y, m - 1) + month_len(y, m - 1)
    }
}

/// Whether a date exists.
pub open spec fn valid_date(y: int, m: int, d: int) -> bool {
    1 <= m <= 12 && 1 <= d <= month_len(y, m)
}

/// Days from 1970-01-01 to a date.
pub open spec fn days_from_civil(y: int, m: int, d: int) -> int {
    days_to_year(y) + days_to_month(y, m) + d - 1
}

/// The number that the low 32 bits of `y` stand for.
pub open spec fn low32(y: int) -> int {
    (y + 0x8000_0000) % 0x1_0000_0000 - 0x8000_0000
}

/// The DOS date of a day, with the year kept to seven bits.
pub open spec fn dos_date(y: int, m: int, d: int) -> int {
    (y - 1980) % 128 * 512 + m * 32 + d
}

/// The DOS time of a second of the day, to two seconds.
pub open spec fn dos_clock(s: int) -> int {
    s / 3600 * 2048 + s / 60 % 60 * 32 + s % 60 / 2
}

/// Whether `date` and `time` are the DOS form of a Unix time: times before the
/// epoch count as the epoch, and years before 1980 as the start of 1980.
pub open spec fn is_dos_form(unix: int, date: int, time: int) -> bool {
    let secs = if unix < 0 {
        0
    } else {
        unix
    };
    exists|y: int, m: int, d: int| #[trigger]
        valid_date(y, m, d) && days_from_civil(y, m, d) == secs / 86_400 && if low32(y) < 1980 {
            date == 33 && time == 0
        } else {
            date == dos_date(low32(y), m, d) && time == dos_clock(secs % 86_400)
        }
}

/// The Unix time that a DOS date and time stand for.
pub open spec fn dos_to_unix(date: int, time: int) -> int {
    days_from_civil(date / 512 + 1980, date / 32 % 16, date % 32) * 86_400 + time / 2048 * 3600
        + time / 32 % 64 * 60 + time % 32 * 2
}

/// The month lengths added up, for the months from March on.
proof fn lemma_days_to_month(y: int, m: int)
    requires
        1 <= m <= 12,
    ensures
        m == 1 ==> days_to_month(y, m) == 0,
        m == 2 ==> days_to_month(y, m) == 31,
        m >= 3 ==> days_to_month(y, m) == 59 + (if is_leap(y) {
            1int
        } else {
            0
        }) + (153 * (m - 3) + 2) / 5,
{
    reveal_with_fuel(days_to_month, 13);
}

/// Of a day within 400 years from 1 March of year 0, the formula finds the
/// year.
proof fn lemma_year_of_era(doe: int)
    requires
        0 <= doe <= 146_096,
    ensures
        ({
            let yoe = (doe - doe / 1460 + doe / 36_524 - doe / 146_096) / 365;
            let start = 365 * yoe + yoe / 4 - yoe / 100;
            &&& 0 <= yoe <= 399
            &&& start <= doe
            &&& doe - start <= 364 || (doe - start == 365 && (yoe == 399 || ((yoe + 1) % 4 == 0 && (yoe + 1) % 100 != 0)))
        }),
{
}

/// Of a day of the year from 1 March, the formula finds month and day.
proof fn lemma_month_of_year(doy: int)
    requires
        0 <= doy <= 365,
    ensures
        ({
            let mp = (5 * doy + 2) / 153;
            let d = doy - (153 * mp + 2) / 5 + 1;
            &&& 0 <= mp <= 11
            &&& 1 <= d <= 31
            &&& mp == 1 || mp == 3 || mp == 6 || mp == 8 ==> d <= 30
            &&& mp == 11 ==> d <= 29
            &&& mp == 11 && d == 29 ==> doy == 365
        }),
{
}

/// Every era of 400 years has 97 leap years.
proof fn lemma_leaps_of_era(yoe: int, era: int)
    requires
        0 <= yoe <= 399,
    ensures
        leaps_through(yoe + 400 * era) == 97 * era + yoe / 4 - yoe / 100,
        is_leap(yoe + 400 * era) == is_leap(yoe),
        is_leap(yoe + 1 + 400 * era) == is_leap(yoe + 1),
{
    let y = yoe + 400 * era;
    assert(y / 4 == yoe / 4 + 100 * era);
    assert(y / 100 == yoe / 100 + 4 * era);
    assert(y / 400 == era);
    assert(y % 4 == yoe % 4 && y % 100 == yoe % 100 && y % 400 == yoe % 400);
    assert((y + 1) % 4 == (yoe + 1) % 4 && (y + 1) % 100 == (yoe + 1) % 100);
    assert((y + 1) % 400 == (yoe + 1) % 400);
}

proof fn lemma_leap_counts(y: int)
    ensures
        leaps_through(y) == leaps_through(y - 1) + (if is_leap(y) {
            1int
        } else {
            0
        }),
{
}

/// The date that the formulas find is the right one.
proof fn lemma_civil(era: int, yoe: int, doy: int)
    requires
        0 <= yoe <= 399,
        0 <= doy <= 365,
        doy == 365 ==> is_leap(yoe + 1),
    ensures
        ({
            let mp = (5 * doy + 2) / 153;
            let d = doy - (153 * mp + 2) / 5 + 1;
            let m = if mp < 10 {
                mp + 3
            } else {
                mp - 9
            };
            let y = yoe + 400 * era + (if m <= 2 {
                1int
            } else {
                0
            });
            &&& valid_date(y, m, d)
            &&& days_from_civil(y, m, d) == 146_097 * era + 365 * yoe + yoe / 4 - yoe / 100 + doy
                - 719_468
        }),
{
    let mp = (5 * doy + 2) / 153;
    let d = doy - (153 * mp + 2) / 5 + 1;
    lemma_month_of_year(doy);
    let y0 = yoe + 400 * era;
    lemma_leaps_of_era(yoe, era);
    lemma_leap_counts(y0);
    lemma_leap_counts(y0 + 1);
    let m = if mp < 10 {
        mp + 3
    } else {
        mp - 9
    };
    lemma_days_to_month(y0, m);
    lemma_days_to_month(y0 + 1, m);
    assert(leaps_through(1969) == 477);
}

/// Days since 1970-01-01 as year, month and day.
pub fn civil_from_days(z: i64) -> (r: (i64, u32, u32))
    requires
        z <= LAST_DAY,
    ensures
        valid_date(r.0 as int, r.1 as int, r.2 as int),
        days_from_civil(r.0 as int, r.1 as int, r.2 as int) == z,
{
    let z: i64 = z + 719_468;
    let era: i64 = if z >= 0 {
        z / 146_097
    } else {
        -((146_096 - z) / 146_097)
    };
    let doe: u64 = (z - era * 146_097) as u64;
    proof {
        assert(0 <= z - era * 146_097 <= 146_096);
        lemma_year_of_era(doe as int);
    }
    let yoe: u64 = (doe - doe / 1460 + doe / 36_524 - doe / 146_096) / 365;
    let y: i64 = yoe as i64 + era * 400;
    let doy: u64 = doe - (365 * yoe + yoe / 4 - yoe / 100);
    proof {
        lemma_civil(era as int, yoe as int, doy as int);
        lemma_month_of_year(doy as int);
    }
    let mp: u64 = (5 * doy + 2) / 153;
    let d: u32 = (doy - (153 * mp + 2) / 5 + 1) as u32;
    let m: u32 = (if mp < 10 {
        mp + 3
    } else {
        mp - 9
    }) as u32;
    let y: i64 = if m <= 2 {
        y + 1
    } else {
        y
    };
    (y, m, d)
}

/// Unix time as an MS-DOS (date, time) pair, in UTC.
pub fn unix_to_dos(unix: i64) -> (r: (u16, u16))
    ensures
        is_dos_form(unix as int, r.0 as int, r.1 as int),
{
    let secs: i64 = if unix < 0 {
        0
    } else {
        unix
    };
    let days: i64 = secs / SECONDS_PER_DAY;
    let sec_of_day: u32 = (secs % SECONDS_PER_DAY) as u32;
    let (y, m, d) = civil_from_days(days);
    proof {
        lemma_within_year(y as int, m as int, d as int);
        if y < 1970 {
            lemma_years_apart(y as int, 1970);
        }
    }
    let year: i32 = low_bits(y);
    if year < 1980 {
        return (33, 0);
    }
    let date: u16 = (((year - 1980) % 128) as u16) * 512 + (m as u16) * 32 + (d as u16);
    let hour: u32 = sec_of_day / 3600;
    let minute: u32 = (sec_of_day / 60) % 60;
    let sec2: u32 = (sec_of_day % 60) / 2;
    let time: u16 = (hour as u16) * 2048 + (minute as u16) * 32 + (sec2 as u16);
    (date, time)
}

/// The low 32 bits of a year.
fn low_bits(y: i64) -> (r: i32)
    requires
        y >= 0,
    ensures
        r == low32(y as int),
{
    let low: i64 = y % 0x1_0000_0000;
    if low >= 0x8000_0000 {
        (low - 0x1_0000_0000) as i32
    } else {
        low as i32
    }
}

/// Later years start later, by 365 days a year at least.
proof fn lemma_years_apart(y1: int, y2: int)
    requires
        y1 < y2,
    ensures
        days_to_year(y1) + 365 + (if is_leap(y1) {
            1int
        } else {
            0
        }) <= days_to_year(y2),
{
    lemma_leap_counts(y1);
    assert(leaps_through(y1) <= leaps_through(y2 - 1)) by {
        lemma_leaps_grow(y1, y2 - 1);
    }
}

proof fn lemma_leaps_grow(a: int, b: int)
    requires
        a <= b,
    ensures
        leaps_through(a) <= leaps_through(b),
    decreases b - a,
{
    if a < b {
        lemma_leaps_grow(a, b - 1);
        lemma_leap_counts(b);
    }
}

/// The days before a month and the month itself fit into the year, and months
/// follow each other.
proof fn lemma_months_apart(y: int, m1: int, m2: int)
    requires
        1 <= m1 < m2 <= 12,
    ensures
        days_to_month(y, m1) + month_len(y, m1) <= days_to_month(y, m2),
{
    reveal_with_fuel(days_to_month, 13);
}

proof fn lemma_within_year(y: int, m: int, d: int)
    requires
        valid_date(y, m, d),
    ensures
        0 <= days_to_month(y, m) + d - 1 < 365 + (if is_leap(y) {
            1int
        } else {
            0
        }),
{
    lemma_days_to_month(y, m);
}

/// A day has one date: two dates as many days from the epoch are the same.
pub proof fn law_date_unique(y1: int, m1: int, d1: int, y2: int, m2: int, d2: int)
    requires
        valid_date(y1, m1, d1),
        valid_date(y2, m2, d2),
        days_from_civil(y1, m1, d1) == days_from_civil(y2, m2, d2),
    ensures
        y1 == y2 && m1 == m2 && d1 == d2,
{
    lemma_within_year(y1, m1, d1);
    lemma_within_year(y2, m2, d2);
    if y1 < y2 {
        lemma_years_apart(y1, y2);
    } else if y2 < y1 {
        lemma_years_apart(y2, y1);
    }
    if m1 < m2 {
        lemma_months_apart(y1, m1, m2);
    } else if m2 < m1 {
        lemma_months_apart(y1, m2, m1);
    }
}

/// A time has one DOS form.
pub proof fn law_dos_form_unique(unix: int, date1: int, time1: int, date2: int, time2: int)
    requires
        is_dos_form(unix, date1, time1),
        is_dos_form(unix, date2, time2),
    ensures
        date1 == date2 && time1 == time2,
{
    let days = (if unix < 0 {
        0
    } else {
        unix
    }) / 86_400;
    assert forall|y1: int, m1: int, d1: int, y2: int, m2: int, d2: int|
        #![trigger valid_date(y1, m1, d1), valid_date(y2, m2, d2)]
        valid_date(y1, m1, d1) && valid_date(y2, m2, d2) && days_from_civil(y1, m1, d1) == days
            && days_from_civil(y2, m2, d2) == days implies y1 == y2 && m1 == m2 && d1 == d2 by {
        law_date_unique(y1, m1, d1, y2, m2, d2);
    }
}

/// From the start of 1980 to the end of 2107 the DOS form keeps a time to two
/// seconds.
#[verifier::spinoff_prover]
pub proof fn law_dos_keeps_time(unix: int, date: int, time: int)
    requires
        days_to_year(1980) * 86_400 <= unix < days_to_year(2108) * 86_400,
        is_dos_form(unix, date, time),
    ensures
        dos_to_unix(date, time) == unix - unix % 2,
{
    let days = unix / 86_400;
    let (y, m, d) = choose|y: int, m: int, d: int| #[trigger]
        valid_date(y, m, d) && days_from_civil(y, m, d) == days && if low32(y) < 1980 {
            date == 33 && time == 0
        } else {
            date == dos_date(low32(y), m, d) && time == dos_clock(unix % 86_400)
        };
    lemma_calendar_bounds();
    lemma_year_bounds(y, m, d);
    lemma_days_of(unix);
    lemma_dos_value(y, m, d, unix % 86_400);
}

proof fn lemma_calendar_bounds()
    ensures
        days_to_year(1980) == 3652,
        days_to_year(2108) == 50_403,
{
}

proof fn lemma_days_of(unix: int)
    requires
        3652 * 86_400 <= unix < 50_403 * 86_400,
    ensures
        3652 <= unix / 86_400 < 50_403,
        unix == unix / 86_400 * 86_400 + unix % 86_400,
        0 <= unix % 86_400 < 86_400,
        unix % 2 == unix % 86_400 % 2,
{
}

/// The years that some days lie in.
proof fn lemma_year_bounds(y: int, m: int, d: int)
    requires
        valid_date(y, m, d),
    ensures
        days_to_year(1980) <= days_from_civil(y, m, d) ==> y >= 1980,
        days_from_civil(y, m, d) < days_to_year(2108) ==> y < 2108,
        1980 <= y < 2108 ==> low32(y) == y,
{
    lemma_within_year(y, m, d);
    if y < 1980 {
        lemma_years_apart(y, 1980);
    }
    if y > 2108 {
        lemma_years_apart(2108, y);
    }
}

/// The time that the DOS form of a date and a second of the day stands for.
#[verifier::spinoff_prover]
proof fn lemma_dos_value(y: int, m: int, d: int, s: int)
    requires
        1980 <= y < 2108,
        valid_date(y, m, d),
        0 <= s < 86_400,
    ensures
        dos_to_unix(dos_date(y, m, d), dos_clock(s)) == days_from_civil(y, m, d) * 86_400 + s - s
            % 2,
{
    lemma_date_fields(y, m, d);
    lemma_time_fields(s);
    lemma_clock(s);
    assert(s % 60 / 2 * 2 == s % 60 - s % 2);
}

proof fn lemma_date_fields(y: int, m: int, d: int)
    requires
        1980 <= y < 2108,
        1 <= m <= 12,
        1 <= d <= 31,
    ensures
        dos_date(y, m, d) / 512 == y - 1980,
        dos_date(y, m, d) / 32 % 16 == m,
        dos_date(y, m, d) % 32 == d,
{
    let x = dos_date(y, m, d);
    assert(x == (y - 1980) * 512 + m * 32 + d);
    assert(x / 32 == (y - 1980) * 16 + m);
}

proof fn lemma_time_fields(s: int)
    requires
        0 <= s < 86_400,
    ensures
        dos_clock(s) / 2048 == s / 3600,
        dos_clock(s) / 32 % 64 == s / 60 % 60,
        dos_clock(s) % 32 == s % 60 / 2,
{
    let h = s / 3600;
    let m = s / 60 % 60;
    let x = dos_clock(s);
    assert(0 <= s % 60 / 2 < 32);
    assert(x == h * 2048 + m * 32 + s % 60 / 2);
    assert(x / 32 == h * 64 + m);
}

/// Hours, minutes and seconds make up the second of the day.
proof fn lemma_clock(s: int)
    requires
        0 <= s < 86_400,
    ensures
        s / 3600 * 3600 + s / 60 % 60 * 60 + s % 60 == s,
{
    assert(s / 3600 == s / 60 / 60);
}

/// The calendar day by day: day 0 is the first of January 1970, and the number
/// of the next day is one higher, through the ends of months, of Februaries in
/// leap years and in others, and of years.
pub proof fn law_calendar_goes_day_by_day(y: int, m: int, d: int)
    requires
        1 <= m <= 12,
        1 <= d,
        d <= (if m == 2 && y % 4 == 0 && (y % 100 != 0 || y % 400 == 0) {
            29int
        } else if m == 2 {
            28
        } else if m == 4 || m == 6 || m == 9 || m == 11 {
            30
        } else {
            31
        }),
    ensures
        days_from_civil(1970, 1, 1) == 0,
        valid_date(y, m, d),
        ({
            let len = if m == 2 && y % 4 == 0 && (y % 100 != 0 || y % 400 == 0) {
                29int
            } else if m == 2 {
                28
            } else if m == 4 || m == 6 || m == 9 || m == 11 {
                30
            } else {
                31
            };
            let n = days_from_civil(y, m, d);
            &&& d < len ==> days_from_civil(y, m, d + 1) == n + 1
            &&& d == len && m < 12 ==> days_from_civil(y, m + 1, 1) == n + 1
            &&& d == len && m == 12 ==> days_from_civil(y + 1, 1, 1) == n + 1
            &&& !valid_date(y, m, len + 1)
        }),
{
    assert(days_to_month(1970, 1) == 0);
    assert(days_to_month(y, m + 1) == days_to_month(y, m) + month_len(y, m));
    assert(days_to_month(y + 1, 1) == 0);
    lemma_days_to_month(y, m);
    if m == 12 {
        lemma_leap_counts(y);
        assert(days_to_year(y + 1) == days_to_year(y) + 365 + (leaps_through(y) - leaps_through(
            y - 1,
        )));
    }
}

/// No day is outside the months, and no month outside the year.
pub proof fn law_dates_outside_the_calendar(y: int, m: int, d: int)
    ensures
        m < 1 || m > 12 || d < 1 || d > 31 ==> !valid_date(y, m, d),
{
}

/// The DOS form of a time whose day is `y`, `m`, `d`: date and time hold year,
/// month and day, and hour, minute and every other second. A time before 1980
/// becomes the start of 1980, and the year starts again every 128 years. `w` is
/// the year as far as 32 bits hold it, which is the year itself for all but the
/// remotest times.
pub proof fn law_dos_form_holds_the_date(
    unix: int,
    y: int,
    w: int,
    m: int,
    d: int,
    date: int,
    time: int,
)
    requires
        valid_date(y, m, d),
        y >= 1970,
        -0x8000_0000 <= w < 0x8000_0000,
        (y - w) % 0x1_0000_0000 == 0,
        is_dos_form(unix, date, time),
        days_from_civil(y, m, d) * 86_400 <= unix,
        unix < (days_from_civil(y, m, d) + 1) * 86_400,
    ensures
        w < 1980 ==> date == 33 && time == 0,
        w >= 1980 ==> {
            let s = unix - days_from_civil(y, m, d) * 86_400;
            let hour = s / 3600;
            let minute = (s - hour * 3600) / 60;
            let second = s - hour * 3600 - minute * 60;
            &&& date == (w - 1980) % 128 * 512 + m * 32 + d
            &&& time == hour * 2048 + minute * 32 + second / 2
        },
{
    let n = days_from_civil(y, m, d);
    lemma_not_before_epoch(y, m, d);
    lemma_low32(y, w);
    lemma_day_of(unix, n);
    let (a, b, c) = choose|a: int, b: int, c: int| #[trigger]
        valid_date(a, b, c) && days_from_civil(a, b, c) == n && if low32(a) < 1980 {
            date == 33 && time == 0
        } else {
            date == dos_date(low32(a), b, c) && time == dos_clock(unix % 86_400)
        };
    law_date_unique(a, b, c, y, m, d);
    lemma_clock_parts(unix - n * 86_400);
}

proof fn lemma_not_before_epoch(y: int, m: int, d: int)
    requires
        valid_date(y, m, d),
        1970 <= y,
    ensures
        days_from_civil(y, m, d) >= 0,
{
    lemma_within_year(y, m, d);
    if y > 1970 {
        lemma_years_apart(1970, y);
    }
    assert(days_to_year(1970) == 0);
}

proof fn lemma_low32(y: int, w: int)
    requires
        -0x8000_0000 <= w < 0x8000_0000,
        (y - w) % 0x1_0000_0000 == 0,
    ensures
        low32(y) == w,
{
}

proof fn lemma_day_of(unix: int, n: int)
    requires
        0 <= n,
        n * 86_400 <= unix < (n + 1) * 86_400,
    ensures
        unix >= 0,
        unix / 86_400 == n,
        unix % 86_400 == unix - n * 86_400,
{
}

proof fn lemma_clock_parts(s: int)
    requires
        0 <= s < 86_400,
    ensures
        ({
            let hour = s / 3600;
            let minute = (s - hour * 3600) / 60;
            let second = s - hour * 3600 - minute * 60;
            dos_clock(s) == hour * 2048 + minute * 32 + second / 2
        }),
{
    let hour = s / 3600;
    let minute = (s - hour * 3600) / 60;
    assert(s / 60 == hour * 60 + minute);
    assert(s / 60 % 60 == minute);
}

/// A time before the epoch is taken for the epoch.
pub proof fn law_times_before_the_epoch(unix: int, date: int, time: int)
    requires
        unix < 0,
    ensures
        is_dos_form(unix, date, time) <==> is_dos_form(0, date, time),
{
}

} // verus!
