//! Proleptic Gregorian calendar arithmetic for UTC log timestamps.
use vstd::prelude::*;

verus! {

/// Whether `year` is a leap year of the proleptic Gregorian calendar.
pub open spec fn is_leap_year(year: int) -> bool {
    year % 4 == 0 && (year % 100 != 0 || year % 400 == 0)
}

/// Number of days in `year`.
pub open spec fn year_length(year: int) -> int {
    if is_leap_year(year) {
        366
    } else {
        365
    }
}

/// Number of days in `month` (1 = January) of `year`.
pub open spec fn days_in_month(year: int, month: int) -> int {
    if month == 2 {
        if is_leap_year(year) {
            29
        } else {
            28
        }
    } else if month == 4 || month == 6 || month == 9 || month == 11 {
        30
    } else {
        31
    }
}

/// Whether (`year`, `month`, `day`) names a day of the calendar.
pub open spec fn is_valid_date(year: int, month: int, day: int) -> bool {
    &&& 1 <= month <= 12
    &&& 1 <= day <= days_in_month(year, month)
}

/// Days from 1970-01-01 to January 1 of `year`; negative for years before 1970.
pub open spec fn days_before_year(year: int) -> int
    decreases (if year >= 1970 { year - 1970 } else { 1970 - year }),
{
    if year == 1970 {
        0
    } else if year > 1970 {
        days_before_year(year - 1) + year_length(year - 1)
    } else {
        days_before_year(year + 1) - year_length(year)
    }
}

/// Days from January 1 of `year` to the first day of `month`.
pub open spec fn days_before_month(year: int, month: int) -> int
    decreases month,
{
    if month <= 1 {
        0
    } else {
        days_before_month(year, month - 1) + days_in_month(year, month - 1)
    }
}

/// Days from 1970-01-01 to the given date.
pub open spec fn days_from_civil(year: int, month: int, day: int) -> int {
    days_before_year(year) + days_before_month(year, month) + day - 1
}

/// The date, as (year, month, day), that lies `days` days after 1970-01-01.
pub open spec fn civil_date(days: int) -> (int, int, int) {
    choose|date: (int, int, int)|
        is_valid_date(date.0, date.1, date.2) && days_from_civil(date.0, date.1, date.2) == days
}

/// Leap years among years 1 ..= year - 1 (negative counts for years at or before 0).
spec fn leap_years_before(year: int) -> int {
    (year - 1) / 4 - (year - 1) / 100 + (year - 1) / 400
}

/// First day of March-based year `k` of a 400-year era, counted from the era's first day.
spec fn era_year_start(k: int) -> int {
    365 * k + k / 4 - k / 100
}

/// First day of the March-based month `mp` (0 = March), counted from March 1.
spec fn march_month_start(mp: int) -> int {
    (153 * mp + 2) / 5
}

proof fn lemma_leap_years_step(year: int)
    ensures
        leap_years_before(year + 1) == leap_years_before(year) + (if is_leap_year(year) {
            1int
        } else {
            0int
        }),
{
}

proof fn lemma_days_before_year_step(year: int)
    ensures
        days_before_year(year + 1) == days_before_year(year) + year_length(year),
{
    if year + 1 > 1970 {
        assert(days_before_year(year + 1) == days_before_year(year) + year_length(year));
    } else {
        assert(days_before_year(year) == days_before_year(year + 1) - year_length(year));
    }
}

proof fn lemma_days_before_year_closed(year: int)
    ensures
        days_before_year(year) == 365 * (year - 1970) + leap_years_before(year)
            - leap_years_before(1970),
    decreases (if year >= 1970 { year - 1970 } else { 1970 - year }),
{
    if year > 1970 {
        lemma_days_before_year_closed(year - 1);
        lemma_leap_years_step(year - 1);
        lemma_days_before_year_step(year - 1);
    } else if year < 1970 {
        lemma_days_before_year_closed(year + 1);
        lemma_leap_years_step(year);
        lemma_days_before_year_step(year);
    }
}

proof fn lemma_days_before_year_increasing(a: int, b: int)
    requires
        a < b,
    ensures
        days_before_year(a) + year_length(a) <= days_before_year(b),
    decreases b - a,
{
    lemma_days_before_year_step(a);
    if a + 1 < b {
        lemma_days_before_year_increasing(a + 1, b);
    }
}

proof fn lemma_days_before_month_table(year: int, month: int)
    requires
        1 <= month <= 13,
    ensures
        days_before_month(year, month) == (if month == 1 {
            0int
        } else if month == 2 {
            31int
        } else if month == 3 {
            59int
        } else if month == 4 {
            90int
        } else if month == 5 {
            120int
        } else if month == 6 {
            151int
        } else if month == 7 {
            181int
        } else if month == 8 {
            212int
        } else if month == 9 {
            243int
        } else if month == 10 {
            273int
        } else if month == 11 {
            304int
        } else if month == 12 {
            334int
        } else {
            365int
        }) + (if month > 2 && is_leap_year(year) {
            1int
        } else {
            0int
        }),
    decreases month,
{
    if month > 1 {
        lemma_days_before_month_table(year, month - 1);
    }
}

/// Within a year, the offset of a valid date lies inside the year.
proof fn lemma_day_of_year_bounds(year: int, month: int, day: int)
    requires
        is_valid_date(year, month, day),
    ensures
        0 <= days_before_month(year, month) + day - 1 < year_length(year),
{
    lemma_days_before_month_table(year, month);
}

/// Two valid dates that lie the same number of days after the epoch are the same date.
proof fn lemma_days_from_civil_injective(y1: int, m1: int, d1: int, y2: int, m2: int, d2: int)
    requires
        is_valid_date(y1, m1, d1),
        is_valid_date(y2, m2, d2),
        days_from_civil(y1, m1, d1) == days_from_civil(y2, m2, d2),
    ensures
        y1 == y2 && m1 == m2 && d1 == d2,
{
    lemma_day_of_year_bounds(y1, m1, d1);
    lemma_day_of_year_bounds(y2, m2, d2);
    if y1 < y2 {
        lemma_days_before_year_increasing(y1, y2);
    } else if y2 < y1 {
        lemma_days_before_year_increasing(y2, y1);
    }
    assert(y1 == y2);
    lemma_days_before_month_table(y1, m1);
    lemma_days_before_month_table(y1, m2);
}

/// March 1 of year `400 * era + k` lies `146097 * era + era_year_start(k)` days after
/// 0000-03-01, which is 719468 days before the epoch.
#[verifier::spinoff_prover]
proof fn lemma_march_start(era: int, k: int)
    requires
        0 <= k < 400,
    ensures
        days_before_year(400 * era + k) + 59 + (if is_leap_year(400 * era + k) {
            1int
        } else {
            0int
        }) == 146097 * era + era_year_start(k) - 719468,
{
    let y = 400 * era + k;
    lemma_days_before_year_closed(y);
    assert(leap_years_before(1970) == 477);
    assert((y - 1) / 4 == 100 * era + (k - 1) / 4);
    assert((y - 1) / 100 == 4 * era + (k - 1) / 100);
    assert((y - 1) / 400 == era + (k - 1) / 400);
    assert(is_leap_year(y) == is_leap_year(k));
}

#[verifier::spinoff_prover]
proof fn lemma_year_of_era(doe: int)
    requires
        0 <= doe < 146097,
    ensures
        ({
            let yoe = (doe - doe / 1460 + doe / 36524 - doe / 146096) / 365;
            &&& 0 <= yoe < 400
            &&& era_year_start(yoe) <= doe
            &&& yoe < 399 ==> doe < era_year_start(yoe + 1)
        }),
{
}

/// Splits a day of a March-based year into its month (0 = March) and day of month.
#[verifier::spinoff_prover]
proof fn lemma_march_month(doy: int)
    requires
        0 <= doy <= 365,
    ensures
        ({
            let mp = (5 * doy + 2) / 153;
            &&& 0 <= mp <= 11
            &&& march_month_start(mp) <= doy < march_month_start(mp + 1)
            &&& march_month_start(mp) == (if mp == 0 {
                0int
            } else if mp == 1 {
                31int
            } else if mp == 2 {
                61int
            } else if mp == 3 {
                92int
            } else if mp == 4 {
                122int
            } else if mp == 5 {
                153int
            } else if mp == 6 {
                184int
            } else if mp == 7 {
                214int
            } else if mp == 8 {
                245int
            } else if mp == 9 {
                275int
            } else if mp == 10 {
                306int
            } else {
                337int
            })
        }),
{
    let mp = (5 * doy + 2) / 153;
    assert(0 <= mp <= 11);
    assert(march_month_start(mp) <= doy < march_month_start(mp + 1));
}

/// The arithmetic of `civil_from_days`, on unbounded integers: `z` counts days from 0000-03-01.
#[verifier::spinoff_prover]
proof fn lemma_civil_algorithm(z: int)
    ensures
        ({
            let era = z / 146097;
            let doe = z - era * 146097;
            let yoe = (doe - doe / 1460 + doe / 36524 - doe / 146096) / 365;
            let y = yoe + era * 400;
            let doy = doe - (365 * yoe + yoe / 4 - yoe / 100);
            let mp = (5 * doy + 2) / 153;
            let day = doy - (153 * mp + 2) / 5 + 1;
            let month = mp + if mp < 10 {
                3int
            } else {
                -9int
            };
            let year = y + if month <= 2 {
                1int
            } else {
                0int
            };
            &&& 0 <= doe < 146097
            &&& 0 <= yoe < 400
            &&& 0 <= doy <= 365
            &&& 0 <= mp <= 11
            &&& is_valid_date(year, month, day)
            &&& days_from_civil(year, month, day) == z - 719468
        }),
{
    let era = z / 146097;
    let doe = z - era * 146097;
    assert(0 <= doe < 146097);
    lemma_year_of_era(doe);
    let yoe = (doe - doe / 1460 + doe / 36524 - doe / 146096) / 365;
    let y = yoe + era * 400;
    let doy = doe - (365 * yoe + yoe / 4 - yoe / 100);
    assert(doy == doe - era_year_start(yoe));
    let long_year = is_leap_year(y + 1);
    assert(is_leap_year(y + 1) == is_leap_year(yoe + 1));
    assert(0 <= doy <= 365);
    assert(doy == 365 ==> long_year);
    lemma_march_month(doy);
    let mp = (5 * doy + 2) / 153;
    let day = doy - (153 * mp + 2) / 5 + 1;
    let month = mp + if mp < 10 {
        3int
    } else {
        -9int
    };
    let year = y + if month <= 2 {
        1int
    } else {
        0int
    };
    lemma_march_start(era, yoe);
    lemma_days_before_month_table(year, month);
    if mp < 10 {
        assert(is_valid_date(year, month, day));
        assert(days_from_civil(year, month, day) == z - 719468);
    } else {
        lemma_days_before_year_step(y);
        assert(is_valid_date(year, month, day));
        assert(days_from_civil(year, month, day) == z - 719468);
    }
}

/// Converts a count of days since 1970-01-01 into the (year, month, day) of the
/// proleptic Gregorian calendar; the year is truncated to `i32` as the log format does.
pub fn civil_from_days(days_since_epoch: i64) -> (date: (i32, u32, u32))
    requires
        i64::MIN <= days_since_epoch + 719_468 - 146_096,
        days_since_epoch + 719_468 <= i64::MAX,
    ensures
        date.0 == civil_date(days_since_epoch as int).0 as i32,
        date.1 == civil_date(days_since_epoch as int).1,
        date.2 == civil_date(days_since_epoch as int).2,
{
    let z = days_since_epoch + 719_468;
    let era = if z >= 0 {
        z
    } else {
        z - 146_096
    } / 146_097;
    proof {
        lemma_civil_algorithm(z as int);
    }
    assert(era == z as int / 146_097);
    let doe = z - era * 146_097;
    let yoe = (doe - doe / 1_460 + doe / 36_524 - doe / 146_096) / 365;
    let y = yoe + era * 400;
    let doy = doe - (365 * yoe + yoe / 4 - yoe / 100);
    let mp = (5 * doy + 2) / 153;
    let day = doy - (153 * mp + 2) / 5 + 1;
    let month = mp + if mp < 10 {
        3
    } else {
        -9
    };
    let year = y + if month <= 2 {
        1
    } else {
        0
    };
    proof {
        let w = (year as int, month as int, day as int);
        assert(is_valid_date(w.0, w.1, w.2) && days_from_civil(w.0, w.1, w.2)
            == days_since_epoch);
        let date = civil_date(days_since_epoch as int);
        lemma_days_from_civil_injective(date.0, date.1, date.2, w.0, w.1, w.2);
    }
    (year as i32, month as u32, day as u32)
}

/// Every day count names exactly one valid date: `civil_date` picks it, and counting the
/// days from the epoch to that date gives the count back.
pub proof fn lemma_civil_date_valid(days: int)
    ensures
        is_valid_date(civil_date(days).0, civil_date(days).1, civil_date(days).2),
        days_from_civil(civil_date(days).0, civil_date(days).1, civil_date(days).2) == days,
{
    let z = days + 719468;
    lemma_civil_algorithm(z);
    let era = z / 146097;
    let doe = z - era * 146097;
    let yoe = (doe - doe / 1460 + doe / 36524 - doe / 146096) / 365;
    let y = yoe + era * 400;
    let doy = doe - (365 * yoe + yoe / 4 - yoe / 100);
    let mp = (5 * doy + 2) / 153;
    let day = doy - (153 * mp + 2) / 5 + 1;
    let month = mp + if mp < 10 {
        3int
    } else {
        -9int
    };
    let year = y + if month <= 2 {
        1int
    } else {
        0int
    };
    let w = (year, month, day);
    assert(is_valid_date(w.0, w.1, w.2) && days_from_civil(w.0, w.1, w.2) == days);
}

/// Converting a valid date to its day count and back gives the same date.
pub proof fn lemma_civil_date_of_days_from_civil(year: int, month: int, day: int)
    requires
        is_valid_date(year, month, day),
    ensures
        civil_date(days_from_civil(year, month, day)) == (year, month, day),
{
    let n = days_from_civil(year, month, day);
    lemma_civil_date_valid(n);
    let date = civil_date(n);
    lemma_days_from_civil_injective(date.0, date.1, date.2, year, month, day);
}

/// Later days have later dates: the day count orders valid dates as (year, month, day)
/// are ordered lexicographically.
pub proof fn lemma_days_from_civil_ordered(
    y1: int,
    m1: int,
    d1: int,
    y2: int,
    m2: int,
    d2: int,
)
    requires
        is_valid_date(y1, m1, d1),
        is_valid_date(y2, m2, d2),
        days_from_civil(y1, m1, d1) < days_from_civil(y2, m2, d2),
    ensures
        y1 < y2 || (y1 == y2 && (m1 < m2 || (m1 == m2 && d1 < d2))),
{
    lemma_day_of_year_bounds(y1, m1, d1);
    lemma_day_of_year_bounds(y2, m2, d2);
    if y2 < y1 {
        lemma_days_before_year_increasing(y2, y1);
    } else if y1 == y2 {
        lemma_days_before_month_table(y1, m1);
        lemma_days_before_month_table(y1, m2);
    }
}

/// Day counts from the epoch up to the end of year 9999 fall in the years 1970 ..= 9999.
pub proof fn lemma_civil_year_range(days: int)
    requires
        0 <= days < 2932897,
    ensures
        1970 <= civil_date(days).0 <= 9999,
{
    lemma_civil_date_valid(days);
    let date = civil_date(days);
    lemma_day_of_year_bounds(date.0, date.1, date.2);
    lemma_days_before_year_closed(10000);
    assert(leap_years_before(10000) == 2424);
    assert(leap_years_before(1970) == 477);
    if date.0 > 9999 {
        if date.0 > 10000 {
            lemma_days_before_year_increasing(10000, date.0);
        }
    }
    if date.0 < 1970 {
        lemma_days_before_year_increasing(date.0, 1970);
    }
}

/// The date that follows (`year`, `month`, `day`).
pub open spec fn next_day(year: int, month: int, day: int) -> (int, int, int) {
    if day < days_in_month(year, month) {
        (year, month, day + 1)
    } else if month < 12 {
        (year, month + 1, 1)
    } else {
        (year + 1, 1, 1)
    }
}

/// One more day gives the next date.
pub proof fn lemma_civil_date_successor(days: int)
    ensures
        civil_date(days + 1) == next_day(civil_date(days).0, civil_date(days).1, civil_date(days).2),
{
    lemma_civil_date_valid(days);
    let date = civil_date(days);
    let next = next_day(date.0, date.1, date.2);
    lemma_days_before_month_table(date.0, date.1);
    if date.2 < days_in_month(date.0, date.1) {
    } else if date.1 < 12 {
        lemma_days_before_month_table(date.0, date.1 + 1);
    } else {
        lemma_days_before_year_step(date.0);
        lemma_days_before_month_table(date.0 + 1, 1);
    }
    assert(is_valid_date(next.0, next.1, next.2));
    assert(days_from_civil(next.0, next.1, next.2) == days + 1);
    lemma_civil_date_of_days_from_civil(next.0, next.1, next.2);
}

} // verus!
