//! Calendar bucketing for the aggregation engine.
//!
//! Timestamps are seconds since the Unix epoch (UTC). Each period kind maps a
//! timestamp to a numeric bucket key whose numeric order agrees with
//! chronological order of the periods: hours and days are epoch-relative
//! indices, months and weeks combine the civil year with the month number or
//! the week-of-year number (weeks start on Monday; the days of a year before
//! its first Monday fall in week zero). The presentation layer is free to
//! format a key as a label; the engine only relies on keys being a
//! deterministic, order-preserving function of the timestamp.

use vstd::prelude::*;
use vstd::arithmetic::div_mod::{
    lemma_basic_div, lemma_div_is_ordered, lemma_div_nonincreasing,
    lemma_mod_division_less_than_divisor,
};

verus! {

/// Day index (days since the epoch) of a timestamp.
pub open spec fn spec_day_of(ts: u64) -> int {
    ts as int / 86400
}

/// Civil (year, month, day-of-month) of a day index, proleptic Gregorian
/// calendar in UTC, computed by decomposing the day count into 400-year eras
/// counted from March 1 of year 0. The two guards never take their `else`
/// branch for a real day index; they only keep the function total.
pub open spec fn spec_civil_of_day(day: int) -> (int, int, int) {
    let z = day + 719468;
    let era = z / 146097;
    let doe = z % 146097;
    let a = doe / 1460;
    let b = doe / 36524;
    let c = doe / 146096;
    let yoe = (doe - a + b - c) / 365;
    let y0 = yoe + era * 400;
    let dby = 365 * yoe + yoe / 4 - yoe / 100;
    let doy = if doe >= dby { doe - dby } else { 0 };
    let mp = (5 * doy + 2) / 153;
    let dterm = (153 * mp + 2) / 5;
    let dom = if doy >= dterm { doy - dterm + 1 } else { 1 };
    let m = if mp < 10 { mp + 3 } else { mp - 9 };
    let y = if m <= 2 { y0 + 1 } else { y0 };
    (y, m, dom)
}

/// Day index of January 1 of a civil year (clamped at the epoch; the clamp
/// never fires for years reachable from a `u64` timestamp).
pub open spec fn spec_jan1_day(y: int) -> int {
    let yp = y - 1;
    let era = yp / 400;
    let yoe = yp % 400;
    let doe = 365 * yoe + yoe / 4 - yoe / 100 + 306;
    let z = era * 146097 + doe;
    if z >= 719468 {
        z - 719468
    } else {
        0
    }
}

/// Weekday of a day index, 0 = Sunday (day 0, 1970-01-01, was a Thursday).
pub open spec fn spec_weekday_sun0(day: int) -> int {
    (day + 4) % 7
}

/// Week-of-year with Monday as the first day of a week; days before the
/// year's first Monday are week 0.
pub open spec fn spec_week_of_year(day: int) -> int {
    let y = spec_civil_of_day(day).0;
    let jan1 = spec_jan1_day(y);
    let yday = if day >= jan1 {
        day - jan1
    } else {
        0
    };
    let wd_mon = (spec_weekday_sun0(day) + 6) % 7;
    (yday + 7 - wd_mon) / 7
}

/// Bucket key of the hour containing a timestamp.
pub open spec fn spec_hour_key(ts: u64) -> int {
    ts as int / 3600
}

/// Bucket key of the day containing a timestamp.
pub open spec fn spec_day_key(ts: u64) -> int {
    spec_day_of(ts)
}

/// Bucket key of the week containing a timestamp: year * 100 + week-of-year.
pub open spec fn spec_week_key(ts: u64) -> int {
    let day = spec_day_of(ts);
    spec_civil_of_day(day).0 * 100 + spec_week_of_year(day)
}

/// Bucket key of the month containing a timestamp: year * 100 + month.
pub open spec fn spec_month_key(ts: u64) -> int {
    let day = spec_day_of(ts);
    let cv = spec_civil_of_day(day);
    cv.0 * 100 + cv.1
}

pub fn hour_key(ts: u64) -> (r: u64)
    ensures
        r as int == spec_hour_key(ts),
{
    ts / 3600
}

pub fn day_key(ts: u64) -> (r: u64)
    ensures
        r as int == spec_day_key(ts),
{
    ts / 86400
}

/// Civil (year, month, day-of-month) of a day index.
pub fn civil_of_day(day: u64) -> (r: (u64, u64, u64))
    requires
        day <= 213503982334601,
    ensures
        (r.0 as int, r.1 as int, r.2 as int) == spec_civil_of_day(day as int),
        1600 <= r.0 <= 600_000_000_000,
        r.1 <= 5000,
{
    let z: u64 = day + 719468;
    let era: u64 = z / 146097;
    let doe: u64 = z % 146097;
    proof {
        lemma_mod_division_less_than_divisor(z as int, 146097);
        lemma_div_nonincreasing(z as int, 146097);
        lemma_div_is_ordered(z as int, 213503983054069int, 146097);
        lemma_div_is_ordered(719468, z as int, 146097);
    }
    let a: u64 = doe / 1460;
    let b: u64 = doe / 36524;
    let c: u64 = doe / 146096;
    proof {
        lemma_div_nonincreasing(doe as int, 1460);
        lemma_div_nonincreasing(doe as int, 36524);
        if doe < 146096 {
            lemma_basic_div(doe as int, 146096);
        }
    }
    let yoe: u64 = (doe + b - a - c) / 365;
    proof {
        lemma_div_nonincreasing(doe as int + b as int - a as int - c as int, 365);
        lemma_div_nonincreasing(yoe as int, 4);
        lemma_div_nonincreasing(yoe as int, 100);
    }
    let y0: u64 = yoe + era * 400;
    let dby: u64 = 365 * yoe + yoe / 4 - yoe / 100;
    let doy: u64 = if doe >= dby {
        doe - dby
    } else {
        0
    };
    let mp: u64 = (5 * doy + 2) / 153;
    proof {
        lemma_div_nonincreasing(5 * doy as int + 2, 153);
    }
    let dterm: u64 = (153 * mp + 2) / 5;
    let dom: u64 = if doy >= dterm {
        doy - dterm + 1
    } else {
        1
    };
    let m: u64 = if mp < 10 {
        mp + 3
    } else {
        mp - 9
    };
    let y: u64 = if m <= 2 {
        y0 + 1
    } else {
        y0
    };
    (y, m, dom)
}

/// Day index of January 1 of a civil year.
fn jan1_day(y: u64) -> (r: u64)
    requires
        1 <= y <= 600_000_000_000,
    ensures
        r as int == spec_jan1_day(y as int),
{
    let yp: u64 = y - 1;
    let era: u64 = yp / 400;
    let yoe: u64 = yp % 400;
    proof {
        lemma_mod_division_less_than_divisor(yp as int, 400);
        lemma_div_is_ordered(yp as int, 600_000_000_000, 400);
        lemma_div_nonincreasing(yoe as int, 4);
        lemma_div_nonincreasing(yoe as int, 100);
    }
    let doe: u64 = 365 * yoe + yoe / 4 - yoe / 100 + 306;
    let z: u64 = era * 146097 + doe;
    if z >= 719468 {
        z - 719468
    } else {
        0
    }
}

pub fn week_key(ts: u64) -> (r: u64)
    ensures
        r as int == spec_week_key(ts),
{
    let day: u64 = ts / 86400;
    proof {
        lemma_div_is_ordered(ts as int, u64::MAX as int, 86400);
    }
    let cv = civil_of_day(day);
    let jan1: u64 = jan1_day(cv.0);
    let yday: u64 = if day >= jan1 {
        day - jan1
    } else {
        0
    };
    let wd: u64 = (day + 4) % 7;
    let wd_mon: u64 = (wd + 6) % 7;
    proof {
        lemma_mod_division_less_than_divisor(day as int + 4, 7);
        lemma_mod_division_less_than_divisor(wd as int + 6, 7);
        lemma_div_nonincreasing(yday as int + 7 - wd_mon as int, 7);
    }
    let wk: u64 = (yday + 7 - wd_mon) / 7;
    cv.0 * 100 + wk
}

pub fn month_key(ts: u64) -> (r: u64)
    ensures
        r as int == spec_month_key(ts),
{
    let day: u64 = ts / 86400;
    proof {
        lemma_div_is_ordered(ts as int, u64::MAX as int, 86400);
    }
    let cv = civil_of_day(day);
    cv.0 * 100 + cv.1
}

} // verus!
