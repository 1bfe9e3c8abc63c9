//! The proleptic Gregorian calendar, counted in days from 1970-01-01.

use vstd::prelude::*;

verus! {

/// Whether a year has a 29th of February.
pub open spec fn is_leap(y: int) -> bool {
    y % 4 == 0 && (y % 100 != 0 || y % 400 == 0)
}

/// Days of the year before the first of month `m`.
pub open spec fn days_before_month(leap: bool, m: int) -> int {
    let extra: int = if leap {
        1
    } else {
        0
    };
    if m == 1 {
        0
    } else if m == 2 {
        31
    } else if m == 3 {
        59 + extra
    } else if m == 4 {
        90 + extra
    } else if m == 5 {
        120 + extra
    } else if m == 6 {
        151 + extra
    } else if m == 7 {
        181 + extra
    } else if m == 8 {
        212 + extra
    } else if m == 9 {
        243 + extra
    } else if m == 10 {
        273 + extra
    } else if m == 11 {
        304 + extra
    } else if m == 12 {
        334 + extra
    } else {
        365 + extra
    }
}

/// Days of month `m`.
pub open spec fn days_in_month(y: int, m: int) -> int {
    days_before_month(is_leap(y), m + 1) - days_before_month(is_leap(y), m)
}

/// Days from the first of January of year 1 to that of year `y`.
pub open spec fn days_before_year(y: int) -> int {
    365 * (y - 1) + (y - 1) / 4 - (y - 1) / 100 + (y - 1) / 400
}

pub open spec fn valid_date(y: int, m: int, d: int) -> bool {
    1 <= m <= 12 && 1 <= d <= days_in_month(y, m)
}

/// Days from 1970-01-01 to a date.
pub open spec fn calendar_days(y: int, m: int, d: int) -> int {
    days_before_year(y) - days_before_year(1970) + days_before_month(is_leap(y), m) + d - 1
}

/// Days from 1970-01-01 to a date, reckoned in years that begin in March and
/// eras of 400 years. Months need not be in `1..=12`.
pub open spec fn civil_days(year: int, month: int, day: int) -> int {
    let y = if month <= 2 {
        year - 1
    } else {
        year
    };
    let m = if month <= 2 {
        month + 9
    } else {
        month - 3
    };
    let yoe = y % 400;
    let doy = (153 * m + 2) / 5 + day - 1;
    (y / 400) * 146097 + (yoe * 365 + yoe / 4 - yoe / 100 + doy) - 719468
}

/// Days of an era before its year `yoe`.
pub open spec fn era_year_start(yoe: int) -> int {
    yoe * 365 + yoe / 4 - yoe / 100
}

/// Year of an era in which day `doe` of the era falls.
pub open spec fn year_of_era(doe: int) -> int {
    (doe - doe / 1460 + doe / 36524 - doe / 146096) / 365
}

/// The date that lies the given number of days after 1970-01-01.
pub open spec fn civil_date(days: int) -> (int, int, int) {
    let z = days + 719468;
    let doe = z % 146097;
    let yoe = year_of_era(doe);
    let doy = doe - era_year_start(yoe);
    let mp = (5 * doy + 2) / 153;
    let d = doy - (153 * mp + 2) / 5 + 1;
    let m = if mp < 10 {
        mp + 3
    } else {
        mp - 9
    };
    let y = yoe + (z / 146097) * 400;
    (
        if m <= 2 {
            y + 1
        } else {
            y
        },
        m,
        d,
    )
}

proof fn lemma_year_of_era(doe: int)
    requires
        0 <= doe <= 146096,
    ensures
        0 <= year_of_era(doe) <= 399,
        0 <= doe - era_year_start(year_of_era(doe)) <= 365,
{
    let a = doe / 1460;
    let b = doe / 36524;
    let e = doe / 146096;
    let n = doe - a + b - e;
    let y = n / 365;
    let x = y / 4;
    let w = y / 100;
    assert(0 <= b <= 4);
    if b == 4 {
        assert(doe == 146096);
    } else if b == 0 {
        assert(e == 0);
        assert(0 <= y <= 99);
        assert(w == 0);
    } else if b == 1 {
        assert(e == 0);
        assert(100 <= y <= 199);
        assert(w == 1);
    } else if b == 2 {
        assert(e == 0);
        assert(200 <= y <= 299);
        assert(w == 2);
    } else {
        assert(e == 0);
        assert(300 <= y <= 399);
        assert(w == 3);
    }
}

/// Both ways of reckoning agree on every month.
pub proof fn lemma_civil_is_calendar(y: int, m: int, d: int)
    requires
        1 <= m <= 12,
    ensures
        civil_days(y, m, d) == calendar_days(y, m, d),
{
    let p = y - 1;
    let c = if m <= 2 {
        p
    } else {
        y
    };
    let era = c / 400;
    let yoe = c % 400;
    assert(c == 400 * era + yoe);
    assert(c / 4 == 100 * era + yoe / 4);
    assert(c / 100 == 4 * era + yoe / 100);
    assert(365 * c + c / 4 - c / 100 + c / 400 == 146097 * era + 365 * yoe + yoe / 4 - yoe / 100);
    assert(days_before_year(1970) == 719162);
    if m > 2 {
        lemma_year_length(y);
    }
}

/// Length of a year.
pub proof fn lemma_year_length(y: int)
    ensures
        days_before_year(y + 1) - days_before_year(y) == if is_leap(y) {
            366int
        } else {
            365
        },
{
    lemma_div_step(y, 4);
    lemma_div_step(y, 100);
    lemma_div_step(y, 400);
    if y % 400 == 0 {
        assert(y == 400 * (y / 400));
        assert(y % 100 == 0) by (nonlinear_arith)
            requires
                y == 100 * (4 * (y / 400)),
        ;
    }
    if y % 100 == 0 {
        assert(y == 100 * (y / 100));
        assert(y % 4 == 0) by (nonlinear_arith)
            requires
                y == 4 * (25 * (y / 100)),
        ;
    }
}

/// A quotient grows at the multiples of the divisor.
proof fn lemma_div_step(y: int, k: int)
    requires
        k > 1,
    ensures
        y / k - (y - 1) / k == if y % k == 0 {
            1int
        } else {
            0
        },
{
    let q = y / k;
    let r = y % k;
    vstd::arithmetic::div_mod::lemma_fundamental_div_mod(y, k);
    vstd::arithmetic::div_mod::lemma_mod_bound(y, k);
    if r == 0 {
        assert(y - 1 == (q - 1) * k + (k - 1)) by (nonlinear_arith)
            requires
                y == k * q + r,
                r == 0,
        ;
        vstd::arithmetic::div_mod::lemma_fundamental_div_mod_converse(y - 1, k, q - 1, k - 1);
    } else {
        assert(y - 1 == q * k + (r - 1)) by (nonlinear_arith)
            requires
                y == k * q + r,
        ;
        vstd::arithmetic::div_mod::lemma_fundamental_div_mod_converse(y - 1, k, q, r - 1);
    }
}

/// Month and day of day `doy` of a year that begins in March.
proof fn lemma_month_of_day(doy: int)
    requires
        0 <= doy <= 365,
    ensures
        ({
            let mp = (5 * doy + 2) / 153;
            &&& 0 <= mp <= 11
            &&& (153 * mp + 2) / 5 <= doy
            &&& doy < (153 * (mp + 1) + 2) / 5 || mp == 11
        }),
{
}

/// Every count of days has a date, and the date has that count of days.
pub proof fn lemma_civil_date(days: int)
    ensures
        ({
            let (y, m, d) = civil_date(days);
            valid_date(y, m, d) && civil_days(y, m, d) == days
        }),
{
    let z = days + 719468;
    let era = z / 146097;
    let doe = z % 146097;
    lemma_year_of_era(doe);
    let yoe = year_of_era(doe);
    let doy = doe - era_year_start(yoe);
    lemma_month_of_day(doy);
    let mp = (5 * doy + 2) / 153;
    let (y, m, d) = civil_date(days);
    let c = yoe + era * 400;
    assert(c / 400 == era && c % 400 == yoe);
    if doy == 365 {
        lemma_leap_day(doe);
    }
    if m == 2 {
        assert(y == c + 1);
        assert(is_leap(y) <==> ((yoe + 1) % 4 == 0 && ((yoe + 1) % 100 != 0 || (yoe + 1) % 400
            == 0))) by {
            assert(y == 400 * era + (yoe + 1));
        }
    }
}

/// A year of an era has a 366th day only where it ends in a leap day.
proof fn lemma_leap_day(doe: int)
    requires
        0 <= doe <= 146096,
        doe - era_year_start(year_of_era(doe)) == 365,
    ensures
        ({
            let n = year_of_era(doe) + 1;
            n % 4 == 0 && (n % 100 != 0 || n % 400 == 0)
        }),
{
    let a = doe / 1460;
    let b = doe / 36524;
    let e = doe / 146096;
    let y = year_of_era(doe);
    let x = y / 4;
    let w = y / 100;
    lemma_year_of_era(doe);
    if b == 4 {
        assert(doe == 146096);
    } else if b == 0 {
        assert(w == 0);
    } else if b == 1 {
        assert(w == 1);
    } else if b == 2 {
        assert(w == 2);
    } else {
        assert(w == 3);
    }
}

proof fn lemma_years_ascend(a: int, b: int)
    requires
        a <= b,
    ensures
        days_before_year(a) <= days_before_year(b),
    decreases b - a,
{
    if a < b {
        lemma_years_ascend(a, b - 1);
        lemma_year_length(b - 1);
    }
}

proof fn lemma_day_of_year(y: int, m: int, d: int)
    requires
        valid_date(y, m, d),
    ensures
        0 <= days_before_month(is_leap(y), m) + d - 1 < days_before_year(y + 1) - days_before_year(
            y,
        ),
{
    lemma_year_length(y);
}

/// Different dates have different counts of days.
proof fn lemma_dates_differ(y: int, m: int, d: int, y2: int, m2: int, d2: int)
    requires
        valid_date(y, m, d),
        valid_date(y2, m2, d2),
        calendar_days(y, m, d) == calendar_days(y2, m2, d2),
    ensures
        y == y2 && m == m2 && d == d2,
{
    lemma_day_of_year(y, m, d);
    lemma_day_of_year(y2, m2, d2);
    if y < y2 {
        lemma_years_ascend(y + 1, y2);
    } else if y2 < y {
        lemma_years_ascend(y2 + 1, y);
    }
}

/// Every date comes back from its count of days.
pub proof fn lemma_date_round_trip(y: int, m: int, d: int)
    requires
        valid_date(y, m, d),
    ensures
        civil_date(civil_days(y, m, d)) == (y, m, d),
{
    let n = civil_days(y, m, d);
    let (y2, m2, d2) = civil_date(n);
    lemma_civil_date(n);
    lemma_civil_is_calendar(y, m, d);
    lemma_civil_is_calendar(y2, m2, d2);
    lemma_dates_differ(y, m, d, y2, m2, d2);
}

/// Whether a date is earlier than another: by year, then month, then day.
pub open spec fn earlier(a: (int, int, int), b: (int, int, int)) -> bool {
    a.0 < b.0 || (a.0 == b.0 && (a.1 < b.1 || (a.1 == b.1 && a.2 < b.2)))
}

proof fn lemma_earlier_has_fewer_days(a: (int, int, int), b: (int, int, int))
    requires
        valid_date(a.0, a.1, a.2),
        valid_date(b.0, b.1, b.2),
        earlier(a, b),
    ensures
        calendar_days(a.0, a.1, a.2) < calendar_days(b.0, b.1, b.2),
{
    if a.0 < b.0 {
        lemma_day_of_year(a.0, a.1, a.2);
        lemma_day_of_year(b.0, b.1, b.2);
        lemma_years_ascend(a.0 + 1, b.0);
    } else if a.1 < b.1 {
        lemma_months_ascend(is_leap(a.0), a.1 + 1, b.1);
    }
}

proof fn lemma_months_ascend(leap: bool, m: int, n: int)
    requires
        1 <= m <= n <= 12,
    ensures
        days_before_month(leap, m) <= days_before_month(leap, n),
    decreases n - m,
{
    if m < n {
        lemma_months_ascend(leap, m, n - 1);
    }
}

/// More days after 1970-01-01 make a later date.
pub proof fn lemma_dates_in_order(m: int, n: int)
    requires
        m < n,
    ensures
        earlier(civil_date(m), civil_date(n)),
{
    let a = civil_date(m);
    let b = civil_date(n);
    lemma_civil_date(m);
    lemma_civil_date(n);
    lemma_civil_is_calendar(a.0, a.1, a.2);
    lemma_civil_is_calendar(b.0, b.1, b.2);
    if earlier(b, a) {
        lemma_earlier_has_fewer_days(b, a);
    }
}

/// Days from 1970-01-01 to a date.
pub fn date_to_epoch_days(year: i32, month: u32, day: u32) -> (r: i64)
    requires
        day >= 1 || month != 3,
    ensures
        r == civil_days(year as int, month as int, day as int),
{
    let y: i64 = if month <= 2 {
        year as i64 - 1
    } else {
        year as i64
    };
    let m: i64 = if month <= 2 {
        month as i64 + 9
    } else {
        month as i64 - 3
    };
    let era: i64 = if y >= 0 {
        y / 400
    } else {
        -((399 - y) / 400)
    };
    assert(era == y as int / 400);
    let yoe: i64 = y - era * 400;
    let doy: i64 = (153 * m + 2) / 5 + day as i64 - 1;
    let doe: i64 = yoe * 365 + yoe / 4 - yoe / 100 + doy;
    era * 146097 + doe - 719468
}

/// The year of a day that is not too far off has 32 bits.
pub proof fn lemma_near_year(days: int)
    requires
        -100_000_000_000 <= days <= 100_000_000_000,
    ensures
        i32::MIN <= civil_date(days).0 <= i32::MAX,
{
    lemma_year_of_era((days + 719468) % 146097);
}

/// The date that lies the given number of days after 1970-01-01, where its year
/// has 32 bits.
pub fn epoch_days_to_date(days: i64) -> (r: (i32, u32, u32))
    requires
        i32::MIN <= civil_date(days as int).0 <= i32::MAX,
    ensures
        (r.0 as int, r.1 as int, r.2 as int) == civil_date(days as int),
        valid_date(r.0 as int, r.1 as int, r.2 as int),
{
    proof {
        lemma_civil_date(days as int);
        lemma_year_of_era((days + 719468) % 146097);
        assert(-1_000_000_000_000 <= days <= 1_000_000_000_000);
    }
    let z: i64 = days + 719468;
    let era: i64 = if z >= 0 {
        z / 146097
    } else {
        -((146096 - z) / 146097)
    };
    assert(era == z as int / 146097);
    let doe: i64 = z - era * 146097;
    assert(doe == z as int % 146097);
    proof {
        lemma_year_of_era(doe as int);
    }
    let yoe: i64 = (doe - doe / 1460 + doe / 36524 - doe / 146096) / 365;
    let y: i64 = yoe + era * 400;
    let doy: i64 = doe - (365 * yoe + yoe / 4 - yoe / 100);
    let mp: i64 = (5 * doy + 2) / 153;
    proof {
        lemma_month_of_day(doy as int);
    }
    let d: u32 = (doy - (153 * mp + 2) / 5 + 1) as u32;
    let m: u32 = if mp < 10 {
        (mp + 3) as u32
    } else {
        (mp - 9) as u32
    };
    let year: i32 = if m <= 2 {
        (y + 1) as i32
    } else {
        y as i32
    };
    (year, m, d)
}

} // verus!
