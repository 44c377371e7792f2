//! Civil dates of the Gregorian calendar, by day number.
use vstd::prelude::*;
use crate::text::{
    cat3, cat5, dec_padded, decimal, digits_value, law_zeroes_in_front_are_free,
    lemma_decimal_short, zero_padded,
};

verus! {

pub open spec fn is_leap(y: int) -> bool {
    y % 4 == 0 && (y % 100 != 0 || y % 400 == 0)
}

pub open spec fn days_in_year(y: int) -> int {
    if is_leap(y) {
        366
    } else {
        365
    }
}

pub open spec fn days_in_month(y: int, m: int) -> int {
    if m == 2 {
        if is_leap(y) {
            29
        } else {
            28
        }
    } else if m == 4 || m == 6 || m == 9 || m == 11 {
        30
    } else {
        31
    }
}

/// Days from the first of January 1970 to the first of January of `y`.
pub open spec fn days_before_year(y: int) -> int
    decreases y - 1970,
{
    if y <= 1970 {
        0
    } else {
        days_before_year(y - 1) + days_in_year(y - 1)
    }
}

/// Days from the first of January of `y` to the first of month `m`.
pub open spec fn days_before_month(y: int, m: int) -> int
    decreases m,
{
    if m <= 1 {
        0
    } else {
        days_before_month(y, m - 1) + days_in_month(y, m - 1)
    }
}

/// A date: year, month and day of the month.
pub struct Date {
    pub year: int,
    pub month: int,
    pub day: int,
}

/// A date from 1970 on that the calendar has.
pub open spec fn is_date(d: Date) -> bool {
    d.year >= 1970 && 1 <= d.month <= 12 && 1 <= d.day <= days_in_month(d.year, d.month)
}

/// Days from the first of January 1970 to a date.
pub open spec fn day_number(d: Date) -> int {
    days_before_year(d.year) + days_before_month(d.year, d.month) + d.day - 1
}

/// The date with a day number.
pub open spec fn date_of(days: int) -> Date {
    choose|d: Date| is_date(d) && day_number(d) == days
}

/// The year count of leap days, for years from one on.
spec fn leap_days(y: int) -> int {
    y / 4 - y / 100 + y / 400
}

proof fn lemma_days_before_year(y: int)
    requires
        y >= 1970,
    ensures
        days_before_year(y) == 365 * (y - 1970) + leap_days(y - 1) - 477,
    decreases y,
{
    if y > 1970 {
        lemma_days_before_year(y - 1);
        lemma_leap_step(y - 1);
    }
}

proof fn lemma_leap_step(y: int)
    requires
        y >= 1,
    ensures
        leap_days(y) - leap_days(y - 1) == if is_leap(y) {
            1int
        } else {
            0
        },
{
    assert(y / 4 - (y - 1) / 4 == if y % 4 == 0 {
        1int
    } else {
        0
    });
    assert(y / 100 - (y - 1) / 100 == if y % 100 == 0 {
        1int
    } else {
        0
    });
    assert(y / 400 - (y - 1) / 400 == if y % 400 == 0 {
        1int
    } else {
        0
    });
    assert(y % 400 == 0 ==> y % 100 == 0);
    assert(y % 100 == 0 ==> y % 4 == 0);
}

proof fn lemma_months(y: int, m: int)
    requires
        1 <= m <= 12,
    ensures
        0 <= days_before_month(y, m),
        days_before_month(y, m) + days_in_month(y, m) <= days_in_year(y),
        days_before_month(y, m) == if m == 1 {
            0
        } else if m == 2 {
            31
        } else {
            (if is_leap(y) {
                60int
            } else {
                59
            }) + (153 * (m - 3) + 2) / 5
        },
{
    reveal_with_fuel(days_before_month, 13);
}

proof fn lemma_month_order(y: int, m: int, n: int)
    requires
        1 <= m < n <= 12,
    ensures
        days_before_month(y, m) + days_in_month(y, m) <= days_before_month(y, n),
    decreases n,
{
    if m < n - 1 {
        lemma_month_order(y, m, n - 1);
    }
}

proof fn lemma_year_order(y: int, z: int)
    requires
        1970 <= y < z,
    ensures
        days_before_year(y) + days_in_year(y) <= days_before_year(z),
    decreases z,
{
    if y < z - 1 {
        lemma_year_order(y, z - 1);
    }
}

/// Earlier dates have smaller day numbers.
pub proof fn law_dates_ascend(a: Date, b: Date)
    requires
        is_date(a),
        is_date(b),
        a.year < b.year || (a.year == b.year && (a.month < b.month || (a.month == b.month && a.day
            < b.day))),
    ensures
        day_number(a) < day_number(b),
{
    lemma_months(a.year, a.month);
    lemma_months(b.year, b.month);
    if a.year < b.year {
        lemma_year_order(a.year, b.year);
    } else if a.month < b.month {
        lemma_month_order(a.year, a.month, b.month);
    }
}

/// No two dates share a day number.
pub proof fn law_day_number_determines_date(a: Date, b: Date)
    requires
        is_date(a),
        is_date(b),
        day_number(a) == day_number(b),
    ensures
        a == b,
{
    if a != b {
        if a.year < b.year || (a.year == b.year && (a.month < b.month || (a.month == b.month
            && a.day < b.day))) {
            law_dates_ascend(a, b);
        } else {
            law_dates_ascend(b, a);
        }
    }
}

/// Within an era of four hundred March-based years, the year that holds day `doe`.
proof fn lemma_year_of_era(doe: int, yoe: int)
    requires
        0 <= doe < 146_097,
        yoe == (doe - doe / 1460 + doe / 36_524 - doe / 146_096) / 365,
    ensures
        0 <= yoe < 400,
        365 * yoe + yoe / 4 - yoe / 100 <= doe,
        yoe < 399 ==> doe < 365 * (yoe + 1) + (yoe + 1) / 4 - (yoe + 1) / 100,
{
}

/// Year, month and day of a day number.
pub fn civil_from_days(days: u64) -> (r: (u64, u64, u64))
    requires
        days <= 1_000_000_000_000,
    ensures
        is_date(Date { year: r.0 as int, month: r.1 as int, day: r.2 as int }),
        day_number(Date { year: r.0 as int, month: r.1 as int, day: r.2 as int }) == days,
        date_of(days as int) == (Date { year: r.0 as int, month: r.1 as int, day: r.2 as int }),
{
    let z: u64 = days + 719_468;
    let era: u64 = z / 146_097;
    let doe: u64 = z % 146_097;
    let yoe: u64 = (doe - doe / 1460 + doe / 36_524 - doe / 146_096) / 365;
    proof {
        lemma_year_of_era(doe as int, yoe as int);
    }
    let y: u64 = yoe + era * 400;
    let doy: u64 = doe - (365 * yoe + yoe / 4 - yoe / 100);
    let mp: u64 = (5 * doy + 2) / 153;
    let d: u64 = doy - (153 * mp + 2) / 5 + 1;
    let m: u64 = if mp < 10 {
        mp + 3
    } else {
        mp - 9
    };
    let year: u64 = if m <= 2 {
        y + 1
    } else {
        y
    };
    proof {
        let date = Date { year: year as int, month: m as int, day: d as int };
        lemma_civil(
            days as int,
            era as int,
            doe as int,
            yoe as int,
            doy as int,
            mp as int,
            date,
        );
        law_day_number_determines_date(date_of(days as int), date);
    }
    (year, m, d)
}

proof fn lemma_civil(
    days: int,
    era: int,
    doe: int,
    yoe: int,
    doy: int,
    mp: int,
    date: Date,
)
    requires
        0 <= days,
        era == (days + 719_468) / 146_097,
        doe == (days + 719_468) % 146_097,
        0 <= yoe < 400,
        365 * yoe + yoe / 4 - yoe / 100 <= doe,
        yoe < 399 ==> doe < 365 * (yoe + 1) + (yoe + 1) / 4 - (yoe + 1) / 100,
        doy == doe - (365 * yoe + yoe / 4 - yoe / 100),
        mp == (5 * doy + 2) / 153,
        date.month == if mp < 10 {
            mp + 3
        } else {
            mp - 9
        },
        date.year == yoe + era * 400 + if mp < 10 {
            0int
        } else {
            1
        },
        date.day == doy - (153 * mp + 2) / 5 + 1,
    ensures
        is_date(date),
        day_number(date) == days,
{
    let y = yoe + era * 400;
    assert(y / 4 == yoe / 4 + era * 100);
    assert(y / 100 == yoe / 100 + era * 4);
    assert(y / 400 == era);
    assert((y + 1) / 400 == if yoe == 399 {
        era + 1
    } else {
        era
    });
    assert((y + 1) / 4 == (yoe + 1) / 4 + era * 100);
    assert((y + 1) / 100 == (yoe + 1) / 100 + era * 4);
    // The leap day is the last day of a March-based year.
    assert(0 <= doy <= 365);
    lemma_leap_step(y + 1);
    assert(doy == 365 ==> is_leap(y + 1));
    assert(0 <= mp <= 11);
    assert(1 <= date.day <= 31);
    assert(days + 719_468 == era * 146_097 + doe);
    assert(y >= 1969);
    assert(date.year >= 1970);
    lemma_months(date.year, date.month);
    lemma_days_before_year(date.year);
    assert(leap_days(y) == y / 4 - y / 100 + y / 400);
    assert(days == 365 * y + leap_days(y) + doy - 719_468);
    if mp < 10 {
        lemma_leap_step(y);
        assert(date.day <= days_in_month(date.year, date.month));
    } else {
        assert(date.day <= days_in_month(date.year, date.month));
    }
}

/// `YYYY-MM` of a date.
pub open spec fn month_text(d: Date) -> Seq<char> {
    zero_padded(d.year as nat, 4) + "-"@ + zero_padded(d.month as nat, 2)
}

/// `YYYY-MM-DD` of a date.
pub open spec fn day_text(d: Date) -> Seq<char> {
    zero_padded(d.year as nat, 4) + "-"@ + zero_padded(d.month as nat, 2) + "-"@ + zero_padded(
        d.day as nat,
        2,
    )
}

/// `YYYY-MM` of epoch milliseconds.
pub fn year_month(ts_ms: u64) -> (r: String)
    ensures
        r@ == month_text(date_of(ts_ms as int / 86_400_000)),
{
    let (y, m, _) = civil_from_days(ts_ms / 86_400_000);
    cat3(dec_padded(y as u128, 4).as_str(), "-", dec_padded(m as u128, 2).as_str())
}

/// `YYYY-MM-DD` of epoch milliseconds.
pub fn iso_day(ts_ms: u64) -> (r: String)
    ensures
        r@ == day_text(date_of(ts_ms as int / 86_400_000)),
{
    let (y, m, d) = civil_from_days(ts_ms / 86_400_000);
    cat5(
        dec_padded(y as u128, 4).as_str(),
        "-",
        dec_padded(m as u128, 2).as_str(),
        "-",
        dec_padded(d as u128, 2).as_str(),
    )
}

/// The first day is the first of January 1970, and every date is followed by the next: the
/// day after, or the first of the next month, or of the next year.
pub proof fn law_days_follow_one_another(d: Date)
    requires
        is_date(d),
    ensures
        day_number(Date { year: 1970, month: 1, day: 1 }) == 0,
        ({
            let next = if d.day < days_in_month(d.year, d.month) {
                Date { day: d.day + 1, ..d }
            } else if d.month < 12 {
                Date { year: d.year, month: d.month + 1, day: 1 }
            } else {
                Date { year: d.year + 1, month: 1, day: 1 }
            };
            is_date(next) && day_number(next) == day_number(d) + 1
        }),
{
    reveal_with_fuel(days_before_month, 13);
    reveal_with_fuel(days_before_year, 2);
    if d.month == 12 {
        assert(days_before_month(d.year, 12) + 31 == days_in_year(d.year));
    }
}

/// The lengths of the months, and the leap years: every fourth, but for the centuries that
/// four hundred does not divide.
pub proof fn law_months_and_leap_years(y: int)
    ensures
        days_in_month(y, 1) == 31 && days_in_month(y, 3) == 31 && days_in_month(y, 5) == 31,
        days_in_month(y, 7) == 31 && days_in_month(y, 8) == 31 && days_in_month(y, 10) == 31,
        days_in_month(y, 12) == 31,
        days_in_month(y, 4) == 30 && days_in_month(y, 6) == 30 && days_in_month(y, 9) == 30,
        days_in_month(y, 11) == 30,
        days_in_month(y, 2) == 28 || days_in_month(y, 2) == 29,
        days_in_month(y, 2) == 29 <==> (y % 4 == 0 && y % 100 != 0) || y % 400 == 0,
        days_in_year(y) == 337 + days_in_month(y, 2),
{
    assert(y % 400 == 0 ==> y % 4 == 0);
}

/// A date is read back from its text: four digits or more for the year, two for the month
/// and two for the day, hyphens between them.
pub proof fn law_date_text_reads_back(d: Date)
    requires
        is_date(d),
        d.year < 10_000,
    ensures
        ({
            let t = day_text(d);
            &&& t.len() == 10
            &&& t[4] == '-' && t[7] == '-'
            &&& digits_value(t.take(4)) == d.year
            &&& digits_value(t.subrange(5, 7)) == d.month
            &&& digits_value(t.subrange(8, 10)) == d.day
            &&& month_text(d) == t.take(7)
        }),
{
    reveal_strlit("-");
    let (y, m, k) = (
        zero_padded(d.year as nat, 4),
        zero_padded(d.month as nat, 2),
        zero_padded(d.day as nat, 2),
    );
    law_zeroes_in_front_are_free(d.year as nat, 4);
    law_zeroes_in_front_are_free(d.month as nat, 2);
    law_zeroes_in_front_are_free(d.day as nat, 2);
    lemma_decimal_short(d.year as nat);
    reveal_with_fuel(decimal, 3);
    assert(y.len() == 4 && m.len() == 2 && k.len() == 2);
    let t = day_text(d);
    assert(t.take(4) =~= y);
    assert(t.subrange(5, 7) =~= m);
    assert(t.subrange(8, 10) =~= k);
    assert(month_text(d) =~= t.take(7));
}

} // verus!
