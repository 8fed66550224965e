//! Calendar dates from epoch seconds.

use crate::number::fixed::{last_digits, push_last_digits};
use crate::text::{decimal, push_decimal};
use vstd::prelude::*;

verus! {

/// Whether a year of the Gregorian calendar is a leap year.
pub open spec fn is_leap(year: int) -> bool {
    year % 4 == 0 && (year % 100 != 0 || year % 400 == 0)
}

/// The number of days of a month.
pub open spec fn month_length(year: int, month: int) -> int {
    if month == 2 {
        if is_leap(year) {
            29
        } else {
            28
        }
    } else if month == 4 || month == 6 || month == 9 || month == 11 {
        30
    } else {
        31
    }
}

/// The days of a year before a month.
pub open spec fn days_before_month(year: int, month: int) -> int
    decreases month,
{
    if month <= 1 {
        0
    } else {
        days_before_month(year, month - 1) + month_length(year, month - 1)
    }
}

/// The days from the start of year 0 to the start of a year.
pub open spec fn days_before_year(year: int) -> int {
    365 * year + (year + 3) / 4 - (year + 99) / 100 + (year + 399) / 400
}

/// Whether a date exists in the proleptic Gregorian calendar.
pub open spec fn is_date(year: int, month: int, day: int) -> bool {
    1 <= month <= 12 && 1 <= day <= month_length(year, month)
}

/// The days from 1970-01-01 to a date.
pub open spec fn day_number(year: int, month: int, day: int) -> int {
    days_before_year(year) + days_before_month(year, month) + day - 1 - 719_528
}

/// Each year is as long as its months are together.
pub proof fn law_years_follow_each_other(year: int)
    ensures
        days_before_year(year + 1) == days_before_year(year) + days_before_month(year, 13),
{
    lemma_march(year);
    lemma_months(year);
    assert(days_before_month(year, 13) == days_before_month(year, 12) + 31);
}

proof fn lemma_months(year: int)
    ensures
        days_before_month(year, 1) == 0,
        days_before_month(year, 2) == 31,
        days_before_month(year, 3) == 59 + (if is_leap(year) {
            1int
        } else {
            0int
        }),
        days_before_month(year, 4) == days_before_month(year, 3) + 31,
        days_before_month(year, 5) == days_before_month(year, 3) + 61,
        days_before_month(year, 6) == days_before_month(year, 3) + 92,
        days_before_month(year, 7) == days_before_month(year, 3) + 122,
        days_before_month(year, 8) == days_before_month(year, 3) + 153,
        days_before_month(year, 9) == days_before_month(year, 3) + 184,
        days_before_month(year, 10) == days_before_month(year, 3) + 214,
        days_before_month(year, 11) == days_before_month(year, 3) + 245,
        days_before_month(year, 12) == days_before_month(year, 3) + 275,
{
    reveal_with_fuel(days_before_month, 13);
}

/// The days from the start of year 0 to the first of March of a year.
spec fn days_before_march(year: int) -> int {
    365 * year + year / 4 - year / 100 + year / 400 + 60
}

proof fn lemma_march(year: int)
    ensures
        days_before_year(year) + days_before_month(year, 3) == days_before_march(year),
        days_before_year(year + 1) == days_before_march(year) + 306,
{
    lemma_months(year);
    assert((year + 3) / 4 == year / 4 + (if year % 4 == 0 {
        0int
    } else {
        1int
    }));
    assert((year + 99) / 100 == year / 100 + (if year % 100 == 0 {
        0int
    } else {
        1int
    }));
    assert((year + 399) / 400 == year / 400 + (if year % 400 == 0 {
        0int
    } else {
        1int
    }));
    assert((year + 4) / 4 == year / 4 + 1);
    assert((year + 100) / 100 == year / 100 + 1);
    assert((year + 400) / 400 == year / 400 + 1);
}

/// The year and the day of a day within 400 years that start in March.
fn year_of_era(doe: i64) -> (r: (i64, i64))
    requires
        0 <= doe < 146_097,
    ensures
        0 <= r.0 <= 399,
        0 <= r.1 <= 365,
        doe == 365 * r.0 + r.0 as int / 4 - r.0 as int / 100 + r.1,
        r.1 == 365 ==> is_leap(r.0 + 1),
{
    let century: i64 = if doe / 36_524 > 3 {
        3
    } else {
        doe / 36_524
    };
    let in_century: i64 = doe - century * 36_524;
    let quad: i64 = in_century / 1461;
    let in_quad: i64 = in_century - quad * 1461;
    let single: i64 = if in_quad / 365 > 3 {
        3
    } else {
        in_quad / 365
    };
    let year: i64 = 100 * century + 4 * quad + single;
    let day: i64 = in_quad - single * 365;
    proof {
        assert(0 <= quad <= 24);
        assert(0 <= 4 * quad + single <= 99);
        assert(year as int / 100 == century);
        assert(year as int / 4 == 25 * century + quad);
        if day == 365 {
            assert(single == 3);
            assert((year + 1) % 4 == 0);
            if quad == 24 {
                assert(century == 3);
            } else {
                assert((year + 1) % 100 != 0);
            }
        }
    }
    (year, day)
}

/// The month, from March on, and the day of a day within a year that starts in March.
fn month_of_year(doy: i64) -> (r: (i64, i64))
    requires
        0 <= doy <= 365,
    ensures
        3 <= r.0 <= 14,
        1 <= r.1 <= 31,
        r.0 == 4 || r.0 == 6 || r.0 == 9 || r.0 == 11 ==> r.1 <= 30,
        doy == r.1 - 1 + days_from_march(r.0 as int),
{
    let mp: i64 = (5 * doy + 2) / 153;
    let day: i64 = doy - (153 * mp + 2) / 5 + 1;
    assert(0 <= mp <= 11);
    (mp + 3, day)
}

/// Every 400 years the calendar comes round.
proof fn lemma_era_years(era: int, yoe: int)
    requires
        0 <= yoe <= 399,
    ensures
        days_before_march(yoe + era * 400) == 146_097 * era + 365 * yoe + yoe / 4 - yoe / 100 + 60,
        is_leap(yoe + era * 400 + 1) == is_leap(yoe + 1),
{
    let y = yoe + era * 400;
    assert(y / 4 == 100 * era + yoe / 4);
    assert(y / 100 == 4 * era + yoe / 100);
    assert(y / 400 == era);
    assert((y + 1) % 4 == (yoe + 1) % 4);
    assert((y + 1) % 100 == (yoe + 1) % 100);
    assert((y + 1) % 400 == (yoe + 1) % 400);
}

/// The days of a year that starts in March before a month.
spec fn days_from_march(month: int) -> int {
    if month == 3 {
        0
    } else if month == 4 {
        31
    } else if month == 5 {
        61
    } else if month == 6 {
        92
    } else if month == 7 {
        122
    } else if month == 8 {
        153
    } else if month == 9 {
        184
    } else if month == 10 {
        214
    } else if month == 11 {
        245
    } else if month == 12 {
        275
    } else if month == 13 {
        306
    } else {
        337
    }
}

/// The number of a day by its place in a year that starts in March.
proof fn lemma_day_number(y: int, month: int, day: int, doy: int)
    requires
        3 <= month <= 14,
        1 <= day <= 31,
        month == 4 || month == 6 || month == 9 || month == 11 ==> day <= 30,
        0 <= doy <= 365,
        doy == day - 1 + days_from_march(month),
        doy == 365 ==> is_leap(y + 1),
    ensures
        month <= 12 ==> is_date(y, month, day) && day_number(y, month, day) == days_before_march(y) + doy - 719_528,
        month > 12 ==> is_date(y + 1, month - 12, day) && day_number(y + 1, month - 12, day) == days_before_march(y) + doy
            - 719_528,
{
    lemma_march(y);
    if month <= 12 {
        lemma_months(y);
    } else {
        lemma_months(y + 1);
    }
}

/// Civil date from a count of days since 1970-01-01.
pub fn civil_from_days(days: i64) -> (r: (i64, u32, u32))
    requires
        days + 719_468 <= i64::MAX,
    ensures
        is_date(r.0 as int, r.1 as int, r.2 as int),
        day_number(r.0 as int, r.1 as int, r.2 as int) == days,
        -0x1000_0000_0000_0000 <= r.0 <= 0x1000_0000_0000_0000,
{
    let z: i64 = days + 719_468;
    let era: i64 = if z >= 0 {
        z / 146_097
    } else {
        -1 - (-1 - z) / 146_097
    };
    let doe: i64 = z - era * 146_097;
    assert(0 <= doe < 146_097);
    let (yoe, doy): (i64, i64) = year_of_era(doe);
    let (march_month, day): (i64, i64) = month_of_year(doy);
    let y: i64 = yoe + era * 400;
    let (year, month): (i64, i64) = if march_month > 12 {
        (y + 1, march_month - 12)
    } else {
        (y, march_month)
    };
    proof {
        lemma_era_years(era as int, yoe as int);
        lemma_day_number(y as int, march_month as int, day as int, doy as int);
    }
    (year, month as u32, day as u32)
}

/// A year in at least four characters, the minus sign counted.
pub open spec fn year_text(year: int) -> Seq<char> {
    if year < 0 {
        if year > -1000 {
            seq!['-'] + last_digits((-year) as nat, 3)
        } else {
            seq!['-'] + decimal((-year) as nat)
        }
    } else if year < 1000 {
        last_digits(year as nat, 4)
    } else {
        decimal(year as nat)
    }
}

/// `YYYY-MM-DD`.
pub open spec fn date_text(year: int, month: int, day: int) -> Seq<char> {
    year_text(year).push('-') + last_digits(month as nat, 2).push('-') + last_digits(day as nat, 2)
}

/// Whether a text is the date, in UTC, of a time in epoch seconds.
pub open spec fn is_date_of(text: Seq<char>, seconds: int) -> bool {
    exists|year: int, month: int, day: int| #[trigger]
        is_date(year, month, day) && day_number(year, month, day) == seconds / 86_400 && text == date_text(
            year,
            month,
            day,
        )
}

/// The date of a timestamp; empty for no timestamp.
pub open spec fn date_of(seconds: int) -> Seq<char> {
    if seconds == 0 {
        seq![]
    } else {
        choose|text: Seq<char>| is_date_of(text, seconds)
    }
}

/// A time has one date.
pub proof fn law_each_time_has_one_date(seconds: int, a: Seq<char>, b: Seq<char>)
    requires
        is_date_of(a, seconds),
        is_date_of(b, seconds),
    ensures
        a == b,
{
    let (y1, m1, d1) = choose|year: int, month: int, day: int| #[trigger]
        is_date(year, month, day) && day_number(year, month, day) == seconds / 86_400 && a == date_text(
            year,
            month,
            day,
        );
    let (y2, m2, d2) = choose|year: int, month: int, day: int| #[trigger]
        is_date(year, month, day) && day_number(year, month, day) == seconds / 86_400 && b == date_text(
            year,
            month,
            day,
        );
    law_each_day_has_one_date(y1, m1, d1, y2, m2, d2);
}

/// Formats an epoch timestamp as `YYYY-MM-DD` in UTC, or `""` for no timestamp.
pub fn format_date(added_ts: i64) -> (r: String)
    ensures
        r@ == date_of(added_ts as int),
        added_ts == 0 ==> r@.len() == 0,
        added_ts != 0 ==> is_date_of(r@, added_ts as int),
{
    let mut out: String = String::new();
    if added_ts == 0 {
        assert(out@ =~= seq![]);
        return out;
    }
    let days: i64 = if added_ts >= 0 {
        added_ts / 86_400
    } else {
        -1 - (-1 - added_ts) / 86_400
    };
    assert(days == added_ts as int / 86_400);
    let (year, month, day): (i64, u32, u32) = civil_from_days(days);
    if year < 0 {
        out.push('-');
        if year > -1000 {
            push_last_digits(&mut out, (-year) as u128, 3);
        } else {
            push_decimal(&mut out, (-year) as u64);
        }
    } else if year < 1000 {
        push_last_digits(&mut out, year as u128, 4);
    } else {
        push_decimal(&mut out, year as u64);
    }
    assert(out@ =~= year_text(year as int));
    out.push('-');
    push_last_digits(&mut out, month as u128, 2);
    out.push('-');
    push_last_digits(&mut out, day as u128, 2);
    assert(out@ =~= date_text(year as int, month as int, day as int));
    assert(is_date(year as int, month as int, day as int));
    proof {
        assert(is_date_of(out@, added_ts as int));
        law_each_time_has_one_date(added_ts as int, out@, date_of(added_ts as int));
    }
    out
}

proof fn lemma_years_grow(a: int, b: int)
    requires
        a <= b,
    ensures
        days_before_year(a) + 365 * (b - a) <= days_before_year(b),
    decreases b - a,
{
    if a < b {
        lemma_years_grow(a, b - 1);
        law_years_follow_each_other(b - 1);
        lemma_months(b - 1);
        reveal_with_fuel(days_before_month, 2);
        assert(days_before_month(b - 1, 13) == days_before_month(b - 1, 12) + 31);
    }
}

proof fn lemma_months_grow(year: int, a: int, b: int)
    requires
        1 <= a <= b <= 13,
    ensures
        days_before_month(year, a) <= days_before_month(year, b),
        a < b ==> days_before_month(year, a) + month_length(year, a) <= days_before_month(year, b),
    decreases b - a,
{
    if a < b {
        lemma_months_grow(year, a, b - 1);
    }
}

/// Dates are numbered one by one: two dates with one number are one date.
pub proof fn law_each_day_has_one_date(y1: int, m1: int, d1: int, y2: int, m2: int, d2: int)
    requires
        is_date(y1, m1, d1),
        is_date(y2, m2, d2),
        day_number(y1, m1, d1) == day_number(y2, m2, d2),
    ensures
        y1 == y2 && m1 == m2 && d1 == d2,
{
    lemma_months_grow(y1, m1, 13);
    lemma_months_grow(y2, m2, 13);
    lemma_months_grow(y1, 1, m1);
    lemma_months_grow(y2, 1, m2);
    law_years_follow_each_other(y1);
    law_years_follow_each_other(y2);
    if y1 < y2 {
        lemma_years_grow(y1 + 1, y2);
    } else if y2 < y1 {
        lemma_years_grow(y2 + 1, y1);
    } else if m1 < m2 {
        lemma_months_grow(y1, m1, m2);
    } else if m2 < m1 {
        lemma_months_grow(y1, m2, m1);
    }
}

} // verus!
