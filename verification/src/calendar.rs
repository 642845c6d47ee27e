//! The civil date of a day, counted from 1970-01-01.

use vstd::arithmetic::div_mod::{lemma_fundamental_div_mod, lemma_fundamental_div_mod_converse};
use vstd::prelude::*;

verus! {

/// Whether a year is a leap year.
pub open spec fn leap(year: int) -> bool {
    year % 4 == 0 && (year % 100 != 0 || year % 400 == 0)
}

/// How many days a year has.
pub open spec fn year_len(year: int) -> int {
    if leap(year) {
        366
    } else {
        365
    }
}

/// How many days a month has.
pub open spec fn month_len(year: int, month: int) -> int {
    if month == 2 {
        if leap(year) {
            29
        } else {
            28
        }
    } else if month == 4 || month == 6 || month == 9 || month == 11 {
        30
    } else {
        31
    }
}

/// How many days lie between 1970-01-01 and the first day of a year.
pub open spec fn days_before_year(year: int) -> int
    decreases year,
{
    if year <= 1970 {
        0
    } else {
        days_before_year(year - 1) + year_len(year - 1)
    }
}

/// How many days of a year lie before a month.
pub open spec fn days_before_month(year: int, month: int) -> int
    decreases month,
{
    if month <= 1 {
        0
    } else {
        days_before_month(year, month - 1) + month_len(year, month - 1)
    }
}

/// A date.
pub struct Date {
    pub year: i64,
    pub month: i64,
    pub day: i64,
}

impl Date {
    /// Whether there is such a day, from 1970 on.
    pub open spec fn valid(self) -> bool {
        &&& self.year >= 1970
        &&& 1 <= self.month <= 12
        &&& 1 <= self.day <= month_len(self.year as int, self.month as int)
    }

    /// How many days lie between 1970-01-01 and this day.
    pub open spec fn number(self) -> int {
        days_before_year(self.year as int) + days_before_month(
            self.year as int,
            self.month as int,
        ) + self.day - 1
    }
}

/// How many leap days there are in the years up to `year`.
spec fn leap_days(year: int) -> int {
    year / 4 - year / 100 + year / 400
}

/// The days before a year, in closed form.
proof fn lemma_days_before_year(year: int)
    requires
        year >= 1970,
    ensures
        days_before_year(year) == 365 * (year - 1970) + leap_days(year - 1) - 477,
    decreases year,
{
    if year > 1970 {
        lemma_days_before_year(year - 1);
        lemma_leap_days(year - 1);
    }
}

/// A year adds a leap day exactly if it is a leap year.
proof fn lemma_leap_days(year: int)
    requires
        year >= 1,
    ensures
        leap_days(year) == leap_days(year - 1) + if leap(year) {
            1int
        } else {
            0
        },
{
    lemma_next_multiple(year, 4);
    lemma_next_multiple(year, 100);
    lemma_next_multiple(year, 400);
    assert(year % 100 == 0 ==> year % 4 == 0);
    assert(year % 400 == 0 ==> year % 100 == 0);
}

/// One number more is one multiple more exactly if it is a multiple.
proof fn lemma_next_multiple(n: int, d: int)
    requires
        n >= 1,
        d > 1,
    ensures
        n / d == (n - 1) / d + if n % d == 0 {
            1int
        } else {
            0
        },
{
    lemma_fundamental_div_mod(n, d);
    let (q, r) = (n / d, n % d);
    if r == 0 {
        assert(n - 1 == (q - 1) * d + (d - 1)) by (nonlinear_arith)
            requires
                n == d * q + r,
                r == 0,
        ;
        lemma_fundamental_div_mod_converse(n - 1, d, q - 1, d - 1);
    } else {
        assert(n - 1 == q * d + (r - 1)) by (nonlinear_arith)
            requires
                n == d * q + r,
        ;
        lemma_fundamental_div_mod_converse(n - 1, d, q, r - 1);
    }
}

/// How many days lie before the year `y` of a span of 400 years that starts with
/// a March.
spec fn span_days(y: int) -> int {
    365 * y + y / 4 - y / 100
}

/// The year of a day in a span of 400 years that starts with a March.
proof fn lemma_year_of_span(doe: int, yoe: int)
    requires
        0 <= doe <= 146_096,
        yoe == (doe - doe / 1460 + doe / 36_524 - doe / 146_096) / 365,
    ensures
        0 <= yoe <= 399,
        span_days(yoe) <= doe,
        yoe < 399 ==> doe < span_days(yoe + 1),
{
    let c = doe / 36_524;
    assert(0 <= c <= 4);
}

/// The month and day of a day in a year that starts with a March.
proof fn lemma_month_of_year(doy: int, mp: int, year: int)
    requires
        0 <= doy <= 365,
        mp == (5 * doy + 2) / 153,
    ensures
        0 <= mp <= 11,
        0 <= doy - (153 * mp + 2) / 5,
        mp < 10 ==> doy - (153 * mp + 2) / 5 + 1 <= month_len(year, mp + 3),
        mp == 10 ==> doy - (153 * mp + 2) / 5 + 1 <= 31,
        mp == 11 ==> doy - (153 * mp + 2) / 5 + 1 == doy - 336,
        mp < 10 ==> days_before_month(year, mp + 3) == 59 + (if leap(year) {
            1int
        } else {
            0
        }) + (153 * mp + 2) / 5,
        mp == 10 ==> (153 * mp + 2) / 5 == 306,
        mp == 11 ==> (153 * mp + 2) / 5 == 337,
{
    reveal_with_fuel(days_before_month, 14);
}

/// The civil date of a day, counted from 1970-01-01. (Howard Hinnant's
/// algorithm: years that start with a March, in spans of 400.)
pub fn civil_date(days: i64) -> (r: Date)
    requires
        0 <= days <= 0x0fff_ffff_ffff_ffff,
    ensures
        r.valid(),
        r.number() == days,
        r.year <= days + 1970,
{
    let z: i64 = days + 719_468;
    let era: i64 = z / 146_097;
    let doe: i64 = z - era * 146_097;
    let yoe: i64 = (doe - doe / 1460 + doe / 36_524 - doe / 146_096) / 365;
    proof {
        lemma_year_of_span(doe as int, yoe as int);
    }
    let doy: i64 = doe - (365 * yoe + yoe / 4 - yoe / 100);
    proof {
        assert(span_days(yoe as int) == 365 * yoe + yoe / 4 - yoe / 100);
        assert(0 <= doy <= 365) by {
            if yoe < 399 {
                assert(doe < span_days(yoe + 1));
                assert((yoe + 1) / 4 <= yoe / 4 + 1);
                assert((yoe + 1) / 100 >= yoe / 100);
            }
        }
    }
    let mp: i64 = (5 * doy + 2) / 153;
    let ghost march_year = yoe + era * 400;
    proof {
        lemma_month_of_year(doy as int, mp as int, march_year);
    }
    let day: i64 = doy - (153 * mp + 2) / 5 + 1;
    let month: i64 = if mp < 10 {
        mp + 3
    } else {
        mp - 9
    };
    let year: i64 = yoe + era * 400 + (if month <= 2 {
        1
    } else {
        0
    });
    let r = Date { year, month, day };
    proof {
        lemma_civil(days as int, era as int, doe as int, yoe as int, doy as int, mp as int, r);
    }
    r
}

/// The date that the algorithm gives is the date of the day.
proof fn lemma_civil(days: int, era: int, doe: int, yoe: int, doy: int, mp: int, r: Date)
    requires
        days >= 0,
        era == (days + 719_468) / 146_097,
        doe == days + 719_468 - era * 146_097,
        yoe == (doe - doe / 1460 + doe / 36_524 - doe / 146_096) / 365,
        doy == doe - span_days(yoe),
        0 <= doy <= 365,
        mp == (5 * doy + 2) / 153,
        r.day == doy - (153 * mp + 2) / 5 + 1,
        r.month == if mp < 10 {
            mp + 3
        } else {
            mp - 9
        },
        r.year == yoe + era * 400 + if mp < 10 {
            0int
        } else {
            1
        },
    ensures
        r.valid(),
        r.number() == days,
        r.year <= days + 1970,
{
    lemma_year_of_span(doe, yoe);
    let y = yoe + era * 400;
    lemma_month_of_year(doy, mp, y);
    assert(era >= 4);
    assert(days == era * 146_097 + span_days(yoe) + doy - 719_468);
    assert(leap_days(y) == era * 97 + yoe / 4 - yoe / 100) by {
        assert(y / 4 == era * 100 + yoe / 4);
        assert(y / 100 == era * 4 + yoe / 100);
        assert(y / 400 == era);
    }
    assert(days == 365 * y + leap_days(y) + doy - 719_468);
    assert(leap_days(y) <= y);
    assert(y >= 1969) by {
        if y < 1969 {
            assert(leap_days(y) <= 477) by {
                assert(y / 4 <= 492);
                assert(y / 100 - y / 400 >= 14) by {
                    assert(y >= 1600);
                }
            }
        }
    }
    if mp < 10 {
        assert(y >= 1970) by {
            if y == 1969 {
                assert(leap_days(1969) == 477);
                assert(doy < 306);
            }
        }
        lemma_days_before_year(y);
        lemma_leap_days(y);
    } else {
        lemma_days_before_year(y + 1);
        reveal_with_fuel(days_before_month, 3);
        if mp == 11 {
            lemma_leap_days(y + 1);
            assert(r.day <= month_len(y + 1, 2)) by {
                assert(r.day == doy - 336);
                if yoe < 399 {
                    assert(doe < span_days(yoe + 1));
                    assert(leap_days(y + 1) == era * 97 + (yoe + 1) / 4 - (yoe + 1) / 100 + if yoe
                        + 1 == 400 {
                        1int
                    } else {
                        0
                    }) by {
                        assert((y + 1) / 4 == era * 100 + (yoe + 1) / 4);
                        assert((y + 1) / 100 == era * 4 + (yoe + 1) / 100);
                        assert((y + 1) / 400 == era);
                    }
                } else {
                    assert(doe <= 146_096);
                    assert(span_days(399) == 145_731);
                    assert(y + 1 == (era + 1) * 400);
                    assert(leap(y + 1));
                }
            }
        }
    }
}

/// A day has one date only.
pub proof fn law_a_day_has_one_date(a: Date, b: Date)
    requires
        a.valid(),
        b.valid(),
        a.number() == b.number(),
    ensures
        a == b,
{
    lemma_in_year(a.year as int, a.month as int, a.day as int);
    lemma_in_year(b.year as int, b.month as int, b.day as int);
    if a.year < b.year {
        lemma_years_add_up(a.year + 1, b.year as int);
    } else if b.year < a.year {
        lemma_years_add_up(b.year + 1, a.year as int);
    }
    if a.month < b.month {
        lemma_months_add_up(a.year as int, a.month + 1, b.month as int);
    } else if b.month < a.month {
        lemma_months_add_up(a.year as int, b.month + 1, a.month as int);
    }
}

/// Every day of a year lies before the next one.
proof fn lemma_in_year(year: int, month: int, day: int)
    requires
        year >= 1970,
        1 <= month <= 12,
        1 <= day <= month_len(year, month),
    ensures
        days_before_year(year) <= days_before_year(year) + days_before_month(year, month) + day - 1
            < days_before_year(year + 1),
{
    reveal_with_fuel(days_before_month, 14);
}

/// Later years start later.
proof fn lemma_years_add_up(a: int, b: int)
    requires
        1970 <= a <= b,
    ensures
        days_before_year(a) <= days_before_year(b),
    decreases b,
{
    if a < b {
        lemma_years_add_up(a, b - 1);
    }
}

/// Later months start later.
proof fn lemma_months_add_up(year: int, a: int, b: int)
    requires
        1 <= a <= b,
    ensures
        days_before_month(year, a) <= days_before_month(year, b),
    decreases b,
{
    if a < b {
        lemma_months_add_up(year, a, b - 1);
    }
}

/// Days are counted as the calendar has them: a year is 365 days and one more each
/// fourth year, but not each hundredth unless it is a four hundredth, and the
/// months are of their lengths.
pub proof fn law_days_are_counted_as_they_pass(date: Date)
    requires
        date.valid(),
    ensures
        ({
            let y = date.year as int;
            let before = y - 1;
            let leap_year = y % 4 == 0 && y % 100 != 0 || y % 400 == 0;
            let months = seq![0int, 31, 59, 90, 120, 151, 181, 212, 243, 273, 304, 334, 365];
            let last = months[date.month as int] - months[date.month - 1] + if date.month == 2
                && leap_year {
                1int
            } else {
                0
            };
            &&& date.number() == 365 * (y - 1970) + before / 4 - before / 100 + before / 400 - 477
                + months[date.month - 1] + (if date.month > 2 && leap_year {
                1int
            } else {
                0
            }) + date.day - 1
            &&& date.day <= last
        }),
{
    lemma_days_before_year(date.year as int);
    reveal_with_fuel(days_before_month, 14);
    let y = date.year as int;
    assert(y % 400 == 0 ==> y % 4 == 0);
    let months = seq![0int, 31, 59, 90, 120, 151, 181, 212, 243, 273, 304, 334, 365];
    assert(months[0] == 0 && months[1] == 31 && months[2] == 59 && months[3] == 90 && months[4]
        == 120 && months[5] == 151 && months[6] == 181 && months[7] == 212 && months[8] == 243
        && months[9] == 273 && months[10] == 304 && months[11] == 334 && months[12] == 365);
}

} // verus!
