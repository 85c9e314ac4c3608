//! The proleptic Gregorian calendar on plain integers.
//!
//! `Date` is the mathematical model of a calendar date. The executable
//! functions work on `(year, month, day)` triples of machine integers and are
//! proved against the model.

use vstd::prelude::*;

verus! {

/// A multiple of 400 that lifts every `i32` year to a positive number.
const YEAR_SHIFT: i64 = 2_147_484_000;

/// The number of days in `YEAR_SHIFT` years (whole 400-year cycles).
const DAY_SHIFT: i64 = 784_352_424_870;

/// Whether `year` is a leap year.
pub open spec fn is_leap_year(year: int) -> bool {
    year % 4 == 0 && (year % 100 != 0 || year % 400 == 0)
}

/// The number of days of `month` in `year`; 0 when `month` is not 1..=12.
pub open spec fn days_in_month(year: int, month: int) -> int {
    if month == 2 {
        if is_leap_year(year) {
            29
        } else {
            28
        }
    } else if month == 4 || month == 6 || month == 9 || month == 11 {
        30
    } else if 1 <= month <= 12 {
        31
    } else {
        0
    }
}

/// The number of days between January 1st of year 1 and January 1st of `year`.
pub open spec fn days_before_year(year: int) -> int {
    365 * (year - 1) + (year - 1) / 4 - (year - 1) / 100 + (year - 1) / 400
}

/// The number of days of a common year that precede `month`.
pub open spec fn common_days_before_month(month: int) -> int {
    if month <= 1 {
        0
    } else if month == 2 {
        31
    } else if month == 3 {
        59
    } else if month == 4 {
        90
    } else if month == 5 {
        120
    } else if month == 6 {
        151
    } else if month == 7 {
        181
    } else if month == 8 {
        212
    } else if month == 9 {
        243
    } else if month == 10 {
        273
    } else if month == 11 {
        304
    } else {
        334
    }
}

/// The number of days of `year` that precede `month`.
pub open spec fn days_before_month(year: int, month: int) -> int {
    common_days_before_month(month) + if month > 2 && is_leap_year(year) {
        1int
    } else {
        0int
    }
}

/// A calendar date as a mathematical value.
pub struct Date {
    pub year: int,
    pub month: int,
    pub day: int,
}

impl Date {
    /// The date exists in the calendar.
    pub open spec fn is_civil(self) -> bool {
        1 <= self.month <= 12 && 1 <= self.day <= days_in_month(self.year, self.month)
    }

    /// The date's position on the day line: January 1st of year 1 is day 1.
    pub open spec fn day_number(self) -> int {
        days_before_year(self.year) + days_before_month(self.year, self.month) + self.day
    }

    /// The day after.
    pub open spec fn succ(self) -> Date {
        if self.day < days_in_month(self.year, self.month) {
            Date { year: self.year, month: self.month, day: self.day + 1 }
        } else if self.month < 12 {
            Date { year: self.year, month: self.month + 1, day: 1 }
        } else {
            Date { year: self.year + 1, month: 1, day: 1 }
        }
    }

    /// The day before.
    pub open spec fn pred(self) -> Date {
        if self.day > 1 {
            Date { year: self.year, month: self.month, day: self.day - 1 }
        } else if self.month > 1 {
            Date {
                year: self.year,
                month: self.month - 1,
                day: days_in_month(self.year, self.month - 1),
            }
        } else {
            Date { year: self.year - 1, month: 12, day: 31 }
        }
    }

    /// Calendar order: by year, then month, then day.
    pub open spec fn is_before(self, other: Date) -> bool {
        self.year < other.year || (self.year == other.year && (self.month < other.month || (
        self.month == other.month && self.day < other.day)))
    }

    /// The last day of the date's month.
    pub open spec fn month_end(self) -> Date {
        Date { year: self.year, month: self.month, day: days_in_month(self.year, self.month) }
    }
}

/// A year has 365 days, or 366 when it is a leap year.
pub proof fn lemma_year_length(year: int)
    ensures
        days_before_year(year + 1) - days_before_year(year) == if is_leap_year(year) {
            366int
        } else {
            365int
        },
{
    assert(year / 4 - (year - 1) / 4 == if year % 4 == 0 {
        1int
    } else {
        0int
    });
    assert(year / 100 - (year - 1) / 100 == if year % 100 == 0 {
        1int
    } else {
        0int
    });
    assert(year / 400 - (year - 1) / 400 == if year % 400 == 0 {
        1int
    } else {
        0int
    });
    assert(year % 400 == 0 ==> year % 100 == 0);
    assert(year % 100 == 0 ==> year % 4 == 0);
}

/// A month starts where the month before it ends.
pub proof fn lemma_month_length(year: int, month: int)
    requires
        1 <= month <= 12,
    ensures
        days_before_month(year, month) + days_in_month(year, month) == if month < 12 {
            days_before_month(year, month + 1)
        } else {
            days_before_year(year + 1) - days_before_year(year)
        },
{
    lemma_year_length(year);
}

/// The day after a calendar date is a calendar date, one further on the day
/// line, and the day before it is the date itself.
pub proof fn lemma_succ(d: Date)
    requires
        d.is_civil(),
    ensures
        d.succ().is_civil(),
        d.succ().day_number() == d.day_number() + 1,
        d.succ().pred() == d,
        d.is_before(d.succ()),
{
    lemma_month_length(d.year, d.month);
}

/// The day before a calendar date is a calendar date, one back on the day
/// line, and the day after it is the date itself.
pub proof fn lemma_pred(d: Date)
    requires
        d.is_civil(),
    ensures
        d.pred().is_civil(),
        d.pred().day_number() == d.day_number() - 1,
        d.pred().succ() == d,
        d.pred().is_before(d),
{
    if d.day == 1 {
        if d.month > 1 {
            lemma_month_length(d.year, d.month - 1);
        } else {
            lemma_month_length(d.year - 1, 12);
        }
    }
}

/// Later years start later on the day line, by at least 365 days a year.
pub proof fn lemma_years_grow(y1: int, y2: int)
    requires
        y1 <= y2,
    ensures
        days_before_year(y2) - days_before_year(y1) >= 365 * (y2 - y1),
    decreases y2 - y1,
{
    if y1 < y2 {
        lemma_years_grow(y1, y2 - 1);
        lemma_year_length(y2 - 1);
    }
}

/// Calendar order is the order of the day line.
pub proof fn lemma_day_number_order(a: Date, b: Date)
    requires
        a.is_civil(),
        b.is_civil(),
    ensures
        a.is_before(b) <==> a.day_number() < b.day_number(),
        a == b <==> a.day_number() == b.day_number(),
{
    lemma_within_year(a);
    lemma_within_year(b);
    if a.year < b.year {
        lemma_years_grow(a.year + 1, b.year);
        lemma_year_length(a.year);
    } else if b.year < a.year {
        lemma_years_grow(b.year + 1, a.year);
        lemma_year_length(b.year);
    }
}

/// A calendar date lies within its year, and months do not overlap.
proof fn lemma_within_year(d: Date)
    requires
        d.is_civil(),
    ensures
        1 <= days_before_month(d.year, d.month) + d.day <= days_before_year(d.year + 1)
            - days_before_year(d.year),
        d.month < 12 ==> days_before_month(d.year, d.month) + d.day <= days_before_month(
            d.year,
            d.month + 1,
        ),
        forall|m: int|
            d.month < m <= 12 ==> days_before_month(d.year, d.month) + d.day
                <= #[trigger] days_before_month(d.year, m),
{
    lemma_year_length(d.year);
}

/// Whether `year` is a leap year.
pub fn is_leap(year: i32) -> (r: bool)
    ensures
        r == is_leap_year(year as int),
{
    let y: i64 = year as i64 + YEAR_SHIFT;
    y % 4 == 0 && (y % 100 != 0 || y % 400 == 0)
}

/// The number of days of `month` in `year`; 0 when `month` is not 1..=12.
pub fn month_length(year: i32, month: u32) -> (r: u32)
    ensures
        r as int == days_in_month(year as int, month as int),
{
    if month == 2 {
        if is_leap(year) {
            29
        } else {
            28
        }
    } else if month == 4 || month == 6 || month == 9 || month == 11 {
        30
    } else if 1 <= month && month <= 12 {
        31
    } else {
        0
    }
}

/// Whether `(year, month, day)` is a date of the calendar.
pub fn is_civil_date(year: i32, month: u32, day: u32) -> (r: bool)
    ensures
        r == (Date { year: year as int, month: month as int, day: day as int }).is_civil(),
{
    1 <= month && month <= 12 && 1 <= day && day <= month_length(year, month)
}

/// Four hundred years are 146097 days.
proof fn lemma_cycle(year: int)
    ensures
        days_before_year(year + 400) == days_before_year(year) + 146097,
        is_leap_year(year + 400) == is_leap_year(year),
{
    let x = year - 1;
    assert((x + 400) / 4 == x / 4 + 100);
    assert((x + 400) / 100 == x / 100 + 4);
    assert((x + 400) / 400 == x / 400 + 1);
    assert((year + 400) % 4 == year % 4);
    assert((year + 400) % 100 == year % 100);
    assert((year + 400) % 400 == year % 400);
}

/// `cycles` times four hundred years are `cycles` times 146097 days.
proof fn lemma_cycles(year: int, cycles: nat)
    ensures
        days_before_year(year + 400 * cycles) == days_before_year(year) + 146097 * cycles,
    decreases cycles,
{
    if cycles > 0 {
        lemma_cycles(year, (cycles - 1) as nat);
        lemma_cycle(year + 400 * (cycles - 1));
    }
}

/// The number of days between January 1st of year 1 and January 1st of `year`.
fn year_start(year: i32) -> (r: i64)
    ensures
        r as int == days_before_year(year as int),
{
    let y: i64 = year as i64 + YEAR_SHIFT - 1;
    proof {
        lemma_cycles(year as int, 5_368_710);
    }
    365 * y + y / 4 - y / 100 + y / 400 - DAY_SHIFT
}

/// The number of days of `year` that precede `month`.
fn month_start(year: i32, month: u32) -> (r: i64)
    ensures
        r as int == days_before_month(year as int, month as int),
        0 <= r <= 335,
{
    let common: i64 = if month <= 1 {
        0
    } else if month == 2 {
        31
    } else if month == 3 {
        59
    } else if month == 4 {
        90
    } else if month == 5 {
        120
    } else if month == 6 {
        151
    } else if month == 7 {
        181
    } else if month == 8 {
        212
    } else if month == 9 {
        243
    } else if month == 10 {
        273
    } else if month == 11 {
        304
    } else {
        334
    };
    if month > 2 && is_leap(year) {
        common + 1
    } else {
        common
    }
}

/// The position of a date on the day line.
pub fn day_number(year: i32, month: u32, day: u32) -> (r: i64)
    ensures
        r as int == (Date { year: year as int, month: month as int, day: day as int }).day_number(),
{
    let before_year: i64 = year_start(year);
    assert(-784_352_424_870 <= before_year <= 784_352_424_870) by {
        lemma_year_start_bound(year as int);
    }
    before_year + month_start(year, month) + day as i64
}

/// Where the years of the machine's range start on the day line.
proof fn lemma_year_start_bound(year: int)
    requires
        i32::MIN <= year <= i32::MAX,
    ensures
        -784_352_424_870 <= days_before_year(year) <= 784_352_424_870,
{
}

/// The day after `(year, month, day)`.
pub fn next_day(year: i32, month: u32, day: u32) -> (r: (i32, u32, u32))
    requires
        (Date { year: year as int, month: month as int, day: day as int }).is_civil(),
        year < i32::MAX,
    ensures
        (Date { year: r.0 as int, month: r.1 as int, day: r.2 as int }) == (Date {
            year: year as int,
            month: month as int,
            day: day as int,
        }).succ(),
{
    if day < month_length(year, month) {
        (year, month, day + 1)
    } else if month < 12 {
        (year, month + 1, 1)
    } else {
        (year + 1, 1, 1)
    }
}

/// The day before `(year, month, day)`.
pub fn previous_day(year: i32, month: u32, day: u32) -> (r: (i32, u32, u32))
    requires
        (Date { year: year as int, month: month as int, day: day as int }).is_civil(),
        year > i32::MIN,
    ensures
        (Date { year: r.0 as int, month: r.1 as int, day: r.2 as int }) == (Date {
            year: year as int,
            month: month as int,
            day: day as int,
        }).pred(),
{
    if day > 1 {
        (year, month, day - 1)
    } else if month > 1 {
        (year, month - 1, month_length(year, month - 1))
    } else {
        (year - 1, 12, 31)
    }
}

} // verus!
