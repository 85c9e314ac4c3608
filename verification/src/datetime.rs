//! Instants of minute precision and working dates.
//!
//! A working day starts at 05:00: an instant before 05:00 belongs to the
//! working date of the day before. `Instant` and `Date` are the mathematical
//! models; `TaskTime` and `WorkingDate` are the values that programs hold.

use crate::calendar::{
    day_number, days_before_year, is_civil_date, lemma_pred, lemma_succ, month_length, next_day,
    previous_day, Date,
};
use crate::parse::{
    date_of, parse_date_in, parse_stamp, parse_time_hm, parse_yearmonth, stamp_of, time_hm_of,
    yearmonth_of, FormatError,
};
use crate::text::{
    decimal, four_digits, push_decimal, push_four_digits, push_two_digits, two_digits,
};
use chrono::{Datelike, Timelike};
use vstd::prelude::*;
use vstd::string::*;

verus! {

/// The first year that has working dates.
pub const MIN_YEAR: i32 = -262_144;

/// The last year that has working dates.
pub const MAX_YEAR: i32 = 262_143;

/// The first year that the local clock can show.
pub const CLOCK_MIN_YEAR: i32 = -262_143;

/// The last year that the local clock can show.
pub const CLOCK_MAX_YEAR: i32 = 262_142;

/// The hour at which a working day starts.
pub const DAY_START_HOUR: u32 = 5;

/// No instant is further than this many minutes from the start of year 1.
pub const MINUTE_LIMIT: i128 = 140_000_000_000;

/// `d` is a date that a `WorkingDate` can hold.
pub open spec fn is_working_date(d: Date) -> bool {
    d.is_civil() && MIN_YEAR <= d.year <= MAX_YEAR
}

/// An instant as a mathematical value: a calendar date and a time of day.
pub struct Instant {
    pub date: Date,
    pub hour: int,
    pub minute: int,
}

impl Instant {
    /// The working date of the instant: its calendar date from 05:00 on,
    /// the day before otherwise.
    pub open spec fn working_date(self) -> Date {
        if self.hour >= DAY_START_HOUR {
            self.date
        } else {
            self.date.pred()
        }
    }

    /// The instant exists, and its working date is one that a `WorkingDate`
    /// can hold.
    pub open spec fn is_valid(self) -> bool {
        self.date.is_civil() && 0 <= self.hour < 24 && 0 <= self.minute < 60 && is_working_date(
            self.working_date(),
        )
    }

    /// The instant's position on the minute line.
    pub open spec fn minute_number(self) -> int {
        self.date.day_number() * 1440 + self.hour * 60 + self.minute
    }

    /// Chronological order: by date, then hour, then minute.
    pub open spec fn is_before(self, other: Instant) -> bool {
        self.date.is_before(other.date) || (self.date == other.date && (self.hour < other.hour || (
        self.hour == other.hour && self.minute < other.minute)))
    }
}

/// The instant at `hour:minute` of the working date `d`: on the next
/// calendar day when the time is before 05:00.
pub open spec fn instant_on(d: Date, hour: int, minute: int) -> Instant {
    Instant {
        date: if hour < DAY_START_HOUR {
            d.succ()
        } else {
            d
        },
        hour,
        minute,
    }
}

/// A year in text: four digits from 0000 to 9999, otherwise a sign and at
/// least four digits.
pub open spec fn year_text(year: int) -> Seq<char> {
    if 0 <= year <= 9999 {
        four_digits(year)
    } else if -9999 <= year < 0 {
        seq!['-'] + four_digits(-year)
    } else if year < 0 {
        seq!['-'] + decimal((-year) as nat)
    } else {
        seq!['+'] + decimal(year as nat)
    }
}

/// A date in text: `YYYY-MM-DD`.
pub open spec fn date_text(d: Date) -> Seq<char> {
    year_text(d.year) + seq!['-'] + two_digits(d.month) + seq!['-'] + two_digits(d.day)
}

/// A time of day in text: `HH:MM`.
pub open spec fn clock_text(hour: int, minute: int) -> Seq<char> {
    two_digits(hour) + seq![':'] + two_digits(minute)
}

/// An instant in text: `YYYY-MM-DDTHH:MM:00`.
pub open spec fn full_text(t: Instant) -> Seq<char> {
    date_text(t.date) + seq!['T'] + clock_text(t.hour, t.minute) + seq![':'] + two_digits(0)
}

/// A number of minutes in text: `HH:MM` with at least two digits for the
/// hours, after a minus sign when the number is negative.
pub open spec fn duration_text(minutes: int) -> Seq<char> {
    let size = if minutes < 0 {
        -minutes
    } else {
        minutes
    };
    let sign = if minutes < 0 {
        seq!['-']
    } else {
        Seq::<char>::empty()
    };
    let hours = if size / 60 < 100 {
        two_digits(size / 60)
    } else {
        decimal((size / 60) as nat)
    };
    sign + hours + seq![':'] + two_digits(size % 60)
}

/// The instant that the timestamp `s` writes, seconds dropped; `None` when
/// `s` is no timestamp or writes no valid instant.
pub open spec fn instant_of(s: Seq<char>) -> Option<Instant> {
    match stamp_of(s) {
        Some(stamp) => {
            let t = Instant {
                date: Date { year: stamp.year, month: stamp.month, day: stamp.day },
                hour: stamp.hour,
                minute: stamp.minute,
            };
            if t.is_valid() {
                Some(t)
            } else {
                None
            }
        },
        None => None,
    }
}

/// The working date that `s` writes, with `default_year` where `s` names no
/// year; `None` when `s` is no date or the date is not in the calendar.
pub open spec fn working_date_of(s: Seq<char>, default_year: int) -> Option<Date> {
    match date_of(s) {
        Some(ymd) => {
            let d = Date {
                year: match ymd.0 {
                    Some(y) => y,
                    None => default_year,
                },
                month: ymd.1,
                day: ymd.2,
            };
            if is_working_date(d) {
                Some(d)
            } else {
                None
            }
        },
        None => None,
    }
}

/// Text in the form `HH:MM`.
pub trait TimeDisplay {
    /// The characters that `to_string_hm` returns.
    spec fn hm_text(&self) -> Seq<char>;

    /// The value as `HH:MM`.
    fn to_string_hm(&self) -> (s: String)
        ensures
            s@ == self.hm_text(),
    ;
}

/// A signed number of minutes.
#[derive(PartialEq, Eq, Structural, PartialOrd, Ord, Clone, Copy, Debug)]
pub struct Duration {
    minutes: i128,
}

impl View for Duration {
    type V = int;

    closed spec fn view(&self) -> int {
        self.minutes as int
    }
}

impl Duration {
    /// The duration of `n` minutes.
    pub fn minutes(n: i128) -> (d: Duration)
        ensures
            d@ == n,
    {
        Duration { minutes: n }
    }

    /// The empty duration.
    pub fn zero() -> (d: Duration)
        ensures
            d@ == 0,
    {
        Duration { minutes: 0 }
    }

    /// The number of minutes.
    pub fn num_minutes(&self) -> (n: i128)
        ensures
            n == self@,
    {
        self.minutes
    }

    /// The sum of two durations; `None` when it does not fit.
    pub fn checked_add(&self, other: &Duration) -> (r: Option<Duration>)
        ensures
            match r {
                Some(d) => d@ == self@ + other@,
                None => self@ + other@ < i128::MIN || self@ + other@ > i128::MAX,
            },
    {
        match self.minutes.checked_add(other.minutes) {
            Some(sum) => Some(Duration { minutes: sum }),
            None => None,
        }
    }

    /// Durations are equal exactly when their minutes are.
    pub proof fn lemma_view_injective(a: Duration, b: Duration)
        ensures
            a@ == b@ <==> a == b,
    {
    }
}

impl TimeDisplay for Duration {
    open spec fn hm_text(&self) -> Seq<char> {
        duration_text(self@)
    }

    fn to_string_hm(&self) -> (s: String) {
        let negative = self.minutes < 0;
        let size: u128 = if negative {
            (-(self.minutes + 1)) as u128 + 1
        } else {
            self.minutes as u128
        };
        let mut out = if negative {
            String::from_str("-")
        } else {
            String::new()
        };
        proof {
            reveal_strlit("-");
            reveal_strlit(":");
        }
        let ghost sign = out@;
        assert(sign =~= if self@ < 0 {
            seq!['-']
        } else {
            Seq::<char>::empty()
        });
        let hours: u128 = size / 60;
        if hours < 100 {
            push_two_digits(&mut out, hours as u32);
        } else {
            push_decimal(&mut out, hours);
        }
        out.append(":");
        push_two_digits(&mut out, (size % 60) as u32);
        assert(out@ =~= duration_text(self@));
        out
    }
}

/// An instant of minute precision.
#[derive(PartialEq, Eq, Structural, PartialOrd, Ord, Clone, Copy, Debug)]
pub struct TaskTime {
    year: i32,
    month: u32,
    day: u32,
    hour: u32,
    minute: u32,
}

impl View for TaskTime {
    type V = Instant;

    closed spec fn view(&self) -> Instant {
        Instant {
            date: Date { year: self.year as int, month: self.month as int, day: self.day as int },
            hour: self.hour as int,
            minute: self.minute as int,
        }
    }
}

/// A date on which work is logged.
#[derive(PartialEq, Eq, Structural, PartialOrd, Ord, Clone, Copy, Debug)]
pub struct WorkingDate {
    year: i32,
    month: u32,
    day: u32,
}

impl View for WorkingDate {
    type V = Date;

    closed spec fn view(&self) -> Date {
        Date { year: self.year as int, month: self.month as int, day: self.day as int }
    }
}

/// What the local clock shows, to the minute: year, month, day, hour and
/// minute.
///
/// Calls `chrono::Local::now` and reads the fields of its `naive_local`
/// value. The contract claims what chrono documents of every such value:
/// the date is one of the calendar, its year is within the years of
/// `chrono::NaiveDate` (that of `NaiveDate::MIN` to that of
/// `NaiveDate::MAX`), the hour is below 24 and the minute below 60. It
/// claims nothing of the time itself.
#[verifier::external_body]
fn local_clock() -> (r: (i32, u32, u32, u32, u32))
    ensures
        (Date { year: r.0 as int, month: r.1 as int, day: r.2 as int }).is_civil(),
        CLOCK_MIN_YEAR <= r.0 <= CLOCK_MAX_YEAR,
        r.3 < 24,
        r.4 < 60,
{
    let now = chrono::Local::now().naive_local();
    (now.year(), now.month(), now.day(), now.hour(), now.minute())
}

impl TaskTime {
    /// Every `TaskTime` is a valid instant.
    #[verifier::type_invariant]
    pub open spec fn inv(&self) -> bool {
        self@.is_valid()
    }

    /// The instant at `hour:minute` of the calendar date `year-month-day`;
    /// `None` when there is no such instant.
    pub fn from_ymd_hm_opt(year: i32, month: u32, day: u32, hour: u32, minute: u32) -> (r: Option<
        TaskTime,
    >)
        ensures
            ({
                let t = Instant {
                    date: Date { year: year as int, month: month as int, day: day as int },
                    hour: hour as int,
                    minute: minute as int,
                };
                match r {
                    Some(time) => time@ == t && t.is_valid(),
                    None => !t.is_valid(),
                }
            }),
    {
        if !is_civil_date(year, month, day) || hour >= 24 || minute >= 60 {
            return None;
        }
        if year < MIN_YEAR || year > MAX_YEAR + 1 {
            return None;
        }
        let in_range = if hour >= DAY_START_HOUR {
            year <= MAX_YEAR
        } else {
            let before = previous_day(year, month, day);
            MIN_YEAR <= before.0 && before.0 <= MAX_YEAR
        };
        proof {
            lemma_pred(Date { year: year as int, month: month as int, day: day as int });
        }
        if in_range {
            Some(TaskTime { year, month, day, hour, minute })
        } else {
            None
        }
    }

    /// The year of the calendar date.
    pub fn year(&self) -> (r: i32)
        ensures
            r == self@.date.year,
    {
        self.year
    }

    /// The month of the calendar date, from 1.
    pub fn month(&self) -> (r: u32)
        ensures
            r == self@.date.month,
    {
        self.month
    }

    /// The day of the month, from 1.
    pub fn day(&self) -> (r: u32)
        ensures
            r == self@.date.day,
    {
        self.day
    }

    /// The hour of the day.
    pub fn hour(&self) -> (r: u32)
        ensures
            r == self@.hour,
            r < 24,
    {
        proof {
            use_type_invariant(self);
        }
        self.hour
    }

    /// The minute of the hour.
    pub fn minute(&self) -> (r: u32)
        ensures
            r == self@.minute,
            r < 60,
    {
        proof {
            use_type_invariant(self);
        }
        self.minute
    }

    /// Parses a timestamp, `YYYY-MM-DDTHH:MM:SS`, and drops its seconds.
    pub fn parse(s: &str) -> (r: Result<TaskTime, FormatError>)
        ensures
            match instant_of(s@) {
                Some(t) => r.is_ok() && r.unwrap()@ == t,
                None => r.is_err() && r.unwrap_err().input@ == s@,
            },
    {
        match parse_stamp(s) {
            Ok(f) => match TaskTime::from_ymd_hm_opt(f.year, f.month, f.day, f.hour, f.minute) {
                Some(t) => Ok(t),
                None => Err(FormatError::new(s)),
            },
            Err(e) => Err(e),
        }
    }

    /// Parses a time of day, `H:MM`, `HH:MM`, `HMM` or `HHMM`, as an instant
    /// of the calendar date of `reference`.
    pub fn parse_hm_at(s: &str, reference: &TaskTime) -> (r: Result<TaskTime, FormatError>)
        ensures
            match time_hm_of(s@) {
                Some(hm) => {
                    let t = Instant { date: reference@.date, hour: hm.0, minute: hm.1 };
                    if t.is_valid() {
                        r.is_ok() && r.unwrap()@ == t
                    } else {
                        r.is_err() && r.unwrap_err().input@ == s@
                    }
                },
                None => r.is_err() && r.unwrap_err().input@ == s@,
            },
    {
        match parse_time_hm(s) {
            Ok(hm) => match TaskTime::from_ymd_hm_opt(
                reference.year,
                reference.month,
                reference.day,
                hm.0,
                hm.1,
            ) {
                Some(t) => Ok(t),
                None => Err(FormatError::new(s)),
            },
            Err(e) => Err(e),
        }
    }

    /// Parses a time of day as an instant of today's calendar date, by the
    /// local clock.
    pub fn parse_hm(s: &str) -> (r: Result<TaskTime, FormatError>)
        ensures
            match time_hm_of(s@) {
                Some(hm) => r.is_ok() && r.unwrap()@.hour == hm.0 && r.unwrap()@.minute == hm.1
                    && CLOCK_MIN_YEAR <= r.unwrap()@.date.year <= CLOCK_MAX_YEAR,
                None => r.is_err() && r.unwrap_err().input@ == s@,
            },
    {
        let now = TaskTime::now();
        proof {
            use_type_invariant(&now);
            lemma_pred(now@.date);
        }
        TaskTime::parse_hm_at(s, &now)
    }

    /// Parses a time of day as an instant of the working date `date`: a time
    /// before 05:00 is of the next calendar day.
    pub fn parse_with_date(date: &WorkingDate, time: &str) -> (r: Result<TaskTime, FormatError>)
        ensures
            match time_hm_of(time@) {
                Some(hm) => r.is_ok() && r.unwrap()@ == instant_on(date@, hm.0, hm.1),
                None => r.is_err() && r.unwrap_err().input@ == time@,
            },
    {
        match parse_time_hm(time) {
            Ok(hm) => match date.and_hm_opt(hm.0, hm.1) {
                Some(t) => Ok(t),
                None => Err(FormatError::new(time)),
            },
            Err(e) => Err(e),
        }
    }

    /// The current instant by the local clock, seconds dropped.
    pub fn now() -> (t: TaskTime)
        ensures
            CLOCK_MIN_YEAR <= t@.date.year <= CLOCK_MAX_YEAR,
    {
        let c = local_clock();
        proof {
            lemma_pred(Date { year: c.0 as int, month: c.1 as int, day: c.2 as int });
        }
        TaskTime { year: c.0, month: c.1, day: c.2, hour: c.3, minute: c.4 }
    }

    /// Whether `self` is earlier than `other`.
    pub fn is_before(&self, other: &TaskTime) -> (r: bool)
        ensures
            r == self@.is_before(other@),
    {
        if self.year != other.year {
            self.year < other.year
        } else if self.month != other.month {
            self.month < other.month
        } else if self.day != other.day {
            self.day < other.day
        } else if self.hour != other.hour {
            self.hour < other.hour
        } else {
            self.minute < other.minute
        }
    }

    /// The minutes from `earlier` to `self`; negative when `self` is the
    /// earlier one.
    pub fn since(&self, earlier: &TaskTime) -> (d: Duration)
        ensures
            d@ == self@.minute_number() - earlier@.minute_number(),
    {
        let a: i128 = day_number(self.year, self.month, self.day) as i128 * 1440 + (
        self.hour as i128) * 60 + self.minute as i128;
        let b: i128 = day_number(earlier.year, earlier.month, earlier.day) as i128 * 1440 + (
        earlier.hour as i128) * 60 + earlier.minute as i128;
        Duration { minutes: a - b }
    }

    /// The instant as a timestamp, `YYYY-MM-DDTHH:MM:00`.
    pub fn to_full_string(&self) -> (s: String)
        ensures
            s@ == full_text(self@),
    {
        proof {
            use_type_invariant(self);
            reveal_strlit("T");
            reveal_strlit(":");
        }
        let mut out = String::new();
        push_date(&mut out, self.year, self.month, self.day);
        out.append("T");
        push_two_digits(&mut out, self.hour);
        out.append(":");
        push_two_digits(&mut out, self.minute);
        out.append(":");
        push_two_digits(&mut out, 0);
        assert(out@ =~= full_text(self@));
        out
    }
}

impl TimeDisplay for TaskTime {
    open spec fn hm_text(&self) -> Seq<char> {
        clock_text(self@.hour, self@.minute)
    }

    fn to_string_hm(&self) -> (s: String) {
        proof {
            use_type_invariant(self);
            reveal_strlit(":");
        }
        let mut out = String::new();
        push_two_digits(&mut out, self.hour);
        out.append(":");
        push_two_digits(&mut out, self.minute);
        assert(out@ =~= clock_text(self@.hour, self@.minute));
        out
    }
}

impl TaskTime {
    /// Instants are equal exactly when their models are.
    pub proof fn lemma_view_injective(a: TaskTime, b: TaskTime)
        ensures
            a@ == b@ <==> a == b,
    {
    }
}

/// Parses a date, `YYYY-MM-DD`, `YYYYMMDD`, `MM-DD` or `MMDD`, to year, month
/// and day. A date that names no year is of the current year, by the local
/// clock.
pub fn parse_date(s: &str) -> (r: Result<(i32, u32, u32), FormatError>)
    ensures
        match date_of(s@) {
            Some(ymd) => r.is_ok() && r.unwrap().1 == ymd.1 && r.unwrap().2 == ymd.2 && match ymd.0 {
                Some(year) => r.unwrap().0 == year,
                None => CLOCK_MIN_YEAR <= r.unwrap().0 <= CLOCK_MAX_YEAR,
            },
            None => r.is_err() && r.unwrap_err().input@ == s@,
        },
{
    let year = TaskTime::now().year();
    parse_date_in(s, year)
}

/// Appends a date as `YYYY-MM-DD`.
fn push_date(out: &mut String, year: i32, month: u32, day: u32)
    requires
        month < 100,
        day < 100,
    ensures
        final(out)@ == old(out)@ + date_text(
            Date { year: year as int, month: month as int, day: day as int },
        ),
{
    proof {
        reveal_strlit("-");
        reveal_strlit("+");
    }
    if 0 <= year && year <= 9999 {
        push_four_digits(out, year as u32);
    } else if year < 0 {
        out.append("-");
        let size: u32 = (-(year as i64)) as u32;
        if size <= 9999 {
            push_four_digits(out, size);
        } else {
            push_decimal(out, size as u128);
        }
    } else {
        out.append("+");
        push_decimal(out, year as u128);
    }
    assert(out@ =~= old(out)@ + year_text(year as int));
    out.append("-");
    push_two_digits(out, month);
    out.append("-");
    push_two_digits(out, day);
    assert(out@ =~= old(out)@ + date_text(
        Date { year: year as int, month: month as int, day: day as int },
    ));
}

impl WorkingDate {
    /// Every `WorkingDate` is a date of the calendar within the years that
    /// have working dates.
    #[verifier::type_invariant]
    pub open spec fn inv(&self) -> bool {
        is_working_date(self@)
    }

    /// The working date `year-month-day`; `None` when there is no such
    /// date.
    pub fn from_ymd_opt(year: i32, month: u32, day: u32) -> (r: Option<WorkingDate>)
        ensures
            ({
                let d = Date { year: year as int, month: month as int, day: day as int };
                match r {
                    Some(date) => date@ == d && is_working_date(d),
                    None => !is_working_date(d),
                }
            }),
    {
        if is_civil_date(year, month, day) && MIN_YEAR <= year && year <= MAX_YEAR {
            Some(WorkingDate { year, month, day })
        } else {
            None
        }
    }

    /// The year.
    pub fn year(&self) -> (r: i32)
        ensures
            r == self@.year,
    {
        self.year
    }

    /// The month, from 1.
    pub fn month(&self) -> (r: u32)
        ensures
            r == self@.month,
    {
        self.month
    }

    /// The day of the month, from 1.
    pub fn day(&self) -> (r: u32)
        ensures
            r == self@.day,
    {
        self.day
    }

    /// The working date of the instant `t`.
    pub fn of(t: &TaskTime) -> (d: WorkingDate)
        ensures
            d@ == t@.working_date(),
    {
        proof {
            use_type_invariant(t);
        }
        if t.hour >= DAY_START_HOUR {
            WorkingDate { year: t.year, month: t.month, day: t.day }
        } else {
            let before = previous_day(t.year, t.month, t.day);
            WorkingDate { year: before.0, month: before.1, day: before.2 }
        }
    }

    /// Parses a date, `YYYY-MM-DD`, `YYYYMMDD`, `MM-DD` or `MMDD`. A date
    /// that names no year is of `default_year`.
    pub fn parse_in(s: &str, default_year: i32) -> (r: Result<WorkingDate, FormatError>)
        ensures
            match working_date_of(s@, default_year as int) {
                Some(d) => r.is_ok() && r.unwrap()@ == d,
                None => r.is_err() && r.unwrap_err().input@ == s@,
            },
    {
        match parse_date_in(s, default_year) {
            Ok(ymd) => match WorkingDate::from_ymd_opt(ymd.0, ymd.1, ymd.2) {
                Some(d) => Ok(d),
                None => Err(FormatError::new(s)),
            },
            Err(e) => Err(e),
        }
    }

    /// Parses a date. A date that names no year is of the current year, by
    /// the local clock.
    pub fn parse(s: &str) -> (r: Result<WorkingDate, FormatError>)
        ensures
            match date_of(s@) {
                Some(ymd) => match ymd.0 {
                    Some(year) => match working_date_of(s@, 0) {
                        Some(d) => r.is_ok() && r.unwrap()@ == d,
                        None => r.is_err(),
                    },
                    None => {
                        &&& r.is_ok() ==> r.unwrap()@.month == ymd.1 && r.unwrap()@.day == ymd.2
                        &&& (ymd.1 != 2 || ymd.2 != 29) ==> r.is_ok() == (Date {
                            year: 1,
                            month: ymd.1,
                            day: ymd.2,
                        }).is_civil()
                    },
                },
                None => r.is_err(),
            },
            r.is_err() ==> r.unwrap_err().input@ == s@,
    {
        let year = TaskTime::now().year();
        proof {
            let named = date_of(s@);
            if named.is_some() && named.unwrap().0.is_some() {
                assert(working_date_of(s@, 0) == working_date_of(s@, year as int));
            }
        }
        WorkingDate::parse_in(s, year)
    }

    /// Parses a month, `YYYY-MM` or `YYYYMM`, to its first and its last day.
    pub fn parse_ym(s: &str) -> (r: Result<(WorkingDate, WorkingDate), FormatError>)
        ensures
            match yearmonth_of(s@) {
                Some(ym) => {
                    let first = Date { year: ym.0, month: ym.1, day: 1 };
                    r.is_ok() && r.unwrap().0@ == first && r.unwrap().1@ == first.month_end()
                },
                None => r.is_err() && r.unwrap_err().input@ == s@,
            },
    {
        match parse_yearmonth(s) {
            Ok(ym) => {
                let last = month_length(ym.0, ym.1);
                Ok(
                    (
                        WorkingDate { year: ym.0, month: ym.1, day: 1 },
                        WorkingDate { year: ym.0, month: ym.1, day: last },
                    ),
                )
            },
            Err(e) => Err(e),
        }
    }

    /// The instant at `hour:min` of this working date: on the next calendar
    /// day when the time is before 05:00. `None` when `hour:min` is no time
    /// of day.
    pub fn and_hm_opt(&self, hour: u32, min: u32) -> (r: Option<TaskTime>)
        ensures
            match r {
                Some(t) => hour < 24 && min < 60 && t@ == instant_on(
                    self@,
                    hour as int,
                    min as int,
                ),
                None => hour >= 24 || min >= 60,
            },
    {
        proof {
            use_type_invariant(self);
            lemma_succ(self@);
        }
        if hour >= 24 || min >= 60 {
            None
        } else if hour < DAY_START_HOUR {
            let after = next_day(self.year, self.month, self.day);
            Some(TaskTime { year: after.0, month: after.1, day: after.2, hour, minute: min })
        } else {
            Some(TaskTime { year: self.year, month: self.month, day: self.day, hour, minute: min })
        }
    }

    /// The current working date, by the local clock.
    pub fn today() -> (d: WorkingDate)
        ensures
            CLOCK_MIN_YEAR - 1 <= d@.year <= CLOCK_MAX_YEAR,
    {
        let now = TaskTime::now();
        proof {
            use_type_invariant(&now);
            lemma_pred(now@.date);
        }
        WorkingDate::of(&now)
    }

    /// Whether `self` is earlier than `other`.
    pub fn is_before(&self, other: &WorkingDate) -> (r: bool)
        ensures
            r == self@.is_before(other@),
    {
        if self.year != other.year {
            self.year < other.year
        } else if self.month != other.month {
            self.month < other.month
        } else {
            self.day < other.day
        }
    }

    /// The date as `YYYY-MM-DD`.
    pub fn to_string(&self) -> (s: String)
        ensures
            s@ == date_text(self@),
    {
        proof {
            use_type_invariant(self);
        }
        let mut out = String::new();
        push_date(&mut out, self.year, self.month, self.day);
        assert(out@ =~= date_text(self@));
        out
    }

    /// Working dates are equal exactly when their models are.
    pub proof fn lemma_view_injective(a: WorkingDate, b: WorkingDate)
        ensures
            a@ == b@ <==> a == b,
    {
    }
}

impl From<TaskTime> for WorkingDate {
    fn from(value: TaskTime) -> (d: WorkingDate)
        ensures
            d@ == value@.working_date(),
    {
        WorkingDate::of(&value)
    }
}

impl vstd::std_specs::convert::FromSpecImpl<TaskTime> for WorkingDate {
    open spec fn obeys_from_spec() -> bool {
        true
    }

    closed spec fn from_spec(value: TaskTime) -> WorkingDate {
        let d = value@.working_date();
        WorkingDate { year: d.year as i32, month: d.month as u32, day: d.day as u32 }
    }
}

/// Every valid instant lies within `MINUTE_LIMIT` minutes of the start of
/// year 1.
pub proof fn lemma_minute_number_bound(t: Instant)
    requires
        t.is_valid(),
    ensures
        -MINUTE_LIMIT < t.minute_number() < MINUTE_LIMIT,
{
    lemma_pred(t.date);
    let y = t.date.year;
    assert(MIN_YEAR <= y <= MAX_YEAR + 1);
    assert(-95_750_000 <= days_before_year(y) <= 95_750_000);
    assert(0 <= crate::calendar::days_before_month(y, t.date.month) <= 335);
}

/// Chronological order is the order of the minute line.
pub proof fn lemma_minute_number_order(a: Instant, b: Instant)
    requires
        a.is_valid(),
        b.is_valid(),
    ensures
        a.is_before(b) <==> a.minute_number() < b.minute_number(),
        a == b <==> a.minute_number() == b.minute_number(),
{
    crate::calendar::lemma_day_number_order(a.date, b.date);
}

} // verus!
