//! The textual forms of times, dates and months.
//!
//! Each grammar is a spec function from the characters of the input to the
//! numbers it writes, or `None` where the input is not of the grammar. The
//! parsers return exactly that, and an error that carries the input
//! otherwise.

use crate::text::{all_digits, number_of, pow10, read_number, lemma_digit_value};
use vstd::prelude::*;
use vstd::string::*;

verus! {

/// The input of a parser that did not accept it.
#[derive(Debug, Clone, PartialEq, Eq)]
pub struct FormatError {
    /// The text that was rejected.
    pub input: String,
}

impl FormatError {
    /// The error for the rejected text `s`.
    pub fn new(s: &str) -> (e: FormatError)
        ensures
            e.input@ == s@,
    {
        FormatError { input: String::from_str(s) }
    }

    /// A message for the user: the rejected text after a fixed prefix.
    pub fn message(&self) -> (m: String)
        ensures
            m@ == "invalid format: "@ + self.input@,
    {
        let mut m = String::from_str("invalid format: ");
        m.append(self.input.as_str());
        m
    }
}

/// `s` without its last character when that is `sep`.
pub open spec fn without_trailing(s: Seq<char>, sep: char) -> Seq<char> {
    if s.len() > 0 && s.last() == sep {
        s.drop_last()
    } else {
        s
    }
}

/// The last `n` characters of `s`.
pub open spec fn last_chars(s: Seq<char>, n: int) -> Seq<char> {
    s.subrange(s.len() - n, s.len() as int)
}

/// `s` without its last `n` characters.
pub open spec fn without_last(s: Seq<char>, n: int) -> Seq<char> {
    s.subrange(0, s.len() - n)
}

/// `s` is `width` digits that write a number from `low` to `high`.
pub open spec fn is_field(s: Seq<char>, width: int, low: int, high: int) -> bool {
    s.len() == width && all_digits(s) && low <= number_of(s) <= high
}

/// The time of day that `s` writes, as `(hour, minute)`.
///
/// The minute is the last two characters, from 00 to 59. Before it stands
/// the hour, in one or two digits, from 0 to 23; a colon may stand between
/// them. So `H:MM`, `HH:MM`, `HMM` and `HHMM` are times, and nothing else.
pub open spec fn time_hm_of(s: Seq<char>) -> Option<(int, int)> {
    if s.len() < 3 {
        None
    } else {
        let minute = last_chars(s, 2);
        let hour = without_trailing(without_last(s, 2), ':');
        if is_field(minute, 2, 0, 59) && (is_field(hour, 1, 0, 9) || is_field(hour, 2, 0, 23)) {
            Some((number_of(hour), number_of(minute)))
        } else {
            None
        }
    }
}

/// The year and month that `s` writes.
///
/// The month is the last two characters, from 01 to 12. Before it stands the
/// year in four digits; a hyphen may stand between them. So `YYYY-MM` and
/// `YYYYMM` are months, and nothing else.
pub open spec fn yearmonth_of(s: Seq<char>) -> Option<(int, int)> {
    if s.len() < 2 {
        None
    } else {
        let month = last_chars(s, 2);
        let year = without_trailing(without_last(s, 2), '-');
        if is_field(month, 2, 1, 12) && is_field(year, 4, 0, 9999) {
            Some((number_of(year), number_of(month)))
        } else {
            None
        }
    }
}

/// The year, month and day that `s` writes; the year is absent when `s`
/// names none.
///
/// The day is the last two characters, from 01 to 31. Before it stands the
/// month, from 01 to 12, and before that either nothing or the year in four
/// digits; a hyphen may follow the year and the month. So `YYYY-MM-DD`,
/// `YYYYMMDD`, `MM-DD` and `MMDD` are dates, and so are the forms with only
/// one of the two hyphens.
pub open spec fn date_of(s: Seq<char>) -> Option<(Option<int>, int, int)> {
    if s.len() < 2 {
        None
    } else {
        let day = last_chars(s, 2);
        let before_day = without_trailing(without_last(s, 2), '-');
        if before_day.len() < 2 {
            None
        } else {
            let month = last_chars(before_day, 2);
            let before_month = without_last(before_day, 2);
            let year = without_trailing(before_month, '-');
            if is_field(day, 2, 1, 31) && is_field(month, 2, 1, 12) {
                if before_month.len() == 0 {
                    Some((None, number_of(month), number_of(day)))
                } else if is_field(year, 4, 0, 9999) {
                    Some((Some(number_of(year)), number_of(month), number_of(day)))
                } else {
                    None
                }
            } else {
                None
            }
        }
    }
}

/// The year that the start of a timestamp writes: four digits, or a sign and
/// four to six digits.
pub open spec fn year_of(s: Seq<char>) -> Option<int> {
    if is_field(s, 4, 0, 9999) {
        Some(number_of(s))
    } else if 5 <= s.len() <= 7 && all_digits(s.subrange(1, s.len() as int)) {
        if s[0] == '+' {
            Some(number_of(s.subrange(1, s.len() as int)))
        } else if s[0] == '-' {
            Some(-number_of(s.subrange(1, s.len() as int)))
        } else {
            None
        }
    } else {
        None
    }
}

/// The numbers of a timestamp, in the order in which it writes them.
pub struct Stamp {
    pub year: int,
    pub month: int,
    pub day: int,
    pub hour: int,
    pub minute: int,
    pub second: int,
}

/// The timestamp that `s` writes: `YYYY-MM-DDTHH:MM:SS`, where a year
/// outside 0000..=9999 has a sign and up to six digits.
///
/// The month is from 01 to 12, the day from 01 to 31, the hour from 00 to
/// 23, minute and second from 00 to 59. Whether the day exists in the month
/// is not a matter of the grammar.
pub open spec fn stamp_of(s: Seq<char>) -> Option<Stamp> {
    if s.len() < 19 {
        None
    } else {
        let tail = last_chars(s, 15);
        let year = year_of(without_last(s, 15));
        if year.is_some() && tail[0] == '-' && is_field(tail.subrange(1, 3), 2, 1, 12) && tail[3]
            == '-' && is_field(tail.subrange(4, 6), 2, 1, 31) && tail[6] == 'T' && is_field(
            tail.subrange(7, 9),
            2,
            0,
            23,
        ) && tail[9] == ':' && is_field(tail.subrange(10, 12), 2, 0, 59) && tail[12] == ':'
            && is_field(tail.subrange(13, 15), 2, 0, 59) {
            Some(
                Stamp {
                    year: year.unwrap(),
                    month: number_of(tail.subrange(1, 3)),
                    day: number_of(tail.subrange(4, 6)),
                    hour: number_of(tail.subrange(7, 9)),
                    minute: number_of(tail.subrange(10, 12)),
                    second: number_of(tail.subrange(13, 15)),
                },
            )
        } else {
            None
        }
    }
}

/// Reads `s[from..to]` as a field of digits with a value from `low` to
/// `high`.
fn read_field(s: &str, from: usize, to: usize, low: u32, high: u32) -> (r: Option<u32>)
    requires
        from <= to <= s@.len(),
        to - from <= 9,
    ensures
        r.is_some() == is_field(
            s@.subrange(from as int, to as int),
            to - from,
            low as int,
            high as int,
        ),
        r.is_some() ==> r.unwrap() as int == number_of(s@.subrange(from as int, to as int)),
{
    match read_number(s, from, to) {
        Some(v) => if low <= v && v <= high {
            Some(v)
        } else {
            None
        },
        None => None,
    }
}

/// Where the text before a field ends: `end`, or one earlier when the
/// character before `end` is `sep`.
fn skip_back(s: &str, end: usize, sep: char) -> (r: usize)
    requires
        end <= s@.len(),
    ensures
        r <= end,
        s@.subrange(0, r as int) == without_trailing(s@.subrange(0, end as int), sep),
{
    let ghost head = s@.subrange(0, end as int);
    if end > 0 && s.get_char(end - 1) == sep {
        assert(head.last() == s@[end - 1]);
        assert(s@.subrange(0, end - 1) =~= head.drop_last());
        end - 1
    } else {
        assert(end > 0 ==> head.last() == s@[end - 1]);
        end
    }
}

/// Parses a time of day: `H:MM`, `HH:MM`, `HMM` or `HHMM`.
pub fn parse_time_hm(s: &str) -> (r: Result<(u32, u32), FormatError>)
    ensures
        match time_hm_of(s@) {
            Some(hm) => r == Ok::<(u32, u32), FormatError>((hm.0 as u32, hm.1 as u32)),
            None => r.is_err() && r.unwrap_err().input@ == s@,
        },
        r.is_ok() ==> r.unwrap().0 <= 23 && r.unwrap().1 <= 59,
{
    let n = s.unicode_len();
    if n < 3 || n > 5 {
        proof {
            if n > 5 {
                assert(without_trailing(without_last(s@, 2), ':').len() >= 3);
            }
        }
        return Err(FormatError::new(s));
    }
    let hour_end = skip_back(s, n - 2, ':');
    assert(s@.subrange(n - 2, n as int) == last_chars(s@, 2));
    assert(s@.subrange(0, n - 2) == without_last(s@, 2));
    let ghost hour_text = s@.subrange(0, hour_end as int);
    if hour_end < 1 || hour_end > 2 {
        return Err(FormatError::new(s));
    }
    let hour = read_field(s, 0, hour_end, 0, if hour_end == 1 {
        9
    } else {
        23
    });
    let minute = read_field(s, n - 2, n, 0, 59);
    match (hour, minute) {
        (Some(h), Some(m)) => Ok((h, m)),
        _ => Err(FormatError::new(s)),
    }
}

/// Parses a month of a year: `YYYY-MM` or `YYYYMM`.
pub fn parse_yearmonth(s: &str) -> (r: Result<(i32, u32), FormatError>)
    ensures
        match yearmonth_of(s@) {
            Some(ym) => r == Ok::<(i32, u32), FormatError>((ym.0 as i32, ym.1 as u32)),
            None => r.is_err() && r.unwrap_err().input@ == s@,
        },
        r.is_ok() ==> 0 <= r.unwrap().0 <= 9999 && 1 <= r.unwrap().1 <= 12,
{
    let n = s.unicode_len();
    if n < 6 || n > 7 {
        proof {
            if n >= 2 {
                let year = without_trailing(without_last(s@, 2), '-');
                assert(n < 6 ==> year.len() < 4);
                assert(n > 7 ==> year.len() > 4);
            }
        }
        return Err(FormatError::new(s));
    }
    let year_end = skip_back(s, n - 2, '-');
    assert(s@.subrange(n - 2, n as int) == last_chars(s@, 2));
    assert(s@.subrange(0, n - 2) == without_last(s@, 2));
    if year_end != 4 {
        return Err(FormatError::new(s));
    }
    let year = read_field(s, 0, 4, 0, 9999);
    let month = read_field(s, n - 2, n, 1, 12);
    match (year, month) {
        (Some(y), Some(m)) => Ok((y as i32, m)),
        _ => Err(FormatError::new(s)),
    }
}

/// Parses a date: `YYYY-MM-DD`, `YYYYMMDD`, `MM-DD` or `MMDD`. A date that
/// names no year is of `default_year`.
pub fn parse_date_in(s: &str, default_year: i32) -> (r: Result<(i32, u32, u32), FormatError>)
    ensures
        match date_of(s@) {
            Some(ymd) => r == Ok::<(i32, u32, u32), FormatError>(
                (
                    match ymd.0 {
                        Some(y) => y as i32,
                        None => default_year,
                    },
                    ymd.1 as u32,
                    ymd.2 as u32,
                ),
            ),
            None => r.is_err() && r.unwrap_err().input@ == s@,
        },
        r.is_ok() ==> 1 <= r.unwrap().1 <= 12 && 1 <= r.unwrap().2 <= 31,
        r.is_ok() && date_of(s@).unwrap().0.is_some() ==> 0 <= r.unwrap().0 <= 9999,
{
    let n = s.unicode_len();
    if n < 4 || n > 10 {
        proof {
            if n >= 2 {
                let before_day = without_trailing(without_last(s@, 2), '-');
                if before_day.len() >= 2 {
                    let before_month = without_last(before_day, 2);
                    let year = without_trailing(before_month, '-');
                    assert(n > 10 ==> year.len() > 4);
                    assert(n < 4 ==> before_day.len() < 2);
                }
            }
        }
        return Err(FormatError::new(s));
    }
    let month_end = skip_back(s, n - 2, '-');
    assert(s@.subrange(n - 2, n as int) == last_chars(s@, 2));
    assert(s@.subrange(0, n - 2) == without_last(s@, 2));
    let ghost before_day = s@.subrange(0, month_end as int);
    if month_end < 2 {
        return Err(FormatError::new(s));
    }
    let day = read_field(s, n - 2, n, 1, 31);
    let month = read_field(s, month_end - 2, month_end, 1, 12);
    assert(s@.subrange(month_end - 2, month_end as int) =~= last_chars(before_day, 2));
    assert(s@.subrange(0, month_end - 2) =~= without_last(before_day, 2));
    let year_end = skip_back(s, month_end - 2, '-');
    let (d, m) = match (day, month) {
        (Some(d), Some(m)) => (d, m),
        _ => {
            return Err(FormatError::new(s));
        },
    };
    if month_end == 2 {
        return Ok((default_year, m, d));
    }
    if year_end != 4 {
        return Err(FormatError::new(s));
    }
    match read_field(s, 0, 4, 0, 9999) {
        Some(y) => Ok((y as i32, m, d)),
        None => Err(FormatError::new(s)),
    }
}

/// Reads the year at the start of a timestamp, `s[0..end]`.
fn read_year(s: &str, end: usize) -> (r: Option<i32>)
    requires
        4 <= end <= s@.len(),
        end <= 7,
    ensures
        match year_of(s@.subrange(0, end as int)) {
            Some(y) => r == Some(y as i32) && -999_999 <= y <= 999_999,
            None => r.is_none(),
        },
{
    let ghost token = s@.subrange(0, end as int);
    if end == 4 {
        match read_field(s, 0, 4, 0, 9999) {
            Some(y) => Some(y as i32),
            None => None,
        }
    } else {
        let sign = s.get_char(0);
        assert(token[0] == sign);
        assert(s@.subrange(1, end as int) =~= token.subrange(1, token.len() as int));
        match read_field(s, 1, end, 0, 999_999) {
            Some(y) => {
                if sign == '+' {
                    Some(y as i32)
                } else if sign == '-' {
                    Some(-(y as i32))
                } else {
                    None
                }
            },
            None => {
                proof {
                    let digits = token.subrange(1, token.len() as int);
                    if all_digits(digits) {
                        lemma_number_of_bound(digits);
                    }
                }
                None
            },
        }
    }
}

/// A string of up to six digits writes a number below a million.
proof fn lemma_number_of_bound(s: Seq<char>)
    requires
        all_digits(s),
        s.len() <= 6,
    ensures
        0 <= number_of(s) <= 999_999,
{
    lemma_number_of_digits(s);
    reveal_with_fuel(pow10, 7);
}

/// A string of digits writes a number below ten to the power of its length.
pub proof fn lemma_number_of_digits(s: Seq<char>)
    requires
        all_digits(s),
    ensures
        0 <= number_of(s) < pow10(s.len()),
    decreases s.len(),
{
    if s.len() > 0 {
        lemma_number_of_digits(s.drop_last());
        lemma_digit_value(s.last());
    }
}

/// The numbers of a timestamp, as the parser returns them.
#[derive(Debug, Clone, Copy, PartialEq, Eq)]
pub struct StampFields {
    pub year: i32,
    pub month: u32,
    pub day: u32,
    pub hour: u32,
    pub minute: u32,
    pub second: u32,
}

impl View for StampFields {
    type V = Stamp;

    open spec fn view(&self) -> Stamp {
        Stamp {
            year: self.year as int,
            month: self.month as int,
            day: self.day as int,
            hour: self.hour as int,
            minute: self.minute as int,
            second: self.second as int,
        }
    }
}

/// Parses a timestamp: `YYYY-MM-DDTHH:MM:SS`.
pub fn parse_stamp(s: &str) -> (r: Result<StampFields, FormatError>)
    ensures
        match stamp_of(s@) {
            Some(stamp) => r.is_ok() && r.unwrap()@ == stamp,
            None => r.is_err() && r.unwrap_err().input@ == s@,
        },
{
    let n = s.unicode_len();
    if n < 19 || n > 22 {
        proof {
            if n > 22 {
                assert(without_last(s@, 15).len() > 7);
            }
        }
        return Err(FormatError::new(s));
    }
    let t: usize = n - 15;
    let ghost tail = last_chars(s@, 15);
    assert(s@.subrange(0, t as int) == without_last(s@, 15));
    assert(s@.subrange(t + 1, t + 3) =~= tail.subrange(1, 3));
    assert(s@.subrange(t + 4, t + 6) =~= tail.subrange(4, 6));
    assert(s@.subrange(t + 7, t + 9) =~= tail.subrange(7, 9));
    assert(s@.subrange(t + 10, t + 12) =~= tail.subrange(10, 12));
    assert(s@.subrange(t + 13, t + 15) =~= tail.subrange(13, 15));
    assert(tail[0] == s@[t as int] && tail[3] == s@[t + 3] && tail[6] == s@[t + 6] && tail[9]
        == s@[t + 9] && tail[12] == s@[t + 12]);
    if s.get_char(t) != '-' || s.get_char(t + 3) != '-' || s.get_char(t + 6) != 'T' || s.get_char(
        t + 9,
    ) != ':' || s.get_char(t + 12) != ':' {
        return Err(FormatError::new(s));
    }
    let year = read_year(s, t);
    let month = read_field(s, t + 1, t + 3, 1, 12);
    let day = read_field(s, t + 4, t + 6, 1, 31);
    let hour = read_field(s, t + 7, t + 9, 0, 23);
    let minute = read_field(s, t + 10, t + 12, 0, 59);
    let second = read_field(s, t + 13, t + 15, 0, 59);
    match (year, month, day, hour, minute, second) {
        (Some(year), Some(month), Some(day), Some(hour), Some(minute), Some(second)) => Ok(
            StampFields { year, month, day, hour, minute, second },
        ),
        _ => Err(FormatError::new(s)),
    }
}

} // verus!
