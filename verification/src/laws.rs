//! What holds between the functions of the library, for all inputs.

use crate::calendar::{lemma_pred, lemma_succ, Date};
use crate::datetime::{
    date_text, full_text, instant_of, instant_on, is_working_date, working_date_of, year_text,
    Instant, DAY_START_HOUR,
};
use crate::parse::{date_of, last_chars, stamp_of, without_last, year_of, Stamp};
use crate::summary::{
    is_first_begin, is_last_end, is_work_at, name_minutes, total_minutes, work_name,
};
use crate::task::RecordView;
use crate::text::{
    decimal, four_digits, lemma_decimal, lemma_decimal_len, lemma_four_digits, lemma_two_digits,
    two_digits,
};
use vstd::prelude::*;
use vstd::seq_lib::*;

verus! {

/// Reading the text of a year gives the year back.
pub proof fn lemma_year_round_trip(year: int)
    requires
        -999_999 <= year <= 999_999,
    ensures
        4 <= year_text(year).len() <= 7,
        year_of(year_text(year)) == Some(year),
{
    let s = year_text(year);
    if 0 <= year <= 9999 {
        lemma_four_digits(year);
    } else if -9999 <= year < 0 {
        lemma_four_digits(-year);
        assert(s.subrange(1, s.len() as int) =~= four_digits(-year));
    } else {
        let size = if year < 0 {
            (-year) as nat
        } else {
            year as nat
        };
        lemma_decimal(size);
        lemma_decimal_len(size);
        assert(s.subrange(1, s.len() as int) =~= decimal(size));
    }
}

/// Parsing the timestamp of a valid instant gives the instant back: what
/// `TaskTime::parse` returns for the text of `TaskTime::to_full_string`.
pub proof fn lemma_timestamp_round_trip(t: Instant)
    requires
        t.is_valid(),
    ensures
        instant_of(full_text(t)) == Some(t),
{
    let s = full_text(t);
    let y = year_text(t.date.year);
    lemma_pred(t.date);
    lemma_year_round_trip(t.date.year);
    lemma_two_digits(t.date.month);
    lemma_two_digits(t.date.day);
    lemma_two_digits(t.hour);
    lemma_two_digits(t.minute);
    lemma_two_digits(0);
    let tail = seq!['-'] + two_digits(t.date.month) + seq!['-'] + two_digits(t.date.day) + seq![
        'T',
    ] + two_digits(t.hour) + seq![':'] + two_digits(t.minute) + seq![':'] + two_digits(0);
    assert(tail.len() == 15);
    assert(s =~= y + tail);
    assert(last_chars(s, 15) =~= tail);
    assert(without_last(s, 15) =~= y);
    assert(tail.subrange(1, 3) =~= two_digits(t.date.month));
    assert(tail.subrange(4, 6) =~= two_digits(t.date.day));
    assert(tail.subrange(7, 9) =~= two_digits(t.hour));
    assert(tail.subrange(10, 12) =~= two_digits(t.minute));
    assert(tail.subrange(13, 15) =~= two_digits(0));
    assert(stamp_of(s) == Some(
        Stamp {
            year: t.date.year,
            month: t.date.month,
            day: t.date.day,
            hour: t.hour,
            minute: t.minute,
            second: 0,
        },
    ));
}

/// Parsing the text of a working date of the years 0000 to 9999 gives the
/// date back, whatever the default year: what `WorkingDate::parse` returns
/// for the text of `WorkingDate::to_string`.
pub proof fn lemma_date_round_trip(d: Date, default_year: int)
    requires
        is_working_date(d),
        0 <= d.year <= 9999,
    ensures
        working_date_of(date_text(d), default_year) == Some(d),
{
    let s = date_text(d);
    lemma_four_digits(d.year);
    lemma_two_digits(d.month);
    lemma_two_digits(d.day);
    let y = four_digits(d.year);
    let m = two_digits(d.month);
    assert(last_chars(s, 2) =~= two_digits(d.day));
    let head = without_last(s, 2);
    assert(head =~= y + seq!['-'] + m + seq!['-']);
    assert(head.drop_last() =~= y + seq!['-'] + m);
    let before_day = y + seq!['-'] + m;
    assert(last_chars(before_day, 2) =~= m);
    assert(without_last(before_day, 2) =~= y + seq!['-']);
    assert((y + seq!['-']).drop_last() =~= y);
    assert(date_of(s) == Some((Some(d.year), d.month, d.day)));
}

/// A working date and a time of day give a valid instant whose working date
/// is the date again: `WorkingDate::from` undoes `WorkingDate::and_hm_opt`.
/// The instant's calendar date is the working date from 05:00 on, and the
/// day after it before 05:00.
pub proof fn lemma_working_date_of_instant_on(d: Date, hour: int, minute: int)
    requires
        is_working_date(d),
        0 <= hour < 24,
        0 <= minute < 60,
    ensures
        instant_on(d, hour, minute).is_valid(),
        instant_on(d, hour, minute).working_date() == d,
        hour >= DAY_START_HOUR ==> instant_on(d, hour, minute).date == d,
        hour < DAY_START_HOUR ==> instant_on(d, hour, minute).date.day_number() == d.day_number()
            + 1,
{
    lemma_succ(d);
}

/// A valid instant is the instant at its time of day of its working date:
/// `WorkingDate::and_hm_opt` undoes `WorkingDate::from`.
pub proof fn lemma_instant_on_working_date(t: Instant)
    requires
        t.is_valid(),
    ensures
        is_working_date(t.working_date()),
        instant_on(t.working_date(), t.hour, t.minute) == t,
{
    lemma_pred(t.date);
}

/// The last day of a month is the day before the first day of the next
/// month, also where the next month is January of the next year.
pub proof fn lemma_month_end(year: int, month: int)
    requires
        1 <= month <= 12,
    ensures
        ({
            let first = Date { year, month, day: 1 };
            let next = if month < 12 {
                Date { year, month: month + 1, day: 1 }
            } else {
                Date { year: year + 1, month: 1, day: 1 }
            };
            first.is_civil() && first.month_end().is_civil() && next.pred() == first.month_end()
        }),
{
}

/// The first begin of a set of records is one instant and no other: what
/// `TaskSummary::from_at` returns as `begin` is determined by the records.
pub proof fn lemma_first_begin_unique(rs: Seq<RecordView>, a: Option<Instant>, b: Option<Instant>)
    requires
        is_first_begin(a, rs),
        is_first_begin(b, rs),
    ensures
        a == b,
{
    if a.is_some() && b.is_some() {
        let i = choose|i: int| is_work_at(rs, i) && rs[i].begin == a.unwrap();
        let j = choose|j: int| is_work_at(rs, j) && rs[j].begin == b.unwrap();
        assert(!rs[i].begin.is_before(b.unwrap()));
        assert(!rs[j].begin.is_before(a.unwrap()));
    } else if a.is_some() {
        let i = choose|i: int| is_work_at(rs, i) && rs[i].begin == a.unwrap();
        assert(is_work_at(rs, i));
    } else if b.is_some() {
        let j = choose|j: int| is_work_at(rs, j) && rs[j].begin == b.unwrap();
        assert(is_work_at(rs, j));
    }
}

/// The last end of a set of records is one instant and no other, or absent:
/// what `TaskSummary::from_at` returns as `end` is determined by the records.
pub proof fn lemma_last_end_unique(rs: Seq<RecordView>, a: Option<Instant>, b: Option<Instant>)
    requires
        is_last_end(a, rs),
        is_last_end(b, rs),
    ensures
        a == b,
{
    if a.is_some() && b.is_some() {
        let i = choose|i: int| is_work_at(rs, i) && rs[i].end == Some(a.unwrap());
        let j = choose|j: int| is_work_at(rs, j) && rs[j].end == Some(b.unwrap());
        assert(!a.unwrap().is_before(rs[j].end.unwrap()));
        assert(!b.unwrap().is_before(rs[i].end.unwrap()));
    } else if a.is_some() {
        let i = choose|i: int| is_work_at(rs, i) && rs[i].end == Some(a.unwrap());
        assert(rs[i].end.is_none());
    } else if b.is_some() {
        let j = choose|j: int| is_work_at(rs, j) && rs[j].end == Some(b.unwrap());
        assert(rs[j].end.is_none());
    }
}

/// Where a record of work has an end, the last end is present and not
/// before it, whatever other records are still open.
pub proof fn lemma_last_end_present(rs: Seq<RecordView>, last: Option<Instant>, i: int)
    requires
        is_last_end(last, rs),
        is_work_at(rs, i),
        rs[i].end.is_some(),
    ensures
        last.is_some(),
        !last.unwrap().is_before(rs[i].end.unwrap()),
{
}

/// The sum of `weight` over `rs`.
pub open spec fn weighted_sum(rs: Seq<RecordView>, weight: spec_fn(RecordView) -> int) -> int
    decreases rs.len(),
{
    if rs.len() == 0 {
        0
    } else {
        weighted_sum(rs.drop_last(), weight) + weight(rs.last())
    }
}

/// What a record adds to the time in all.
pub open spec fn total_weight(now: Instant) -> spec_fn(RecordView) -> int {
    |r: RecordView|
        if r.is_break() {
            0
        } else {
            r.duration_at(now)
        }
}

/// What a record adds to the time under `name`.
pub open spec fn name_weight(now: Instant, name: Seq<char>) -> spec_fn(RecordView) -> int {
    |r: RecordView|
        if !r.is_break() && work_name(r) == name {
            r.duration_at(now)
        } else {
            0
        }
}

/// The time in all and the time under a name are sums over the records.
pub proof fn lemma_minutes_are_sums(rs: Seq<RecordView>, now: Instant, name: Seq<char>)
    ensures
        total_minutes(rs, now) == weighted_sum(rs, total_weight(now)),
        name_minutes(rs, now, name) == weighted_sum(rs, name_weight(now, name)),
    decreases rs.len(),
{
    if rs.len() > 0 {
        lemma_minutes_are_sums(rs.drop_last(), now, name);
    }
}

/// A sum is the sum without one of the records, and that record's weight.
pub proof fn lemma_sum_without(rs: Seq<RecordView>, weight: spec_fn(RecordView) -> int, at: int)
    requires
        0 <= at < rs.len(),
    ensures
        weighted_sum(rs, weight) == weighted_sum(rs.remove(at), weight) + weight(rs[at]),
    decreases rs.len(),
{
    if at == rs.len() - 1 {
        assert(rs.remove(at) =~= rs.drop_last());
    } else {
        let shorter = rs.remove(at);
        assert(shorter.drop_last() =~= rs.drop_last().remove(at));
        assert(shorter.last() == rs.last());
        lemma_sum_without(rs.drop_last(), weight, at);
    }
}

/// A sum does not depend on the order of the records.
pub proof fn lemma_sum_of_rearranged(
    a: Seq<RecordView>,
    b: Seq<RecordView>,
    weight: spec_fn(RecordView) -> int,
)
    requires
        a.to_multiset() == b.to_multiset(),
    ensures
        weighted_sum(a, weight) == weighted_sum(b, weight),
    decreases a.len(),
{
    a.to_multiset_ensures();
    b.to_multiset_ensures();
    if a.len() > 0 {
        let x = a.last();
        let n = a.len() - 1;
        assert(a[n] == x);
        assert(a.contains(x));
        assert(a.to_multiset().count(x) > 0);
        assert(b.to_multiset().count(x) > 0);
        assert(b.contains(x));
        let at = choose|at: int| 0 <= at < b.len() && b[at] == x;
        assert(a.remove(n) =~= a.drop_last());
        to_multiset_remove(a, n);
        to_multiset_remove(b, at);
        lemma_sum_of_rearranged(a.drop_last(), b.remove(at), weight);
        lemma_sum_without(b, weight, at);
    }
}

/// The records of work of `a` are records of work of `b`, where `b` holds
/// what `a` holds.
proof fn lemma_work_of_rearranged(a: Seq<RecordView>, b: Seq<RecordView>)
    requires
        a.to_multiset() == b.to_multiset(),
    ensures
        forall|i: int| is_work_at(a, i) ==> exists|j: int| is_work_at(b, j) && b[j] == a[i],
{
    a.to_multiset_ensures();
    b.to_multiset_ensures();
    assert forall|i: int| is_work_at(a, i) implies exists|j: int| is_work_at(b, j) && b[j] == a[i] by {
        assert(a.contains(a[i]));
        assert(a.to_multiset().count(a[i]) > 0);
        assert(b.to_multiset().count(a[i]) > 0);
        assert(b.contains(a[i]));
        let j = choose|j: int| 0 <= j < b.len() && b[j] == a[i];
        assert(is_work_at(b, j) && b[j] == a[i]);
    }
}

/// The first begin of `a` is the first begin of `b`, where `b` holds what
/// `a` holds; and so is the last end.
proof fn lemma_ends_of_rearranged(
    a: Seq<RecordView>,
    b: Seq<RecordView>,
    first: Option<Instant>,
    last: Option<Instant>,
)
    requires
        a.to_multiset() == b.to_multiset(),
        is_first_begin(first, a),
        is_last_end(last, a),
    ensures
        is_first_begin(first, b),
        is_last_end(last, b),
{
    lemma_work_of_rearranged(a, b);
    lemma_work_of_rearranged(b, a);
    match first {
        Some(t) => {
            let i = choose|i: int| is_work_at(a, i) && a[i].begin == t;
            let j = choose|j: int| is_work_at(b, j) && b[j] == a[i];
            assert(is_work_at(b, j) && b[j].begin == t);
            assert forall|k: int| is_work_at(b, k) implies !b[k].begin.is_before(t) by {
                let m = choose|m: int| is_work_at(a, m) && a[m] == b[k];
                assert(!a[m].begin.is_before(t));
            }
        },
        None => {
            if crate::summary::has_work(b) {
                let k = choose|k: int| is_work_at(b, k);
                let m = choose|m: int| is_work_at(a, m) && a[m] == b[k];
                assert(is_work_at(a, m));
            }
        },
    }
    match last {
        Some(t) => {
            let i = choose|i: int| is_work_at(a, i) && a[i].end == Some(t);
            let j = choose|j: int| is_work_at(b, j) && b[j] == a[i];
            assert(is_work_at(b, j) && b[j].end == Some(t));
            assert forall|k: int| is_work_at(b, k) && b[k].end.is_some() implies !t.is_before(
                b[k].end.unwrap(),
            ) by {
                let m = choose|m: int| is_work_at(a, m) && a[m] == b[k];
                assert(!t.is_before(a[m].end.unwrap()));
            }
        },
        None => {
            assert forall|k: int| is_work_at(b, k) implies b[k].end.is_none() by {
                let m = choose|m: int| is_work_at(a, m) && a[m] == b[k];
                assert(a[m].end.is_none());
            }
        },
    }
}

/// A summary does not depend on the order of the records: the first begin,
/// the last end, the time in all and the time under each name of records
/// `a` are those of any records `b` that hold what `a` holds.
pub proof fn lemma_summary_of_rearranged(
    a: Seq<RecordView>,
    b: Seq<RecordView>,
    now: Instant,
    name: Seq<char>,
    first: Option<Instant>,
    last: Option<Instant>,
)
    requires
        a.to_multiset() == b.to_multiset(),
        is_first_begin(first, a),
        is_last_end(last, a),
    ensures
        is_first_begin(first, b),
        is_last_end(last, b),
        total_minutes(a, now) == total_minutes(b, now),
        name_minutes(a, now, name) == name_minutes(b, now, name),
{
    lemma_ends_of_rearranged(a, b, first, last);
    lemma_minutes_are_sums(a, now, name);
    lemma_minutes_are_sums(b, now, name);
    lemma_sum_of_rearranged(a, b, total_weight(now));
    lemma_sum_of_rearranged(a, b, name_weight(now, name));
}

} // verus!
