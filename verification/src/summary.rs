//! The summary of a set of records: when work began and ended, how long it
//! took in all and by task, and which breaks were taken.

use crate::datetime::{Duration, Instant, TaskTime, MINUTE_LIMIT};
use crate::task::{RecordView, TaskRecord};
use vstd::prelude::*;
use vstd::string::*;

verus! {

/// The characters between the levels of a task's name in a summary.
pub open spec fn name_separator() -> Seq<char> {
    seq!['/']
}

/// The name under which a record's time is counted.
pub open spec fn work_name(r: RecordView) -> Seq<char> {
    r.task.name(name_separator())
}

/// The record at `i` is a record of work.
pub open spec fn is_work_at(rs: Seq<RecordView>, i: int) -> bool {
    0 <= i < rs.len() && !rs[i].is_break()
}

/// Some record is a record of work.
pub open spec fn has_work(rs: Seq<RecordView>) -> bool {
    exists|i: int| is_work_at(rs, i)
}

/// `first` is the earliest begin of a record of work; it is absent exactly
/// when there is no such record.
pub open spec fn is_first_begin(first: Option<Instant>, rs: Seq<RecordView>) -> bool {
    match first {
        Some(b) => (exists|i: int| is_work_at(rs, i) && rs[i].begin == b) && (forall|i: int|
            is_work_at(rs, i) ==> !rs[i].begin.is_before(b)),
        None => !has_work(rs),
    }
}

/// `last` is the latest end among the records of work that have one; it is
/// absent exactly when none of them has an end.
pub open spec fn is_last_end(last: Option<Instant>, rs: Seq<RecordView>) -> bool {
    match last {
        Some(e) => (exists|i: int| is_work_at(rs, i) && rs[i].end == Some(e)) && (forall|i: int|
            is_work_at(rs, i) && rs[i].end.is_some() ==> !e.is_before(rs[i].end.unwrap())),
        None => forall|i: int| is_work_at(rs, i) ==> rs[i].end.is_none(),
    }
}

/// The minutes of all records of work, a record without an end counted up
/// to `now`.
pub open spec fn total_minutes(rs: Seq<RecordView>, now: Instant) -> int
    decreases rs.len(),
{
    if rs.len() == 0 {
        0
    } else {
        total_minutes(rs.drop_last(), now) + if rs.last().is_break() {
            0
        } else {
            rs.last().duration_at(now)
        }
    }
}

/// The minutes of the records of work whose task has the name `name`.
pub open spec fn name_minutes(rs: Seq<RecordView>, now: Instant, name: Seq<char>) -> int
    decreases rs.len(),
{
    if rs.len() == 0 {
        0
    } else {
        name_minutes(rs.drop_last(), now, name) + if !rs.last().is_break() && work_name(rs.last())
            == name {
            rs.last().duration_at(now)
        } else {
            0
        }
    }
}

/// The records of breaks, in their order.
pub open spec fn breaks_of(rs: Seq<RecordView>) -> Seq<RecordView>
    decreases rs.len(),
{
    if rs.len() == 0 {
        Seq::empty()
    } else if rs.last().is_break() {
        breaks_of(rs.drop_last()).push(rs.last())
    } else {
        breaks_of(rs.drop_last())
    }
}

/// `name` is among the names of `ds`.
pub open spec fn has_name(ds: Seq<(Seq<char>, int)>, name: Seq<char>) -> bool {
    exists|k: int| 0 <= k < ds.len() && (#[trigger] ds[k]).0 == name
}

/// `name` is the name of the task of a record of work.
pub open spec fn names_work(rs: Seq<RecordView>, name: Seq<char>) -> bool {
    exists|i: int| is_work_at(rs, i) && work_name(rs[i]) == name
}

/// `ds` holds the minutes by name: no name twice, each the name of some
/// record of work with the minutes of all records of that name, and the name
/// of every record of work among them.
pub open spec fn is_minutes_by_name(
    ds: Seq<(Seq<char>, int)>,
    rs: Seq<RecordView>,
    now: Instant,
) -> bool {
    &&& forall|j: int, k: int| 0 <= j < k < ds.len() ==> (#[trigger] ds[j]).0 != (#[trigger] ds[k]).0
    &&& forall|k: int|
        0 <= k < ds.len() ==> (#[trigger] ds[k]).1 == name_minutes(rs, now, ds[k].0) && names_work(
            rs,
            ds[k].0,
        )
    &&& forall|i: int| is_work_at(rs, i) ==> has_name(ds, work_name(rs[i]))
}

/// The names of the tasks of the records of work, each once, in the order
/// in which they first occur.
pub open spec fn names_in_order(rs: Seq<RecordView>) -> Seq<Seq<char>>
    decreases rs.len(),
{
    if rs.len() == 0 {
        Seq::empty()
    } else {
        let before = names_in_order(rs.drop_last());
        if rs.last().is_break() || before.contains(work_name(rs.last())) {
            before
        } else {
            before.push(work_name(rs.last()))
        }
    }
}

/// The names of `ds`, in their order.
pub open spec fn names_of(ds: Seq<(Seq<char>, int)>) -> Seq<Seq<char>> {
    Seq::new(ds.len(), |k: int| ds[k].0)
}

/// The models of records.
pub open spec fn record_views(records: Seq<TaskRecord>) -> Seq<RecordView> {
    Seq::new(records.len(), |i: int| records[i]@)
}

/// The models of minutes by name.
pub open spec fn duration_views(entries: Seq<(String, Duration)>) -> Seq<(Seq<char>, int)> {
    Seq::new(entries.len(), |k: int| (entries[k].0@, entries[k].1@))
}

/// The model of an instant that may be absent.
pub open spec fn instant_view(t: Option<TaskTime>) -> Option<Instant> {
    match t {
        Some(t) => Some(t@),
        None => None,
    }
}

/// What a set of records comes to.
#[derive(Clone, Debug)]
pub struct TaskSummary {
    /// The earliest begin of work.
    pub begin: TaskTime,
    /// The latest end of work; absent when no work has ended.
    pub end: Option<TaskTime>,
    /// The time worked in all.
    pub total_duration: Duration,
    /// The time worked by task name, in the order in which the names first
    /// occur; breaks are left out.
    pub task_durations: Vec<(String, Duration)>,
    /// The breaks, in their order.
    pub break_times: Vec<TaskRecord>,
}

impl TaskSummary {
    /// The summary is that of the records `rs`, with records that have no
    /// end counted up to `now`.
    pub open spec fn summarizes(&self, rs: Seq<RecordView>, now: Instant) -> bool {
        &&& is_first_begin(Some(self.begin@), rs)
        &&& is_last_end(instant_view(self.end), rs)
        &&& self.total_duration@ == total_minutes(rs, now)
        &&& is_minutes_by_name(duration_views(self.task_durations@), rs, now)
        &&& names_of(duration_views(self.task_durations@)) == names_in_order(rs)
        &&& record_views(self.break_times@) == breaks_of(rs)
    }

    /// Whether some record is a record of work: whether the records have a
    /// summary.
    pub fn has_work(records: &[TaskRecord]) -> (r: bool)
        ensures
            r == has_work(record_views(records@)),
    {
        let ghost rs = record_views(records@);
        let mut i: usize = 0;
        while i < records.len()
            invariant
                i <= records.len(),
                rs == record_views(records@),
                forall|j: int| 0 <= j < i ==> !is_work_at(rs, j),
            decreases records.len() - i,
        {
            if !records[i].is_break() {
                assert(is_work_at(rs, i as int));
                return true;
            }
            i = i + 1;
        }
        false
    }

    /// The time worked under `name`, if any was.
    pub fn duration_of(&self, name: &str) -> (r: Option<Duration>)
        ensures
            match r {
                Some(d) => exists|k: int|
                    0 <= k < self.task_durations@.len() && (#[trigger] self.task_durations@[k]).0@
                        == name@ && self.task_durations@[k].1 == d,
                None => !has_name(duration_views(self.task_durations@), name@),
            },
    {
        let key = String::from_str(name);
        match find_name(&self.task_durations, &key) {
            Some(k) => Some(self.task_durations[k].1),
            None => {
                let ghost ds = duration_views(self.task_durations@);
                assert forall|k: int| 0 <= k < ds.len() implies (#[trigger] ds[k]).0 != name@ by {
                    assert(ds[k].0 == self.task_durations@[k].0@);
                }
                None
            },
        }
    }

    /// The summary of `records`, with records that have no end counted up
    /// to `now`.
    pub fn from_at(records: &[TaskRecord], now: &TaskTime) -> (s: TaskSummary)
        requires
            has_work(record_views(records@)),
        ensures
            s.summarizes(record_views(records@), now@),
    {
        let ghost rs = record_views(records@);
        let mut begin: Option<TaskTime> = None;
        let mut end: Option<TaskTime> = None;
        let mut total = Duration::zero();
        let mut entries: Vec<(String, Duration)> = Vec::new();
        let mut breaks: Vec<TaskRecord> = Vec::new();
        let mut i: usize = 0;
        proof {
            reveal_strlit("/");
            assert("/"@ =~= name_separator());
            assert(rs.subrange(0, 0) =~= Seq::<RecordView>::empty());
            assert(record_views(breaks@) =~= breaks_of(rs.subrange(0, 0)));
            assert(names_of(duration_views(entries@)) =~= names_in_order(rs.subrange(0, 0)));
        }
        while i < records.len()
            invariant
                i <= records.len(),
                rs == record_views(records@),
                "/"@ == name_separator(),
                is_first_begin(instant_view(begin), rs.subrange(0, i as int)),
                is_last_end(instant_view(end), rs.subrange(0, i as int)),
                total@ == total_minutes(rs.subrange(0, i as int), now@),
                -i * 2 * MINUTE_LIMIT <= total@ <= i * 2 * MINUTE_LIMIT,
                is_minutes_by_name(duration_views(entries@), rs.subrange(0, i as int), now@),
                names_of(duration_views(entries@)) == names_in_order(rs.subrange(0, i as int)),
                forall|k: int|
                    0 <= k < entries@.len() ==> -i * 2 * MINUTE_LIMIT <= (
                    #[trigger] entries@[k]).1@ <= i * 2 * MINUTE_LIMIT,
                record_views(breaks@) == breaks_of(rs.subrange(0, i as int)),
            decreases records.len() - i,
        {
            let record = &records[i];
            let ghost before = rs.subrange(0, i as int);
            let ghost after = rs.subrange(0, i + 1);
            let ghost old_entries = duration_views(entries@);
            proof {
                assert(after.drop_last() =~= before);
                assert(after.last() == record@);
            }
            if record.is_break() {
                let copy = record.clone();
                let ghost old_breaks = record_views(breaks@);
                breaks.push(copy);
                proof {
                    assert(record_views(breaks@) =~= old_breaks.push(record@));
                    lemma_break_keeps(after, instant_view(begin), instant_view(end), now@);
                    lemma_minutes_skip(old_entries, after, now@);
                }
            } else {
                let d = record.duration_at(now);
                let ghost old_begin = instant_view(begin);
                let ghost old_end = instant_view(end);
                proof {
                    use_type_invariant(&record.begin);
                }
                begin =
                match begin {
                    Some(b) => if record.begin.is_before(&b) {
                        Some(record.begin)
                    } else {
                        Some(b)
                    },
                    None => Some(record.begin),
                };
                end =
                match (end, record.end) {
                    (Some(e), Some(x)) => if e.is_before(&x) {
                        Some(x)
                    } else {
                        Some(e)
                    },
                    (None, Some(x)) => Some(x),
                    (e, None) => e,
                };
                proof {
                    lemma_begin_step(after, old_begin, instant_view(begin));
                    lemma_end_step(after, old_end, instant_view(end));
                }
                total = total.checked_add(&d).unwrap();
                let name = record.task.format_name("/");
                match find_name(&entries, &name) {
                    Some(k) => {
                        let sum = entries[k].1.checked_add(&d).unwrap();
                        entries.set(k, (name, sum));
                        proof {
                            let new_entries = duration_views(entries@);
                            assert(new_entries =~= old_entries.update(
                                k as int,
                                (work_name(record@), old_entries[k as int].1 + d@),
                            ));
                            lemma_minutes_add(old_entries, after, now@, k as int);
                            assert(names_of(old_entries)[k as int] == work_name(record@));
                            assert(names_of(new_entries) =~= names_of(old_entries));
                        }
                    },
                    None => {
                        entries.push((name, d));
                        proof {
                            let new_entries = duration_views(entries@);
                            assert(new_entries =~= old_entries.push((work_name(record@), d@)));
                            assert forall|k: int| 0 <= k < old_entries.len() implies (
                            #[trigger] old_entries[k]).0 != work_name(record@) by {
                                assert(old_entries[k].0 == entries@[k].0@);
                            }
                            lemma_minutes_push(old_entries, after, now@);
                            assert(!names_of(old_entries).contains(work_name(record@)));
                            assert(names_of(new_entries) =~= names_of(old_entries).push(
                                work_name(record@),
                            ));
                        }
                    },
                }
            }
            i = i + 1;
        }
        proof {
            assert(rs.subrange(0, records.len() as int) =~= rs);
        }
        TaskSummary {
            begin: begin.unwrap(),
            end,
            total_duration: total,
            task_durations: entries,
            break_times: breaks,
        }
    }

    /// The summary of `records`, with records that have no end counted up
    /// to the current instant by the local clock.
    pub fn from(records: &[TaskRecord]) -> (s: TaskSummary)
        requires
            has_work(record_views(records@)),
        ensures
            exists|now: Instant| now.is_valid() && s.summarizes(record_views(records@), now),
    {
        let now = TaskTime::now();
        proof {
            use_type_invariant(&now);
        }
        let s = TaskSummary::from_at(records, &now);
        assert(now@.is_valid() && s.summarizes(record_views(records@), now@));
        s
    }
}

/// Where `name` stands among the names of `entries`.
fn find_name(entries: &Vec<(String, Duration)>, name: &String) -> (r: Option<usize>)
    ensures
        match r {
            Some(k) => k < entries@.len() && entries@[k as int].0@ == name@,
            None => forall|k: int| 0 <= k < entries@.len() ==> (#[trigger] entries@[k]).0@ != name@,
        },
{
    let mut k: usize = 0;
    while k < entries.len()
        invariant
            k <= entries@.len(),
            forall|j: int| 0 <= j < k ==> (#[trigger] entries@[j]).0@ != name@,
        decreases entries@.len() - k,
    {
        if entries[k].0 == *name {
            return Some(k);
        }
        k = k + 1;
    }
    None
}

/// A record of a break changes neither the first begin, nor the last end,
/// nor the total.
proof fn lemma_break_keeps(
    rs: Seq<RecordView>,
    first: Option<Instant>,
    last: Option<Instant>,
    now: Instant,
)
    requires
        rs.len() > 0,
        rs.last().is_break(),
        is_first_begin(first, rs.drop_last()),
        is_last_end(last, rs.drop_last()),
    ensures
        is_first_begin(first, rs),
        is_last_end(last, rs),
        total_minutes(rs, now) == total_minutes(rs.drop_last(), now),
{
    let p = rs.drop_last();
    assert forall|i: int| is_work_at(rs, i) <==> is_work_at(p, i) by {
        if 0 <= i < p.len() {
            assert(p[i] == rs[i]);
        }
    }
    assert forall|i: int| is_work_at(p, i) implies p[i] == rs[i] by {}
    match first {
        Some(b) => {
            let i = choose|i: int| is_work_at(p, i) && p[i].begin == b;
            assert(is_work_at(rs, i) && rs[i].begin == b);
        },
        None => {},
    }
    match last {
        Some(e) => {
            let i = choose|i: int| is_work_at(p, i) && p[i].end == Some(e);
            assert(is_work_at(rs, i) && rs[i].end == Some(e));
        },
        None => {},
    }
}

/// A record of work makes its begin the first begin when it is earlier than
/// the first begin so far.
proof fn lemma_begin_step(rs: Seq<RecordView>, first: Option<Instant>, next: Option<Instant>)
    requires
        rs.len() > 0,
        !rs.last().is_break(),
        is_first_begin(first, rs.drop_last()),
        next == match first {
            Some(b) => if rs.last().begin.is_before(b) {
                Some(rs.last().begin)
            } else {
                Some(b)
            },
            None => Some(rs.last().begin),
        },
    ensures
        is_first_begin(next, rs),
{
    let p = rs.drop_last();
    let n = rs.len() - 1;
    let x = rs.last().begin;
    assert(is_work_at(rs, n));
    assert forall|i: int| is_work_at(rs, i) && i < n implies is_work_at(p, i) && p[i] == rs[i] by {}
    match first {
        Some(b) => {
            let i = choose|i: int| is_work_at(p, i) && p[i].begin == b;
            assert(is_work_at(rs, i) && rs[i].begin == b);
            assert forall|j: int| is_work_at(rs, j) implies !rs[j].begin.is_before(
                next.unwrap(),
            ) by {
                if j < n {
                    assert(is_work_at(p, j));
                    assert(!p[j].begin.is_before(b));
                }
            }
        },
        None => {
            assert forall|j: int| is_work_at(rs, j) implies !rs[j].begin.is_before(x) by {
                if j < n {
                    assert(is_work_at(p, j));
                }
            }
        },
    }
}

/// A record of work makes its end the last end when it has one that is
/// later than the last end so far.
proof fn lemma_end_step(rs: Seq<RecordView>, last: Option<Instant>, next: Option<Instant>)
    requires
        rs.len() > 0,
        !rs.last().is_break(),
        is_last_end(last, rs.drop_last()),
        next == match (last, rs.last().end) {
            (Some(e), Some(x)) => if e.is_before(x) {
                Some(x)
            } else {
                Some(e)
            },
            (None, Some(x)) => Some(x),
            (e, None) => e,
        },
    ensures
        is_last_end(next, rs),
{
    let p = rs.drop_last();
    let n = rs.len() - 1;
    assert(is_work_at(rs, n));
    assert forall|i: int| is_work_at(rs, i) && i < n implies is_work_at(p, i) && p[i] == rs[i] by {}
    match last {
        Some(e) => {
            let i = choose|i: int| is_work_at(p, i) && p[i].end == Some(e);
            assert(is_work_at(rs, i) && rs[i].end == Some(e));
            assert forall|j: int| is_work_at(rs, j) && rs[j].end.is_some() implies !next.unwrap().is_before(
            rs[j].end.unwrap()) by {
                if j < n {
                    assert(is_work_at(p, j));
                    assert(!e.is_before(p[j].end.unwrap()));
                }
            }
        },
        None => {
            assert forall|j: int| is_work_at(rs, j) && j < n implies rs[j].end.is_none() by {
                assert(is_work_at(p, j));
            }
        },
    }
}

/// No record of work under a name: no minutes under that name.
proof fn lemma_no_name_no_minutes(rs: Seq<RecordView>, now: Instant, name: Seq<char>)
    requires
        !names_work(rs, name),
    ensures
        name_minutes(rs, now, name) == 0,
    decreases rs.len(),
{
    if rs.len() > 0 {
        let p = rs.drop_last();
        assert(!names_work(p, name)) by {
            if names_work(p, name) {
                let i = choose|i: int| is_work_at(p, i) && work_name(p[i]) == name;
                assert(is_work_at(rs, i) && work_name(rs[i]) == name);
            }
        }
        lemma_no_name_no_minutes(p, now, name);
        assert(is_work_at(rs, rs.len() - 1) || rs.last().is_break());
    }
}

/// The names of the records of work before the last stay names of records
/// of work.
proof fn lemma_names_stay(rs: Seq<RecordView>, name: Seq<char>)
    requires
        rs.len() > 0,
        names_work(rs.drop_last(), name),
    ensures
        names_work(rs, name),
{
    let p = rs.drop_last();
    let i = choose|i: int| is_work_at(p, i) && work_name(p[i]) == name;
    assert(is_work_at(rs, i) && work_name(rs[i]) == name);
}

/// A record of a break leaves the minutes by name as they are.
proof fn lemma_minutes_skip(ds: Seq<(Seq<char>, int)>, rs: Seq<RecordView>, now: Instant)
    requires
        rs.len() > 0,
        rs.last().is_break(),
        is_minutes_by_name(ds, rs.drop_last(), now),
    ensures
        is_minutes_by_name(ds, rs, now),
{
    let p = rs.drop_last();
    assert forall|k: int| 0 <= k < ds.len() implies (#[trigger] ds[k]).1 == name_minutes(
        rs,
        now,
        ds[k].0,
    ) && names_work(rs, ds[k].0) by {
        lemma_names_stay(rs, ds[k].0);
    }
    assert forall|i: int| is_work_at(rs, i) implies has_name(ds, work_name(rs[i])) by {
        assert(is_work_at(p, i) && p[i] == rs[i]);
    }
}

/// A record of work under a name that is at `k` adds its minutes there.
proof fn lemma_minutes_add(ds: Seq<(Seq<char>, int)>, rs: Seq<RecordView>, now: Instant, k: int)
    requires
        rs.len() > 0,
        !rs.last().is_break(),
        is_minutes_by_name(ds, rs.drop_last(), now),
        0 <= k < ds.len(),
        ds[k].0 == work_name(rs.last()),
    ensures
        is_minutes_by_name(
            ds.update(k, (work_name(rs.last()), ds[k].1 + rs.last().duration_at(now))),
            rs,
            now,
        ),
{
    let p = rs.drop_last();
    let name = work_name(rs.last());
    let new = ds.update(k, (name, ds[k].1 + rs.last().duration_at(now)));
    assert forall|j: int| 0 <= j < new.len() implies (#[trigger] new[j]).0 == ds[j].0 by {}
    assert forall|a: int, b: int| 0 <= a < b < new.len() implies (#[trigger] new[a]).0 != (
    #[trigger] new[b]).0 by {
        assert(ds[a].0 != ds[b].0);
    }
    assert forall|j: int| 0 <= j < new.len() implies (#[trigger] new[j]).1 == name_minutes(
        rs,
        now,
        new[j].0,
    ) && names_work(rs, new[j].0) by {
        assert(ds[j].1 == name_minutes(p, now, ds[j].0));
        lemma_names_stay(rs, ds[j].0);
        if j != k {
            assert(ds[j].0 != ds[k].0);
        }
    }
    assert forall|i: int| is_work_at(rs, i) implies has_name(new, work_name(rs[i])) by {
        if i < rs.len() - 1 {
            assert(is_work_at(p, i) && p[i] == rs[i]);
            let j = choose|j: int| 0 <= j < ds.len() && (#[trigger] ds[j]).0 == work_name(p[i]);
            assert(new[j].0 == work_name(rs[i]));
        } else {
            assert(new[k].0 == work_name(rs[i]));
        }
    }
}

/// A record of work under a new name adds the name with its minutes.
proof fn lemma_minutes_push(ds: Seq<(Seq<char>, int)>, rs: Seq<RecordView>, now: Instant)
    requires
        rs.len() > 0,
        !rs.last().is_break(),
        is_minutes_by_name(ds, rs.drop_last(), now),
        forall|k: int| 0 <= k < ds.len() ==> (#[trigger] ds[k]).0 != work_name(rs.last()),
    ensures
        is_minutes_by_name(ds.push((work_name(rs.last()), rs.last().duration_at(now))), rs, now),
{
    let p = rs.drop_last();
    let name = work_name(rs.last());
    let n = rs.len() - 1;
    let new = ds.push((name, rs.last().duration_at(now)));
    assert(is_work_at(rs, n) && work_name(rs[n]) == name);
    assert(!names_work(p, name)) by {
        if names_work(p, name) {
            let i = choose|i: int| is_work_at(p, i) && work_name(p[i]) == name;
            assert(has_name(ds, work_name(p[i])));
        }
    }
    lemma_no_name_no_minutes(p, now, name);
    assert forall|a: int, b: int| 0 <= a < b < new.len() implies (#[trigger] new[a]).0 != (
    #[trigger] new[b]).0 by {
        if b < ds.len() {
            assert(ds[a].0 != ds[b].0);
        } else {
            assert(new[a] == ds[a]);
        }
    }
    assert forall|j: int| 0 <= j < new.len() implies (#[trigger] new[j]).1 == name_minutes(
        rs,
        now,
        new[j].0,
    ) && names_work(rs, new[j].0) by {
        if j < ds.len() {
            assert(new[j] == ds[j]);
            assert(ds[j].1 == name_minutes(p, now, ds[j].0));
            lemma_names_stay(rs, ds[j].0);
        }
    }
    assert forall|i: int| is_work_at(rs, i) implies has_name(new, work_name(rs[i])) by {
        if i < n {
            assert(is_work_at(p, i) && p[i] == rs[i]);
            let j = choose|j: int| 0 <= j < ds.len() && (#[trigger] ds[j]).0 == work_name(p[i]);
            assert(new[j] == ds[j]);
        } else {
            assert(new[ds.len() as int].0 == name);
        }
    }
}

} // verus!
