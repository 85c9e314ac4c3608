//! What the commands of the log decide: which records a start or a
//! correction leaves behind, which records a report is about, and which
//! tasks a list shows.

use crate::calendar::Date;
use crate::datetime::{working_date_of, Instant, TaskTime, WorkingDate};
use crate::parse::{yearmonth_of, FormatError};
use crate::repository::{State, StateView};
use crate::table::task_views;
use crate::task::{LogicError, RecordView, Task, TaskRecord, TaskView};
use crate::util::reversed;
use vstd::prelude::*;

verus! {

/// The record of a task that starts at `begin` on `date`: not stored yet,
/// and without an end.
pub open spec fn started(task: TaskView, date: Date, begin: Instant) -> RecordView {
    RecordView { id: None, task, working_date: date, begin, end: None }
}

/// Starts `task` at `begin` on the working date `date`.
///
/// Returns the record of the task that was going on, now ended at `begin`,
/// if there was one, and the record of the task that starts. A begin before
/// the begin of the task that was going on is an error.
pub fn start_task(state: State, task: Task, date: WorkingDate, begin: TaskTime) -> (r: Result<
    (Option<TaskRecord>, TaskRecord),
    LogicError,
>)
    ensures
        match state@ {
            StateView::Active(last) => if begin@.is_before(last.begin) {
                r == Err::<(Option<TaskRecord>, TaskRecord), LogicError>(LogicError::EndBeforeBegin)
            } else {
                r.is_ok() && r.unwrap().0.is_some() && r.unwrap().0.unwrap()@ == (RecordView {
                    end: Some(begin@),
                    ..last
                }) && r.unwrap().1@ == started(task@, date@, begin@)
            },
            StateView::Completed => r.is_ok() && r.unwrap().0.is_none() && r.unwrap().1@
                == started(task@, date@, begin@),
        },
{
    match state {
        State::Active(last) => {
            let mut last = last;
            match last.finish(begin) {
                Ok(_) => Ok((Some(last), TaskRecord::new(None, task, date, begin, None))),
                Err(e) => Err(e),
            }
        },
        State::Completed => Ok((None, TaskRecord::new(None, task, date, begin, None))),
    }
}

/// Corrects the begin and the end of `record`, unless the end would be
/// before the begin: then the record stays as it is.
pub fn amend(record: &mut TaskRecord, begin: TaskTime, end: Option<TaskTime>) -> (r: Result<
    (),
    LogicError,
>)
    ensures
        match r {
            Ok(_) => (end.is_some() ==> !end.unwrap()@.is_before(begin@)) && *final(record) == (
            TaskRecord { begin, end, ..*old(record) }),
            Err(e) => end.is_some() && end.unwrap()@.is_before(begin@) && e
                == LogicError::EndBeforeBegin && *final(record) == *old(record),
        },
{
    let rejected = match &end {
        Some(end) => end.is_before(&begin),
        None => false,
    };
    if rejected {
        Err(LogicError::EndBeforeBegin)
    } else {
        record.begin = begin;
        record.end = end;
        Ok(())
    }
}

/// The records that a report is about.
#[derive(PartialEq, Eq, Structural, Clone, Copy, Debug)]
pub enum LogScope {
    /// All records.
    All,
    /// The records of one working date.
    Date(WorkingDate),
    /// The records from a first to a last working date.
    Period(WorkingDate, WorkingDate),
}

/// The records that a report is about, as a mathematical value.
pub enum ScopeView {
    All,
    Date(Date),
    Period(Date, Date),
}

impl View for LogScope {
    type V = ScopeView;

    open spec fn view(&self) -> ScopeView {
        match self {
            LogScope::All => ScopeView::All,
            LogScope::Date(d) => ScopeView::Date(d@),
            LogScope::Period(a, b) => ScopeView::Period(a@, b@),
        }
    }
}

/// The scope that a request for a report names, at the instant `now`.
///
/// A request for all records is about all. Otherwise a date that it names
/// decides, read with the year of `now` where it names none; otherwise a
/// month that it names, from its first to its last day; otherwise the
/// working date of `now`. `None` where the date or the month that decides
/// is none.
pub open spec fn scope_of(
    show_all: bool,
    date: Option<Seq<char>>,
    month: Option<Seq<char>>,
    now: Instant,
) -> Option<ScopeView> {
    if show_all {
        Some(ScopeView::All)
    } else if date.is_some() {
        match working_date_of(date.unwrap(), now.date.year) {
            Some(d) => Some(ScopeView::Date(d)),
            None => None,
        }
    } else if month.is_some() {
        match yearmonth_of(month.unwrap()) {
            Some(ym) => {
                let first = Date { year: ym.0, month: ym.1, day: 1 };
                Some(ScopeView::Period(first, first.month_end()))
            },
            None => None,
        }
    } else {
        Some(ScopeView::Date(now.working_date()))
    }
}

/// The characters of a text that may be absent.
pub open spec fn text_view(text: Option<&str>) -> Option<Seq<char>> {
    match text {
        Some(s) => Some(s@),
        None => None,
    }
}

impl LogScope {
    /// The scope that a request for a report names, at the instant `now`;
    /// the text that was rejected where the request names no date or month.
    pub fn of_at(show_all: bool, date: Option<&str>, month: Option<&str>, now: &TaskTime) -> (r:
        Result<LogScope, FormatError>)
        ensures
            match scope_of(show_all, text_view(date), text_view(month), now@) {
                Some(scope) => r.is_ok() && r.unwrap()@ == scope,
                None => r.is_err() && r.unwrap_err().input@ == (if date.is_some() {
                    date.unwrap()@
                } else {
                    month.unwrap()@
                }),
            },
    {
        if show_all {
            return Ok(LogScope::All);
        }
        match date {
            Some(text) => match WorkingDate::parse_in(text, now.year()) {
                Ok(d) => Ok(LogScope::Date(d)),
                Err(e) => Err(e),
            },
            None => match month {
                Some(text) => match WorkingDate::parse_ym(text) {
                    Ok(period) => Ok(LogScope::Period(period.0, period.1)),
                    Err(e) => Err(e),
                },
                None => Ok(LogScope::Date(WorkingDate::of(now))),
            },
        }
    }

    /// The scope that a request for a report names, at the current instant
    /// by the local clock.
    pub fn of(show_all: bool, date: Option<&str>, month: Option<&str>) -> (r: Result<
        LogScope,
        FormatError,
    >)
        ensures
            exists|now: Instant|
                now.is_valid() && match scope_of(
                    show_all,
                    text_view(date),
                    text_view(month),
                    now,
                ) {
                    Some(scope) => r.is_ok() && r.unwrap()@ == scope,
                    None => r.is_err(),
                },
    {
        let now = TaskTime::now();
        proof {
            use_type_invariant(&now);
        }
        let r = LogScope::of_at(show_all, date, month, &now);
        assert(now@.is_valid() && match scope_of(
            show_all,
            text_view(date),
            text_view(month),
            now@,
        ) {
            Some(scope) => r.is_ok() && r.unwrap()@ == scope,
            None => r.is_err(),
        });
        r
    }
}

/// Which parts a report has besides the list of records.
#[derive(PartialEq, Eq, Structural, Clone, Copy, Debug)]
pub enum LogParts {
    /// The list of records alone.
    RecordsOnly,
    /// Summary, time by task and breaks, each where there is something to
    /// show.
    Day,
    /// The time by task, under its heading in any case.
    Month,
}

impl LogParts {
    /// The parts of the report that a request asks for: those of a day
    /// unless it asks for all records or names a month.
    pub fn of(show_all: bool, names_month: bool) -> (r: LogParts)
        ensures
            r == if !show_all && !names_month {
                LogParts::Day
            } else if names_month {
                LogParts::Month
            } else {
                LogParts::RecordsOnly
            },
    {
        if !show_all && !names_month {
            LogParts::Day
        } else if names_month {
            LogParts::Month
        } else {
            LogParts::RecordsOnly
        }
    }
}

/// The tasks that are in use, in their order.
pub open spec fn active_of(tasks: Seq<TaskView>) -> Seq<TaskView>
    decreases tasks.len(),
{
    if tasks.len() == 0 {
        Seq::empty()
    } else if tasks.last().is_active {
        active_of(tasks.drop_last()).push(tasks.last())
    } else {
        active_of(tasks.drop_last())
    }
}

/// The tasks to list: all of them, or those in use.
pub fn listed_tasks(tasks: Vec<Task>, show_all: bool) -> (r: Vec<Task>)
    ensures
        show_all ==> r@ == tasks@,
        !show_all ==> task_views(r@) == active_of(task_views(tasks@)),
{
    if show_all {
        return tasks;
    }
    let ghost all = task_views(tasks@);
    let n: usize = tasks.len();
    let mut rest = reversed(tasks);
    let mut shown: Vec<Task> = Vec::new();
    let mut i: usize = 0;
    assert(all.subrange(0, 0) =~= Seq::empty());
    assert(task_views(shown@) =~= Seq::empty());
    while i < n
        invariant
            i <= n,
            n == all.len(),
            rest@.len() == n - i,
            forall|j: int| 0 <= j < n - i ==> (#[trigger] rest@[j])@ == all[n - 1 - j],
            task_views(shown@) == active_of(all.subrange(0, i as int)),
        decreases n - i,
    {
        let task = rest.pop().unwrap();
        let ghost before = all.subrange(0, i as int);
        let ghost after = all.subrange(0, i + 1);
        proof {
            assert(after.drop_last() =~= before);
            assert(after.last() == task@);
        }
        if task.is_active {
            let ghost old_shown = task_views(shown@);
            shown.push(task);
            assert(task_views(shown@) =~= old_shown.push(after.last()));
        }
        i = i + 1;
    }
    assert(all.subrange(0, n as int) =~= all);
    shown
}

} // verus!
