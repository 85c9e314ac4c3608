use shigotolog::command::{amend, listed_tasks, start_task, LogParts, LogScope};
use shigotolog::datetime::{TaskTime, WorkingDate};
use shigotolog::parse::FormatError;
use shigotolog::repository::State;
use shigotolog::task::{LogicError, Task, TaskRecord};

fn time(s: &str) -> TaskTime {
    TaskTime::parse(s).unwrap()
}

fn running() -> TaskRecord {
    let begin = time("2021-01-01T09:00:00");
    TaskRecord::new(
        Some(4),
        Task::new(Some(1), Some("a"), None, None, "", false, true),
        WorkingDate::from(begin),
        begin,
        None,
    )
}

#[test]
fn starting_a_task_ends_the_one_that_was_going_on() {
    let next = Task::new(Some(2), Some("b"), None, None, "", false, true);
    let date = WorkingDate::from_ymd_opt(2021, 1, 1).unwrap();
    let begin = time("2021-01-01T10:30:00");
    let (ended, started) =
        start_task(State::Active(running()), next.clone(), date, begin).unwrap();
    let mut expected = running();
    expected.end = Some(begin);
    assert_eq!(ended, Some(expected));
    assert_eq!(started, TaskRecord::new(None, next.clone(), date, begin, None));

    let (ended, started) = start_task(State::Completed, next.clone(), date, begin).unwrap();
    assert_eq!(ended, None);
    assert_eq!(started, TaskRecord::new(None, next.clone(), date, begin, None));

    let (ended, _) =
        start_task(State::Active(running()), next.clone(), date, time("2021-01-01T09:00:00"))
            .unwrap();
    assert_eq!(ended.unwrap().end, Some(time("2021-01-01T09:00:00")));
}

#[test]
fn starting_before_the_running_task_began_is_an_error() {
    let next = Task::new(Some(2), Some("b"), None, None, "", false, true);
    let date = WorkingDate::from_ymd_opt(2021, 1, 1).unwrap();
    assert_eq!(
        start_task(State::Active(running()), next, date, time("2021-01-01T08:59:00")),
        Err(LogicError::EndBeforeBegin)
    );
}

#[test]
fn a_correction_must_not_end_before_it_begins() {
    let mut record = running();
    assert_eq!(
        amend(
            &mut record,
            time("2021-01-01T10:00:00"),
            Some(time("2021-01-01T09:59:00"))
        ),
        Err(LogicError::EndBeforeBegin)
    );
    assert_eq!(record, running());
    assert_eq!(
        amend(
            &mut record,
            time("2021-01-01T10:00:00"),
            Some(time("2021-01-01T10:00:00"))
        ),
        Ok(())
    );
    assert_eq!(record.begin, time("2021-01-01T10:00:00"));
    assert_eq!(record.end, Some(time("2021-01-01T10:00:00")));
    assert_eq!(amend(&mut record, time("2021-01-02T04:00:00"), None), Ok(()));
    assert_eq!(record.begin, time("2021-01-02T04:00:00"));
    assert_eq!(record.end, None);
    assert_eq!(record.id, Some(4));
    assert_eq!(record.task, running().task);
    assert_eq!(record.working_date, running().working_date);
}

#[test]
fn the_scope_of_a_report_is_what_the_request_names() {
    let now = time("2021-03-04T02:00:00");
    assert_eq!(
        LogScope::of_at(true, Some("nonsense"), Some("nonsense"), &now),
        Ok(LogScope::All)
    );
    assert_eq!(
        LogScope::of_at(false, Some("2020-02-29"), Some("nonsense"), &now),
        Ok(LogScope::Date(WorkingDate::from_ymd_opt(2020, 2, 29).unwrap()))
    );
    assert_eq!(
        LogScope::of_at(false, Some("1231"), None, &now),
        Ok(LogScope::Date(WorkingDate::from_ymd_opt(2021, 12, 31).unwrap()))
    );
    assert_eq!(
        LogScope::of_at(false, Some("0229"), None, &now),
        Err(FormatError::new("0229"))
    );
    assert_eq!(
        LogScope::of_at(false, Some("2021-13-01"), Some("2021-01"), &now),
        Err(FormatError::new("2021-13-01"))
    );
    assert_eq!(
        LogScope::of_at(false, None, Some("202112"), &now),
        Ok(LogScope::Period(
            WorkingDate::from_ymd_opt(2021, 12, 1).unwrap(),
            WorkingDate::from_ymd_opt(2021, 12, 31).unwrap()
        ))
    );
    assert_eq!(
        LogScope::of_at(false, None, Some("2021-1"), &now),
        Err(FormatError::new("2021-1"))
    );
    assert_eq!(
        LogScope::of_at(false, None, None, &now),
        Ok(LogScope::Date(WorkingDate::from_ymd_opt(2021, 3, 3).unwrap()))
    );
    assert_eq!(LogScope::of(true, None, None), Ok(LogScope::All));
    assert_eq!(
        LogScope::of(false, Some("2020-02-29"), None),
        Ok(LogScope::Date(WorkingDate::from_ymd_opt(2020, 2, 29).unwrap()))
    );
    let today = LogScope::of(false, None, None);
    assert!(
        today == Ok(LogScope::Date(WorkingDate::today()))
            || LogScope::of(false, None, None) == Ok(LogScope::Date(WorkingDate::today()))
    );
}

#[test]
fn the_parts_of_a_report_follow_the_request() {
    assert_eq!(LogParts::of(false, false), LogParts::Day);
    assert_eq!(LogParts::of(false, true), LogParts::Month);
    assert_eq!(LogParts::of(true, true), LogParts::Month);
    assert_eq!(LogParts::of(true, false), LogParts::RecordsOnly);
}

#[test]
fn a_list_of_tasks_leaves_out_those_not_in_use() {
    let a = Task::new(Some(1), Some("a"), None, None, "", false, true);
    let b = Task::new(Some(2), Some("b"), None, None, "", false, false);
    let c = Task::new(Some(3), Some("c"), None, None, "", true, true);
    let all = vec![a.clone(), b.clone(), c.clone()];
    assert_eq!(listed_tasks(all.clone(), true), all);
    assert_eq!(listed_tasks(all, false), vec![a, c]);
    assert_eq!(listed_tasks(vec![b], false), vec![]);
    assert_eq!(listed_tasks(vec![], false), vec![]);
}
