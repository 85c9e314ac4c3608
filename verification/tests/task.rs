use shigotolog::datetime::{Duration, TaskTime, WorkingDate};
use shigotolog::summary::TaskSummary;
use shigotolog::task::{LogicError, Task, TaskRecord};

fn record(name: &str, is_break: bool, begin: &str, end: Option<&str>) -> TaskRecord {
    let task = Task::new(None, Some(name), None, None, "", is_break, true);
    let begin = TaskTime::parse(begin).unwrap();
    let end = end.map(|e| TaskTime::parse(e).unwrap());
    TaskRecord::new(None, task, WorkingDate::from(begin), begin, end)
}

#[test]
fn test_task_summary_time() {
    let task1 = Task::new(None, Some("a"), None, None, "", false, true);
    let beg1 = TaskTime::parse("2021-01-01T10:00:00").unwrap();
    let end1 = TaskTime::parse("2021-01-01T12:00:00").unwrap();
    let rec1 = TaskRecord::new(
        None,
        task1.clone(),
        WorkingDate::from(beg1.clone()),
        beg1.clone(),
        Some(end1.clone()),
    );

    let task2 = Task::new(None, Some("b"), None, None, "", false, true);
    let beg2 = TaskTime::parse("2021-01-01T13:00:00").unwrap();
    let end2 = TaskTime::parse("2021-01-01T14:00:00").unwrap();
    let rec2 = TaskRecord::new(
        None,
        task2,
        WorkingDate::from(beg2.clone()),
        beg2,
        Some(end2.clone()),
    );

    let beg3 = TaskTime::parse("2021-01-01T14:00:00").unwrap();
    let rec3 = TaskRecord::new(None, task1, WorkingDate::from(beg3.clone()), beg3, None);

    // time filled
    let ts1 = TaskSummary::from(&[rec1.clone(), rec2.clone()][..]);
    assert_eq!(ts1.begin, beg1.clone());
    assert_eq!(ts1.end, Some(end2));

    // one record still open: the latest end among the others
    let ts2 = TaskSummary::from(&[rec1, rec2, rec3][..]);
    assert_eq!(ts2.begin, beg1);
    assert_eq!(ts2.end, Some(end2));
}

#[test]
fn summary_of_two_tasks_on_one_day() {
    let records = vec![
        record("A", false, "2021-01-01T09:00:00", Some("2021-01-01T12:00:00")),
        record("B", false, "2021-01-01T13:00:00", Some("2021-01-01T17:30:00")),
    ];
    let now = TaskTime::parse("2021-01-01T18:00:00").unwrap();
    let summary = TaskSummary::from_at(&records, &now);
    assert_eq!(summary.begin, TaskTime::parse("2021-01-01T09:00:00").unwrap());
    assert_eq!(
        summary.end,
        Some(TaskTime::parse("2021-01-01T17:30:00").unwrap())
    );
    assert_eq!(summary.total_duration, Duration::minutes(7 * 60 + 30));
    assert_eq!(
        summary.task_durations,
        vec![
            ("A".to_string(), Duration::minutes(3 * 60)),
            ("B".to_string(), Duration::minutes(4 * 60 + 30)),
        ]
    );
    assert!(summary.break_times.is_empty());
    assert_eq!(summary.duration_of("A"), Some(Duration::minutes(180)));
    assert_eq!(summary.duration_of("C"), None);
}

#[test]
fn summary_end_is_latest_present_end() {
    let records = vec![
        record("late", false, "2021-01-01T13:00:00", None),
        record("early", false, "2021-01-01T09:00:00", Some("2021-01-01T12:00:00")),
    ];
    let now = TaskTime::parse("2021-01-01T14:00:00").unwrap();
    let summary = TaskSummary::from_at(&records, &now);
    assert_eq!(summary.begin, TaskTime::parse("2021-01-01T09:00:00").unwrap());
    assert_eq!(
        summary.end,
        Some(TaskTime::parse("2021-01-01T12:00:00").unwrap())
    );
    assert_eq!(summary.total_duration, Duration::minutes(180 + 60));

    let swapped = vec![records[1].clone(), records[0].clone()];
    let summary = TaskSummary::from_at(&swapped, &now);
    assert_eq!(
        summary.end,
        Some(TaskTime::parse("2021-01-01T12:00:00").unwrap())
    );
}

#[test]
fn summary_end_is_absent_when_no_work_has_ended() {
    let records = vec![
        record("a", false, "2021-01-01T09:00:00", None),
        record("pause", true, "2021-01-01T10:00:00", Some("2021-01-01T10:15:00")),
    ];
    let now = TaskTime::parse("2021-01-01T11:00:00").unwrap();
    let summary = TaskSummary::from_at(&records, &now);
    assert_eq!(summary.end, None);
    assert_eq!(summary.total_duration, Duration::minutes(120));
}

#[test]
fn summary_end_is_the_maximum_not_the_last() {
    let records = vec![
        record("a", false, "2021-01-01T09:00:00", Some("2021-01-01T18:00:00")),
        record("b", false, "2021-01-01T10:00:00", Some("2021-01-01T11:00:00")),
    ];
    let now = TaskTime::parse("2021-01-01T19:00:00").unwrap();
    let summary = TaskSummary::from_at(&records, &now);
    assert_eq!(
        summary.end,
        Some(TaskTime::parse("2021-01-01T18:00:00").unwrap())
    );
}

#[test]
fn summary_begin_is_the_minimum_not_the_first() {
    let records = vec![
        record("a", false, "2021-01-01T10:00:00", Some("2021-01-01T11:00:00")),
        record("pause", true, "2021-01-01T07:00:00", Some("2021-01-01T07:30:00")),
        record("b", false, "2021-01-01T08:00:00", Some("2021-01-01T09:00:00")),
    ];
    let now = TaskTime::parse("2021-01-01T19:00:00").unwrap();
    let summary = TaskSummary::from_at(&records, &now);
    assert_eq!(summary.begin, TaskTime::parse("2021-01-01T08:00:00").unwrap());
}

#[test]
fn summary_merges_equal_names_and_keeps_breaks_apart() {
    let first = TaskRecord::new(
        Some(1),
        Task::new(Some(1), Some("x"), None, Some("y"), "", false, true),
        WorkingDate::from_ymd_opt(2021, 1, 1).unwrap(),
        TaskTime::parse("2021-01-01T09:00:00").unwrap(),
        Some(TaskTime::parse("2021-01-01T10:00:00").unwrap()),
    );
    let pause = record("lunch", true, "2021-01-01T12:00:00", Some("2021-01-01T13:00:00"));
    let nap = record("nap", true, "2021-01-01T15:00:00", None);
    let second = TaskRecord::new(
        Some(2),
        Task::new(Some(7), Some("x"), Some("y"), None, "other", false, true),
        WorkingDate::from_ymd_opt(2021, 1, 1).unwrap(),
        TaskTime::parse("2021-01-01T10:00:00").unwrap(),
        Some(TaskTime::parse("2021-01-01T10:20:00").unwrap()),
    );
    let third = record("z", false, "2021-01-01T16:00:00", None);
    let records = vec![
        first,
        pause.clone(),
        nap.clone(),
        second,
        third,
    ];
    let now = TaskTime::parse("2021-01-01T16:05:00").unwrap();
    let summary = TaskSummary::from_at(&records, &now);
    assert_eq!(
        summary.task_durations,
        vec![
            ("x/y".to_string(), Duration::minutes(80)),
            ("z".to_string(), Duration::minutes(5)),
        ]
    );
    assert_eq!(summary.total_duration, Duration::minutes(85));
    assert_eq!(summary.break_times, vec![pause, nap]);
}

#[test]
fn summary_needs_a_record_of_work() {
    let breaks = vec![record("lunch", true, "2021-01-01T12:00:00", None)];
    assert!(!TaskSummary::has_work(&breaks));
    assert!(!TaskSummary::has_work(&[]));
    let mixed = vec![
        record("lunch", true, "2021-01-01T12:00:00", None),
        record("a", false, "2021-01-01T13:00:00", None),
    ];
    assert!(TaskSummary::has_work(&mixed));
}

#[test]
fn summary_by_the_clock_counts_open_records_up_to_now() {
    let begin = TaskTime::now();
    let records = vec![TaskRecord::new(
        None,
        Task::new(None, Some("a"), None, None, "", false, true),
        WorkingDate::from(begin),
        begin,
        None,
    )];
    let summary = TaskSummary::from(&records);
    let minutes = summary.total_duration.num_minutes();
    assert!((0..=2).contains(&minutes));
    assert_eq!(summary.end, None);
}

#[test]
fn format_name_joins_the_levels_that_are_present() {
    let all = Task::new(None, Some("a"), Some("b"), Some("c"), "", false, true);
    assert_eq!(all.format_name("/"), "a/b/c");
    assert_eq!(all.format_name(" > "), "a > b > c");
    let gap = Task::new(None, Some("a"), None, Some("c"), "", false, true);
    assert_eq!(gap.format_name("/"), "a/c");
    let late = Task::new(None, None, None, Some("c"), "", false, true);
    assert_eq!(late.format_name("/"), "c");
    let none = Task::new(None, None, None, None, "", false, true);
    assert_eq!(none.format_name("/"), "");
    let empty = Task::new(None, Some(""), Some("b"), None, "", false, true);
    assert_eq!(empty.format_name("/"), "/b");
}

#[test]
fn task_new_keeps_each_level_in_its_place() {
    let task = Task::new(Some(3), None, Some("b"), None, "text", true, false);
    assert_eq!(task.id, Some(3));
    assert_eq!(task.task, vec![None, Some("b".to_string()), None]);
    assert_eq!(task.description, "text");
    assert!(task.is_break);
    assert!(!task.is_active);
    assert_eq!(task.clone(), task);
}

#[test]
fn task_default_is_active_work_without_a_name() {
    let task = Task::default();
    assert_eq!(task, Task::new(None, None, None, None, "", false, true));
    assert_eq!(task.task.len(), 3);
}

#[test]
fn record_duration_is_end_minus_begin() {
    let done = record("a", false, "2021-01-01T23:30:00", Some("2021-01-02T00:45:00"));
    assert_eq!(done.duration(), Duration::minutes(75));
    let now = TaskTime::parse("2021-01-03T00:00:00").unwrap();
    assert_eq!(done.duration_at(&now), Duration::minutes(75));
    let open = record("a", false, "2021-01-01T23:30:00", None);
    assert_eq!(open.duration_at(&now), Duration::minutes(24 * 60 + 30));
    let earlier = TaskTime::parse("2021-01-01T23:00:00").unwrap();
    assert_eq!(open.duration_at(&earlier), Duration::minutes(-30));
    assert!(!open.is_break());
    assert!(record("b", true, "2021-01-01T23:30:00", None).is_break());
}

#[test]
fn finish_rejects_an_end_before_the_begin() {
    let mut open = record("a", false, "2021-01-01T09:00:00", None);
    let before = open.clone();
    let early = TaskTime::parse("2021-01-01T08:59:00").unwrap();
    assert_eq!(open.finish(early), Err(LogicError::EndBeforeBegin));
    assert_eq!(open, before);
    let same = TaskTime::parse("2021-01-01T09:00:00").unwrap();
    assert_eq!(open.finish(same), Ok(()));
    assert_eq!(open.end, Some(same));
    let later = TaskTime::parse("2021-01-01T10:00:00").unwrap();
    assert_eq!(open.finish(later), Ok(()));
    assert_eq!(open.end, Some(later));
    assert_eq!(open.begin, before.begin);
}
