use shigotolog::datetime::{Duration, TaskTime, WorkingDate};
use shigotolog::summary::TaskSummary;
use shigotolog::table::{
    break_times, display_bool, duration_list, record_list, record_list_at, sorted_durations,
    task_list, task_summary, task_summary_at, BreakTimes, TaskDuration,
};
use shigotolog::task::{Task, TaskRecord};
use tabled::builder::Builder;
use tabled::settings::object::Rows;
use tabled::settings::style::Style;
use tabled::settings::themes::Colorization;
use tabled::settings::Color;

fn plain(text: &str) -> String {
    text.replace("\u{1b}[1m", "").replace("\u{1b}[22m", "")
}

fn sample() -> (TaskRecord, TaskRecord) {
    let a = Task::new(Some(1), Some("a"), None, Some("c"), "first", false, true);
    let b = Task::new(Some(2), Some("lunch"), None, None, "", true, false);
    let begin = TaskTime::parse("2021-01-01T09:00:00").unwrap();
    let end = TaskTime::parse("2021-01-01T12:30:00").unwrap();
    (
        TaskRecord::new(Some(1), a, WorkingDate::from(begin), begin, Some(end)),
        TaskRecord::new(Some(2), b, WorkingDate::from(end), end, None),
    )
}

#[test]
fn display_bool_says_yes_or_no() {
    assert_eq!(display_bool(&true), "Yes");
    assert_eq!(display_bool(&false), "No");
}

#[test]
fn task_list_has_a_row_for_each_task() {
    let (work, pause) = sample();
    let text = task_list(&[work.task.clone(), pause.task.clone()]);
    assert_eq!(
        plain(&text),
        "┌─────────┬─────────┬─────────┬─────────────┬────────────┬────────┐\n\
         │ Level 1 │ Level 2 │ Level 3 │ Description │ Break time │ Active │\n\
         ├─────────┼─────────┼─────────┼─────────────┼────────────┼────────┤\n\
         │ a       │         │ c       │ first       │ No         │ Yes    │\n\
         │ lunch   │         │         │             │ Yes        │ No     │\n\
         └─────────┴─────────┴─────────┴─────────────┴────────────┴────────┘"
    );
    assert!(text.contains("\u{1b}[1mLevel 1\u{1b}[22m"));
    assert!(!text.contains("\u{1b}[1ma\u{1b}[22m"));

    let mut by_tabled = Builder::from(vec![
        vec!["Level 1", "Level 2", "Level 3", "Description", "Break time", "Active"]
            .into_iter()
            .map(String::from)
            .collect::<Vec<_>>(),
        vec!["a", "", "c", "first", "No", "Yes"].into_iter().map(String::from).collect(),
        vec!["lunch", "", "", "", "Yes", "No"].into_iter().map(String::from).collect(),
    ])
    .build();
    by_tabled
        .with(Style::sharp())
        .with(Colorization::exact([Color::BOLD], Rows::first()));
    assert_eq!(text, by_tabled.to_string());

    let none = task_list(&[]);
    assert_eq!(
        plain(&none),
        "┌─────────┬─────────┬─────────┬─────────────┬────────────┬────────┐\n\
         │ Level 1 │ Level 2 │ Level 3 │ Description │ Break time │ Active │\n\
         ├─────────┼─────────┼─────────┼─────────────┼────────────┼────────┤"
    );
}

#[test]
fn task_list_leaves_a_missing_level_empty() {
    let mut short = Task::new(None, Some("a"), Some("b"), Some("c"), "", false, true);
    short.task.truncate(1);
    let text = plain(&task_list(&[short]));
    assert!(text.contains("│ a       │         │         │             │ No         │ Yes    │"));
}

#[test]
fn record_list_aligns_durations_to_the_right() {
    let (work, pause) = sample();
    let now = TaskTime::parse("2021-01-01T13:00:00").unwrap();
    let text = record_list_at(&[work, pause], &now);
    assert_eq!(
        plain(&text),
        "┌────────────┬───────┬───────┬──────────┬───────┐\n\
         │ Date       │ Begin │ End   │ Duration │ Task  │\n\
         ├────────────┼───────┼───────┼──────────┼───────┤\n\
         │ 2021-01-01 │ 09:00 │ 12:30 │    03:30 │ a/c   │\n\
         │ 2021-01-01 │ 12:30 │       │    00:30 │ lunch │\n\
         └────────────┴───────┴───────┴──────────┴───────┘"
    );
    assert!(text.contains("\u{1b}[1mDuration\u{1b}[22m"));
}

#[test]
fn record_list_of_nothing_says_so() {
    let now = TaskTime::parse("2021-01-01T13:00:00").unwrap();
    assert_eq!(record_list_at(&[], &now), "No Records");
    assert_eq!(record_list(&[]), "No Records");
}

#[test]
fn record_list_by_the_clock_shows_finished_records_as_they_are() {
    let (work, _) = sample();
    let now = TaskTime::parse("2000-01-01T13:00:00").unwrap();
    assert_eq!(record_list(&[work.clone()]), record_list_at(&[work], &now));
}

#[test]
fn task_summary_is_one_row() {
    let (work, pause) = sample();
    let now = TaskTime::parse("2021-01-01T13:00:00").unwrap();
    let text = task_summary_at(&[work.clone(), pause.clone()], &now);
    assert_eq!(
        plain(&text),
        "┌───────┬───────┬──────────┐\n\
         │ Begin │ End   │ Duration │\n\
         ├───────┼───────┼──────────┤\n\
         │ 09:00 │ 12:30 │    03:30 │\n\
         └───────┴───────┴──────────┘"
    );
    assert_eq!(task_summary(&[work.clone(), pause.clone()]), text);
    assert_eq!(
        TaskSummary::from_at(&[work.clone(), pause.clone()], &now).to_table(),
        text
    );
    let mut open = work;
    open.end = None;
    let text = task_summary_at(&[open], &now);
    assert!(plain(&text).contains("│ 09:00 │       │    04:00 │"));
}

#[test]
fn task_summary_without_work_is_empty() {
    let (_, pause) = sample();
    let now = TaskTime::parse("2021-01-01T13:00:00").unwrap();
    assert_eq!(task_summary_at(&[], &now), "");
    assert_eq!(task_summary_at(&[pause.clone()], &now), "");
    assert_eq!(task_summary(&[]), "");
    assert_eq!(task_summary(&[pause]), "");
}

#[test]
fn break_times_lists_the_breaks() {
    let (work, pause) = sample();
    let mut ended = pause.clone();
    ended.end = Some(TaskTime::parse("2021-01-01T13:15:00").unwrap());
    let text = break_times(&[pause.clone(), work.clone(), ended.clone()]);
    assert_eq!(
        plain(&text),
        "┌───────┬───────────────┐\n\
         │ Break │ Time          │\n\
         ├───────┼───────────────┤\n\
         │ lunch │ 12:30 -       │\n\
         │ lunch │ 12:30 - 13:15 │\n\
         └───────┴───────────────┘"
    );
    assert_eq!(break_times(&[work]), "");
    assert_eq!(break_times(&[]), "");
    assert_eq!(
        BreakTimes::of(&ended).into_cells(),
        vec!["lunch".to_string(), "12:30 - 13:15".to_string()]
    );
    assert_eq!(
        BreakTimes::of(&pause).into_cells(),
        vec!["lunch".to_string(), "12:30 - ".to_string()]
    );
}

#[test]
fn durations_are_sorted_longest_first() {
    let entries = vec![
        ("a".to_string(), Duration::minutes(30)),
        ("b".to_string(), Duration::minutes(600)),
        ("c".to_string(), Duration::minutes(30)),
        ("d".to_string(), Duration::minutes(6000)),
        ("e".to_string(), Duration::minutes(-5)),
        ("f".to_string(), Duration::minutes(90)),
    ];
    assert_eq!(
        sorted_durations(&entries),
        vec![
            ("d".to_string(), Duration::minutes(6000)),
            ("b".to_string(), Duration::minutes(600)),
            ("f".to_string(), Duration::minutes(90)),
            ("a".to_string(), Duration::minutes(30)),
            ("c".to_string(), Duration::minutes(30)),
            ("e".to_string(), Duration::minutes(-5)),
        ]
    );
    assert_eq!(sorted_durations(&vec![]), vec![]);
}

#[test]
fn duration_list_aligns_time_and_share_to_the_right() {
    let rows = vec![
        TaskDuration::new("long name".to_string(), &Duration::minutes(270), "60.0".to_string()),
        TaskDuration::new("b".to_string(), &Duration::minutes(180), "40.0".to_string()),
    ];
    assert_eq!(
        rows[0],
        TaskDuration::new("long name".to_string(), &Duration::minutes(270), "60.0".to_string())
    );
    let text = duration_list(rows);
    assert_eq!(
        plain(&text),
        "┌───────────┬──────────┬──────┐\n\
         │ Task      │ Duration │    % │\n\
         ├───────────┼──────────┼──────┤\n\
         │ long name │    04:30 │ 60.0 │\n\
         │ b         │    03:00 │ 40.0 │\n\
         └───────────┴──────────┴──────┘"
    );
    assert_eq!(duration_list(vec![]), "");
    assert_eq!(
        TaskDuration::new("t".to_string(), &Duration::minutes(-61), "1.5".to_string())
            .into_cells(),
        vec!["t".to_string(), "-01:01".to_string(), "1.5".to_string()]
    );
}
