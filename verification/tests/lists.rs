use shigotolog::datetime::{TaskTime, WorkingDate};
use shigotolog::repository::State;
use shigotolog::task::{Task, TaskRecord};
use shigotolog::util::{key_of_record, key_of_task, map_records, map_tasks, push_front, Lookup};

fn record(id: u32, name: &str, begin: &str, end: Option<&str>) -> TaskRecord {
    let task = Task::new(None, Some(name), Some("x"), None, "", false, true);
    let begin = TaskTime::parse(begin).unwrap();
    let end = end.map(|e| TaskTime::parse(e).unwrap());
    TaskRecord::new(Some(id), task, WorkingDate::from(begin), begin, end)
}

#[test]
fn push_front_puts_the_item_first() {
    assert_eq!(push_front(1, vec![2, 3]), vec![1, 2, 3]);
    assert_eq!(push_front("new".to_string(), vec![]), vec!["new".to_string()]);
}

#[test]
fn task_keys_are_name_and_description() {
    let plain = Task::new(Some(1), Some("a"), Some("b"), None, "", false, true);
    assert_eq!(key_of_task(&plain), "a/b");
    let described = Task::new(Some(2), Some("a"), None, Some("c"), "more", false, true);
    assert_eq!(key_of_task(&described), "a/c - more");
    let nameless = Task::new(Some(3), None, None, None, "only", false, true);
    assert_eq!(key_of_task(&nameless), " - only");
}

#[test]
fn map_tasks_lists_keys_in_order_and_keeps_the_later_of_two() {
    let first = Task::new(Some(1), Some("a"), None, None, "", false, true);
    let second = Task::new(Some(2), Some("b"), None, None, "d", true, true);
    let third = Task::new(Some(3), Some("a"), None, None, "", false, false);
    let (table, keys) = map_tasks(vec![first, second.clone(), third.clone()]);
    assert_eq!(keys, vec!["a".to_string(), "b - d".to_string(), "a".to_string()]);
    assert_eq!(table.get("a"), Some(&third));
    assert_eq!(table.get("b - d"), Some(&second));
    assert_eq!(table.get("b"), None);
    let (table, keys) = map_tasks(vec![]);
    assert!(keys.is_empty());
    assert_eq!(table.get(""), None);
}

#[test]
fn record_keys_show_date_times_and_name() {
    let done = record(1, "a", "2021-01-01T09:00:00", Some("2021-01-01T12:30:00"));
    assert_eq!(key_of_record(&done), "2021-01-01  09:00 - 12:30  a/x");
    let open = record(2, "b", "2021-01-02T01:05:00", None);
    assert_eq!(key_of_record(&open), "2021-01-01  01:05 -        b/x");
    assert_eq!(
        key_of_record(&open),
        format!(
            "{}  {} - {:5}  {}",
            "2021-01-01", "01:05", "", "b/x"
        )
    );
}

#[test]
fn map_records_lists_keys_in_order() {
    let done = record(1, "a", "2021-01-01T09:00:00", Some("2021-01-01T12:30:00"));
    let open = record(2, "b", "2021-01-01T13:00:00", None);
    let (table, keys) = map_records(vec![done.clone(), open.clone()]);
    assert_eq!(
        keys,
        vec![
            "2021-01-01  09:00 - 12:30  a/x".to_string(),
            "2021-01-01  13:00 -        b/x".to_string(),
        ]
    );
    assert_eq!(table.get(&keys[0]), Some(&done));
    assert_eq!(table.get(&keys[1]), Some(&open));
    assert_eq!(table.get("2021-01-01"), None);
}

#[test]
fn lookup_holds_the_last_value_of_a_key() {
    let mut table: Lookup<u32> = Lookup::new();
    assert_eq!(table.get("k"), None);
    table.insert("k".to_string(), 1);
    table.insert("other".to_string(), 2);
    assert_eq!(table.get("k"), Some(&1));
    table.insert("k".to_string(), 3);
    assert_eq!(table.get("k"), Some(&3));
    assert_eq!(table.get("other"), Some(&2));
    assert_eq!(table.get("K"), None);
}

#[test]
fn the_state_is_that_of_the_latest_record() {
    let done = record(1, "a", "2021-01-01T09:00:00", Some("2021-01-01T12:00:00"));
    let open = record(2, "e", "2021-01-01T13:00:00", None);
    assert_eq!(State::of_records(&[]), State::Completed);
    assert_eq!(State::of_records(&[done.clone()]), State::Completed);
    assert_eq!(State::of_records(&[open.clone()]), State::Active(open.clone()));
    assert_eq!(
        State::of_records(&[open.clone(), done.clone()]),
        State::Active(open.clone())
    );
    assert_eq!(State::of_records(&[done, open.clone()]), State::Completed);
    assert!(State::Active(open).is_active());
    assert!(!State::Completed.is_active());
}
