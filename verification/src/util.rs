//! Lists to choose from: a key for each task or record, and the table that
//! leads from a key back to what it stands for.

use crate::datetime::{clock_text, date_text, TimeDisplay};
use crate::summary::work_name;
use crate::task::{RecordView, Task, TaskRecord, TaskView};
use vstd::prelude::*;
use vstd::string::*;

verus! {

/// The table that a list of keyed values stands for: a key leads to the last
/// value that was listed under it.
pub open spec fn table_of<T>(entries: Seq<(Seq<char>, T)>) -> Map<Seq<char>, T>
    decreases entries.len(),
{
    if entries.len() == 0 {
        Map::empty()
    } else {
        table_of(entries.drop_last()).insert(entries.last().0, entries.last().1)
    }
}

/// The keys as characters.
pub open spec fn keyed<T>(entries: Seq<(String, T)>) -> Seq<(Seq<char>, T)> {
    Seq::new(entries.len(), |i: int| (entries[i].0@, entries[i].1))
}

/// A key that has no later occurrence leads to the value beside it.
pub proof fn lemma_table_of_last<T>(entries: Seq<(Seq<char>, T)>, k: int)
    requires
        0 <= k < entries.len(),
        forall|j: int| k < j < entries.len() ==> (#[trigger] entries[j]).0 != entries[k].0,
    ensures
        table_of(entries).contains_key(entries[k].0),
        table_of(entries)[entries[k].0] == entries[k].1,
    decreases entries.len(),
{
    if k < entries.len() - 1 {
        let rest = entries.drop_last();
        assert forall|j: int| k < j < rest.len() implies (#[trigger] rest[j]).0 != rest[k].0 by {
            assert(rest[j] == entries[j]);
        }
        lemma_table_of_last(rest, k);
        assert(entries.last() == entries[entries.len() - 1]);
    }
}

/// A key that does not occur leads nowhere.
pub proof fn lemma_table_of_absent<T>(entries: Seq<(Seq<char>, T)>, key: Seq<char>)
    requires
        forall|j: int| 0 <= j < entries.len() ==> (#[trigger] entries[j]).0 != key,
    ensures
        !table_of(entries).contains_key(key),
    decreases entries.len(),
{
    if entries.len() > 0 {
        let rest = entries.drop_last();
        assert forall|j: int| 0 <= j < rest.len() implies (#[trigger] rest[j]).0 != key by {
            assert(rest[j] == entries[j]);
        }
        lemma_table_of_absent(rest, key);
        assert(entries.last() == entries[entries.len() - 1]);
    }
}

/// A table from keys to values.
#[derive(Debug)]
pub struct Lookup<T> {
    entries: Vec<(String, T)>,
}

impl<T> View for Lookup<T> {
    type V = Map<Seq<char>, T>;

    closed spec fn view(&self) -> Map<Seq<char>, T> {
        table_of(keyed(self.entries@))
    }
}

impl<T> Lookup<T> {
    /// The empty table.
    pub fn new() -> (r: Lookup<T>)
        ensures
            r@ == Map::<Seq<char>, T>::empty(),
    {
        Lookup { entries: Vec::new() }
    }

    /// Puts `value` under `key`, in place of what was there.
    pub fn insert(&mut self, key: String, value: T)
        ensures
            final(self)@ == old(self)@.insert(key@, value),
    {
        let ghost before = keyed(self.entries@);
        self.entries.push((key, value));
        assert(keyed(self.entries@).drop_last() =~= before);
    }

    /// The value under `key`, if there is one.
    pub fn get(&self, key: &str) -> (r: Option<&T>)
        ensures
            match r {
                Some(v) => self@.contains_key(key@) && self@[key@] == *v,
                None => !self@.contains_key(key@),
            },
    {
        let wanted = String::from_str(key);
        let ghost entries = keyed(self.entries@);
        let mut i: usize = self.entries.len();
        while i > 0
            invariant
                i <= self.entries@.len(),
                entries == keyed(self.entries@),
                wanted@ == key@,
                forall|j: int| i <= j < entries.len() ==> (#[trigger] entries[j]).0 != key@,
            decreases i,
        {
            i = i - 1;
            if self.entries[i].0 == wanted {
                proof {
                    lemma_table_of_last(entries, i as int);
                }
                return Some(&self.entries[i].1);
            }
        }
        proof {
            lemma_table_of_absent(entries, key@);
        }
        None
    }
}

/// The key of a task in a list to choose from: its name, and its
/// description after ` - ` where it has one.
pub open spec fn task_key(t: TaskView) -> Seq<char> {
    if t.description.len() == 0 {
        t.name(seq!['/'])
    } else {
        t.name(seq!['/']) + seq![' ', '-', ' '] + t.description
    }
}

/// The key of a record in a list to choose from: its date, begin and end,
/// and the name of its task. The end of a record that has none is five
/// spaces.
pub open spec fn record_key(r: RecordView) -> Seq<char> {
    date_text(r.working_date) + seq![' ', ' '] + clock_text(r.begin.hour, r.begin.minute) + seq![
        ' ',
        '-',
        ' ',
    ] + match r.end {
        Some(end) => clock_text(end.hour, end.minute),
        None => seq![' ', ' ', ' ', ' ', ' '],
    } + seq![' ', ' '] + work_name(r)
}

/// The keys of tasks, each with its task.
pub open spec fn keyed_tasks(tasks: Seq<Task>) -> Seq<(Seq<char>, Task)> {
    Seq::new(tasks.len(), |i: int| (task_key(tasks[i]@), tasks[i]))
}

/// The keys of records, each with its record.
pub open spec fn keyed_records(records: Seq<TaskRecord>) -> Seq<(Seq<char>, TaskRecord)> {
    Seq::new(records.len(), |i: int| (record_key(records[i]@), records[i]))
}

/// The key of a task in a list to choose from.
pub fn key_of_task(task: &Task) -> (key: String)
    ensures
        key@ == task_key(task@),
{
    proof {
        reveal_strlit("/");
        reveal_strlit(" - ");
        assert("/"@ =~= seq!['/']);
        assert(" - "@ =~= seq![' ', '-', ' ']);
    }
    let mut key = task.format_name("/");
    if task.description.as_str().unicode_len() > 0 {
        key.append(" - ");
        key.append(task.description.as_str());
    }
    key
}

/// The key of a record in a list to choose from.
pub fn key_of_record(record: &TaskRecord) -> (key: String)
    ensures
        key@ == record_key(record@),
{
    proof {
        reveal_strlit("/");
        reveal_strlit("  ");
        reveal_strlit(" - ");
        reveal_strlit("     ");
        assert("/"@ =~= seq!['/']);
        assert("  "@ =~= seq![' ', ' ']);
        assert(" - "@ =~= seq![' ', '-', ' ']);
        assert("     "@ =~= seq![' ', ' ', ' ', ' ', ' ']);
    }
    let mut key = record.working_date.to_string();
    key.append("  ");
    key.append(record.begin.to_string_hm().as_str());
    key.append(" - ");
    match &record.end {
        Some(end) => key.append(end.to_string_hm().as_str()),
        None => key.append("     "),
    }
    key.append("  ");
    key.append(record.task.format_name("/").as_str());
    assert(key@ =~= record_key(record@));
    key
}

/// The items of `v` from the last to the first.
pub(crate) fn reversed<T>(v: Vec<T>) -> (r: Vec<T>)
    ensures
        r@.len() == v@.len(),
        forall|j: int| 0 <= j < v@.len() ==> r@[j] == v@[v@.len() - 1 - j],
{
    let mut rest = v;
    let mut result: Vec<T> = Vec::new();
    while rest.len() > 0
        invariant
            rest@.len() + result@.len() == v@.len(),
            forall|j: int| 0 <= j < rest@.len() ==> rest@[j] == v@[j],
            forall|j: int| 0 <= j < result@.len() ==> result@[j] == v@[v@.len() - 1 - j],
        decreases rest@.len(),
    {
        let item = rest.pop().unwrap();
        result.push(item);
    }
    result
}

/// The keys of `tasks` in their order, and the table from each key to its
/// task. Of two tasks with one key the table holds the later.
pub fn map_tasks(tasks: Vec<Task>) -> (r: (Lookup<Task>, Vec<String>))
    ensures
        r.0@ == table_of(keyed_tasks(tasks@)),
        r.1@.len() == tasks@.len(),
        forall|i: int| 0 <= i < tasks@.len() ==> (#[trigger] r.1@[i])@ == task_key(tasks@[i]@),
{
    let mut table: Lookup<Task> = Lookup::new();
    let mut keys: Vec<String> = Vec::new();
    let mut rest = reversed(tasks);
    let ghost all = tasks@;
    let n: usize = rest.len();
    let mut i: usize = 0;
    assert(keyed_tasks(all.subrange(0, 0)) =~= Seq::empty());
    while i < n
        invariant
            i <= n,
            n == all.len(),
            rest@.len() == n - i,
            forall|j: int| 0 <= j < n - i ==> rest@[j] == all[n - 1 - j],
            table@ == table_of(keyed_tasks(all.subrange(0, i as int))),
            keys@.len() == i,
            forall|j: int| 0 <= j < i ==> (#[trigger] keys@[j])@ == task_key(all[j]@),
        decreases n - i,
    {
        let task = rest.pop().unwrap();
        assert(task == all[i as int]);
        let key = key_of_task(&task);
        keys.push(key.clone());
        table.insert(key, task);
        proof {
            let before = keyed_tasks(all.subrange(0, i as int));
            let after = keyed_tasks(all.subrange(0, i + 1));
            assert(after.drop_last() =~= before);
            assert(after.last() == (task_key(task@), task));
        }
        i = i + 1;
    }
    assert(all.subrange(0, n as int) =~= all);
    (table, keys)
}

/// The keys of `records` in their order, and the table from each key to its
/// record. Of two records with one key the table holds the later.
pub fn map_records(records: Vec<TaskRecord>) -> (r: (Lookup<TaskRecord>, Vec<String>))
    ensures
        r.0@ == table_of(keyed_records(records@)),
        r.1@.len() == records@.len(),
        forall|i: int|
            0 <= i < records@.len() ==> (#[trigger] r.1@[i])@ == record_key(records@[i]@),
{
    let mut table: Lookup<TaskRecord> = Lookup::new();
    let mut keys: Vec<String> = Vec::new();
    let mut rest = reversed(records);
    let ghost all = records@;
    let n: usize = rest.len();
    let mut i: usize = 0;
    assert(keyed_records(all.subrange(0, 0)) =~= Seq::empty());
    while i < n
        invariant
            i <= n,
            n == all.len(),
            rest@.len() == n - i,
            forall|j: int| 0 <= j < n - i ==> rest@[j] == all[n - 1 - j],
            table@ == table_of(keyed_records(all.subrange(0, i as int))),
            keys@.len() == i,
            forall|j: int| 0 <= j < i ==> (#[trigger] keys@[j])@ == record_key(all[j]@),
        decreases n - i,
    {
        let record = rest.pop().unwrap();
        assert(record == all[i as int]);
        let key = key_of_record(&record);
        keys.push(key.clone());
        table.insert(key, record);
        proof {
            let before = keyed_records(all.subrange(0, i as int));
            let after = keyed_records(all.subrange(0, i + 1));
            assert(after.drop_last() =~= before);
            assert(after.last() == (record_key(record@), record));
        }
        i = i + 1;
    }
    assert(all.subrange(0, n as int) =~= all);
    (table, keys)
}

/// `v` with `x` before it.
pub fn push_front<T>(x: T, v: Vec<T>) -> (r: Vec<T>)
    ensures
        r@ == seq![x] + v@,
{
    let mut result: Vec<T> = Vec::new();
    result.push(x);
    let mut rest = v;
    result.append(&mut rest);
    assert(result@ =~= seq![x] + v@);
    result
}

} // verus!
