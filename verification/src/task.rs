//! Tasks and the records of the time spent on them.

use crate::calendar::Date;
use crate::datetime::{
    lemma_minute_number_bound, Duration, Instant, TaskTime, WorkingDate, MINUTE_LIMIT,
};
use vstd::prelude::*;
use vstd::string::*;

verus! {

/// A task as a mathematical value.
pub struct TaskView {
    pub id: Option<u32>,
    /// The levels of the name, each present or absent, in their places.
    pub levels: Seq<Option<Seq<char>>>,
    pub description: Seq<char>,
    pub is_break: bool,
    pub is_active: bool,
}

/// The characters of a level of a name, where it is present.
pub open spec fn level_text(level: Option<String>) -> Option<Seq<char>> {
    match level {
        Some(s) => Some(s@),
        None => None,
    }
}

/// The characters of the levels of a name, each in its place.
pub open spec fn level_texts(levels: Seq<Option<String>>) -> Seq<Option<Seq<char>>> {
    Seq::new(levels.len(), |i: int| level_text(levels[i]))
}

/// The levels that are present, in their order.
pub open spec fn present_levels(levels: Seq<Option<Seq<char>>>) -> Seq<Seq<char>>
    decreases levels.len(),
{
    if levels.len() == 0 {
        Seq::empty()
    } else {
        let rest = present_levels(levels.drop_last());
        match levels.last() {
            Some(text) => rest.push(text),
            None => rest,
        }
    }
}

/// The parts in their order, with `sep` between each two of them.
pub open spec fn joined(parts: Seq<Seq<char>>, sep: Seq<char>) -> Seq<char>
    decreases parts.len(),
{
    if parts.len() == 0 {
        Seq::empty()
    } else if parts.len() == 1 {
        parts[0]
    } else {
        joined(parts.drop_last(), sep) + sep + parts.last()
    }
}

impl TaskView {
    /// The name in one string: the levels that are present, `sep` between
    /// them.
    pub open spec fn name(self, sep: Seq<char>) -> Seq<char> {
        joined(present_levels(self.levels), sep)
    }
}

/// Something to work on, or a kind of break.
#[derive(PartialEq, Eq, Debug)]
pub struct Task {
    /// Identifier; absent until the task is stored.
    pub id: Option<u32>,
    /// The levels of the name. A level may be absent while a later one is
    /// present.
    pub task: Vec<Option<String>>,
    /// Description
    pub description: String,
    /// Whether time on it counts as a break
    pub is_break: bool,
    /// Whether it is still in use
    pub is_active: bool,
}

impl View for Task {
    type V = TaskView;

    open spec fn view(&self) -> TaskView {
        TaskView {
            id: self.id,
            levels: level_texts(self.task@),
            description: self.description@,
            is_break: self.is_break,
            is_active: self.is_active,
        }
    }
}

/// An owned copy of a level of a name.
fn own_level(level: Option<&str>) -> (r: Option<String>)
    ensures
        match level {
            Some(s) => r.is_some() && r.unwrap()@ == s@,
            None => r.is_none(),
        },
{
    match level {
        Some(s) => Some(String::from_str(s)),
        None => None,
    }
}

impl Task {
    /// A task with a name of three levels.
    pub fn new(
        id: Option<u32>,
        level1: Option<&str>,
        level2: Option<&str>,
        level3: Option<&str>,
        description: &str,
        is_break: bool,
        is_active: bool,
    ) -> (t: Task)
        ensures
            t@ == (TaskView {
                id,
                levels: seq![
                    match level1 {
                        Some(s) => Some(s@),
                        None => None,
                    },
                    match level2 {
                        Some(s) => Some(s@),
                        None => None,
                    },
                    match level3 {
                        Some(s) => Some(s@),
                        None => None,
                    },
                ],
                description: description@,
                is_break,
                is_active,
            }),
            t.task@.len() == 3,
    {
        let mut task: Vec<Option<String>> = Vec::new();
        task.push(own_level(level1));
        task.push(own_level(level2));
        task.push(own_level(level3));
        let t = Task { id, task, description: String::from_str(description), is_break, is_active };
        assert(t@.levels =~= seq![
            match level1 {
                Some(s) => Some(s@),
                None => None,
            },
            match level2 {
                Some(s) => Some(s@),
                None => None,
            },
            match level3 {
                Some(s) => Some(s@),
                None => None,
            },
        ]);
        t
    }

    /// The name in one string: the levels that are present, `sep` between
    /// them.
    pub fn format_name(&self, sep: &str) -> (name: String)
        ensures
            name@ == self@.name(sep@),
    {
        let mut out = String::new();
        let mut any = false;
        let mut i: usize = 0;
        while i < self.task.len()
            invariant
                i <= self.task.len(),
                out@ == joined(present_levels(self@.levels.subrange(0, i as int)), sep@),
                any == (present_levels(self@.levels.subrange(0, i as int)).len() > 0),
            decreases self.task.len() - i,
        {
            let ghost before = self@.levels.subrange(0, i as int);
            let ghost after = self@.levels.subrange(0, i + 1);
            proof {
                assert(after.drop_last() =~= before);
                assert(after.last() == level_text(self.task@[i as int]));
            }
            match &self.task[i] {
                Some(level) => {
                    if any {
                        out.append(sep);
                    }
                    out.append(level.as_str());
                    any = true;
                    proof {
                        let parts = present_levels(after);
                        assert(parts == present_levels(before).push(level@));
                        assert(parts.drop_last() =~= present_levels(before));
                        assert(out@ =~= joined(parts, sep@));
                    }
                },
                None => {},
            }
            i = i + 1;
        }
        assert(self@.levels.subrange(0, self.task.len() as int) =~= self@.levels);
        out
    }
}

impl Clone for Task {
    fn clone(&self) -> (t: Task)
        ensures
            t@ == self@,
    {
        let mut task: Vec<Option<String>> = Vec::new();
        let mut i: usize = 0;
        while i < self.task.len()
            invariant
                i <= self.task.len(),
                task@.len() == i,
                forall|k: int| 0 <= k < i ==> level_text(#[trigger] task@[k]) == level_text(
                    self.task@[k],
                ),
            decreases self.task.len() - i,
        {
            let level = match &self.task[i] {
                Some(s) => Some(s.clone()),
                None => None,
            };
            task.push(level);
            i = i + 1;
        }
        let t = Task {
            id: self.id,
            task,
            description: self.description.clone(),
            is_break: self.is_break,
            is_active: self.is_active,
        };
        assert(t@.levels =~= self@.levels);
        t
    }
}

impl Default for Task {
    /// An active task that is no break, with no name and no description.
    fn default() -> (t: Task)
        ensures
            t@ == (TaskView {
                id: None,
                levels: seq![None, None, None],
                description: Seq::empty(),
                is_break: false,
                is_active: true,
            }),
            t.task@.len() == 3,
    {
        proof {
            reveal_strlit("");
        }
        let t = Task::new(None, None, None, None, "", false, true);
        assert(t@.description =~= Seq::empty());
        assert(t@.levels =~= seq![None::<Seq<char>>, None, None]);
        t
    }
}

/// A record as a mathematical value.
pub struct RecordView {
    pub id: Option<u32>,
    pub task: TaskView,
    pub working_date: Date,
    pub begin: Instant,
    pub end: Option<Instant>,
}

impl RecordView {
    /// The record is of a break.
    pub open spec fn is_break(self) -> bool {
        self.task.is_break
    }

    /// The minutes from the begin to the end, or to `now` while the record
    /// has no end.
    pub open spec fn duration_at(self, now: Instant) -> int {
        match self.end {
            Some(end) => end.minute_number() - self.begin.minute_number(),
            None => now.minute_number() - self.begin.minute_number(),
        }
    }

    /// The begin and the end are valid instants.
    pub open spec fn is_valid(self) -> bool {
        self.begin.is_valid() && match self.end {
            Some(end) => end.is_valid(),
            None => true,
        }
    }
}

/// Why a record cannot be changed as asked.
#[derive(PartialEq, Eq, Structural, Clone, Copy, Debug)]
pub enum LogicError {
    /// The end would be earlier than the begin.
    EndBeforeBegin,
}

/// A span of time spent on a task.
#[derive(PartialEq, Eq, Debug)]
pub struct TaskRecord {
    /// Identifier; absent until the record is stored.
    pub id: Option<u32>,
    /// The task, as it was when the record was made.
    pub task: Task,
    /// Date
    pub working_date: WorkingDate,
    /// Begin time
    pub begin: TaskTime,
    /// End time; absent while the task is going on.
    pub end: Option<TaskTime>,
}

impl View for TaskRecord {
    type V = RecordView;

    open spec fn view(&self) -> RecordView {
        RecordView {
            id: self.id,
            task: self.task@,
            working_date: self.working_date@,
            begin: self.begin@,
            end: match self.end {
                Some(end) => Some(end@),
                None => None,
            },
        }
    }
}

impl Clone for TaskRecord {
    fn clone(&self) -> (r: TaskRecord)
        ensures
            r@ == self@,
    {
        TaskRecord {
            id: self.id,
            task: self.task.clone(),
            working_date: self.working_date,
            begin: self.begin,
            end: self.end,
        }
    }
}

impl TaskRecord {
    /// A record of its parts.
    pub fn new(
        id: Option<u32>,
        task: Task,
        working_date: WorkingDate,
        begin: TaskTime,
        end: Option<TaskTime>,
    ) -> (r: TaskRecord)
        ensures
            r.id == id,
            r.task == task,
            r.working_date == working_date,
            r.begin == begin,
            r.end == end,
    {
        TaskRecord { id, task, working_date, begin, end }
    }

    /// Whether the record is of a break.
    pub fn is_break(&self) -> (r: bool)
        ensures
            r == self@.is_break(),
    {
        self.task.is_break
    }

    /// The time from the begin to the end, or to `now` while the record has
    /// no end.
    pub fn duration_at(&self, now: &TaskTime) -> (d: Duration)
        ensures
            d@ == self@.duration_at(now@),
            self@.is_valid(),
            now@.is_valid(),
            -2 * MINUTE_LIMIT < d@ < 2 * MINUTE_LIMIT,
    {
        proof {
            use_type_invariant(&self.begin);
            use_type_invariant(now);
            lemma_minute_number_bound(self.begin@);
            lemma_minute_number_bound(now@);
        }
        match &self.end {
            Some(end) => {
                proof {
                    use_type_invariant(end);
                    lemma_minute_number_bound(end@);
                }
                end.since(&self.begin)
            },
            None => now.since(&self.begin),
        }
    }

    /// The time from the begin to the end, or to the current instant by the
    /// local clock while the record has no end.
    pub fn duration(&self) -> (d: Duration)
        ensures
            match self@.end {
                Some(end) => d@ == end.minute_number() - self@.begin.minute_number(),
                None => -2 * MINUTE_LIMIT < d@ < 2 * MINUTE_LIMIT,
            },
    {
        let now = TaskTime::now();
        self.duration_at(&now)
    }

    /// Ends the record at `end`, unless that is earlier than its begin: then
    /// the record stays as it is.
    pub fn finish(&mut self, end: TaskTime) -> (r: Result<(), LogicError>)
        ensures
            match r {
                Ok(_) => !end@.is_before(old(self)@.begin) && *final(self) == (TaskRecord {
                    end: Some(end),
                    ..*old(self)
                }),
                Err(e) => end@.is_before(old(self)@.begin) && e == LogicError::EndBeforeBegin
                    && *final(self) == *old(self),
            },
    {
        if end.is_before(&self.begin) {
            Err(LogicError::EndBeforeBegin)
        } else {
            self.end = Some(end);
            Ok(())
        }
    }
}

} // verus!
