//! The tables of a report: which rows they hold, and their drawing.
//!
//! The rows are computed here and proved. The drawing is done by the
//! `tabled` crate; what it draws has a name, `drawn_table`, and the
//! functions that return a drawn table say of which rows it is the drawing.

use crate::datetime::{
    clock_text, date_text, duration_text, Duration, Instant, TaskTime, TimeDisplay,
};
use crate::summary::{
    breaks_of, duration_views, has_work, instant_view, is_first_begin, is_last_end, record_views,
    total_minutes, work_name, TaskSummary,
};
use crate::task::{RecordView, Task, TaskRecord, TaskView};
use tabled::builder::Builder;
use tabled::settings::location::ByColumnName;
use tabled::settings::object::Rows;
use tabled::settings::style::Style;
use tabled::settings::themes::Colorization;
use tabled::settings::{Alignment, Color, Modify};
use vstd::prelude::*;
use vstd::seq_lib::*;
use vstd::string::*;

verus! {

/// The text that `tabled` draws for a table of the rows `rows`, the first of
/// which is the header, with the columns named in `right_aligned` aligned to
/// the right.
pub uninterp spec fn drawn_table(rows: Seq<Seq<Seq<char>>>, right_aligned: Seq<Seq<char>>) -> Seq<
    char,
>;

/// The characters of each string.
pub open spec fn texts(cells: Seq<String>) -> Seq<Seq<char>> {
    Seq::new(cells.len(), |i: int| cells[i]@)
}

/// The characters of each cell of each row.
pub open spec fn row_texts(rows: Seq<Vec<String>>) -> Seq<Seq<Seq<char>>> {
    Seq::new(rows.len(), |i: int| texts(rows[i]@))
}

/// Draws a table.
///
/// Builds a `tabled::Table` from the rows with `tabled::builder::Builder`,
/// gives it the style `Style::sharp`, a bold first row
/// (`Colorization::exact` with `Color::BOLD` on `Rows::first`) and, for each
/// name in `right_aligned`, `Alignment::right` on the column that
/// `ByColumnName` finds under that name, and returns what
/// `Table::to_string` gives. The contract claims that this text depends on
/// the rows and the names alone, and calls it `drawn_table` of them; it
/// claims nothing of what the text looks like.
#[verifier::external_body]
fn draw_table(rows: Vec<Vec<String>>, right_aligned: Vec<String>) -> (text: String)
    requires
        rows@.len() > 0,
    ensures
        text@ == drawn_table(row_texts(rows@), texts(right_aligned@)),
{
    let mut table = Builder::from(rows).build();
    table.with(Style::sharp()).with(Colorization::exact([Color::BOLD], Rows::first()));
    for name in right_aligned {
        table.with(Modify::new(ByColumnName::new(name)).with(Alignment::right()));
    }
    table.to_string()
}

/// `Yes` or `No`.
pub open spec fn bool_text(x: bool) -> Seq<char> {
    if x {
        "Yes"@
    } else {
        "No"@
    }
}

/// The level at `i` of a task's name; empty where it is absent.
pub open spec fn level_or_empty(levels: Seq<Option<Seq<char>>>, i: int) -> Seq<char> {
    if 0 <= i < levels.len() {
        match levels[i] {
            Some(text) => text,
            None => Seq::empty(),
        }
    } else {
        Seq::empty()
    }
}

/// The header of the list of tasks.
pub open spec fn task_header() -> Seq<Seq<char>> {
    seq!["Level 1"@, "Level 2"@, "Level 3"@, "Description"@, "Break time"@, "Active"@]
}

/// The row of a task: its three levels, its description, and whether it is
/// a break and in use.
pub open spec fn task_row(t: TaskView) -> Seq<Seq<char>> {
    seq![
        level_or_empty(t.levels, 0),
        level_or_empty(t.levels, 1),
        level_or_empty(t.levels, 2),
        t.description,
        bool_text(t.is_break),
        bool_text(t.is_active),
    ]
}

/// The models of tasks.
pub open spec fn task_views(tasks: Seq<Task>) -> Seq<TaskView> {
    Seq::new(tasks.len(), |i: int| tasks[i]@)
}

/// The rows of the list of tasks: the header, then a row for each task.
pub open spec fn task_rows(tasks: Seq<TaskView>) -> Seq<Seq<Seq<char>>> {
    Seq::new(
        tasks.len() + 1,
        |i: int|
            if i == 0 {
                task_header()
            } else {
                task_row(tasks[i - 1])
            },
    )
}

/// The end of a record as `HH:MM`; empty where it has none.
pub open spec fn end_text(end: Option<Instant>) -> Seq<char> {
    match end {
        Some(end) => clock_text(end.hour, end.minute),
        None => Seq::empty(),
    }
}

/// The header of the list of records.
pub open spec fn record_header() -> Seq<Seq<char>> {
    seq!["Date"@, "Begin"@, "End  "@, "Duration"@, "Task"@]
}

/// The row of a record: its date, begin, end and duration, and the name of
/// its task.
pub open spec fn record_row(r: RecordView, now: Instant) -> Seq<Seq<char>> {
    seq![
        date_text(r.working_date),
        clock_text(r.begin.hour, r.begin.minute),
        end_text(r.end),
        duration_text(r.duration_at(now)),
        work_name(r),
    ]
}

/// The rows of the list of records: the header, then a row for each record.
pub open spec fn record_rows(rs: Seq<RecordView>, now: Instant) -> Seq<Seq<Seq<char>>> {
    Seq::new(
        rs.len() + 1,
        |i: int|
            if i == 0 {
                record_header()
            } else {
                record_row(rs[i - 1], now)
            },
    )
}

/// The list of records as text: a table, or `No Records` where there are
/// none.
pub open spec fn record_list_text(rs: Seq<RecordView>, now: Instant) -> Seq<char> {
    if rs.len() == 0 {
        "No Records"@
    } else {
        drawn_table(record_rows(rs, now), seq!["Duration"@])
    }
}

/// The rows of the table of a summary: the header, then the first begin,
/// the last end and the time in all.
pub open spec fn summary_rows(begin: Instant, end: Option<Instant>, total: int) -> Seq<
    Seq<Seq<char>>,
> {
    seq![
        seq!["Begin"@, "End  "@, "Duration"@],
        seq![clock_text(begin.hour, begin.minute), end_text(end), duration_text(total)],
    ]
}

/// The row of a break: the name of its task, and its begin and end as
/// `HH:MM - HH:MM`, the end left out where it has none.
pub open spec fn break_row(r: RecordView) -> Seq<Seq<char>> {
    seq![work_name(r), clock_text(r.begin.hour, r.begin.minute) + " - "@ + end_text(r.end)]
}

/// The rows of the list of breaks: the header, then a row for each break.
pub open spec fn break_rows(breaks: Seq<RecordView>) -> Seq<Seq<Seq<char>>> {
    Seq::new(
        breaks.len() + 1,
        |i: int|
            if i == 0 {
                seq!["Break"@, "Time"@]
            } else {
                break_row(breaks[i - 1])
            },
    )
}

/// The rows of the table of time by task: the header, then the rows.
pub open spec fn duration_rows(rows: Seq<TaskDuration>) -> Seq<Seq<Seq<char>>> {
    Seq::new(
        rows.len() + 1,
        |i: int|
            if i == 0 {
                seq!["Task"@, "Duration"@, "%"@]
            } else {
                rows[i - 1]@
            },
    )
}

/// `Yes` for true, `No` for false.
pub fn display_bool(x: &bool) -> (text: String)
    ensures
        text@ == bool_text(*x),
{
    if *x {
        String::from_str("Yes")
    } else {
        String::from_str("No")
    }
}

/// The level at `i` of a task's name; empty where it is absent.
fn level_cell(task: &Task, i: usize) -> (text: String)
    ensures
        text@ == level_or_empty(task@.levels, i as int),
{
    if i < task.task.len() {
        match &task.task[i] {
            Some(level) => level.clone(),
            None => String::new(),
        }
    } else {
        String::new()
    }
}

/// The end of a record as `HH:MM`; empty where it has none.
fn end_cell(end: &Option<TaskTime>) -> (text: String)
    ensures
        text@ == end_text(instant_view(*end)),
{
    match end {
        Some(end) => end.to_string_hm(),
        None => String::new(),
    }
}

/// The list of tasks as a table.
pub fn task_list(tasks: &[Task]) -> (text: String)
    ensures
        text@ == drawn_table(task_rows(task_views(tasks@)), Seq::empty()),
{
    let mut rows: Vec<Vec<String>> = Vec::new();
    let mut header: Vec<String> = Vec::new();
    header.push(String::from_str("Level 1"));
    header.push(String::from_str("Level 2"));
    header.push(String::from_str("Level 3"));
    header.push(String::from_str("Description"));
    header.push(String::from_str("Break time"));
    header.push(String::from_str("Active"));
    assert(texts(header@) =~= task_header());
    rows.push(header);
    let ghost views = task_views(tasks@);
    let mut i: usize = 0;
    while i < tasks.len()
        invariant
            i <= tasks.len(),
            views == task_views(tasks@),
            rows@.len() == i + 1,
            texts(rows@[0]@) == task_header(),
            forall|k: int| 1 <= k <= i ==> texts(#[trigger] rows@[k]@) == task_row(views[k - 1]),
        decreases tasks.len() - i,
    {
        let task = &tasks[i];
        let mut row: Vec<String> = Vec::new();
        row.push(level_cell(task, 0));
        row.push(level_cell(task, 1));
        row.push(level_cell(task, 2));
        row.push(task.description.clone());
        row.push(display_bool(&task.is_break));
        row.push(display_bool(&task.is_active));
        assert(texts(row@) =~= task_row(views[i as int]));
        rows.push(row);
        i = i + 1;
    }
    assert(row_texts(rows@) =~= task_rows(views));
    let right: Vec<String> = Vec::new();
    assert(texts(right@) =~= Seq::empty());
    draw_table(rows, right)
}

/// The list of records as a table, with records that have no end counted
/// up to `now`; `No Records` where there are none.
pub fn record_list_at(records: &[TaskRecord], now: &TaskTime) -> (text: String)
    ensures
        text@ == record_list_text(record_views(records@), now@),
{
    if records.len() == 0 {
        return String::from_str("No Records");
    }
    proof {
        reveal_strlit("/");
        assert("/"@ =~= crate::summary::name_separator());
    }
    let mut rows: Vec<Vec<String>> = Vec::new();
    let mut header: Vec<String> = Vec::new();
    header.push(String::from_str("Date"));
    header.push(String::from_str("Begin"));
    header.push(String::from_str("End  "));
    header.push(String::from_str("Duration"));
    header.push(String::from_str("Task"));
    assert(texts(header@) =~= record_header());
    rows.push(header);
    let ghost views = record_views(records@);
    let mut i: usize = 0;
    while i < records.len()
        invariant
            i <= records.len(),
            views == record_views(records@),
            "/"@ == crate::summary::name_separator(),
            rows@.len() == i + 1,
            texts(rows@[0]@) == record_header(),
            forall|k: int|
                1 <= k <= i ==> texts(#[trigger] rows@[k]@) == record_row(views[k - 1], now@),
        decreases records.len() - i,
    {
        let record = &records[i];
        let mut row: Vec<String> = Vec::new();
        row.push(record.working_date.to_string());
        row.push(record.begin.to_string_hm());
        row.push(end_cell(&record.end));
        row.push(record.duration_at(now).to_string_hm());
        row.push(record.task.format_name("/"));
        assert(texts(row@) =~= record_row(views[i as int], now@));
        rows.push(row);
        i = i + 1;
    }
    assert(row_texts(rows@) =~= record_rows(views, now@));
    let mut right: Vec<String> = Vec::new();
    right.push(String::from_str("Duration"));
    assert(texts(right@) =~= seq!["Duration"@]);
    draw_table(rows, right)
}

/// The list of records as a table, with records that have no end counted
/// up to the current instant by the local clock.
pub fn record_list(records: &[TaskRecord]) -> (text: String)
    ensures
        exists|now: Instant|
            now.is_valid() && text@ == record_list_text(record_views(records@), now),
{
    let now = TaskTime::now();
    proof {
        use_type_invariant(&now);
    }
    let text = record_list_at(records, &now);
    assert(now@.is_valid() && text@ == record_list_text(record_views(records@), now@));
    text
}

impl TaskSummary {
    /// The summary as a table of one row: the first begin, the last end and
    /// the time in all.
    pub fn to_table(&self) -> (text: String)
        ensures
            text@ == drawn_table(
                summary_rows(self.begin@, instant_view(self.end), self.total_duration@),
                seq!["Duration"@],
            ),
    {
        let mut header: Vec<String> = Vec::new();
        header.push(String::from_str("Begin"));
        header.push(String::from_str("End  "));
        header.push(String::from_str("Duration"));
        let mut row: Vec<String> = Vec::new();
        row.push(self.begin.to_string_hm());
        row.push(end_cell(&self.end));
        row.push(self.total_duration.to_string_hm());
        let mut rows: Vec<Vec<String>> = Vec::new();
        rows.push(header);
        rows.push(row);
        assert(texts(rows@[0]@) =~= seq!["Begin"@, "End  "@, "Duration"@]);
        assert(texts(rows@[1]@) =~= summary_rows(
            self.begin@,
            instant_view(self.end),
            self.total_duration@,
        )[1]);
        assert(row_texts(rows@) =~= summary_rows(
            self.begin@,
            instant_view(self.end),
            self.total_duration@,
        ));
        let mut right: Vec<String> = Vec::new();
        right.push(String::from_str("Duration"));
        assert(texts(right@) =~= seq!["Duration"@]);
        draw_table(rows, right)
    }
}

/// The summary of `records` as a table, with records that have no end
/// counted up to `now`; empty where no record is a record of work.
pub fn task_summary_at(records: &[TaskRecord], now: &TaskTime) -> (text: String)
    ensures
        ({
            let rs = record_views(records@);
            if has_work(rs) {
                exists|begin: Instant, end: Option<Instant>|
                    is_first_begin(Some(begin), rs) && is_last_end(end, rs) && text@ == drawn_table(
                        summary_rows(begin, end, total_minutes(rs, now@)),
                        seq!["Duration"@],
                    )
            } else {
                text@ == Seq::<char>::empty()
            }
        }),
{
    if !TaskSummary::has_work(records) {
        return String::new();
    }
    let summary = TaskSummary::from_at(records, now);
    let text = summary.to_table();
    proof {
        let rs = record_views(records@);
        assert(is_first_begin(Some(summary.begin@), rs) && is_last_end(
            instant_view(summary.end),
            rs,
        ) && text@ == drawn_table(
            summary_rows(summary.begin@, instant_view(summary.end), total_minutes(rs, now@)),
            seq!["Duration"@],
        ));
    }
    text
}

/// The summary of `records` as a table, with records that have no end
/// counted up to the current instant by the local clock.
pub fn task_summary(records: &[TaskRecord]) -> (text: String)
    ensures
        !has_work(record_views(records@)) ==> text@ == Seq::<char>::empty(),
        has_work(record_views(records@)) ==> exists|
            begin: Instant,
            end: Option<Instant>,
            now: Instant,
        |
            now.is_valid() && is_first_begin(Some(begin), record_views(records@)) && is_last_end(
                end,
                record_views(records@),
            ) && text@ == drawn_table(
                summary_rows(begin, end, total_minutes(record_views(records@), now)),
                seq!["Duration"@],
            ),
{
    let now = TaskTime::now();
    proof {
        use_type_invariant(&now);
    }
    let text = task_summary_at(records, &now);
    proof {
        let rs = record_views(records@);
        if has_work(rs) {
            let (begin, end) = choose|begin: Instant, end: Option<Instant>|
                is_first_begin(Some(begin), rs) && is_last_end(end, rs) && text@ == drawn_table(
                    summary_rows(begin, end, total_minutes(rs, now@)),
                    seq!["Duration"@],
                );
            assert(now@.is_valid() && is_first_begin(Some(begin), rs) && is_last_end(end, rs)
                && text@ == drawn_table(
                summary_rows(begin, end, total_minutes(rs, now@)),
                seq!["Duration"@],
            ));
        }
    }
    text
}

/// A row of the list of breaks.
#[derive(Debug, PartialEq, Eq)]
pub struct BreakTimes {
    task: String,
    time: String,
}

impl View for BreakTimes {
    type V = Seq<Seq<char>>;

    closed spec fn view(&self) -> Seq<Seq<char>> {
        seq![self.task@, self.time@]
    }
}

impl BreakTimes {
    /// The row of the break `record`.
    pub fn of(record: &TaskRecord) -> (row: BreakTimes)
        ensures
            row@ == break_row(record@),
    {
        proof {
            reveal_strlit("/");
            assert("/"@ =~= crate::summary::name_separator());
        }
        let mut time = record.begin.to_string_hm();
        time.append(" - ");
        time.append(end_cell(&record.end).as_str());
        BreakTimes { task: record.task.format_name("/"), time }
    }

    /// The cells of the row.
    pub fn into_cells(self) -> (cells: Vec<String>)
        ensures
            texts(cells@) == self@,
    {
        let mut cells: Vec<String> = Vec::new();
        cells.push(self.task);
        cells.push(self.time);
        assert(texts(cells@) =~= self@);
        cells
    }
}

/// The breaks among `records` as a table; empty where there is none.
pub fn break_times(records: &[TaskRecord]) -> (text: String)
    ensures
        ({
            let breaks = breaks_of(record_views(records@));
            if breaks.len() == 0 {
                text@ == Seq::<char>::empty()
            } else {
                text@ == drawn_table(break_rows(breaks), Seq::empty())
            }
        }),
{
    let mut rows: Vec<Vec<String>> = Vec::new();
    let mut header: Vec<String> = Vec::new();
    header.push(String::from_str("Break"));
    header.push(String::from_str("Time"));
    assert(texts(header@) =~= seq!["Break"@, "Time"@]);
    rows.push(header);
    let ghost views = record_views(records@);
    let mut i: usize = 0;
    assert(views.subrange(0, 0) =~= Seq::<RecordView>::empty());
    while i < records.len()
        invariant
            i <= records.len(),
            views == record_views(records@),
            rows@.len() >= 1,
            row_texts(rows@) == break_rows(breaks_of(views.subrange(0, i as int))),
        decreases records.len() - i,
    {
        let record = &records[i];
        let ghost before = views.subrange(0, i as int);
        let ghost after = views.subrange(0, i + 1);
        proof {
            assert(after.drop_last() =~= before);
            assert(after.last() == record@);
        }
        if record.is_break() {
            let ghost old_rows = row_texts(rows@);
            rows.push(BreakTimes::of(record).into_cells());
            assert(row_texts(rows@) =~= old_rows.push(break_row(record@)));
            assert(row_texts(rows@) =~= break_rows(breaks_of(after)));
        }
        i = i + 1;
    }
    assert(views.subrange(0, records.len() as int) =~= views);
    if rows.len() == 1 {
        return String::new();
    }
    let right: Vec<String> = Vec::new();
    assert(texts(right@) =~= Seq::empty());
    draw_table(rows, right)
}

/// A row of the table of time by task.
#[derive(Debug, PartialEq, Eq)]
pub struct TaskDuration {
    task: String,
    duration: String,
    percent: String,
}

impl View for TaskDuration {
    type V = Seq<Seq<char>>;

    closed spec fn view(&self) -> Seq<Seq<char>> {
        seq![self.task@, self.duration@, self.percent@]
    }
}

impl TaskDuration {
    /// The row of the task named `task` with the time `duration`, which is
    /// the share `percent` of the time in all.
    pub fn new(task: String, duration: &Duration, percent: String) -> (row: TaskDuration)
        ensures
            row@ == seq![task@, duration_text(duration@), percent@],
    {
        TaskDuration { task, duration: duration.to_string_hm(), percent }
    }

    /// The cells of the row.
    pub fn into_cells(self) -> (cells: Vec<String>)
        ensures
            texts(cells@) == self@,
    {
        let mut cells: Vec<String> = Vec::new();
        cells.push(self.task);
        cells.push(self.duration);
        cells.push(self.percent);
        assert(texts(cells@) =~= self@);
        cells
    }
}

/// The time by task as a table of the rows `rows`; empty where there is no
/// row.
pub fn duration_list(rows: Vec<TaskDuration>) -> (text: String)
    ensures
        rows@.len() == 0 ==> text@ == Seq::<char>::empty(),
        rows@.len() > 0 ==> text@ == drawn_table(duration_rows(rows@), seq!["Duration"@, "%"@]),
{
    if rows.len() == 0 {
        return String::new();
    }
    let mut cells: Vec<Vec<String>> = Vec::new();
    let mut header: Vec<String> = Vec::new();
    header.push(String::from_str("Task"));
    header.push(String::from_str("Duration"));
    header.push(String::from_str("%"));
    assert(texts(header@) =~= seq!["Task"@, "Duration"@, "%"@]);
    cells.push(header);
    let ghost all = rows@;
    let mut rest = rows;
    let n: usize = rest.len();
    let mut filled: Vec<Vec<String>> = Vec::new();
    while rest.len() > 0
        invariant
            rest@.len() + filled@.len() == n,
            n == all.len(),
            forall|j: int| 0 <= j < rest@.len() ==> rest@[j] == all[j],
            forall|j: int|
                0 <= j < filled@.len() ==> texts(#[trigger] filled@[j]@) == all[n - 1 - j]@,
        decreases rest@.len(),
    {
        let row = rest.pop().unwrap();
        filled.push(row.into_cells());
    }
    while filled.len() > 0
        invariant
            filled@.len() <= n,
            n == all.len(),
            cells@.len() == 1 + n - filled@.len(),
            forall|j: int|
                0 <= j < filled@.len() ==> texts(#[trigger] filled@[j]@) == all[n - 1 - j]@,
            texts(cells@[0]@) == seq!["Task"@, "Duration"@, "%"@],
            forall|k: int| 1 <= k < cells@.len() ==> texts(#[trigger] cells@[k]@) == all[k - 1]@,
        decreases filled@.len(),
    {
        let row = filled.pop().unwrap();
        cells.push(row);
    }
    assert(row_texts(cells@) =~= duration_rows(all));
    let mut right: Vec<String> = Vec::new();
    right.push(String::from_str("Duration"));
    right.push(String::from_str("%"));
    assert(texts(right@) =~= seq!["Duration"@, "%"@]);
    draw_table(cells, right)
}

/// `ds` is in the order of a report: the longer time first.
pub open spec fn is_longest_first(ds: Seq<(Seq<char>, int)>) -> bool {
    forall|j: int, k: int| 0 <= j < k < ds.len() ==> (#[trigger] ds[j]).1 >= (#[trigger] ds[k]).1
}

/// Putting an item into a sequence adds it to what the sequence holds.
proof fn lemma_insert_to_multiset<A>(s: Seq<A>, at: int, item: A)
    requires
        0 <= at <= s.len(),
    ensures
        s.insert(at, item).to_multiset() =~= s.to_multiset().insert(item),
{
    let t = s.insert(at, item);
    assert(t.remove(at) =~= s);
    assert(t[at] == item);
    to_multiset_remove(t, at);
    t.to_multiset_ensures();
    assert(t.contains(item));
}

/// The times by name in the order of a report: the longer time first.
pub fn sorted_durations(entries: &Vec<(String, Duration)>) -> (sorted: Vec<(String, Duration)>)
    ensures
        duration_views(sorted@).to_multiset() == duration_views(entries@).to_multiset(),
        is_longest_first(duration_views(sorted@)),
{
    let mut sorted: Vec<(String, Duration)> = Vec::new();
    let ghost all = duration_views(entries@);
    let mut i: usize = 0;
    assert(all.subrange(0, 0) =~= Seq::empty());
    assert(duration_views(sorted@) =~= Seq::empty());
    while i < entries.len()
        invariant
            i <= entries.len(),
            all == duration_views(entries@),
            sorted@.len() == i,
            duration_views(sorted@).to_multiset() == all.subrange(0, i as int).to_multiset(),
            is_longest_first(duration_views(sorted@)),
        decreases entries.len() - i,
    {
        let minutes = entries[i].1.num_minutes();
        let mut at: usize = 0;
        while at < sorted.len() && sorted[at].1.num_minutes() >= minutes
            invariant
                at <= sorted@.len(),
                forall|j: int| 0 <= j < at ==> (#[trigger] sorted@[j]).1@ >= minutes,
            decreases sorted@.len() - at,
        {
            at = at + 1;
        }
        let ghost before = duration_views(sorted@);
        let ghost item = all[i as int];
        sorted.insert(at, (entries[i].0.clone(), entries[i].1));
        proof {
            let after = duration_views(sorted@);
            assert(after =~= before.insert(at as int, item));
            lemma_insert_to_multiset(before, at as int, item);
            let prefix = all.subrange(0, i as int);
            assert(all.subrange(0, i + 1) =~= prefix.push(item));
            to_multiset_build(prefix, item);
            assert forall|j: int, k: int| 0 <= j < k < after.len() implies (#[trigger] after[j]).1
                >= (#[trigger] after[k]).1 by {
                let a = if j < at {
                    j
                } else {
                    j - 1
                };
                let b = if k < at {
                    k
                } else {
                    k - 1
                };
                if j != at && k != at {
                    assert(after[j] == before[a] && after[k] == before[b]);
                    assert(before[a].1 >= before[b].1);
                } else if j == at {
                    assert(after[k] == before[b]);
                    assert(after[j].1 == minutes);
                    if at < before.len() {
                        assert(before[at as int].1 == sorted@[at + 1].1@);
                        assert(before[at as int].1 >= before[b].1 || b == at);
                    }
                } else {
                    assert(after[j] == before[a]);
                    assert(before[a].1 == sorted@[a].1@);
                }
            }
        }
        i = i + 1;
    }
    assert(all.subrange(0, entries.len() as int) =~= all);
    sorted
}

} // verus!
