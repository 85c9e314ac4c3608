//! The state of the log on a working date.

use crate::task::{RecordView, TaskRecord};
use vstd::prelude::*;

verus! {

/// Whether a task is going on.
#[derive(PartialEq, Eq, Clone, Debug)]
pub enum State {
    /// The record of the task that is going on.
    Active(TaskRecord),
    /// No task is going on.
    Completed,
}

/// The state of the log as a mathematical value.
pub enum StateView {
    Active(RecordView),
    Completed,
}

impl View for State {
    type V = StateView;

    open spec fn view(&self) -> StateView {
        match self {
            State::Active(r) => StateView::Active(r@),
            State::Completed => StateView::Completed,
        }
    }
}

/// The state that the latest record of a date stands for: a task is going
/// on when there is such a record and it has no end.
pub open spec fn state_of(latest: Option<RecordView>) -> StateView {
    match latest {
        Some(r) => if r.end.is_none() {
            StateView::Active(r)
        } else {
            StateView::Completed
        },
        None => StateView::Completed,
    }
}

impl State {
    /// The state of a date whose records, latest first, are `latest_first`.
    pub fn of_records(latest_first: &[TaskRecord]) -> (s: State)
        ensures
            s@ == state_of(
                if latest_first@.len() > 0 {
                    Some(latest_first@[0]@)
                } else {
                    None
                },
            ),
    {
        if latest_first.len() == 0 {
            State::Completed
        } else {
            match latest_first[0].end {
                Some(_) => State::Completed,
                None => State::Active(latest_first[0].clone()),
            }
        }
    }

    /// Whether a task is going on.
    pub fn is_active(&self) -> (r: bool)
        ensures
            r == (self@ is Active),
    {
        match self {
            State::Active(_) => true,
            State::Completed => false,
        }
    }
}

} // verus!
