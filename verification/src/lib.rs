//! A work-time log: minute-precise instants, working days that start at
//! 05:00, tolerant parsers for dates and times, and the summary of a set of
//! task records.

pub mod calendar;
pub mod text;
pub mod parse;
pub mod datetime;
pub mod laws;
pub mod task;
pub mod summary;
pub mod repository;
pub mod util;
pub mod table;
pub mod command;
