//! An in-memory course-scheduling model: weekday and time-of-day values with
//! textual parsing, weekly meetings with overlap detection, and a schedule of
//! courses that supports listing, a weekly view, and a global conflict scan.

pub mod chars;
pub mod day;
pub mod model;
pub mod schedule;
pub mod time;
