//! Reading iCalendar (`.ics`) text: line unfolding, content-line parsing,
//! value unescaping, date-time values and `VEVENT` extraction.
#![allow(unused_imports)]

pub mod text;
pub mod lines;
pub mod escape;
pub mod property;
pub mod datetime;
pub mod calendar;

pub use calendar::{parse_calendar, Calendar, Event};
pub use datetime::{parse_date_time, Date, DateTimeValue, Time, TimeKind};
pub use escape::unescape_value;
pub use lines::{split_lines, unfold};
pub use property::{parse_property, Property};
