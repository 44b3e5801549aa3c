//! Conversion of a signed count of seconds since the Unix epoch into a
//! proleptic Gregorian calendar date and time of day (UTC).
//!
//! [`TimeStamp::to_timestamp`] is total over `i64`; its contract states that
//! the result is a valid date and time whose distance from
//! 1970-01-01T00:00:00 is exactly the given number of seconds, and
//! [`TimeStamp::lemma_seconds_determine_timestamp`] shows that only one valid
//! timestamp has that property.
pub mod calendar;
pub mod timestamp;

pub use crate::timestamp::TimeStamp;
