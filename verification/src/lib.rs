//! Calendar arithmetic for the proleptic Gregorian calendar.
//!
//! The `interval` module counts the multiples of a positive divisor that lie
//! in a half-open integer interval; the `calendar` module builds on that
//! count to turn a year and a day-of-year into the 1-based day number
//! counted from January 1 of year 1.

pub mod calendar;
pub mod interval;
