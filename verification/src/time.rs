//! Human-readable rendering of Unix timestamps, through chrono.
//!
//! Output lines quote chunk boundaries and alert times as calendar
//! date-times.  The renderings are functions of the timestamp alone, so
//! they are given names here and the rest of the crate's contracts speak
//! of those names.

use vstd::prelude::*;

verus! {

/// The calendar date-time text (`2019-02-07 21:11:00`) that a Unix
/// timestamp renders to.
pub uninterp spec fn datetime_display(ts: u64) -> Seq<char>;

/// The time-of-day text (`21:11:00`) that a Unix timestamp renders to.
pub uninterp spec fn clock_display(ts: u64) -> Seq<char>;

/// Relies on `chrono::DateTime::from_timestamp` and the `Display` impl of
/// `chrono::NaiveDateTime`: both are pure functions of the timestamp, and
/// `from_timestamp` returns `Some` for every timestamp this pipeline
/// produces (its documented range is about 262,000 years on either side
/// of the common era).
#[verifier::external_body]
pub(crate) fn render_datetime(ts: u64) -> (s: String)
    ensures
        s@ == datetime_display(ts),
{
    match chrono::DateTime::from_timestamp(ts as i64, 0) {
        Some(dt) => format!("{}", dt.naive_utc()),
        None => String::new(),
    }
}

/// Relies on `chrono::DateTime::from_timestamp`, `NaiveDateTime::time` and
/// the `Display` impl of `chrono::NaiveTime`: pure functions of the
/// timestamp.
#[verifier::external_body]
pub(crate) fn render_clock(ts: u64) -> (s: String)
    ensures
        s@ == clock_display(ts),
{
    match chrono::DateTime::from_timestamp(ts as i64, 0) {
        Some(dt) => format!("{}", dt.naive_utc().time()),
        None => String::new(),
    }
}

} // verus!
