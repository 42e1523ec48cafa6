//! Wall-clock readings. Their values depend on when they are taken, so
//! nothing is stated of them: the logic that uses them takes them as
//! arguments and is verified for every value.

use vstd::prelude::*;

verus! {

/// Relies on `chrono::Utc::now` and `DateTime::timestamp_millis`: the current
/// time in epoch milliseconds.
#[verifier::external_body]
pub(crate) fn now_millis() -> u64 {
    chrono::Utc::now().timestamp_millis() as u64
}

/// Relies on `chrono::Local::now` and `DateTime::format`: the local time of
/// day as `HH:MM:SS`.
#[verifier::external_body]
pub(crate) fn local_time_of_day() -> String {
    chrono::Local::now().format("%H:%M:%S").to_string()
}

} // verus!
