//! The wall-clock reading that stamps backup branch names.

use vstd::prelude::*;
use chrono::Timelike;

verus! {

/// Relies on `chrono::Local::now` and `chrono::Timelike`: the hour, minute
/// and second of the local time, each within its calendar range (`hour` is
/// 0..=23, `minute` and `second` are 0..=59; a leap second is carried in
/// the nanosecond field, not here).
#[verifier::external_body]
pub fn local_time_hms() -> (r: (u8, u8, u8))
    ensures
        r.0 < 24,
        r.1 < 60,
        r.2 < 60,
{
    let now = chrono::Local::now();
    (now.hour() as u8, now.minute() as u8, now.second() as u8)
}

} // verus!
