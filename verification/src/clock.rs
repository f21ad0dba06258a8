use vstd::prelude::*;

verus! {

/// Relies on `chrono`'s conversion from `std::time::SystemTime` (the
/// `From<SystemTime>` impl for `DateTime<Utc>`) and on
/// `chrono::DateTime::timestamp_micros`: the current wall clock as
/// microseconds since the Unix epoch. The conversion handles a system
/// clock set before the epoch by producing a negative reading rather than
/// failing, and within `chrono`'s representable range the microsecond
/// count fits in `i64`. Nothing is promised of the value: it depends on
/// the system clock and may move backwards between calls.
#[verifier::external_body]
pub(crate) fn now_micros() -> i64 {
    chrono::DateTime::<chrono::Utc>::from(std::time::SystemTime::now()).timestamp_micros()
}

/// A wall-clock stamp for the machine: the clock reading, clamped to the
/// epoch when the system clock is set before it, so that stored stamps are
/// always non-negative.
pub(crate) fn clock_stamp() -> (r: i64)
    ensures
        r >= 0,
{
    let reading = now_micros();
    if reading >= 0 {
        reading
    } else {
        0
    }
}

} // verus!
