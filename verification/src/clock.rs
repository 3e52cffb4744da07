//! Wall-clock and monotonic time readings: what the clock gives is not predictable, so
//! nothing is claimed of the values.
use vstd::prelude::*;

verus! {

#[verifier::external_type_specification]
#[verifier::external_body]
pub struct ExInstant(std::time::Instant);

#[verifier::external_type_specification]
#[verifier::external_body]
pub struct ExSystemTime(std::time::SystemTime);

/// `Instant::now`: a reading of the monotonic clock; nothing is claimed of it.
#[verifier::external_body]
pub(crate) fn instant_now() -> (r: std::time::Instant) {
    std::time::Instant::now()
}

/// `Instant::elapsed`: time since `t`; nothing is claimed of it.
#[verifier::external_body]
fn instant_elapsed(t: &std::time::Instant) -> (r: core::time::Duration) {
    t.elapsed()
}

/// `Duration::as_nanos`; the duration is opaque here, so nothing is claimed of the value.
#[verifier::external_body]
fn duration_as_nanos(d: &core::time::Duration) -> (r: u128) {
    d.as_nanos()
}

/// `Duration::as_millis`; the duration is opaque here, so nothing is claimed of the value.
#[verifier::external_body]
fn duration_as_millis(d: &core::time::Duration) -> (r: u128) {
    d.as_millis()
}

/// `SystemTime::now`: a reading of the wall clock; nothing is claimed of it.
#[verifier::external_body]
fn system_time_now() -> (r: std::time::SystemTime) {
    std::time::SystemTime::now()
}

/// `SystemTime::duration_since(UNIX_EPOCH)`, `None` when the reading is before the epoch;
/// nothing is claimed of which.
#[verifier::external_body]
fn since_unix_epoch(t: &std::time::SystemTime) -> (r: Option<core::time::Duration>) {
    match t.duration_since(std::time::UNIX_EPOCH) {
        Ok(d) => Some(d),
        Err(_) => None,
    }
}

/// Nanoseconds since `t`, cut to 64 bits as the load statistics keep them.
pub(crate) fn elapsed_ns(t: &std::time::Instant) -> u64 {
    let d = instant_elapsed(t);
    #[verifier::truncate]
    (duration_as_nanos(&d) as u64)
}

/// Milliseconds since the Unix epoch by the wall clock, 0 when the clock reads earlier.
pub fn now_timestamp_ms() -> i64 {
    match since_unix_epoch(&system_time_now()) {
        Some(d) => #[verifier::truncate]
        (duration_as_millis(&d) as i64),
        None => 0,
    }
}

} // verus!
