//! The wall clock, read in whole Unix seconds for the history and the
//! downloads list.
use vstd::prelude::*;

verus! {

/// `std::time::SystemTime`, carried through opaque.
#[verifier::external_type_specification]
#[verifier::external_body]
pub struct ExSystemTime(std::time::SystemTime);

/// `std::time::SystemTimeError`, carried through opaque.
#[verifier::external_type_specification]
#[verifier::external_body]
pub struct ExSystemTimeError(std::time::SystemTimeError);

/// `std::time::SystemTime::now`. The reading depends on the machine's
/// clock, so nothing is claimed of it.
#[verifier::external_body]
fn clock_reading() -> std::time::SystemTime {
    std::time::SystemTime::now()
}

/// `SystemTime::duration_since(UNIX_EPOCH)`: the time since 1970, or an
/// error for a reading before it. Nothing is claimed of either, as the
/// reading itself is opaque.
#[verifier::external_body]
fn since_epoch(t: &std::time::SystemTime) -> Result<std::time::Duration, std::time::SystemTimeError> {
    t.duration_since(std::time::UNIX_EPOCH)
}

/// `Duration::as_secs`: the whole seconds of a duration. The duration is
/// opaque, so nothing is claimed of the number.
#[verifier::external_body]
fn whole_seconds(d: &std::time::Duration) -> u64 {
    d.as_secs()
}

/// The current time in whole Unix seconds; 0 where the clock reads before
/// 1970.
pub fn now_secs() -> u64 {
    match since_epoch(&clock_reading()) {
        Ok(d) => whole_seconds(&d),
        Err(_) => 0,
    }
}

} // verus!
