use vstd::prelude::*;
use std::time::{Duration, SystemTime};

verus! {

#[verifier::external_type_specification]
#[verifier::external_body]
pub struct ExSystemTime(std::time::SystemTime);

/// `SystemTime::now`: the system clock's reading at the moment of the call. Nothing is
/// promised of it.
#[verifier::external_body]
fn system_now() -> (t: SystemTime) {
    SystemTime::now()
}

/// `SystemTime::duration_since(UNIX_EPOCH)`: the span from the epoch to `t`, none when
/// `t` lies before the epoch. Which span it is depends on `t`, which Verus cannot see
/// into, so nothing more is promised.
#[verifier::external_body]
fn since_epoch(t: &SystemTime) -> (d: Option<Duration>) {
    t.duration_since(std::time::UNIX_EPOCH).ok()
}

/// `Duration::as_millis`: the whole milliseconds of `d`.
#[verifier::external_body]
fn whole_millis(d: &Duration) -> (n: u128) {
    d.as_millis()
}

/// `Duration::as_micros`: the whole microseconds of `d`.
#[verifier::external_body]
fn whole_micros(d: &Duration) -> (n: u128) {
    d.as_micros()
}

/// The system clock in whole milliseconds since the Unix epoch, 0 for a clock set
/// before the epoch; whatever the clock says at the moment of the call.
pub fn now_millis() -> (t: u64) {
    let now = system_now();
    match since_epoch(&now) {
        Some(d) => whole_millis(&d) as u64,
        None => 0,
    }
}

/// The system clock as `now_millis` reads it, in whole microseconds.
pub fn now_micros() -> (t: u64) {
    let now = system_now();
    match since_epoch(&now) {
        Some(d) => whole_micros(&d) as u64,
        None => 0,
    }
}

} // verus!
