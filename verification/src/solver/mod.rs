//! Solver helpers that work on cards, ranges and positions, and the clock the solver's
//! records are stamped with.
use vstd::prelude::*;

pub mod lab;
pub mod preflop;
pub mod ranges;
pub mod spot;

verus! {

#[verifier::external_type_specification]
#[verifier::external_body]
pub struct ExSystemTime(std::time::SystemTime);

/// std `SystemTime::now`: the system clock's current time. Nothing is stated of it: it
/// depends on when the call is made.
#[verifier::external_body]
fn system_now() -> std::time::SystemTime {
    std::time::SystemTime::now()
}

/// std `SystemTime::duration_since(UNIX_EPOCH)`: the time elapsed since 1970-01-01 00:00:00
/// UTC, none when `t` is earlier (the error std returns then). Nothing more is stated.
#[verifier::external_body]
fn since_epoch(t: &std::time::SystemTime) -> Option<core::time::Duration> {
    t.duration_since(std::time::UNIX_EPOCH).ok()
}

/// std `Duration::as_secs`: the whole seconds of a duration. Nothing is stated of its value,
/// which the library does not model.
#[verifier::external_body]
fn whole_secs(d: &core::time::Duration) -> u64 {
    d.as_secs()
}

/// The timestamp of a number of seconds since 1970 (`0` when the clock is before 1970): the
/// seconds cast to `i64`, which wraps past `i64::MAX`.
pub fn secs_to_ts(secs: Option<u64>) -> (r: i64)
    ensures
        r == match secs {
            Some(s) => s as i64,
            None => 0i64,
        },
{
    match secs {
        Some(s) => #[verifier::truncate] (s as i64),
        None => 0,
    }
}

/// Seconds since 1970-01-01 00:00:00 UTC by the system clock (`0` when the clock is set
/// before 1970).
pub fn now() -> i64 {
    let t = system_now();
    let secs = match since_epoch(&t) {
        Some(d) => Some(whole_secs(&d)),
        None => None,
    };
    secs_to_ts(secs)
}

} // verus!
