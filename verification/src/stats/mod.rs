//! Statistics helpers: calendar of the results.
use vstd::prelude::*;

pub mod breakdown;
pub mod leaks;
pub mod players;
pub mod summary;
pub mod tally;
pub mod versus;

verus! {

/// 0 = Monday .. 6 = Sunday (1970-01-01 was a Thursday).
pub open spec fn spec_weekday(day: int) -> int {
    (day + 3) % 7
}

/// Day of the week of a day number: 0 = Monday .. 6 = Sunday.
pub fn weekday(day: i64) -> (r: u8)
    requires
        day <= i64::MAX - 3,
    ensures
        r == spec_weekday(day as int),
        r < 7,
{
    let x = day + 3;
    let m = x % 7;
    let e = if m < 0 { m + 7 } else { m };
    assert(e == (x as int) % 7);
    e as u8
}

} // verus!
