//! The current calendar day, read from the system clock.

use vstd::prelude::*;

use chrono::Datelike;

verus! {

/// Relies on chrono's `Local::now` and the `Datelike` accessors of the date
/// it returns: `month()` is documented to lie in 1..=12 and `day()` in
/// 1..=31. The year is whatever the clock reports; nothing more can be
/// promised of a clock reading.
#[verifier::external_body]
pub fn now_ymd() -> (r: (i32, u32, u32))
    ensures
        1 <= r.1 <= 12,
        1 <= r.2 <= 31,
{
    let today = chrono::Local::now().date_naive();
    (today.year(), today.month(), today.day())
}

} // verus!
