//! Wall-clock reading.

use vstd::prelude::*;

verus! {

/// Relies on `chrono::Utc::now` followed by `DateTime::timestamp`:
/// the current wall-clock time as whole seconds since the Unix epoch.
/// `Utc::now` refuses a system clock set before the epoch, so the
/// result is never negative; nothing more can be promised of a clock
/// reading.
#[verifier::external_body]
pub(crate) fn now_unix_seconds() -> (r: i64)
    ensures
        r >= 0,
{
    chrono::Utc::now().timestamp()
}

} // verus!
