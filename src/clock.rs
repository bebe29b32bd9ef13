use vstd::prelude::*;

verus! {

/// Relies on chrono's `Utc::now` and `DateTime::timestamp_millis`: the wall
/// clock read as milliseconds since the Unix epoch. chrono panics on a clock
/// set before the epoch, so what comes back is never negative; nothing else
/// is known of it.
#[verifier::external_body]
pub(crate) fn now_millis() -> (r: i64)
    ensures
        r >= 0,
{
    chrono::Utc::now().timestamp_millis()
}

} // verus!
