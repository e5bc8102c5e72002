use vstd::prelude::*;

verus! {

/// Relies on chrono's `Utc::now().timestamp_millis()`: the current instant, in
/// milliseconds since the Unix epoch. Nothing is promised of its value; chrono
/// panics only when the system clock reads a time before the epoch.
#[verifier::external_body]
pub(crate) fn now_millis() -> (r: i64)
{
    chrono::Utc::now().timestamp_millis()
}

} // verus!
