//! The wall clock, for the absolute expiries that the journal stores.
use vstd::prelude::*;

verus! {

/// Relies on `SystemTime::now` and `Duration::as_millis`: milliseconds since
/// the Unix epoch, or zero for a clock set before it. Nothing is promised of
/// the value.
#[verifier::external_body]
pub fn now_epoch_ms() -> (r: u128) {
    match std::time::SystemTime::now().duration_since(std::time::UNIX_EPOCH) {
        Ok(d) => d.as_millis(),
        Err(_) => 0,
    }
}

} // verus!
