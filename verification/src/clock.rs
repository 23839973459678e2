//! Wall-clock access. The clock is the one effect the core keeps: timestamps
//! on book state and on orders. Nothing is assumed of the value read.

use vstd::prelude::*;

verus! {

/// Relies on std's `SystemTime::now` and `duration_since` for the current
/// wall-clock time as whole milliseconds since the Unix epoch. The match
/// keeps the call total: a host clock before the epoch reads as zero instead
/// of panicking. Nothing is assumed of the value.
#[verifier::external_body]
fn now_millis_raw() -> i64 {
    match std::time::SystemTime::now().duration_since(std::time::UNIX_EPOCH) {
        Ok(d) => d.as_millis() as i64,
        Err(_) => 0,
    }
}

/// The current wall-clock time, clamped to the epoch at the low end.
pub(crate) fn now_millis() -> u64 {
    let t: i64 = now_millis_raw();
    if t < 0 {
        0
    } else {
        t as u64
    }
}

} // verus!
