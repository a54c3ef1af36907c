//! Trusted wrappers around the process clock, used for the iterative
//! deepening time budget and tablebase generation metadata. Nothing is
//! assumed about the values they return: every caller is verified for every
//! possible reading.

use vstd::prelude::*;

verus! {

#[verifier::external_type_specification]
#[verifier::external_body]
pub struct ExInstant(std::time::Instant);

/// Relies on std::time::Instant::now: an opaque reading of the monotonic
/// clock. No property of the reading is assumed.
#[verifier::external_body]
pub fn instant_now() -> std::time::Instant {
    std::time::Instant::now()
}

/// Relies on std::time::Instant::elapsed: the time since the reading was
/// taken, converted to whole milliseconds. No property of the value is
/// assumed.
#[verifier::external_body]
pub fn elapsed_ms(start: &std::time::Instant) -> u64 {
    let ms = start.elapsed().as_millis();
    if ms > u64::MAX as u128 {
        u64::MAX
    } else {
        ms as u64
    }
}

/// Relies on chrono::Utc::now: the current wall-clock time, rendered as an
/// RFC 3339 timestamp. No property of the text is assumed.
#[verifier::external_body]
pub fn utc_now_rfc3339() -> String {
    chrono::Utc::now().to_rfc3339()
}

} // verus!
