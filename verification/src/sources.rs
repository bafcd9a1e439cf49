//! The two injected capabilities the encoder consumes: a clock and a random
//! source. Both are read behind trusted wrappers; everything computed from
//! their values is verified for every value they could return.

use vstd::prelude::*;
use rand::RngExt;

verus! {

/// Relies on chrono's `Utc::now`, read as `timestamp_millis`: the current
/// instant in milliseconds since the Unix epoch. Nothing is assumed of the
/// value.
#[verifier::external_body]
pub(crate) fn now_millis() -> i64 {
    chrono::Utc::now().timestamp_millis()
}

/// Relies on rand's `RngExt::random_range` on the thread-local generator: it
/// returns a value inside the given non-empty half-open range.
#[verifier::external_body]
pub(crate) fn draw_random_field() -> (r: u32)
    ensures
        r < 0x200_0000,
{
    rand::rng().random_range(0..0x200_0000u32)
}

} // verus!
