//! The renderer's one outside call: chrono turns a projected instant into
//! a local "HH:MM" clock string.

use vstd::prelude::*;
use crate::model::Instant;
use crate::render::clock_shaped;

verus! {

/// Upper bound on the epoch seconds the clock formatter accepts. It lies
/// far below chrono's out-of-range cutoff, so the conversion below cannot
/// fail for an accepted instant.
pub const MAX_CLOCK_EPOCH: i64 = 4_000_000_000_000;

/// Relies on chrono: `DateTime::from_timestamp` is documented to return
/// `Some` for any in-range number of seconds, and formatting a valid
/// datetime with `"%H:%M"` yields a five-byte zero-padded 24-hour clock
/// string, two digits, a colon, two digits. The machine's local time zone
/// decides which digits, so nothing more is stated of the contents.
#[verifier::external_body]
pub(crate) fn clock_digits(t: Instant) -> (r: Vec<u8>)
    requires
        0 <= t.epoch_seconds <= MAX_CLOCK_EPOCH,
    ensures
        clock_shaped(r@),
{
    let utc = chrono::DateTime::from_timestamp(t.epoch_seconds, 0).unwrap();
    let local = utc.with_timezone(&chrono::Local);
    local.format("%H:%M").to_string().into_bytes()
}

} // verus!
