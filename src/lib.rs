//! An emulator for the serial "teleinformation" output of a residential
//! electricity meter: checksummed data groups, whole frames, and the
//! counters that advance from one frame to the next.
use vstd::prelude::*;

pub mod checksum;
pub mod group;
pub mod meter;

verus! {

} // verus!
