use vstd::prelude::*;

verus! {

// Delays of the standard-speed timing table, in microseconds.
/// Low time of a write-1 slot, and of the start of a read slot.
pub const A: u32 = 6;

/// Released time of a write-1 slot.
pub const B: u32 = 64;

/// Low time of a write-0 slot.
pub const C: u32 = 60;

/// Released time of a write-0 slot.
pub const D: u32 = 10;

/// Wait between releasing the bus and sampling it in a read slot.
pub const E: u32 = 9;

/// Recovery time after sampling in a read slot.
pub const F: u32 = 55;

/// Wait before a reset pulse.
pub const G: u32 = 0;

/// Width of the reset pulse.
pub const H: u32 = 480;

/// Wait between releasing the bus and sampling for a presence pulse.
pub const I: u32 = 70;

/// Recovery time after sampling for a presence pulse.
pub const J: u32 = 410;

} // verus!
