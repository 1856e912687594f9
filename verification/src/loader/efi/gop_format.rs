//! How the firmware lays out a pixel.
use vstd::prelude::*;

verus! {

/// Red in the lowest byte.
pub const RGB: u32 = 0;

/// Blue in the lowest byte, which nearly every PC reports.
pub const BGR: u32 = 1;

/// Arbitrary channel masks, which the console does not support.
pub const BIT_MASK: u32 = 2;

/// No linear framebuffer at all.
pub const BLT_ONLY: u32 = 3;

} // verus!
