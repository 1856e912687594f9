//! Local APIC register offsets. Every one is on a 16-byte boundary.
use vstd::prelude::*;

verus! {

/// This core's APIC id, in the top byte.
pub const ID: usize = 0x020;

/// Version, and the number of local vector entries minus one in bits 16 to 23.
pub const VERSION: usize = 0x030;

/// Task priority. Zero accepts everything.
pub const TASK_PRIORITY: usize = 0x080;

/// End of interrupt. Only zero may be written.
pub const EOI: usize = 0x0B0;

/// Spurious interrupt vector, and the software enable bit.
pub const SPURIOUS: usize = 0x0F0;

/// Interrupt command, low half: vector and delivery mode.
pub const ICR_LOW: usize = 0x300;

/// Interrupt command, high half: the destination.
pub const ICR_HIGH: usize = 0x310;

/// Local vector table: timer.
pub const LVT_TIMER: usize = 0x320;

/// Local vector table: first local line.
pub const LVT_LINT0: usize = 0x350;

/// Local vector table: second local line.
pub const LVT_LINT1: usize = 0x360;

/// Local vector table: internal error.
pub const LVT_ERROR: usize = 0x370;

} // verus!
