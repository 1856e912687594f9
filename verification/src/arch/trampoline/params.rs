//! Byte offsets of the parameters, from the start of the page.
use vstd::prelude::*;

verus! {

/// Physical address of the page tables the new core is to adopt.
pub const CR3: usize = 0xF00;

/// Top of this core's kernel stack, as a virtual address.
pub const STACK_TOP: usize = 0xF08;

/// Virtual address of the function to call once in 64-bit mode.
pub const ENTRY: usize = 0xF10;

/// The APIC id the kernel expects to answer.
pub const CPU_ID: usize = 0xF18;

/// Set to a non-zero value by the core once it is running 64-bit code with the
/// kernel's tables loaded.
pub const ACK: usize = 0xF20;

} // verus!
