//! The memory types this loader distinguishes. Anything not listed is treated as
//! reserved, which is the safe default for memory of unknown purpose.
use vstd::prelude::*;

verus! {

/// The loader's own image.
pub const LOADER_CODE: u32 = 1;

/// What the loader allocates for the kernel and its hand-off structures.
pub const LOADER_DATA: u32 = 2;

/// Code of the firmware's boot services.
pub const BOOT_SERVICES_CODE: u32 = 3;

/// Data of the firmware's boot services.
pub const BOOT_SERVICES_DATA: u32 = 4;

/// Plainly free memory.
pub const CONVENTIONAL: u32 = 7;

/// Present but reported bad.
pub const UNUSABLE: u32 = 8;

/// Holds the firmware tables.
pub const ACPI_RECLAIM: u32 = 9;

/// Must survive sleep states.
pub const ACPI_NVS: u32 = 10;

/// Byte-addressable non-volatile memory: present, but not general-purpose memory.
pub const PERSISTENT: u32 = 14;

} // verus!
