//! The firmware loader: what it makes of the data the firmware gives it.
//!
//! Most of what a loader gets wrong is not talking to the firmware, it is
//! interpretation: descriptor strides, memory types, address arithmetic near the
//! end of the address space. That is what stands here.

pub mod boot;
pub mod console;
pub mod efi;
pub mod fs;
pub mod memmap;
pub mod pages;
pub mod paging;
pub mod run;
