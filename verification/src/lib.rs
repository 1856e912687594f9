//! The STAR OS kernel for an ordinary PC: everything it decides about values.
//!
//! Firmware tables, kernel images, memory maps, page tables, descriptor
//! encodings and device programming sequences are plain data here, and every
//! function states what it does with them. The instructions that carry the
//! results to a machine are elsewhere.

pub mod acpi;
pub mod arch;
pub mod bootinfo;
pub mod bytes;
pub mod elf64;
pub mod framebuffer;
pub mod loader;
pub mod sequences;
