//! The x86-64 machine: encodings that a processor reads and sequences that program
//! its devices.
//!
//! A descriptor, a gate and a page-fault code are bit layouts; programming a device
//! is a list of register accesses whose meaning depends on their order. Getting
//! either wrong produces no message at all, so both are stated exactly here. The
//! instructions that carry them out are elsewhere.

pub mod apic;
pub mod context;
pub mod cpu;
pub mod gdt;
pub mod hpet;
pub mod idt;
pub mod mmio;
pub mod pic;
pub mod pit;
pub mod port;
pub mod serial;
pub mod syscall;
pub mod trampoline;
pub mod trap;
pub mod usermode;
