//! Memory-mapped registers, as traits.
//!
//! The same reasoning as for the port space: some devices are programmed through
//! two registers, an index and a window, so every access is a sequence, and one
//! with the halves swapped is accepted by the hardware and does nothing. What a
//! driver does is what the log of its accesses says.
use vstd::prelude::*;

verus! {

/// One access to a 32-bit register.
#[derive(Clone, Copy, Debug, PartialEq, Eq, Structural)]
#[allow(inconsistent_fields)]
pub enum RegOp {
    /// A register was written.
    Write {
        /// Bytes from the base.
        offset: usize,
        /// The value.
        value: u32,
    },
    /// A register was read.
    Read {
        /// Bytes from the base.
        offset: usize,
        /// The value.
        value: u32,
    },
}

/// One access to a 64-bit register.
#[derive(Clone, Copy, Debug, PartialEq, Eq, Structural)]
#[allow(inconsistent_fields)]
pub enum RegOp64 {
    /// A register was written.
    Write {
        /// Bytes from the base.
        offset: usize,
        /// The value.
        value: u64,
    },
    /// A register was read.
    Read {
        /// Bytes from the base.
        offset: usize,
        /// The value.
        value: u64,
    },
}

/// Access to a device's 32-bit registers, by byte offset from its base.
///
/// An implementation directs every access to the device's registers, or to a
/// faithful model of them, exactly once and in order.
pub trait Mmio32 {
    /// The accesses made so far. It is part of no program: an implementation
    /// that is itself not verified leaves it as it is. One that is verified gives
    /// its own, as [`NoDevice`] does: nothing can be added to this one, so it does
    /// not meet what the methods below promise.
    open spec fn log(&self) -> Seq<RegOp> {
        Seq::empty()
    }

    /// Read the register at `offset` bytes from the base.
    fn read(&mut self, offset: usize) -> (value: u32)
        ensures
            final(self).log() == old(self).log().push(RegOp::Read { offset, value }),
    ;

    /// Write the register at `offset` bytes from the base.
    fn write(&mut self, offset: usize, value: u32)
        ensures
            final(self).log() == old(self).log().push(RegOp::Write { offset, value }),
    ;
}

/// Access to a device's 64-bit registers, by byte offset from its base.
///
/// An implementation makes every access in one piece: a counter read in two halves
/// gives a time that never was.
pub trait Mmio64 {
    /// The accesses made so far. It is part of no program: an implementation
    /// that is itself not verified leaves it as it is. One that is verified gives
    /// its own, as [`NoDevice`] does: nothing can be added to this one, so it does
    /// not meet what the methods below promise.
    open spec fn log(&self) -> Seq<RegOp64> {
        Seq::empty()
    }

    /// Read the register at `offset` bytes from the base.
    fn read64(&mut self, offset: usize) -> (value: u64)
        ensures
            final(self).log() == old(self).log().push(RegOp64::Read { offset, value }),
    ;

    /// Write the register at `offset` bytes from the base.
    fn write64(&mut self, offset: usize, value: u64)
        ensures
            final(self).log() == old(self).log().push(RegOp64::Write { offset, value }),
    ;
}

/// Registers that no device answers for: every read finds all bits set.
pub struct NoDevice {
    /// The accesses to 32-bit registers made so far.
    pub seen: Ghost<Seq<RegOp>>,
    /// The accesses to 64-bit registers made so far.
    pub seen64: Ghost<Seq<RegOp64>>,
}

impl NoDevice {
    /// Registers that have not been accessed.
    pub fn new() -> (regs: NoDevice)
        ensures
            regs.seen@ == Seq::<RegOp>::empty(),
            regs.seen64@ == Seq::<RegOp64>::empty(),
    {
        NoDevice { seen: Ghost(Seq::empty()), seen64: Ghost(Seq::empty()) }
    }
}

impl Mmio32 for NoDevice {
    open spec fn log(&self) -> Seq<RegOp> {
        self.seen@
    }

    fn read(&mut self, offset: usize) -> (value: u32)
        ensures
            value == 0xFFFF_FFFF,
    {
        let value: u32 = 0xFFFF_FFFF;
        self.seen = Ghost(self.seen@.push(RegOp::Read { offset, value }));
        value
    }

    fn write(&mut self, offset: usize, value: u32) {
        self.seen = Ghost(self.seen@.push(RegOp::Write { offset, value }));
    }
}

impl Mmio64 for NoDevice {
    open spec fn log(&self) -> Seq<RegOp64> {
        self.seen64@
    }

    fn read64(&mut self, offset: usize) -> (value: u64)
        ensures
            value == 0xFFFF_FFFF_FFFF_FFFF,
    {
        let value: u64 = 0xFFFF_FFFF_FFFF_FFFF;
        self.seen64 = Ghost(self.seen64@.push(RegOp64::Read { offset, value }));
        value
    }

    fn write64(&mut self, offset: usize, value: u64) {
        self.seen64 = Ghost(self.seen64@.push(RegOp64::Write { offset, value }));
    }
}

} // verus!
