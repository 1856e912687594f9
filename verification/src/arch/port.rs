//! The I/O port space, as a trait.
//!
//! The devices programmed through this space are configured by writing bytes to
//! fixed ports in a fixed order, and every byte means something different depending
//! on where it falls in the sequence. Behind a trait the sequence is data: what a
//! driver does is what the log of its accesses says.
use vstd::prelude::*;

verus! {

/// One access to the port space.
#[derive(Clone, Copy, Debug, PartialEq, Eq, Structural)]
#[allow(inconsistent_fields)]
pub enum PortOp {
    /// A byte was written.
    Write {
        /// Where to.
        port: u16,
        /// Which byte.
        value: u8,
    },
    /// A byte was read.
    Read {
        /// Where from.
        port: u16,
        /// Which byte.
        value: u8,
    },
    /// A bus cycle was spent.
    Wait,
}

/// Access to the I/O port space.
///
/// An implementation directs every access to the real port space, or to a faithful
/// model of it, exactly once and in order.
pub trait PortIo {
    /// The accesses made so far. It is part of no program: an implementation
    /// that is itself not verified leaves it as it is. One that is verified gives
    /// its own, as [`EmptyBus`] does: nothing can be added to this one, so it does
    /// not meet what the methods below promise.
    open spec fn log(&self) -> Seq<PortOp> {
        Seq::empty()
    }

    /// Write one byte to a port.
    fn write(&mut self, port: u16, value: u8)
        ensures
            final(self).log() == old(self).log().push(PortOp::Write { port, value }),
    ;

    /// Read one byte from a port.
    fn read(&mut self, port: u16) -> (value: u8)
        ensures
            final(self).log() == old(self).log().push(PortOp::Read { port, value }),
    ;

    /// Spend a bus cycle, for chips that need settling time and offer no status
    /// bit to poll.
    fn wait(&mut self)
        ensures
            final(self).log() == old(self).log().push(PortOp::Wait),
    ;
}

/// The unused port that is written to spend a bus cycle.
pub const WAIT_PORT: u16 = 0x80;

/// A port space with nothing in it: every read finds the lines high.
pub struct EmptyBus {
    /// The accesses made so far.
    pub seen: Ghost<Seq<PortOp>>,
}

impl EmptyBus {
    /// An empty bus that has not been accessed.
    pub fn new() -> (bus: EmptyBus)
        ensures
            bus.log() == Seq::<PortOp>::empty(),
    {
        EmptyBus { seen: Ghost(Seq::empty()) }
    }
}

impl PortIo for EmptyBus {
    open spec fn log(&self) -> Seq<PortOp> {
        self.seen@
    }

    fn write(&mut self, port: u16, value: u8) {
        self.seen = Ghost(self.seen@.push(PortOp::Write { port, value }));
    }

    fn read(&mut self, port: u16) -> (value: u8)
        ensures
            value == 0xFF,
    {
        let value: u8 = 0xFF;
        self.seen = Ghost(self.seen@.push(PortOp::Read { port, value }));
        value
    }

    fn wait(&mut self) {
        self.seen = Ghost(self.seen@.push(PortOp::Wait));
    }
}

} // verus!
